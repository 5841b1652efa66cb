//! A single-user task-list manager: titled items with a completion flag,
//! held in an ordered list keyed by a monotonically increasing identifier,
//! with a verified text serialization of the whole list.
//!
//! Design choices, applied consistently throughout:
//! - items are addressed by their stable `id`, never by position;
//! - every caller-triggerable failure is a returned `TodoError`, never a panic;
//! - on save, a comma inside a title is replaced by a space (the lossy
//!   delimiter policy), so a record line always has exactly three fields;
//! - on load, malformed input fails fast with the first error found.

pub mod error;
pub mod item;
pub mod list;
pub mod persist;
pub mod text;

pub use error::FormatErrorKind;
pub use error::IoErrorKind;
pub use error::TodoError;
pub use item::ItemModel;
pub use item::TodoItem;
pub use list::TodoList;
