//! One task record: an identifier assigned by the owning list, a title,
//! and a completion flag.
//!
//! Invariant: a title constructed or updated through this interface always
//! keeps at least one non-whitespace character. Construction trims the
//! title; a later title update validates but deliberately does not trim.

use vstd::prelude::*;

use crate::error::TodoError;
use crate::text::has_visible;
use crate::text::has_visible_char;
use crate::text::spec_trim;
use crate::text::trim_str;
use vstd::string::StrSliceExecFns;

verus! {

/// The mathematical content of one item: exactly its three fields, with
/// the title as a sequence of characters.
pub struct ItemModel {
    pub id: u32,
    pub completed: bool,
    pub title: Seq<char>,
}

#[derive(Debug, Clone, PartialEq, Eq)]
pub struct TodoItem {
    pub id: u32,
    pub title: String,
    pub completed: bool,
}

/// The models of a sequence of items, in the same order.
pub open spec fn models_of(s: Seq<TodoItem>) -> Seq<ItemModel> {
    s.map_values(|t: TodoItem| t.model())
}

impl TodoItem {
    pub open spec fn model(&self) -> ItemModel {
        ItemModel { id: self.id, completed: self.completed, title: self.title@ }
    }

    /// The title invariant: some character of it is visible.
    pub open spec fn valid(&self) -> bool {
        has_visible_char(self.title@)
    }

    /// Builds an item with the given id, the trimmed title, and the flag
    /// cleared. Rejects a title that is empty or all whitespace once
    /// trimmed; no item is produced then.
    pub fn new(id: u32, title: &str) -> (r: Result<TodoItem, TodoError>)
        ensures
            match r {
                Ok(item) => {
                    &&& has_visible_char(title@)
                    &&& item.id == id
                    &&& item.completed == false
                    &&& item.title@ == spec_trim(title@)
                    &&& item.valid()
                },
                Err(e) => !has_visible_char(title@) && e == TodoError::ValidationError,
            },
    {
        proof {
            crate::text::lemma_trim_blank(title@);
        }
        let t = trim_str(title);
        if t.as_str().unicode_len() == 0 {
            Err(TodoError::ValidationError)
        } else {
            Ok(TodoItem { id, title: t, completed: false })
        }
    }

    /// Sets the flag. Reports whether it actually changed: true on the
    /// transition from open to completed, false when already completed.
    pub fn mark_complete(&mut self) -> (changed: bool)
        ensures
            final(self).completed == true,
            final(self).id == old(self).id,
            final(self).title == old(self).title,
            changed == !old(self).completed,
    {
        let prev = self.completed;
        self.completed = true;
        !prev
    }

    /// Replaces the title when the new one has a visible character, and
    /// reports whether the replacement was applied. Unlike construction
    /// this stores the new title as given, untrimmed.
    pub fn update_title(&mut self, new_title: &str) -> (updated: bool)
        ensures
            updated == has_visible_char(new_title@),
            updated ==> final(self).title@ == new_title@ && final(self).valid(),
            !updated ==> *final(self) == *old(self),
            final(self).id == old(self).id,
            final(self).completed == old(self).completed,
    {
        if has_visible(new_title) {
            self.title = new_title.to_owned();
            true
        } else {
            false
        }
    }

    /// The character of the title at a zero-based index, counted by
    /// character; `IndexOutOfRange` when the index reaches past the end.
    pub fn get_by_index(&self, index: usize) -> (r: Result<char, TodoError>)
        ensures
            match r {
                Ok(c) => index < self.title@.len() && c == self.title@[index as int],
                Err(e) => index >= self.title@.len() && e == TodoError::IndexOutOfRange,
            },
    {
        if index < self.title.as_str().unicode_len() {
            Ok(self.title.as_str().get_char(index))
        } else {
            Err(TodoError::IndexOutOfRange)
        }
    }
}

} // verus!
