use todo_app::TodoError;
use todo_app::TodoItem;

#[test]
fn test_todo_item_creation() {
    let item = TodoItem::new(1, "Belajar Rust").unwrap();
    assert_eq!(item.title, "Belajar Rust");
    assert!(!item.completed);
}

#[test]
fn test_todo_creation() {
    let todo = TodoItem::new(1, "Belajar Rust").unwrap();
    assert_eq!(todo.id, 1);
    assert_eq!(todo.title, "Belajar Rust");
    assert_eq!(todo.completed, false);
}

#[test]
fn main_test_mark_complete() {
    let mut todo = TodoItem::new(1, "Belajar Rust").unwrap();
    assert!(!todo.completed, "Awalnya todo harus belum selesai");

    let changed = todo.mark_complete();
    assert!(todo.completed, "Setelah mark_complete, todo harus selesai");
    assert!(changed, "mark_complete harus mengembalikan true jika status berubah");

    let changed_again = todo.mark_complete();
    assert!(!changed_again, "mark_complete harus mengembalikan false jika status tidak berubah");
}

#[test]
fn test_update_title() {
    let mut todo = TodoItem::new(1, "Belajar").unwrap();
    let old_title = todo.title.clone();

    let updated = todo.update_title("Belajar Rust");
    assert!(updated, "Update title harus berhasil");
    assert_ne!(todo.title, old_title, "Judul harus berubah");
    assert_ne!(todo.title, "", "Judul tidak boleh kosong");
}

#[test]
fn main_test_with_result() -> Result<(), String> {
    let todo = TodoItem::new(1, "Test Result").unwrap();

    if todo.id != 1 {
        return Err(String::from("ID tidak sesuai"));
    }

    if todo.title != "Test Result" {
        return Err(String::from("Judul tidak sesuai"));
    }

    Ok(())
}

#[test]
fn test_error_handling() {
    let result: Result<(), &str> = Err("Terjadi error");

    let error_msg = result.unwrap_err();
    assert_eq!(error_msg, "Terjadi error");
}

#[test]
fn test_get_by_index() {
    let todo = TodoItem::new(1, "Rust").unwrap();
    assert_eq!(todo.get_by_index(0).unwrap(), 'R');
    assert_eq!(todo.get_by_index(1).unwrap(), 'u');
    assert_eq!(todo.get_by_index(2).unwrap(), 's');
    assert_eq!(todo.get_by_index(3).unwrap(), 't');
}

#[test]
fn get_by_index_out_of_range_is_reported() {
    let todo = TodoItem::new(1, "Rust").unwrap();
    assert_eq!(todo.get_by_index(4), Err(TodoError::IndexOutOfRange));
    assert_eq!(todo.get_by_index(10), Err(TodoError::IndexOutOfRange));
}

#[test]
fn get_by_index_counts_characters_not_bytes() {
    let todo = TodoItem::new(1, "héllo").unwrap();
    assert_eq!(todo.get_by_index(1).unwrap(), 'é');
    assert_eq!(todo.get_by_index(4).unwrap(), 'o');
    assert_eq!(todo.get_by_index(5), Err(TodoError::IndexOutOfRange));
}

#[test]
fn create_succeeds_on_any_visible_title_with_flag_cleared() {
    for title in ["x", "  padded  ", "a b", "task, with comma"] {
        let item = TodoItem::new(7, title).unwrap();
        assert_eq!(item.id, 7);
        assert!(!item.completed);
    }
}

#[test]
fn create_trims_surrounding_whitespace() {
    let item = TodoItem::new(1, "  Buy milk \t").unwrap();
    assert_eq!(item.title, "Buy milk");
}

#[test]
fn create_rejects_blank_titles() {
    for title in ["", " ", "   ", "\t", " \t \n ", "\r\n"] {
        assert_eq!(TodoItem::new(1, title), Err(TodoError::ValidationError));
    }
}

#[test]
fn update_title_rejects_blank_and_keeps_item() {
    let mut todo = TodoItem::new(1, "Keep me").unwrap();
    assert!(!todo.update_title(""));
    assert!(!todo.update_title("   "));
    assert_eq!(todo.title, "Keep me");
}

#[test]
fn update_title_stores_untrimmed() {
    let mut todo = TodoItem::new(1, "Old").unwrap();
    assert!(todo.update_title("  New title  "));
    assert_eq!(todo.title, "  New title  ");
}
