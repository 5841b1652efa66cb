use todo_app::TodoError;
use todo_app::TodoList;

#[test]
fn lib_test_add_remove_items() {
    let mut list = TodoList::new();
    let id = list.add_item("Test").unwrap();
    assert!(!list.items.is_empty());
    list.remove_item(id);
    assert!(list.items.is_empty());
}

#[test]
fn test_toggle_complete() {
    let mut list = TodoList::new();
    let id = list.add_item("Test").unwrap();
    list.toggle_complete(id);
    assert!(list.items[0].completed);
    list.toggle_complete(id);
    assert!(!list.items[0].completed);
}

#[test]
fn test_todo_list_operations() {
    let mut list = TodoList::new();

    let id1 = list.add_item("Belajar").unwrap();
    let id2 = list.add_item("Makan").unwrap();

    assert!(list.get_item(id1).is_some(), "Item dengan id1 harus ada");
    assert!(list.get_item(id2).is_some(), "Item dengan id2 harus ada");
    assert!(list.get_item(999).is_none(), "Item dengan ID tidak ada harus mengembalikan None");

    assert!(list.mark_as_completed(id1), "Mark as completed harus berhasil");
    assert!(!list.mark_as_completed(999), "Mark as completed dengan ID tidak valid harus gagal");

    assert_eq!(list.get_active_items().len(), 1, "Harus ada 1 item aktif");
    assert_eq!(list.get_completed_items().len(), 1, "Harus ada 1 item selesai");

    assert!(list.remove_item(id1), "Hapus item harus berhasil");
    assert!(!list.remove_item(999), "Hapus item dengan ID tidak valid harus gagal");
    assert!(list.get_item(id1).is_none(), "Item yang dihapus tidak boleh ada");
}

#[test]
fn test_multiple_items() {
    let mut list = TodoList::new();
    list.add_item("Satu").unwrap();
    list.add_item("Dua").unwrap();
    list.add_item("Tiga").unwrap();

    assert_eq!(list.items.len(), 3);
    assert_eq!(list.items[0].title, "Satu");
    assert_eq!(list.items[1].title, "Dua");
    assert_eq!(list.items[2].title, "Tiga");
}

#[test]
fn test_remove_nonexistent() {
    let mut list = TodoList::new();
    list.add_item("Test").unwrap();
    let initial_len = list.items.len();

    list.remove_item(999);
    assert_eq!(list.items.len(), initial_len);
}

#[test]
fn test_mark_complete_invalid_index() {
    let mut list = TodoList::new();
    list.add_item("Test").unwrap();

    let result = list.mark_as_completed(999);
    assert!(!result, "Harus mengembalikan false untuk index tidak valid");
}

#[test]
fn todo_integration_test_test_add_remove_items() {
    let mut todo_list = TodoList::new();

    let id = todo_list.add_item("Belajar Rust").unwrap();
    assert_eq!(todo_list.items.len(), 1);
    assert_eq!(todo_list.items[0].title, "Belajar Rust");

    todo_list.remove_item(id);
    assert!(todo_list.items.is_empty());
}

#[test]
fn todo_integration_test_test_mark_complete() {
    let mut todo_list = TodoList::new();
    let id = todo_list.add_item("Task 1").unwrap();

    assert!(!todo_list.items[0].completed);

    todo_list.mark_as_completed(id);
    assert!(todo_list.items[0].completed);

    assert_ne!(todo_list.items[0].completed, false);
}

#[test]
fn todo_integration_test_test_with_result() -> Result<(), String> {
    let mut todo_list = TodoList::new();
    todo_list.add_item("Test Result").map_err(|_| String::from("Gagal menambahkan item"))?;

    if todo_list.items.is_empty() {
        return Err(String::from("Gagal menambahkan item"));
    }

    assert_eq!(todo_list.items[0].title, "Test Result");
    Ok(())
}

#[test]
fn add_issues_distinct_increasing_ids_from_one() {
    let mut list = TodoList::new();
    let mut ids: Vec<u32> = Vec::new();
    for k in 0..5 {
        let title = format!("task {}", k);
        ids.push(list.add_item(&title).unwrap());
    }
    assert_eq!(ids, vec![1, 2, 3, 4, 5]);
    for w in ids.windows(2) {
        assert!(w[0] < w[1]);
    }
    assert_eq!(list.next_id, 6);
}

#[test]
fn ids_stay_unique_after_removal() {
    let mut list = TodoList::new();
    let id1 = list.add_item("a").unwrap();
    let _id2 = list.add_item("b").unwrap();
    list.remove_item(id1);
    let id3 = list.add_item("c").unwrap();
    assert_eq!(id3, 3, "a removed id is never reissued");
    assert!(list.get_item(1).is_none());
}

#[test]
fn add_rejects_blank_title_and_leaves_list_alone() {
    let mut list = TodoList::new();
    assert_eq!(list.add_item("   "), Err(TodoError::ValidationError));
    assert!(list.items.is_empty());
    assert_eq!(list.next_id, 1);
}

#[test]
fn mark_completed_absent_id_mutates_nothing() {
    let mut list = TodoList::new();
    let id = list.add_item("Only one").unwrap();
    assert!(!list.mark_as_completed(999));
    assert_eq!(list.items.len(), 1);
    assert_eq!(list.items[0].id, id);
    assert_eq!(list.items[0].title, "Only one");
    assert!(!list.items[0].completed);
    assert_eq!(list.next_id, 2);
}

#[test]
fn remove_absent_id_leaves_single_item_intact() {
    let mut list = TodoList::new();
    let id = list.add_item("Survivor").unwrap();
    assert_eq!(id, 1);
    assert!(!list.remove_item(999));
    assert_eq!(list.items.len(), 1);
    assert_eq!(list.items[0].id, 1);
    assert_eq!(list.items[0].title, "Survivor");
    assert!(!list.items[0].completed);
}

#[test]
fn active_and_completed_partition_the_list() {
    let mut list = TodoList::new();
    for k in 0..6 {
        let title = format!("item {}", k);
        list.add_item(&title).unwrap();
    }
    assert!(list.mark_as_completed(2));
    assert!(list.mark_as_completed(5));
    let active = list.get_active_items();
    let completed = list.get_completed_items();
    assert_eq!(active.len() + completed.len(), list.items.len());
    assert_eq!(active.len(), 4);
    assert_eq!(completed.len(), 2);
    assert!(completed.iter().all(|t| t.completed));
    assert!(active.iter().all(|t| !t.completed));
    assert_eq!(active[0].id, 1);
    assert_eq!(completed[0].id, 2);
}

#[test]
fn update_item_title_by_id() {
    let mut list = TodoList::new();
    let id = list.add_item("Before").unwrap();
    assert!(list.update_item_title(id, "After"));
    assert_eq!(list.items[0].title, "After");
    assert!(!list.update_item_title(id, ""));
    assert_eq!(list.items[0].title, "After");
    assert!(!list.update_item_title(999, "Nope"));
    assert_eq!(list.items.len(), 1);
}

#[test]
fn get_item_mut_gives_a_live_view() {
    let mut list = TodoList::new();
    let id = list.add_item("Edit me").unwrap();
    {
        let item = list.get_item_mut(id).unwrap();
        item.mark_complete();
    }
    assert!(list.items[0].completed);
    assert!(list.get_item_mut(999).is_none());
}

#[test]
fn toggle_complete_absent_id_returns_false() {
    let mut list = TodoList::new();
    list.add_item("Task").unwrap();
    assert!(!list.toggle_complete(999));
    assert!(!list.items[0].completed);
}
