use todo_app::FormatErrorKind;
use todo_app::IoErrorKind;
use todo_app::TodoError;
use todo_app::TodoList;

#[test]
fn save_then_load_matches_the_documented_example() {
    let mut list = TodoList::new();
    let id1 = list.add_item("Buy milk").unwrap();
    let id2 = list.add_item("Write report").unwrap();
    assert_eq!(id1, 1);
    assert_eq!(id2, 2);
    assert!(list.mark_as_completed(2));

    let text = list.save_to_string();
    assert_eq!(text, "id,completed,title\n1,false,Buy milk\n2,true,Write report\n");

    let loaded = TodoList::load_from_string(&text).unwrap();
    assert_eq!(loaded.items.len(), 2);
    assert_eq!(loaded.next_id, 3);
    let second = loaded.get_item(2).unwrap();
    assert!(second.completed);
    assert_eq!(second.title, "Write report");
    let first = loaded.get_item(1).unwrap();
    assert!(!first.completed);
    assert_eq!(first.title, "Buy milk");
}

#[test]
fn empty_list_round_trips() {
    let list = TodoList::new();
    let text = list.save_to_string();
    assert_eq!(text, "id,completed,title\n");
    let loaded = TodoList::load_from_string(&text).unwrap();
    assert!(loaded.items.is_empty());
    assert_eq!(loaded.next_id, 1);
}

#[test]
fn round_trip_keeps_titles_flags_and_order() {
    let mut list = TodoList::new();
    list.add_item("first task").unwrap();
    list.add_item("  spaced  ").unwrap();
    list.add_item("third").unwrap();
    assert!(list.mark_as_completed(2));
    assert!(list.update_item_title(3, "  kept untrimmed  "));

    let loaded = TodoList::load_from_string(&list.save_to_string()).unwrap();
    assert_eq!(loaded.items.len(), 3);
    for (a, b) in list.items.iter().zip(loaded.items.iter()) {
        assert_eq!(a.id, b.id);
        assert_eq!(a.title, b.title);
        assert_eq!(a.completed, b.completed);
    }
    assert_eq!(loaded.next_id, 4);
}

#[test]
fn commas_in_titles_are_written_as_spaces() {
    let mut list = TodoList::new();
    list.add_item("bread, eggs, milk").unwrap();
    let text = list.save_to_string();
    assert_eq!(text, "id,completed,title\n1,false,bread  eggs  milk\n");
    let loaded = TodoList::load_from_string(&text).unwrap();
    assert_eq!(loaded.items[0].title, "bread  eggs  milk");
}

#[test]
fn load_of_a_missing_file_reports_not_found() {
    let result = TodoList::load_from_read(Err(IoErrorKind::NotFound));
    assert!(result.is_err(), "Harus mengembalikan error untuk file yang tidak ada");
    assert_eq!(result.unwrap_err(), TodoError::IoError(IoErrorKind::NotFound));
}

#[test]
fn load_from_read_parses_text_that_was_read() {
    let loaded = TodoList::load_from_read(Ok(String::from("id,completed,title\n4,true,Done\n")));
    let list = loaded.unwrap();
    assert_eq!(list.items.len(), 1);
    assert_eq!(list.items[0].id, 4);
    assert!(list.items[0].completed);
    assert_eq!(list.next_id, 5);
}

#[test]
fn load_rejects_a_wrong_header() {
    let r = TodoList::load_from_string("bukan format csv yang valid\n1,false,x\n");
    assert_eq!(
        r.unwrap_err(),
        TodoError::FormatError(FormatErrorKind::BadHeader(String::from(
            "bukan format csv yang valid"
        )))
    );

    let r = TodoList::load_from_string("");
    assert_eq!(
        r.unwrap_err(),
        TodoError::FormatError(FormatErrorKind::BadHeader(String::from("")))
    );
}

#[test]
fn load_tolerates_whitespace_around_the_header() {
    let loaded = TodoList::load_from_string("  id,completed,title \r\n1,false,ok\n").unwrap();
    assert_eq!(loaded.items.len(), 1);
    assert_eq!(loaded.items[0].title, "ok");
}

#[test]
fn load_rejects_a_row_without_three_fields() {
    let r = TodoList::load_from_string("id,completed,title\n1,false\n");
    assert_eq!(r.unwrap_err(), TodoError::FormatError(FormatErrorKind::BadRow(2)));

    let r = TodoList::load_from_string("id,completed,title\n1,false,a\njunk\n");
    assert_eq!(r.unwrap_err(), TodoError::FormatError(FormatErrorKind::BadRow(3)));
}

#[test]
fn load_rejects_bad_ids() {
    for text in [
        "id,completed,title\nx,false,a\n",
        "id,completed,title\n,false,a\n",
        "id,completed,title\n-1,false,a\n",
        "id,completed,title\n1.5,false,a\n",
        "id,completed,title\n4294967295,false,a\n",
        "id,completed,title\n99999999999999999999,false,a\n",
    ] {
        let r = TodoList::load_from_string(text);
        assert_eq!(r.unwrap_err(), TodoError::FormatError(FormatErrorKind::BadId(2)));
    }
}

#[test]
fn load_accepts_the_largest_usable_id() {
    let loaded = TodoList::load_from_string("id,completed,title\n4294967294,false,big\n").unwrap();
    assert_eq!(loaded.items[0].id, 4294967294);
    assert_eq!(loaded.next_id, 4294967295);
}

#[test]
fn load_rejects_a_repeated_id() {
    let r = TodoList::load_from_string("id,completed,title\n1,false,a\n1,true,b\n");
    assert_eq!(r.unwrap_err(), TodoError::FormatError(FormatErrorKind::BadId(3)));
}

#[test]
fn load_rejects_a_bad_completed_flag() {
    for text in [
        "id,completed,title\n1,maybe,a\n",
        "id,completed,title\n1,True,a\n",
        "id,completed,title\n1,,a\n",
    ] {
        let r = TodoList::load_from_string(text);
        assert_eq!(r.unwrap_err(), TodoError::FormatError(FormatErrorKind::BadFlag(2)));
    }
}

#[test]
fn load_rejects_a_blank_title_row() {
    let r = TodoList::load_from_string("id,completed,title\n1,false,\n");
    assert_eq!(r.unwrap_err(), TodoError::ValidationError);
    let r = TodoList::load_from_string("id,completed,title\n1,false,   \n");
    assert_eq!(r.unwrap_err(), TodoError::ValidationError);
}

#[test]
fn load_skips_empty_lines_and_recomputes_the_counter() {
    let text = "id,completed,title\n\n5,true,five\n\n3,false,three\n\n";
    let loaded = TodoList::load_from_string(text).unwrap();
    assert_eq!(loaded.items.len(), 2);
    assert_eq!(loaded.items[0].id, 5);
    assert_eq!(loaded.items[1].id, 3);
    assert_eq!(loaded.next_id, 6);
}

#[test]
fn load_keeps_title_whitespace_and_inner_fields() {
    let loaded = TodoList::load_from_string("id,completed,title\n7,false,  padded title \n")
        .unwrap();
    assert_eq!(loaded.items[0].title, "  padded title ");
    assert_eq!(loaded.next_id, 8);
}
