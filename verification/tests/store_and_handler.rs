use shopbot::codec::{decode, encode};
use shopbot::handler::{handle, help_text, Command};
use shopbot::registry::Registry;

#[test]
fn round_trip_keeps_every_list() {
    let mut reg = Registry::new();
    reg.add(1, "apples, bread");
    reg.add(-42, "soap");
    reg.add(7, "   ");
    let doc = encode(&reg);
    let back = decode(&doc);
    assert_eq!(back.list(1), "\n0\t\tapples\n1\t\tbread");
    assert_eq!(back.list(-42), "\n0\t\tsoap");
    assert!(back.has_list(7));
    assert_eq!(back.list(7), "");
    assert!(!back.has_list(2));
}

#[test]
fn saving_after_loading_reproduces_the_document() {
    let mut reg = Registry::new();
    reg.add(5, "milk,eggs");
    reg.add(6, "tea");
    reg.remove(6, "0");
    let doc = encode(&reg);
    let doc_again = encode(&decode(&doc));
    assert_eq!(doc, doc_again);
}

#[test]
fn round_trip_of_the_empty_registry() {
    let reg = Registry::new();
    let doc = encode(&reg);
    let back = decode(&doc);
    assert!(!back.has_list(0));
    assert_eq!(encode(&back), doc);
}

#[test]
fn items_with_newlines_and_digits_survive_the_round_trip() {
    let mut reg = Registry::new();
    reg.add(1, "12 eggs");
    reg.add(1, "a\nb");
    let doc = encode(&reg);
    let back = decode(&doc);
    assert_eq!(back.list(1), reg.list(1));
}

#[test]
fn corrupt_document_yields_the_empty_registry() {
    let back = decode("this is not a document");
    assert!(!back.has_list(1));
    let back2 = decode("");
    assert!(!back2.has_list(1));
    let back3 = decode("2\n");
    assert!(!back3.has_list(1));
}

#[test]
fn document_with_trailing_garbage_is_corrupt() {
    let mut reg = Registry::new();
    reg.add(1, "x");
    let mut doc = encode(&reg);
    doc.push_str("junk");
    let back = decode(&doc);
    assert!(!back.has_list(1));
}

#[test]
fn document_with_a_duplicate_conversation_is_corrupt() {
    // two entries for conversation 1, one item each
    let doc = "2\n1\n1\n1\nx\n1\n1\n1\ny\n";
    let back = decode(doc);
    assert!(!back.has_list(1));
}

#[test]
fn help_lists_the_commands() {
    let text = help_text();
    assert!(text.contains("/help"));
    assert!(text.contains("/add"));
    assert!(text.contains("/remove"));
    assert!(text.contains("/list"));
}

#[test]
fn handler_dispatches_and_reports_persistence() {
    let mut reg = Registry::new();
    let r = handle(&mut reg, 1, Command::Help);
    assert_eq!(r.text, help_text());
    assert!(!r.persist);
    let r = handle(&mut reg, 1, Command::Add(String::from("jam")));
    assert_eq!(r.text, "Successfully added item(jam) to shopping list.\n");
    assert!(r.persist);
    let r = handle(&mut reg, 1, Command::List);
    assert_eq!(r.text, "\n0\t\tjam");
    assert!(!r.persist);
    let r = handle(&mut reg, 1, Command::Add(String::from("jam")));
    assert!(!r.persist);
    let r = handle(&mut reg, 1, Command::Remove(String::from("0")));
    assert_eq!(r.text, "Successfully removed item from list.\n");
    assert!(r.persist);
    let r = handle(&mut reg, 1, Command::Remove(String::from("0")));
    assert_eq!(r.text, "No item at that index.\n");
    assert!(!r.persist);
}
