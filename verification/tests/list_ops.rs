use shopbot::registry::Registry;

#[test]
fn add_keeps_input_order() {
    let mut reg = Registry::new();
    reg.add(1, "apples");
    reg.add(1, "bread");
    reg.add(1, "cheese");
    assert_eq!(reg.list(1), "\n0\t\tapples\n1\t\tbread\n2\t\tcheese");
}

#[test]
fn add_many_then_list_order() {
    let mut reg = Registry::new();
    let (resp, changed) = reg.add(7, "milk,eggs");
    assert!(changed);
    assert_eq!(
        resp,
        "Successfully added item(milk) to shopping list.\nSuccessfully added item(eggs) to shopping list.\n"
    );
    assert_eq!(reg.list(7), "\n0\t\tmilk\n1\t\teggs");
}

#[test]
fn add_same_item_twice_reports_already_present() {
    let mut reg = Registry::new();
    let (first, changed_first) = reg.add(1, "soap");
    assert_eq!(first, "Successfully added item(soap) to shopping list.\n");
    assert!(changed_first);
    let (second, changed_second) = reg.add(1, "soap");
    assert_eq!(second, "You already have the item on the list.\n");
    assert!(!changed_second);
    assert_eq!(reg.list(1), "\n0\t\tsoap");
}

#[test]
fn add_splits_on_commas_and_trims() {
    let mut reg = Registry::new();
    reg.add(1, "a, b ,  c");
    assert_eq!(reg.list(1), "\n0\t\ta\n1\t\tb\n2\t\tc");
}

#[test]
fn add_drops_empty_pieces() {
    let mut reg = Registry::new();
    let (resp, changed) = reg.add(1, "a,, ,b");
    assert!(changed);
    assert_eq!(
        resp,
        "Successfully added item(a) to shopping list.\nSuccessfully added item(b) to shopping list.\n"
    );
    assert_eq!(reg.list(1), "\n0\t\ta\n1\t\tb");
}

#[test]
fn add_of_only_whitespace_still_creates_the_list() {
    let mut reg = Registry::new();
    assert!(!reg.has_list(5));
    let (resp, changed) = reg.add(5, "   ");
    assert_eq!(resp, "");
    assert!(changed);
    assert!(reg.has_list(5));
    assert_eq!(reg.list(5), "");
}

#[test]
fn list_without_a_list_says_not_subscribed() {
    let reg = Registry::new();
    assert_eq!(reg.list(42), "Not subbed to anything...");
}

#[test]
fn remove_all_empties_the_list() {
    let mut reg = Registry::new();
    reg.add(1, "x,y");
    let (resp, changed) = reg.remove(1, "all");
    assert_eq!(resp, "Removed all items from the shopping list");
    assert!(changed);
    assert_eq!(reg.list(1), "");
    assert!(reg.has_list(1));
}

#[test]
fn remove_all_without_a_list_does_not_error() {
    let mut reg = Registry::new();
    let (resp, changed) = reg.remove(9, "all");
    assert_eq!(resp, "Removed all items from the shopping list");
    assert!(!changed);
    assert!(!reg.has_list(9));
}

#[test]
fn remove_all_on_empty_list_changes_nothing() {
    let mut reg = Registry::new();
    reg.add(1, "x");
    reg.remove(1, "all");
    let (_, changed_again) = reg.remove(1, "all");
    assert!(!changed_again);
}

#[test]
fn remove_first_index_leaves_the_rest() {
    let mut reg = Registry::new();
    reg.add(1, "x,y");
    let (resp, changed) = reg.remove(1, "0");
    assert_eq!(resp, "Successfully removed item from list.\n");
    assert!(changed);
    assert_eq!(reg.list(1), "\n0\t\ty");
}

#[test]
fn remove_zero_twice_removes_sequentially() {
    let mut reg = Registry::new();
    reg.add(1, "x,y");
    let (resp, changed) = reg.remove(1, "0 0");
    assert_eq!(
        resp,
        "Successfully removed item from list.\nSuccessfully removed item from list.\n"
    );
    assert!(changed);
    assert_eq!(reg.list(1), "");
}

#[test]
fn remove_unparseable_token_mutates_nothing() {
    let mut reg = Registry::new();
    reg.add(1, "x,y");
    let (resp, changed) = reg.remove(1, "abc");
    assert_eq!(resp, "");
    assert!(!changed);
    assert_eq!(reg.list(1), "\n0\t\tx\n1\t\ty");
}

#[test]
fn remove_stops_at_first_bad_token() {
    let mut reg = Registry::new();
    reg.add(1, "x,y,z");
    let (resp, changed) = reg.remove(1, "0 nope 1");
    assert_eq!(resp, "Successfully removed item from list.\n");
    assert!(changed);
    assert_eq!(reg.list(1), "\n0\t\ty\n1\t\tz");
}

#[test]
fn remove_huge_number_token_fails_to_parse() {
    let mut reg = Registry::new();
    reg.add(1, "x");
    let (resp, changed) = reg.remove(1, "99999999999999999999999999999999");
    assert_eq!(resp, "");
    assert!(!changed);
    assert_eq!(reg.list(1), "\n0\t\tx");
}

#[test]
fn remove_out_of_range_index_is_reported_and_skipped() {
    let mut reg = Registry::new();
    reg.add(1, "x,y");
    let (resp, changed) = reg.remove(1, "5 0");
    assert_eq!(
        resp,
        "No item at that index.\nSuccessfully removed item from list.\n"
    );
    assert!(changed);
    assert_eq!(reg.list(1), "\n0\t\ty");
}

#[test]
fn remove_without_a_list_says_not_subscribed() {
    let mut reg = Registry::new();
    let (resp, changed) = reg.remove(3, "0");
    assert_eq!(resp, "Not subbed to anything...");
    assert!(!changed);
}

#[test]
fn two_conversations_do_not_disturb_each_other() {
    let mut reg = Registry::new();
    reg.add(1, "apples");
    reg.add(2, "pears");
    reg.add(1, "bread");
    reg.add(2, "plums");
    assert_eq!(reg.list(1), "\n0\t\tapples\n1\t\tbread");
    assert_eq!(reg.list(2), "\n0\t\tpears\n1\t\tplums");
}

#[test]
fn listing_indices_follow_removals() {
    let mut reg = Registry::new();
    reg.add(1, "a,b,c,d,e,f,g,h,i,j,k");
    reg.remove(1, "10");
    assert_eq!(
        reg.list(1),
        "\n0\t\ta\n1\t\tb\n2\t\tc\n3\t\td\n4\t\te\n5\t\tf\n6\t\tg\n7\t\th\n8\t\ti\n9\t\tj"
    );
}
