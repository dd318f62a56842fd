use statboard::input_fsm::Command;
use statboard::table::{StatsTable, StatsTableEntry};

#[test]
fn add_accumulates_instead_of_overwriting() {
    let mut tab = StatsTable::new();
    tab.execute_command(Command::Add(String::from("x"), 1, 2));
    tab.execute_command(Command::Add(String::from("x"), 3, 4));
    let entries = tab.entries();
    assert_eq!(entries.len(), 1);
    assert_eq!(entries[0].name().as_str(), "x");
    assert_eq!(entries[0].goals, 4);
    assert_eq!(entries[0].assists, 6);
}

#[test]
fn delete_of_unknown_name_changes_nothing() {
    let mut tab = StatsTable::new();
    tab.execute_command(Command::Add(String::from("a"), 1, 1));
    tab.execute_command(Command::Add(String::from("b"), 2, 2));
    tab.execute_command(Command::Delete(String::from("x")));
    let entries = tab.entries();
    assert_eq!(entries.len(), 2);
    assert_eq!(entries[0].name().as_str(), "a");
    assert_eq!(entries[1].name().as_str(), "b");
}

#[test]
fn delete_removes_exactly_the_named_entry() {
    let mut tab = StatsTable::new();
    tab.execute_command(Command::Add(String::from("a"), 1, 1));
    tab.execute_command(Command::Add(String::from("b"), 2, 2));
    tab.execute_command(Command::Add(String::from("c"), 3, 3));
    tab.execute_command(Command::Delete(String::from("b")));
    let entries = tab.entries();
    assert_eq!(entries.len(), 2);
    assert_eq!(entries[0].name().as_str(), "a");
    assert_eq!(entries[1].name().as_str(), "c");
}

#[test]
fn top_n_keeps_insertion_order_not_stats() {
    let mut tab = StatsTable::new();
    tab.execute_command(Command::Add(String::from("a"), 0, 0));
    tab.execute_command(Command::Add(String::from("b"), 9, 9));
    tab.execute_command(Command::Add(String::from("c"), 5, 5));
    let top = tab.top_n(2);
    assert_eq!(top.len(), 2);
    assert_eq!(top[0].name().as_str(), "a");
    assert_eq!(top[1].name().as_str(), "b");
    let all = tab.top_n(10);
    assert_eq!(all.len(), 3);
    assert_eq!(all[2].name().as_str(), "c");
}

#[test]
fn names_are_case_sensitive() {
    let mut tab = StatsTable::new();
    tab.execute_command(Command::Add(String::from("Ann"), 1, 0));
    tab.execute_command(Command::Add(String::from("ann"), 2, 0));
    assert_eq!(tab.entries().len(), 2);
}

#[test]
fn entry_from_rejects_empty_name() {
    assert!(StatsTableEntry::from("", 1, 2).is_none());
    let e = StatsTableEntry::from("bob", 1, 2).unwrap();
    assert_eq!(e.name().as_str(), "bob");
    assert_eq!(e.goals, 1);
    assert_eq!(e.assists, 2);
}

#[test]
fn entry_from_command_takes_only_add() {
    let e = StatsTableEntry::from_command(Command::Add(String::from("bob"), 3, 4)).unwrap();
    assert_eq!(e.name().as_str(), "bob");
    assert_eq!(e.goals, 3);
    assert_eq!(e.assists, 4);
    assert!(StatsTableEntry::from_command(Command::Delete(String::from("bob"))).is_none());
    assert!(StatsTableEntry::from_command(Command::Add(String::new(), 1, 2)).is_none());
}

#[test]
fn entry_parse_reads_three_tokens() {
    let e = StatsTableEntry::parse(String::from("bob 3 4")).unwrap();
    assert_eq!(e.name().as_str(), "bob");
    assert_eq!(e.goals, 3);
    assert_eq!(e.assists, 4);
    // extra tokens past the third are ignored
    let e2 = StatsTableEntry::parse(String::from("bob 3 4 junk")).unwrap();
    assert_eq!(e2.goals, 3);
    assert!(StatsTableEntry::parse(String::from("bob three 4")).is_none());
    assert!(StatsTableEntry::parse(String::from("bob 3")).is_none());
    assert!(StatsTableEntry::parse(String::from("")).is_none());
    assert!(StatsTableEntry::parse(String::from("bob 4294967296 1")).is_none());
}
