use poker_draw::logger::TableLog;

#[test]
fn logs_public_and_private_actions() {
    let mut log = TableLog::new();
    log.start_hand();
    log.log_action("Alice", "bets 10");
    log.log_private("Alice", "Ah Kd");
    assert_eq!(log.hands.len(), 1);
    assert_eq!(log.hands[0].events[0].player, "Alice");
    assert_eq!(log.hands[0].private[0].action, "Ah Kd");
}

#[test]
fn logging_without_a_hand_records_nothing() {
    let mut log = TableLog::new();
    log.log_action("Bob", "checked");
    log.log_private("Bob", "2c 3d");
    assert!(log.hands.is_empty());
    assert!(log.table_name.starts_with("table-"));
}

#[test]
fn entries_go_to_the_latest_hand() {
    let mut log = TableLog::new();
    log.start_hand();
    log.log_action("A", "one");
    log.start_hand();
    log.log_action("B", "two");
    assert_eq!(log.hands[0].events.len(), 1);
    assert_eq!(log.hands[1].events.len(), 1);
    assert_eq!(log.hands[1].events[0].action, "two");
    assert!(log.hands[1].private.is_empty());
}

#[test]
fn table_name_holds_the_opening_second() {
    let log = TableLog::started_at(1700000000);
    assert_eq!(log.table_name, "table-1700000000");
    assert!(log.hands.is_empty());
    assert_eq!(TableLog::started_at(0).table_name, "table-0");
}
