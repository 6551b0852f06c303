use modelflat_bot::history::History;

const SECOND: u64 = 1_000_000_000;
const MS: u64 = 1_000_000;

#[test]
fn test_missing_item() {
    let channel = "test".to_string();
    let mut history = History::new(vec![channel.clone()], SECOND);

    match history.contains(&channel, "message", 0) {
        Some(0) => assert!(true),
        Some(_) => assert!(false, "message is found, but was never inserted"),
        None => assert!(false, "channel was lost"),
    }
}

#[test]
fn test_item_can_be_found() {
    let channel = "test".to_string();
    let mut history = History::new(vec![channel.clone()], SECOND);

    history.push(&channel, "message".to_string(), 0);

    match history.contains(&channel, "message", 1) {
        Some(0) => assert!(false, "message was inserted, but cannot be found"),
        Some(_) => assert!(true),
        None => assert!(false, "channel was lost"),
    }
}

#[test]
fn test_number_of_times_item_was_found_is_tracked() {
    let channel = "test".to_string();
    let mut history = History::new(vec![channel.clone()], SECOND);

    history.push(&channel, "message".to_string(), 0);

    match history.contains(&channel, "message", 1) {
        Some(1) => assert!(true),
        Some(n) => assert!(
            false,
            "item was searched for for the first time, \
                    but history says it was found {} times",
            n
        ),
        None => assert!(false, "message was lost in history"),
    }

    match history.contains(&channel, "message", 2) {
        Some(2) => assert!(true),
        Some(n) => assert!(
            false,
            "item was searched for for the second time, \
                    but history says it was found {} times",
            n
        ),
        None => assert!(false, "message was lost in history"),
    }
}

#[test]
fn test_items_expire_according_to_ttl() {
    let channel = "test".to_string();
    let mut history = History::new(vec![channel.clone()], 10 * MS);

    history.push(&channel, "message".to_string(), 0);

    match history.contains(&channel, "message", 10 * MS + 1) {
        Some(0) => assert!(true),
        Some(_) => assert!(false, "item should have already expired"),
        None => assert!(true),
    }
}

#[test]
fn an_item_is_found_up_to_the_end_of_its_window() {
    let mut history = History::new(vec!["ch".to_string()], 100);
    history.push("ch", "text".to_string(), 1000);
    assert_eq!(history.contains("ch", "text", 1000), Some(1));
    assert_eq!(history.contains("ch", "text", 1099), Some(2));
    assert_eq!(history.contains("ch", "text", 1100), Some(3));
    assert_eq!(history.contains("ch", "text", 1101), Some(0));
    assert_eq!(history.contains("ch", "text", 1050), Some(0));
}

#[test]
fn the_searches_count_up() {
    let mut history = History::new(vec!["ch".to_string()], 1000);
    history.push("ch", "text".to_string(), 0);
    for m in 1..=50usize {
        assert_eq!(history.contains("ch", "text", m as u64), Some(m));
    }
    assert_eq!(history.contains("ch", "other", 60), Some(0));
}

#[test]
fn only_the_front_expires() {
    let mut history = History::new(vec!["ch".to_string()], 10);
    history.push("ch", "old".to_string(), 0);
    history.push("ch", "new".to_string(), 8);
    assert_eq!(history.contains("ch", "new", 15), Some(1));
    assert_eq!(history.contains("ch", "old", 15), Some(0));
    assert_eq!(history.contains("ch", "new", 18), Some(2));
    assert_eq!(history.contains("ch", "new", 19), Some(0));
}

#[test]
fn an_unknown_channel_has_no_history() {
    let mut history = History::new(vec!["a".to_string(), "b".to_string()], 10);
    history.push("c", "text".to_string(), 0);
    assert_eq!(history.contains("c", "text", 0), None);
    history.push("a", "text".to_string(), 0);
    assert_eq!(history.contains("b", "text", 0), Some(0));
    assert_eq!(history.contains("a", "text", 0), Some(1));
}
