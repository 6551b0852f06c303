use modelflat_bot::cooldown::{CooldownData, CooldownState, CooldownTracker};

const MS: u64 = 1_000_000;

fn tracker_with(channel: &str, interval: u64, now: u64) -> CooldownTracker {
    CooldownTracker::new(&vec![(channel.to_string(), interval)], now)
}

#[test]
fn test_cooldown_is_tracked() {
    let channel = "1";
    let mut tracker = tracker_with(channel, 10 * MS, 0);

    match tracker.access(channel, 0) {
        Some(CooldownState::Ready) => assert!(true),
        Some(CooldownState::NotReady(_)) => assert!(false, "untouched channel should not be on cooldown"),
        None => assert!(false, "channel was not added to tracker"),
    }

    match tracker.access(channel, 5 * MS) {
        Some(CooldownState::Ready) => assert!(false, "cooldown shouldn't have passed yet"),
        Some(CooldownState::NotReady(duration)) => assert!(
            duration <= 5 * MS,
            "at least 5 ms should have already passed"
        ),
        None => assert!(false, "channel was not added to tracker"),
    }

    match tracker.access(channel, 10 * MS) {
        Some(CooldownState::Ready) => assert!(true),
        Some(CooldownState::NotReady(_)) => assert!(false, "cooldown should have already passed"),
        None => assert!(false, "channel was not added to tracker"),
    }
}

#[test]
fn test_cooldown_can_be_updated() {
    let channel = "1";
    let mut tracker = tracker_with(channel, 10 * MS, 0);

    assert_eq!(tracker.access(channel, 0), Some(CooldownState::Ready));
    assert_eq!(tracker.access(channel, 5 * MS), Some(CooldownState::NotReady(5 * MS)));
    assert_eq!(tracker.access(channel, 10 * MS), Some(CooldownState::Ready));

    tracker.update(channel, 20 * MS);

    match tracker.access(channel, 25 * MS) {
        Some(CooldownState::Ready) => assert!(
            false,
            "readiness of channel should be affected immediately after update"
        ),
        Some(CooldownState::NotReady(left)) => assert_eq!(left, 5 * MS),
        None => assert!(false, "channel was lost"),
    }

    match tracker.access(channel, 30 * MS) {
        Some(CooldownState::Ready) => assert!(true),
        Some(CooldownState::NotReady(_)) => assert!(false, "channel should be ready by this time"),
        None => assert!(false, "channel was lost"),
    }
}

#[test]
fn an_entry_starts_ready_only_if_it_is_reset() {
    let ready = CooldownData::new(10, true, 3);
    assert_eq!(ready.cooldown(3), CooldownState::Ready);
    assert!(!ready.is_cooldown(3));
    let waiting = CooldownData::new(10, false, 3);
    assert_eq!(waiting.cooldown(3), CooldownState::NotReady(10));
    assert_eq!(waiting.cooldown(12), CooldownState::NotReady(1));
    assert_eq!(waiting.cooldown(13), CooldownState::Ready);
    assert!(waiting.is_cooldown(12));
}

#[test]
fn a_ready_access_starts_the_wait_and_a_waiting_one_changes_nothing() {
    let mut data = CooldownData::new(100, true, 1000);
    assert_eq!(data.try_reset(1000), CooldownState::Ready);
    for later in [1000u64, 1001, 1050, 1099] {
        match data.try_reset(later) {
            CooldownState::NotReady(left) => {
                assert_eq!(left, 1100 - later);
                assert!(left > 0 && left <= 100);
            }
            CooldownState::Ready => panic!("no second access may be ready within the interval"),
        }
    }
    assert_eq!(data.try_reset(1100), CooldownState::Ready);
    assert_eq!(data.try_reset(1100), CooldownState::NotReady(100));
}

#[test]
fn the_remaining_time_is_capped() {
    let mut data = CooldownData::new(u64::MAX, false, u64::MAX);
    assert_eq!(data.cooldown(0), CooldownState::NotReady(u64::MAX));
    data.set_interval(0);
    assert_eq!(data.cooldown(u64::MAX), CooldownState::Ready);
}

#[test]
fn peek_changes_nothing() {
    let mut tracker = tracker_with("ch", 10, 0);
    assert_eq!(tracker.peek("ch", 0), Some(CooldownState::Ready));
    assert_eq!(tracker.peek("ch", 0), Some(CooldownState::Ready));
    assert_eq!(tracker.access("ch", 0), Some(CooldownState::Ready));
    assert_eq!(tracker.peek("ch", 4), Some(CooldownState::NotReady(6)));
    assert_eq!(tracker.peek("other", 4), None);
    assert_eq!(tracker.access("other", 4), None);
}

#[test]
fn channels_come_and_go() {
    let mut tracker = CooldownTracker::new(&vec![], 0);
    assert!(!tracker.contains("ch"));
    tracker.update("ch", 5);
    assert!(!tracker.contains("ch"));
    tracker.add_channel("ch".to_string(), 10, false, 100);
    assert!(tracker.contains("ch"));
    assert_eq!(tracker.access("ch", 105), Some(CooldownState::NotReady(5)));
    assert!(tracker.access_raw("ch").is_some());
    assert!(tracker.access_raw("none").is_none());
    tracker.add_channel("ch".to_string(), 10, true, 105);
    assert_eq!(tracker.access("ch", 105), Some(CooldownState::Ready));
    tracker.remove_channel("ch");
    assert!(!tracker.contains("ch"));
    assert_eq!(tracker.access("ch", 200), None);
}

#[test]
fn the_last_of_two_entries_for_one_key_counts() {
    let init = vec![("ch".to_string(), 10), ("ch".to_string(), 50)];
    let mut tracker = CooldownTracker::new(&init, 0);
    assert_eq!(tracker.access("ch", 0), Some(CooldownState::Ready));
    assert_eq!(tracker.access("ch", 20), Some(CooldownState::NotReady(30)));
}

#[test]
fn keys_that_came_and_went_leave_nothing_behind() {
    let mut tracker = CooldownTracker::new(&vec![("stays".to_string(), 10)], 0);
    for round in 0..20_000u64 {
        let key = format!("key-{}", round);
        tracker.add_channel(key.clone(), 10, true, round);
        assert!(tracker.contains(&key));
        tracker.remove_channel(&key);
        assert!(!tracker.contains(&key));
    }
    assert!(!tracker.contains("never there"));
    assert_eq!(tracker.peek("never there", 0), None);
    assert_eq!(tracker.access("never there", 0), None);
    assert!(tracker.access_raw("never there").is_none());
    tracker.update("never there", 5);
    tracker.remove_channel("never there");
    assert_eq!(tracker.access("stays", 20_000), Some(CooldownState::Ready));
    assert_eq!(tracker.access("stays", 20_004), Some(CooldownState::NotReady(6)));
}

#[test]
fn many_keys_at_once() {
    let mut tracker = CooldownTracker::new(&vec![], 0);
    for k in 0..2_000u64 {
        tracker.add_channel(format!("k{}", k), k, false, 0);
    }
    for k in (0..2_000u64).step_by(2) {
        tracker.remove_channel(&format!("k{}", k));
    }
    for k in 0..2_000u64 {
        assert_eq!(tracker.contains(&format!("k{}", k)), k % 2 == 1);
    }
    assert_eq!(tracker.peek("k7", 3), Some(CooldownState::NotReady(4)));
}
