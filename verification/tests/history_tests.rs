use sirula::history::{load_history, save_history, update_history, History, HistoryData};

const DAY: u64 = 86400;

#[test]
fn update_creates_a_record_with_one_use() {
    let mut h = History::new();
    update_history(&mut h, b"firefox.desktop", 1000);
    let d = h.get(b"firefox.desktop").unwrap();
    assert_eq!(d.last_used, 1000);
    assert_eq!(d.usage_count, 1);
    assert!(h.get(b"other").is_none());
}

#[test]
fn update_bumps_count_and_time() {
    let mut h = History::new();
    update_history(&mut h, b"app", 1000);
    update_history(&mut h, b"app", 2500);
    let d = h.get(b"app").unwrap();
    assert_eq!(d.last_used, 2500);
    assert_eq!(d.usage_count, 2);
}

#[test]
fn round_trip_after_update_shows_the_launch() {
    // load, update, save, load again: the count grew by exactly one and the
    // time is the update's timestamp.
    let mut h = load_history(b"4 7000 app.desktop\n", 9000, 0);
    assert_eq!(h.get(b"app.desktop").unwrap().usage_count, 4);
    update_history(&mut h, b"app.desktop", 8000);
    let bytes = save_history(&h);
    let h2 = load_history(bytes.as_slice(), 9500, 0);
    let d = h2.get(b"app.desktop").unwrap();
    assert_eq!(d.usage_count, 5);
    assert_eq!(d.last_used, 8000);
}

#[test]
fn saved_form_is_one_line_per_record() {
    let mut h = History::new();
    update_history(&mut h, b"some id", 1000);
    assert_eq!(save_history(&h), b"1 1000 some id\n".to_vec());
}

#[test]
fn load_parses_counts_and_times() {
    let h = load_history(b"3 500 app.desktop\n12 90000 other\n", 100000, 0);
    assert_eq!(h.len(), 2);
    let a = h.get(b"app.desktop").unwrap();
    assert_eq!((a.usage_count, a.last_used), (3, 500));
    let b = h.get(b"other").unwrap();
    assert_eq!((b.usage_count, b.last_used), (12, 90000));
}

#[test]
fn malformed_file_loads_as_empty() {
    assert_eq!(load_history(b"not a history file", 1000, 0).len(), 0);
    assert_eq!(load_history(b"x y z\n", 1000, 0).len(), 0);
    assert_eq!(load_history(b"1 2\n", 1000, 0).len(), 0);
    assert_eq!(load_history(b"99999999999999999999999999 1 a\n", 1000, 0).len(), 0);
}

#[test]
fn duplicate_ids_load_as_empty() {
    assert_eq!(load_history(b"1 5 a\n1 6 a\n", 1000, 0).len(), 0);
}

#[test]
fn pruning_drops_only_records_past_the_cutoff() {
    let now = 200 * DAY;
    let mut h = History::new();
    update_history(&mut h, b"one-day", now - DAY);
    update_history(&mut h, b"ten-days", now - 10 * DAY);
    update_history(&mut h, b"hundred-days", now - 100 * DAY);
    let bytes = save_history(&h);

    let pruned = load_history(bytes.as_slice(), now, 30);
    assert!(pruned.get(b"one-day").is_some());
    assert!(pruned.get(b"ten-days").is_some());
    assert!(pruned.get(b"hundred-days").is_none());
    assert_eq!(pruned.len(), 2);

    let unpruned = load_history(bytes.as_slice(), now, 0);
    assert_eq!(unpruned.len(), 3);
    assert_eq!(unpruned.get(b"hundred-days").unwrap().last_used, now - 100 * DAY);
}

#[test]
fn empty_file_loads_as_empty() {
    let h = load_history(b"", 1000, 0);
    assert_eq!(h.len(), 0);
    assert_eq!(save_history(&h), Vec::<u8>::new());
}

#[test]
fn counter_saturates_at_its_maximum() {
    let mut h = load_history(b"4294967295 10 maxed\n", 1000, 0);
    assert_eq!(h.get(b"maxed").unwrap().usage_count, u32::MAX);
    update_history(&mut h, b"maxed", 2000);
    let d = h.get(b"maxed").unwrap();
    assert_eq!(d.usage_count, u32::MAX);
    assert_eq!(d.last_used, 2000);
}

#[test]
fn default_history_data_is_zeroed() {
    let d = HistoryData::default();
    assert_eq!(d.last_used, 0);
    assert_eq!(d.usage_count, 0);
}
