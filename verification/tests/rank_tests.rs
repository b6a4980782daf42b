use std::cmp::Ordering;

use sirula::config::Config;
use sirula::entry::Entry;
use sirula::history::{History, HistoryData};
use sirula::locale::string_collate;

fn entry(name: &str, score: i64, usage_count: u32, last_used: u64) -> Entry {
    let h = History::new();
    let c = Config::default_config();
    let mut e = Entry::from_string(&h, &c, name.as_bytes().to_vec());
    e.score = score;
    e.history = HistoryData { last_used, usage_count };
    e
}

#[test]
fn more_recent_entry_ranks_first_on_equal_score_and_count() {
    let older = entry("a", 50, 3, 100);
    let newer = entry("b", 50, 3, 200);
    assert_eq!(newer.cmp_rank(&older), Ordering::Less);
    assert_eq!(older.cmp_rank(&newer), Ordering::Greater);
}

#[test]
fn higher_score_ranks_first() {
    let low = entry("a", 10, 99, 99999);
    let high = entry("b", 11, 0, 0);
    assert_eq!(high.cmp_rank(&low), Ordering::Less);
}

#[test]
fn higher_usage_breaks_score_ties() {
    let rare = entry("a", 10, 1, 99999);
    let frequent = entry("b", 10, 2, 0);
    assert_eq!(frequent.cmp_rank(&rare), Ordering::Less);
}

#[test]
fn collation_breaks_remaining_ties() {
    let a = entry("alpha", 10, 1, 5);
    let b = entry("beta", 10, 1, 5);
    assert_eq!(a.cmp_rank(&b), Ordering::Less);
    assert_eq!(b.cmp_rank(&a), Ordering::Greater);
    let a2 = entry("alpha", 10, 1, 5);
    assert_eq!(a.cmp_rank(&a2), Ordering::Equal);
}

#[test]
fn comparator_is_deterministic() {
    let a = entry("x", 7, 2, 30);
    let b = entry("y", 7, 2, 40);
    let first = a.cmp_rank(&b);
    for _ in 0..3 {
        assert_eq!(a.cmp_rank(&b), first);
    }
}

#[test]
fn comparator_is_transitive_on_a_sample() {
    let a = entry("m", 30, 0, 0);
    let b = entry("n", 20, 5, 0);
    let c = entry("o", 20, 5, 10);
    assert_eq!(a.cmp_rank(&b), Ordering::Less);
    assert_eq!(c.cmp_rank(&b), Ordering::Less);
    assert_eq!(a.cmp_rank(&c), Ordering::Less);
}

#[test]
fn byte_collation_orders_prefixes_first() {
    assert_eq!(string_collate(b"ab", b"abc"), Ordering::Less);
    assert_eq!(string_collate(b"abc", b"ab"), Ordering::Greater);
    assert_eq!(string_collate(b"abc", b"abc"), Ordering::Equal);
    assert_eq!(string_collate(b"", b""), Ordering::Equal);
    assert_eq!(string_collate(b"abd", b"abc"), Ordering::Greater);
}
