use sirula::fuzzy::{fold_byte, fuzzy_match, is_separator};

#[test]
fn query_fx_matches_firefox_with_f_and_x_offsets() {
    let r = fuzzy_match(b"Firefox", b"fx");
    let (score, idx) = r.expect("fx should match Firefox");
    assert!(score > 0);
    assert_eq!(idx, vec![0, 6]);
}

#[test]
fn query_fx_does_not_match_gimp() {
    assert!(fuzzy_match(b"GIMP", b"fx").is_none());
}

#[test]
fn query_fx_matches_firefox_developer_edition() {
    let (score, idx) = fuzzy_match(b"Firefox Developer Edition", b"fx").unwrap();
    assert!(score > 0);
    assert_eq!(idx, vec![0, 6]);
}

#[test]
fn exact_score_of_fx_against_firefox() {
    // 'f' at offset 0: 1 for the match + 1 for the word start (case differs);
    // 'x' at offset 6: 1 for the match + 1 for the exact case.
    let (score, _) = fuzzy_match(b"Firefox", b"fx").unwrap();
    assert_eq!(score, 4);
}

#[test]
fn contiguous_run_scores_higher_than_scattered() {
    let (contiguous, _) = fuzzy_match(b"abcdef", b"abc").unwrap();
    let (scattered, _) = fuzzy_match(b"axbxcx", b"abc").unwrap();
    assert!(contiguous > scattered);
}

#[test]
fn subsequence_always_matches() {
    assert!(fuzzy_match(b"Firefox", b"ffx").is_some());
    assert!(fuzzy_match(b"Firefox", b"Firefox").is_some());
    assert!(fuzzy_match(b"Thunderbird Mail", b"tbm").is_some());
}

#[test]
fn appending_breaking_byte_turns_match_off() {
    assert!(fuzzy_match(b"Firefox", b"fox").is_some());
    assert!(fuzzy_match(b"Firefox", b"foxq").is_none());
}

#[test]
fn match_is_ascii_case_insensitive() {
    assert!(fuzzy_match(b"firefox", b"FX").is_some());
    assert!(fuzzy_match(b"FIREFOX", b"fx").is_some());
}

#[test]
fn empty_text_matches_nothing() {
    assert!(fuzzy_match(b"", b"a").is_none());
}

#[test]
fn indices_are_strictly_increasing() {
    let (_, idx) = fuzzy_match(b"a quick brown fox", b"qbf").unwrap();
    for w in idx.windows(2) {
        assert!(w[0] < w[1]);
    }
}

#[test]
fn fold_byte_lowers_only_ascii_letters() {
    assert_eq!(fold_byte(b'A'), b'a');
    assert_eq!(fold_byte(b'Z'), b'z');
    assert_eq!(fold_byte(b'a'), b'a');
    assert_eq!(fold_byte(b'0'), b'0');
    assert_eq!(fold_byte(200), 200);
}

#[test]
fn separators_are_word_boundaries() {
    assert!(is_separator(b' '));
    assert!(is_separator(b'-'));
    assert!(is_separator(b'_'));
    assert!(is_separator(b'.'));
    assert!(is_separator(b'/'));
    assert!(!is_separator(b'a'));
}
