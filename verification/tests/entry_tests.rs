use sirula::config::{Config, Field};
use sirula::desktop_entry::{desktop_entry_visible, parse_bool_key, DesktopEntry};
use sirula::entry::{get_app_field, is_excluded, AttrLayer, Entry, EntryContent, LaunchAction};
use sirula::history::History;

fn app(name: &str, id: &str, exec_cmd: &str) -> DesktopEntry {
    DesktopEntry {
        id: id.as_bytes().to_vec(),
        file: b"/usr/share/applications/x.desktop".to_vec(),
        name: name.as_bytes().to_vec(),
        exec_cmd: exec_cmd.as_bytes().to_vec(),
        generic_name: None,
        keywords: None,
        comment: None,
        categories: None,
        icon: None,
        path: None,
        terminal: false,
        prefers_nondefault_gpu: false,
        actions: Vec::new(),
    }
}

#[test]
fn empty_query_scores_100_and_shows_the_entry() {
    let h = History::new();
    let c = Config::default_config();
    let mut e = Entry::from_string(&h, &c, b"hello".to_vec());
    e.update_match(b"");
    assert_eq!(e.score, 100);
    assert!(!e.hidden());
}

#[test]
fn hidden_iff_score_zero() {
    let h = History::new();
    let c = Config::default_config();
    let mut e = Entry::from_string(&h, &c, b"hello".to_vec());
    e.update_match(b"zz");
    assert_eq!(e.score, 0);
    assert!(e.hidden());
    e.update_match(b"hl");
    assert!(e.score != 0);
    assert!(!e.hidden());
    e.force_hide();
    assert_eq!(e.score, 0);
    assert!(e.hidden());
}

#[test]
fn repeating_a_query_accumulates_no_markup() {
    let h = History::new();
    let c = Config::default_config();
    let mut e = Entry::from_string(&h, &c, b"hello world".to_vec());
    e.update_match(b"hw");
    let first = e.attrs.clone();
    let score = e.score;
    e.update_match(b"hw");
    assert_eq!(e.attrs, first);
    assert_eq!(e.score, score);
}

#[test]
fn match_highlights_the_matched_display_bytes() {
    let h = History::new();
    let c = Config::default_config();
    let mut e = Entry::from_string(&h, &c, b"Firefox".to_vec());
    e.update_match(b"fx");
    let highlights: Vec<(u32, u32)> = e
        .attrs
        .iter()
        .filter(|a| a.layer == AttrLayer::Highlight)
        .map(|a| (a.start, a.end))
        .collect();
    assert_eq!(highlights, vec![(0, 1), (6, 7)]);
    assert_eq!(e.attrs[0].layer, AttrLayer::Base);
    assert_eq!((e.attrs[0].start, e.attrs[0].end), (0, 7));
}

#[test]
fn matches_in_hidden_fields_get_no_visible_highlight() {
    let h = History::new();
    let mut c = Config::default_config();
    c.hidden_fields = vec![Field::Commandline];
    let e = Entry::from_app_info(&h, &c, app("Browser", "web.browser.desktop", "zzz")).unwrap();
    let mut e = e;
    // 'zzz' only occurs in the hidden part of the search string
    e.update_match(b"zzz");
    assert!(!e.hidden());
    assert!(e.attrs.iter().all(|a| a.layer != AttrLayer::Highlight));
}

#[test]
fn extra_field_is_appended_with_its_range() {
    let h = History::new();
    let c = Config::default_config();
    let e = Entry::from_app_info(&h, &c, app("Firefox", "com.example.browser.desktop", "firefox"))
        .unwrap();
    assert_eq!(e.display_string, b"Firefox browser".to_vec());
    assert_eq!(e.extra_range, Some((8, 15)));
    assert!(e.attrs.iter().any(|a| a.layer == AttrLayer::Extra && a.start == 8 && a.end == 15));
}

#[test]
fn contained_extra_field_is_suppressed() {
    let h = History::new();
    let c = Config::default_config();
    // id suffix "fire" is contained in the lower-cased name
    let e = Entry::from_app_info(&h, &c, app("Firefox", "org.fire.desktop", "firefox")).unwrap();
    assert_eq!(e.display_string, b"Firefox".to_vec());
    assert_eq!(e.extra_range, None);

    let mut c2 = Config::default_config();
    c2.hide_extra_if_contained = false;
    let e2 = Entry::from_app_info(&h, &c2, app("Firefox", "org.fire.desktop", "firefox")).unwrap();
    assert_eq!(e2.display_string, b"Firefox fire".to_vec());
    assert_eq!(e2.extra_range, Some((8, 12)));
}

#[test]
fn name_override_replaces_display_and_marks_suffix() {
    let h = History::new();
    let mut c = Config::default_config();
    c.name_overrides =
        vec![(b"org.mozilla.firefox".to_vec(), b"Browser\rMozilla".to_vec())];
    let e = Entry::from_app_info(&h, &c, app("Firefox", "org.mozilla.firefox.desktop", "firefox"))
        .unwrap();
    assert_eq!(e.display_string, b"Browser Mozilla".to_vec());
    assert_eq!(e.extra_range, Some((8, 15)));
}

#[test]
fn search_string_extends_display_with_hidden_fields() {
    let h = History::new();
    let mut c = Config::default_config();
    c.hidden_fields = vec![Field::Executable];
    let e = Entry::from_app_info(
        &h,
        &c,
        app("Files", "org.gnome.nautilus.desktop", "/usr/bin/nautilus --new-window"),
    )
    .unwrap();
    assert_eq!(e.display_string, b"Files nautilus".to_vec());
    assert_eq!(e.search_string, b"Files nautilus nautilus".to_vec());
}

#[test]
fn app_fields_are_cut_from_the_metadata() {
    let a = app("Files", "org.gnome.nautilus.desktop", "/usr/bin/nautilus --new-window %U");
    assert_eq!(get_app_field(&a, Field::Id), Some(b"org.gnome.nautilus".to_vec()));
    assert_eq!(get_app_field(&a, Field::IdSuffix), Some(b"nautilus".to_vec()));
    assert_eq!(get_app_field(&a, Field::Executable), Some(b"nautilus".to_vec()));
    assert_eq!(
        get_app_field(&a, Field::Commandline),
        Some(b"/usr/bin/nautilus --new-window %U".to_vec())
    );
    assert_eq!(get_app_field(&a, Field::Comment), None);
    let plain = app("X", "nodot", "x");
    assert_eq!(get_app_field(&plain, Field::Id), None);
    assert_eq!(get_app_field(&plain, Field::IdSuffix), None);
}

#[test]
fn script_entry_title_cases_the_stem() {
    let h = History::new();
    let c = Config::default_config();
    let e = Entry::from_path(&h, &c, b"/home/u/scripts/hello_world.sh".to_vec(), 0).unwrap();
    assert_eq!(e.display_string, b"Hello World".to_vec());
    assert_eq!(
        e.search_string,
        b"Hello World/home/u/scripts/hello_world.sh".to_vec()
    );
    assert_eq!(e.score, 0);
    assert!(matches!(e.content, EntryContent::Script(_)));
}

#[test]
fn history_is_adopted_and_zeroed_per_config() {
    let mut h = History::new();
    sirula::history::update_history(&mut h, b"x", 700);
    let mut c = Config::default_config();
    c.frequent_first = false;
    c.recent_first = true;
    let e = Entry::from_string(&h, &c, b"x".to_vec());
    assert_eq!(e.history.last_used, 700);
    assert_eq!(e.history.usage_count, 0);

    c.frequent_first = true;
    c.recent_first = false;
    let e2 = Entry::from_string(&h, &c, b"x".to_vec());
    assert_eq!(e2.history.last_used, 0);
    assert_eq!(e2.history.usage_count, 1);
}

#[test]
fn activation_follows_the_content() {
    let h = History::new();
    let c = Config::default_config();
    let mut a = app("T", "t.desktop", "term -e foo");
    a.terminal = true;
    let e = Entry::from_app_info(&h, &c, a).unwrap();
    match e.act() {
        LaunchAction::RunApp { exec_cmd, terminal, working_dir } => {
            assert_eq!(exec_cmd, b"term -e foo".to_vec());
            assert!(terminal);
            assert!(working_dir.is_none());
        }
        _ => panic!("expected an application launch"),
    }
    let s = Entry::from_string(&h, &c, b"line".to_vec());
    match s.act() {
        LaunchAction::PrintLine { text } => assert_eq!(text, b"line".to_vec()),
        _ => panic!("expected a printed line"),
    }
}

#[test]
fn exclusion_patterns_match_ids() {
    let pats = vec![b"^org\\.".to_vec(), b"games".to_vec()];
    assert_eq!(is_excluded(&pats, b"org.foo.desktop"), Some(true));
    assert_eq!(is_excluded(&pats, b"com.games.x"), Some(true));
    assert_eq!(is_excluded(&pats, b"com.foo.desktop"), Some(false));
    assert_eq!(is_excluded(&vec![b"(".to_vec()], b"anything"), None);
    assert_eq!(is_excluded(&Vec::new(), b"x"), Some(false));
}

#[test]
fn desktop_entry_visibility_rules() {
    let kde = b"KDE".to_vec();
    let osi = b"GNOME;KDE;".to_vec();
    let nsi = b"KDE;".to_vec();
    // plain entry: visible
    assert!(desktop_entry_visible(false, false, None, None, Some(&kde)));
    // hidden or no-display: never shown
    assert!(!desktop_entry_visible(true, false, None, None, Some(&kde)));
    assert!(!desktop_entry_visible(false, true, None, None, Some(&kde)));
    // OnlyShowIn honours the current desktop
    assert!(desktop_entry_visible(false, false, Some(&osi), None, Some(&kde)));
    assert!(!desktop_entry_visible(false, false, Some(&osi), None, Some(&b"XFCE".to_vec())));
    // NotShowIn hides on the listed desktop
    assert!(!desktop_entry_visible(false, false, None, Some(&nsi), Some(&kde)));
    // without a known desktop, OnlyShowIn entries are skipped
    assert!(!desktop_entry_visible(false, false, Some(&osi), None, None));
    assert!(desktop_entry_visible(false, false, None, Some(&nsi), None));
}

#[test]
fn boolean_keys_parse_strictly() {
    assert_eq!(parse_bool_key(b"true"), Some(true));
    assert_eq!(parse_bool_key(b"false"), Some(false));
    assert_eq!(parse_bool_key(b"True"), None);
    assert_eq!(parse_bool_key(b""), None);
}
