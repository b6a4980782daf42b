use sirula::config::Config;
use sirula::controller::{apply_search, on_submit, sort_visible, SubmitOutcome};
use sirula::entry::{Entry, EntryContent};
use sirula::history::{History, HistoryData};

fn line_entry(text: &str) -> Entry {
    let h = History::new();
    let c = Config::default_config();
    Entry::from_string(&h, &c, text.as_bytes().to_vec())
}

fn script_entry(path: &str) -> Entry {
    let h = History::new();
    let c = Config::default_config();
    Entry::from_path(&h, &c, path.as_bytes().to_vec(), 0).unwrap()
}

#[test]
fn command_prefix_hides_everything_and_submits_the_command() {
    let c = Config::default_config();
    let mut entries = vec![line_entry("Firefox"), line_entry("GIMP")];
    apply_search(&mut entries, b":ls -la", &c, false);
    assert!(entries.iter().all(|e| e.hidden()));

    let order = sort_visible(&entries);
    assert!(order.is_empty());

    match on_submit(b":ls -la", &c, &order) {
        SubmitOutcome::RunCommand(cmd) => assert_eq!(cmd, b"ls -la".to_vec()),
        _ => panic!("expected a command launch"),
    }
}

#[test]
fn empty_query_shows_every_entry_with_score_100() {
    let c = Config::default_config();
    let mut entries = vec![line_entry("a"), line_entry("b"), line_entry("c")];
    apply_search(&mut entries, b"", &c, false);
    for e in &entries {
        assert_eq!(e.score, 100);
        assert!(!e.hidden());
    }
    let order = sort_visible(&entries);
    assert_eq!(order.len(), 3);
}

#[test]
fn query_fx_filters_and_ranks_the_firefoxes() {
    let c = Config::default_config();
    let mut entries = vec![
        line_entry("Firefox"),
        line_entry("GIMP"),
        line_entry("Firefox Developer Edition"),
    ];
    apply_search(&mut entries, b"fx", &c, false);
    assert!(!entries[0].hidden());
    assert!(entries[1].hidden());
    assert!(!entries[2].hidden());

    let order = sort_visible(&entries);
    assert_eq!(order.len(), 2);
    assert!(!order.contains(&1));

    match on_submit(b"fx", &c, &order) {
        SubmitOutcome::Activate(i) => assert_eq!(i, order[0]),
        _ => panic!("expected an activation"),
    }
}

#[test]
fn script_prefix_partitions_the_entries() {
    let c = Config::default_config();
    let h = History::new();
    let mut app_entry = Entry::from_app_info(
        &h,
        &c,
        sirula::desktop_entry::DesktopEntry {
            id: b"org.x.editor.desktop".to_vec(),
            file: Vec::new(),
            name: b"Editor".to_vec(),
            exec_cmd: b"editor".to_vec(),
            generic_name: None,
            keywords: None,
            comment: None,
            categories: None,
            icon: None,
            path: None,
            terminal: false,
            prefers_nondefault_gpu: false,
            actions: Vec::new(),
        },
    )
    .unwrap();
    app_entry.score = 100;
    let mut entries = vec![app_entry, script_entry("/s/backup_disk.sh")];
    assert!(matches!(entries[0].content, EntryContent::Application(_)));

    // "!bd " selects script mode: the application is hidden, the script is
    // matched against the trimmed remainder "bd".
    apply_search(&mut entries, b"!bd ", &c, true);
    assert!(entries[0].hidden());
    assert!(!entries[1].hidden());

    // without the prefix in application mode, the script is hidden
    apply_search(&mut entries, b"ed", &c, true);
    assert!(!entries[0].hidden());
    assert!(entries[1].hidden());
}

#[test]
fn visible_rows_come_out_in_rank_order() {
    let c = Config::default_config();
    let mut entries = vec![line_entry("cherry"), line_entry("apple"), line_entry("banana")];
    entries[0].history = HistoryData { last_used: 0, usage_count: 0 };
    entries[1].history = HistoryData { last_used: 0, usage_count: 0 };
    entries[2].history = HistoryData { last_used: 9, usage_count: 0 };
    apply_search(&mut entries, b"", &c, false);
    // banana leads on recency; apple beats cherry on collation
    assert_eq!(sort_visible(&entries), vec![2, 1, 0]);
}

#[test]
fn submit_without_selection_does_nothing() {
    let c = Config::default_config();
    let entries = vec![{
        let mut e = line_entry("a");
        e.force_hide();
        e
    }];
    let order = sort_visible(&entries);
    assert!(order.is_empty());
    assert!(matches!(on_submit(b"zzz", &c, &order), SubmitOutcome::NoSelection));
}

#[test]
fn command_prefix_must_be_configured_nonempty() {
    let mut c = Config::default_config();
    c.command_prefix = Vec::new();
    let order: Vec<usize> = Vec::new();
    // with an empty prefix nothing counts as a command
    assert!(matches!(on_submit(b":ls", &c, &order), SubmitOutcome::NoSelection));
    assert!(sirula::util::is_cmd(b":ls", b":"));
    assert!(!sirula::util::is_cmd(b":ls", b""));
    assert!(!sirula::util::is_cmd(b"ls", b":"));
}
