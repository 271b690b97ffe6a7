use asr_policy_manager::events::{find_row, rows_for};
use asr_policy_manager::model::{App, ExclusionSettings, Mode, RawEvent, Snapshot};

fn event(time: &str, path: Option<&str>, process: Option<&str>, rule: Option<&str>) -> RawEvent {
    RawEvent {
        time: time.to_owned(),
        path: path.map(str::to_owned),
        process: process.map(str::to_owned),
        rule: rule.map(str::to_owned),
    }
}

fn settings(local: &[&str], policy: &[&str], policy_enabled: bool) -> ExclusionSettings {
    ExclusionSettings {
        local: local.iter().map(|e| e.to_string()).collect(),
        policy: policy.iter().map(|e| e.to_string()).collect(),
        policy_enabled,
    }
}

#[test]
fn blocks_of_a_path_form_one_row_with_the_latest_block() {
    let events = vec![
        event("2024-01-02", Some(r"C:\a\x.exe"), Some("p2"), Some("r2")),
        event("2024-01-03", Some("  C:\\a\\x.exe  "), Some("p3"), None),
        event("2024-01-01", Some(r"C:\a\x.exe"), Some("p1"), Some("r1")),
    ];
    let rows = rows_for(&settings(&[], &[], false), &events);
    assert_eq!(rows.len(), 1);
    assert_eq!(rows[0].time, "2024-01-03");
    assert_eq!(rows[0].path, r"C:\a\x.exe");
    assert_eq!(rows[0].process, "p3");
    assert_eq!(rows[0].rule, "<not recorded>");
    assert_eq!(rows[0].occurrences, 3);
    assert_eq!(rows[0].scope, 0);
    assert!(!rows[0].excluded_now);
    assert_eq!(rows[0].excluded_by, None);
}

#[test]
fn of_two_blocks_at_one_time_the_first_is_shown() {
    let events = vec![
        event("t", Some("C:\\a\\x.exe"), Some("first"), None),
        event("t", Some("C:\\a\\x.exe"), Some("second"), None),
    ];
    let rows = rows_for(&settings(&[], &[], false), &events);
    assert_eq!(rows[0].process, "first");
    assert_eq!(rows[0].occurrences, 2);
}

#[test]
fn paths_that_differ_in_case_stay_apart() {
    let events = vec![
        event("t", Some("C:\\a\\X.exe"), None, None),
        event("t", Some("C:\\a\\x.exe"), None, None),
    ];
    let rows = rows_for(&settings(&[], &[], false), &events);
    let paths: Vec<&str> = rows.iter().map(|row| row.path.as_str()).collect();
    assert_eq!(paths, ["C:\\a\\X.exe", "C:\\a\\x.exe"]);
    assert_eq!(find_row(&rows, &"C:\\a\\x.exe".to_owned()), Some(1));
    assert_eq!(find_row(&rows, &"C:\\a\\y.exe".to_owned()), None);
}

#[test]
fn events_without_a_path_are_left_out() {
    let events = vec![
        event("t", None, Some("p"), Some("r")),
        event("t", Some(""), None, None),
        event("t", Some(" \t"), None, None),
    ];
    assert!(rows_for(&settings(&[], &[], false), &events).is_empty());
}

#[test]
fn latest_rows_come_first_and_equal_times_go_by_path() {
    let events = vec![
        event("2024-01-01", Some("C:\\z.exe"), None, None),
        event("2024-01-02", Some("C:\\m.exe"), None, None),
        event("2024-01-02", Some("C:\\b.exe"), None, None),
        event("2024-01-03", Some("C:\\y.exe"), None, None),
        event("2024-01-02", Some("C:\\é.exe"), None, None),
    ];
    let rows = rows_for(&settings(&[], &[], false), &events);
    let paths: Vec<&str> = rows.iter().map(|row| row.path.as_str()).collect();
    assert_eq!(paths, ["C:\\y.exe", "C:\\b.exe", "C:\\m.exe", "C:\\é.exe", "C:\\z.exe"]);
}

#[test]
fn every_named_block_is_counted_once() {
    let names = ["C:\\a", "C:\\b", "C:\\c", "C:\\a", "", "C:\\a", "C:\\b"];
    let events = names.iter().map(|name| event("t", Some(name), None, None)).collect();
    let rows = rows_for(&settings(&[], &[], false), &events);
    assert_eq!(rows.iter().map(|row| row.occurrences).sum::<usize>(), 6);
    assert_eq!(rows.len(), 3);
}

#[test]
fn covered_rows_name_their_entry() {
    let events = vec![
        event("3", Some("C:\\Tools\\x.exe"), None, None),
        event("2", Some("C:\\Other\\y.exe"), None, None),
        event("1", Some("C:\\Free\\z.exe"), None, None),
    ];
    let rows = rows_for(&settings(&["c:\\tools\\"], &["C:\\Other\\Y.exe"], false), &events);
    assert_eq!(rows[0].excluded_by, Some("c:\\tools".to_owned()));
    assert_eq!(rows[1].excluded_by, Some("c:\\other\\y.exe".to_owned()));
    assert_eq!(rows[2].excluded_by, None);
    assert!(rows[0].excluded_now && rows[1].excluded_now && !rows[2].excluded_now);
}

#[test]
fn an_entry_without_a_backslash_names_a_file() {
    let app = App::load(Snapshot {
        settings: settings(&[r"C:\Tools"], &[], false),
        events: vec![
            event("2", Some(r"C:\Tools\x.exe"), None, None),
            event("1", Some(r"C:\Tools"), None, None),
        ],
    });
    assert!(!app.items[0].excluded_now);
    assert_eq!(app.items[1].excluded_by, Some(r"c:\tools".to_owned()));
}

#[test]
fn of_several_entries_the_longest_is_named() {
    let events = vec![event("1", Some(r"C:\a\b\x.exe"), None, None)];
    let rows = rows_for(&settings(&[r"C:\a\"], &[r"C:\a\b\", r"C:\"], true), &events);
    assert_eq!(rows[0].excluded_by, Some(r"c:\a\b".to_owned()));
}

#[test]
fn loading_starts_in_the_table_with_nothing_picked() {
    let app = App::load(Snapshot {
        settings: settings(&[], &[], true),
        events: vec![event("1", Some("C:\\a\\b"), None, None), event("2", Some("C:\\c\\d"), None, None)],
    });
    assert_eq!(app.items.len(), 2);
    assert_eq!(app.selected, 0);
    assert!(app.checked.is_empty());
    assert!(app.policy_enabled);
    assert_eq!(app.mode, Mode::Browse);
    assert_eq!(
        app.status,
        "2 unique blocked paths. Space selects; Left/Right widen/narrow to a folder; Enter applies; r refreshes; q quits."
    );
    assert_eq!(app.selected_item().unwrap().path, "C:\\c\\d");
}

#[test]
fn loading_without_blocks_says_so() {
    let app = App::load(Snapshot { settings: settings(&[], &[], false), events: Vec::new() });
    assert_eq!(app.status, "No recent ASR block events were found.");
    assert!(app.selected_item().is_none());
    assert!(app.selected_paths().is_empty());
}
