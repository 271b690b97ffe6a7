use asr_policy_manager::model::{App, ExclusionSettings, Mode, RawEvent, Snapshot};
use asr_policy_manager::screen::{render, render_message, PathCell, Screen};

fn load(paths: &[&str], local: &[&str], policy_enabled: bool) -> App {
    App::load(Snapshot {
        settings: ExclusionSettings {
            local: local.iter().map(|e| e.to_string()).collect(),
            policy: Vec::new(),
            policy_enabled,
        },
        events: paths
            .iter()
            .enumerate()
            .map(|(i, path)| RawEvent {
                time: format!("2024-01-{:02}", 28 - i),
                path: Some(path.to_string()),
                process: Some("p.exe".to_owned()),
                rule: Some("rule".to_owned()),
            })
            .collect(),
    })
}

/// The two parts of the path in a row; the second is empty where it is not parted.
fn parts(screen: &Screen, row: usize) -> (&str, &str) {
    match &screen.rows[row].path {
        PathCell::Plain(path) => (path, ""),
        PathCell::Parted { covered, rest } => (covered, rest),
    }
}

const TOOL: &str = r"C:\Users\me\Tools\x.exe";

#[test]
fn a_blocked_row_shows_its_block() {
    let app = load(&[TOOL], &[], false);
    let screen = render(&app);
    let row = &screen.rows[0];
    assert_eq!(row.pick, "[ ]");
    assert_eq!(row.status, "[X] Blocked");
    assert!(!row.excluded);
    assert_eq!(row.time, "2024-01-28");
    assert_eq!(row.process, "p.exe");
    assert_eq!(row.count, "1");
    assert!(matches!(&row.path, PathCell::Plain(path) if path == TOOL));
    assert_eq!(screen.highlighted, Some(0));
    assert_eq!(screen.status, app.status);
    assert!(screen.dialog.is_none());
    let detail = screen.detail.unwrap();
    assert_eq!(detail.rule, "rule");
    assert_eq!(detail.label, "  Exclude (file) ");
    assert_eq!(detail.target, TOOL);
}

#[test]
fn a_widened_row_underlines_its_folder() {
    let mut app = load(&[TOOL], &[], false);
    app.adjust_scope(1);
    let screen = render(&app);
    assert_eq!(screen.rows[0].pick, "[ ] ^1");
    assert_eq!(parts(&screen, 0), (r"C:\Users\me\Tools\", "x.exe"));
    assert_eq!(screen.detail.as_ref().unwrap().label, "  Exclude (folder) ");
    app.adjust_scope(1);
    app.toggle_selected();
    let screen = render(&app);
    assert_eq!(screen.rows[0].pick, "[x] ^2");
    assert_eq!(parts(&screen, 0), (r"C:\Users\me\", r"Tools\x.exe"));
    let detail = screen.detail.unwrap();
    assert_eq!(detail.label, "  Exclude (folder, 2 levels up) ");
    assert_eq!(detail.target, r"C:\Users\me\");
}

#[test]
fn a_picked_file_is_marked() {
    let mut app = load(&[TOOL], &[], false);
    app.toggle_selected();
    assert_eq!(render(&app).rows[0].pick, "[x]");
}

#[test]
fn an_excluded_row_underlines_its_entry() {
    let app = load(&[TOOL], &[r"c:\users\ME\"], false);
    let screen = render(&app);
    assert_eq!(screen.rows[0].status, "[OK] Excluded");
    assert!(screen.rows[0].excluded);
    assert_eq!(parts(&screen, 0), (r"C:\Users\me\", r"Tools\x.exe"));
    let detail = screen.detail.unwrap();
    assert_eq!(detail.label, "  Excluded by ");
    assert_eq!(detail.target, r"C:\Users\me\");
}

#[test]
fn a_file_entry_is_shown_in_the_case_of_the_path() {
    let app = load(&[TOOL], &[r"c:\users\me\tools\X.EXE"], false);
    let screen = render(&app);
    assert!(matches!(&screen.rows[0].path, PathCell::Plain(_)));
    assert_eq!(screen.detail.unwrap().target, TOOL);
}

#[test]
fn an_entry_that_cannot_be_mapped_back_is_shown_itself() {
    let app = load(&["\"C:\\Users\\me\\x.exe\""], &[r"C:\Users\"], false);
    let screen = render(&app);
    assert!(matches!(&screen.rows[0].path, PathCell::Plain(_)));
    assert_eq!(screen.detail.unwrap().target, r"c:\users");
}

#[test]
fn parts_are_cut_between_characters() {
    let mut app = load(&["C:\\é😀\\ü/ß.exe"], &[], false);
    app.adjust_scope(1);
    assert_eq!(parts(&render(&app), 0), ("C:\\é😀\\ü/", "ß.exe"));
    app.adjust_scope(1);
    assert_eq!(parts(&render(&app), 0), ("C:\\é😀\\", "ü/ß.exe"));
    let app = load(&["C:\\é😀\\ü\\ß.exe"], &["C:\\é😀\\"], false);
    assert_eq!(parts(&render(&app), 0), ("C:\\é😀\\", "ü\\ß.exe"));
}

#[test]
fn rows_with_slashes_are_parted_too() {
    let app = load(&["C:/a/b.exe"], &["C:/a\\"], false);
    let screen = render(&app);
    assert!(screen.rows[0].excluded);
    assert_eq!(parts(&screen, 0), ("C:/a/", "b.exe"));
    assert_eq!(screen.detail.unwrap().target, "C:/a/");
}

#[test]
fn scope_marks_vanish_from_excluded_rows() {
    let mut app = load(&[TOOL], &[], false);
    app.items[0].scope = 2;
    app.items[0].excluded_now = true;
    app.items[0].excluded_by = Some(r"c:\users".to_owned());
    let screen = render(&app);
    assert_eq!(screen.rows[0].pick, "[ ]");
    assert_eq!(parts(&screen, 0), (r"C:\Users\", r"me\Tools\x.exe"));
}

#[test]
fn rows_stay_whole_when_the_folder_is_no_shorter() {
    let mut app = load(&["C:\\a"], &[], false);
    app.items[0].scope = 1;
    let screen = render(&app);
    assert_eq!(parts(&screen, 0), ("C:\\", "a"));
    app.items[0].path = "tool".to_owned();
    let screen = render(&app);
    assert!(matches!(&screen.rows[0].path, PathCell::Plain(_)));
    assert_eq!(screen.detail.unwrap().target, "tool\\");
}

#[test]
fn an_empty_table_highlights_nothing() {
    let screen = render(&load(&[], &[], false));
    assert!(screen.rows.is_empty());
    assert_eq!(screen.highlighted, None);
    assert!(screen.detail.is_none());
    assert_eq!(screen.status, "No recent ASR block events were found.");
}

#[test]
fn the_highlight_follows_the_selection() {
    let mut app = load(&[TOOL, r"C:\b\y.exe"], &[], false);
    app.selected = 1;
    let screen = render(&app);
    assert_eq!(screen.highlighted, Some(1));
    assert_eq!(screen.detail.unwrap().target, r"C:\b\y.exe");
}

#[test]
fn the_question_lists_what_is_applied() {
    let mut app = load(&[TOOL, r"C:\b\y.exe"], &[], false);
    app.toggle_selected();
    app.selected = 1;
    app.toggle_selected();
    app.mode = Mode::ConfirmApply;
    let dialog = render(&app).dialog.unwrap();
    assert_eq!(dialog.title, " Confirm exclusions ");
    assert_eq!(
        dialog.message,
        "2 path(s) will be excluded from ASR:\n  C:\\b\\y.exe\n  C:\\Users\\me\\Tools\\x.exe\n\nEnter/Y = apply    Esc/N = cancel"
    );
    for path in app.selected_paths() {
        assert!(dialog.message.contains(&path));
    }
}

#[test]
fn the_question_names_the_policy() {
    let mut app = load(&[TOOL], &[], true);
    app.toggle_selected();
    app.mode = Mode::ConfirmApply;
    let dialog = render(&app).dialog.unwrap();
    assert_eq!(dialog.title, " Confirm policy override ");
    assert_eq!(
        dialog.message,
        "Group Policy currently manages ASR exclusions on this computer. The paths below will be added to that policy list (the same registry location gpedit writes) and to local Defender preferences. A domain or Intune policy refresh may remove them again.\n\n1 path(s) will be excluded from ASR:\n  C:\\Users\\me\\Tools\\x.exe\n\nEnter/Y = apply    Esc/N = cancel"
    );
}

#[test]
fn the_question_lists_ten_paths_at_most() {
    let many: Vec<String> = (0..12).map(|i| format!("p{i}")).collect();
    assert_eq!(
        render_message(&many, false),
        "12 path(s) will be excluded from ASR:\n  p0\n  p1\n  p2\n  p3\n  p4\n  p5\n  p6\n  p7\n  p8\n  p9\n  ... and 2 more\n\nEnter/Y = apply    Esc/N = cancel"
    );
    let ten: Vec<String> = many[..10].to_vec();
    assert!(!render_message(&ten, false).contains("more"));
    assert!(render_message(&ten, false).contains("  p9\n"));
    assert_eq!(
        render_message(&Vec::new(), false),
        "0 path(s) will be excluded from ASR:\n\nEnter/Y = apply    Esc/N = cancel"
    );
}
