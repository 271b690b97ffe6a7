use asr_policy_manager::app::{apply_and_refresh, apply_with_status};
use asr_policy_manager::keys::{handle_input, Effect, Input, Key};
use asr_policy_manager::model::{App, ExclusionSettings, Mode, RawEvent, Snapshot};

/// A reading with one block for each path, the first of them the latest.
fn reading(paths: &[&str], local: &[&str], policy_enabled: bool) -> Snapshot {
    Snapshot {
        settings: ExclusionSettings {
            local: local.iter().map(|e| e.to_string()).collect(),
            policy: Vec::new(),
            policy_enabled,
        },
        events: paths
            .iter()
            .enumerate()
            .map(|(i, path)| RawEvent {
                time: format!("2024-01-{:02}", 28 - i),
                path: Some(path.to_string()),
                process: None,
                rule: None,
            })
            .collect(),
    }
}

fn press(app: &mut App, key: Key) -> Effect {
    handle_input(app, Input::Press(key))
}

fn goes_on(effect: Effect) -> bool {
    matches!(effect, Effect::Continue)
}

const DEEP: &str = r"C:\Users\me\Tools\x.exe";

#[test]
fn picking_and_putting_back() {
    let mut app = App::load(reading(&[DEEP], &[], false));
    app.toggle_selected();
    assert!(app.checked.contains(DEEP));
    assert_eq!(app.status, r"Selected. Will exclude C:\Users\me\Tools\x.exe");
    app.toggle_selected();
    assert!(app.checked.is_empty());
    assert_eq!(app.status, "Selection cleared.");
}

#[test]
fn excluded_rows_do_not_change() {
    let mut app = App::load(reading(&[DEEP], &[r"C:\Users\"], false));
    app.toggle_selected();
    assert!(app.checked.is_empty());
    assert_eq!(app.status, "That path is already excluded.");
    app.status = "".to_owned();
    app.adjust_scope(1);
    assert_eq!(app.items[0].scope, 0);
    assert_eq!(app.status, "That path is already excluded.");
}

#[test]
fn widening_stops_below_the_drive() {
    let mut app = App::load(reading(&[DEEP], &[], false));
    app.adjust_scope(1);
    assert_eq!(app.status, r"Will exclude C:\Users\me\Tools\ (press Space to select)");
    app.toggle_selected();
    assert_eq!(app.status, r"Selected. Will exclude C:\Users\me\Tools\");
    app.adjust_scope(1);
    assert_eq!(app.status, r"Selected. Will exclude C:\Users\me\");
    app.adjust_scope(1);
    assert_eq!(app.items[0].scope, 3);
    app.adjust_scope(1);
    assert_eq!(app.items[0].scope, 3);
    assert_eq!(
        app.status,
        "Cannot widen further: the drive root is never offered as an exclusion."
    );
    app.adjust_scope(-3);
    assert_eq!(app.items[0].scope, 0);
    app.adjust_scope(-1);
    assert_eq!(app.status, "Already at the exact file.");
    app.adjust_scope(0);
    assert_eq!(app.status, "Already at the exact file.");
    app.adjust_scope(isize::MAX);
    assert_eq!(app.items[0].scope, 3);
    app.adjust_scope(isize::MIN);
    assert_eq!(app.items[0].scope, 0);
}

#[test]
fn nothing_happens_without_rows() {
    let mut app = App::load(reading(&[], &[], false));
    let status = app.status.clone();
    app.toggle_selected();
    app.adjust_scope(1);
    assert_eq!(app.status, status);
    assert!(goes_on(press(&mut app, Key::Down)));
    assert_eq!(app.selected, 0);
}

#[test]
fn rows_widened_to_one_folder_give_one_target() {
    let mut app = App::load(reading(
        &[r"C:\b\TOOLS\x.exe", r"C:\b\tools\y.exe", r"C:\A\z.exe", r"C:\c\w.exe"],
        &[],
        false,
    ));
    for row in [0, 1, 2] {
        app.selected = row;
        app.toggle_selected();
    }
    assert_eq!(app.selected_paths(), [r"C:\A\z.exe", r"C:\b\TOOLS\x.exe", r"C:\b\tools\y.exe"]);
    for row in [0, 1] {
        app.selected = row;
        app.adjust_scope(1);
    }
    assert_eq!(app.selected_paths(), [r"C:\A\z.exe", r"C:\b\TOOLS\"]);
}

#[test]
fn refreshing_keeps_scopes_and_picked_rows() {
    let other = r"C:\a\b\y.exe";
    let mut app = App::load(reading(&[DEEP, other], &[], false));
    app.adjust_scope(2);
    app.toggle_selected();
    app.selected = 1;
    app.toggle_selected();
    assert!(app.refresh(Ok(reading(&[other, DEEP, r"C:\new\n.exe"], &[r"C:\a\"], true))).is_ok());
    assert_eq!(app.status, "Refreshed Defender ASR history and exclusions.");
    assert!(app.policy_enabled);
    assert_eq!(app.selected, 1);
    assert_eq!(app.items[1].path, DEEP);
    assert_eq!(app.items[1].scope, 2);
    assert!(app.checked.contains(DEEP));
    assert!(!app.checked.contains(other));
    assert_eq!(app.items[2].scope, 0);
    assert_eq!(app.selected_paths(), [r"C:\Users\me\"]);
}

#[test]
fn refreshing_holds_the_highlight_inside() {
    let mut app = App::load(reading(&[DEEP, r"C:\a\b", r"C:\a\c"], &[], false));
    app.selected = 2;
    app.toggle_selected();
    assert!(app.refresh(Ok(reading(&[DEEP], &[], false))).is_ok());
    assert_eq!(app.selected, 0);
    assert!(app.checked.is_empty());
    assert!(app.refresh(Ok(reading(&[], &[], false))).is_ok());
    assert_eq!(app.selected, 0);
}

#[test]
fn a_failed_refresh_changes_the_status_only() {
    let mut app = App::load(reading(&[DEEP], &[], false));
    app.toggle_selected();
    let status = app.status.clone();
    assert_eq!(app.refresh(Err("no data".to_owned())), Err("no data".to_owned()));
    assert_eq!(app.status, status);
    app.refresh_with_status(Err("no data".to_owned()));
    assert_eq!(app.status, "Refresh failed: no data");
    assert!(app.checked.contains(DEEP));
    app.refresh_with_status(Ok(reading(&[DEEP], &[], false)));
    assert_eq!(app.status, "Refreshed Defender ASR history and exclusions.");
}

#[test]
fn applying_counts_the_paths() {
    let mut app = App::load(reading(&[DEEP, r"C:\a\b"], &[], false));
    app.toggle_selected();
    assert!(apply_and_refresh(&mut app, Ok(reading(&[DEEP], &[DEEP], true))).is_ok());
    assert_eq!(app.status, "Added 1 ASR exclusion(s), then refreshed the list.");
    assert!(app.items[0].excluded_now);
    assert!(app.checked.is_empty());
}

#[test]
fn applying_under_policy_says_so() {
    let mut app = App::load(reading(&[DEEP, r"C:\a\b"], &[], true));
    app.toggle_selected();
    app.selected = 1;
    app.toggle_selected();
    apply_with_status(&mut app, Ok(reading(&[DEEP], &[DEEP], false)));
    assert_eq!(
        app.status,
        "Added 2 path(s) to the Group Policy ASR exclusion list and to local preferences."
    );
    assert!(!app.policy_enabled);
}

#[test]
fn a_failed_apply_is_reported() {
    let mut app = App::load(reading(&[DEEP], &[], false));
    app.toggle_selected();
    assert_eq!(apply_and_refresh(&mut app, Err("denied".to_owned())), Err("denied".to_owned()));
    apply_with_status(&mut app, Err("denied".to_owned()));
    assert_eq!(app.status, "Apply failed: denied");
    assert!(app.checked.contains(DEEP));
}

#[test]
fn an_applied_target_excludes_its_row() {
    let mut app = App::load(reading(&[DEEP], &[], false));
    app.adjust_scope(2);
    app.toggle_selected();
    let targets = app.selected_paths();
    let entries: Vec<&str> = targets.iter().map(|t| t.as_str()).collect();
    apply_with_status(&mut app, Ok(reading(&[DEEP], &entries, false)));
    assert_eq!(app.items[0].excluded_by, Some(r"c:\users\me".to_owned()));
}

#[test]
fn movement_keys_stay_in_the_table() {
    let mut app = App::load(reading(&[DEEP, r"C:\a\b", r"C:\a\c"], &[], false));
    for (key, row) in [
        (Key::Up, 0),
        (Key::Down, 1),
        (Key::Char('j'), 2),
        (Key::Char('j'), 2),
        (Key::Char('k'), 1),
        (Key::Up, 0),
        (Key::Char('k'), 0),
    ] {
        assert!(goes_on(press(&mut app, key)));
        assert_eq!(app.selected, row);
    }
}

#[test]
fn scope_keys_widen_and_narrow() {
    let mut app = App::load(reading(&[DEEP], &[], false));
    for (key, scope) in [
        (Key::Left, 1),
        (Key::Char('h'), 2),
        (Key::Char('-'), 3),
        (Key::Right, 2),
        (Key::Char('l'), 1),
        (Key::Char('+'), 0),
    ] {
        assert!(goes_on(press(&mut app, key)));
        assert_eq!(app.items[0].scope, scope);
    }
}

#[test]
fn quitting_and_refreshing_are_left_to_the_loop() {
    let mut app = App::load(reading(&[DEEP], &[], false));
    assert!(matches!(press(&mut app, Key::Char('q')), Effect::Quit));
    assert!(matches!(press(&mut app, Key::Esc), Effect::Quit));
    assert!(matches!(press(&mut app, Key::Char('r')), Effect::Refresh));
    assert!(goes_on(press(&mut app, Key::Other)));
    assert!(goes_on(press(&mut app, Key::Char('Q'))));
}

#[test]
fn only_pressed_keys_count() {
    let mut app = App::load(reading(&[DEEP], &[], false));
    assert!(goes_on(handle_input(&mut app, Input::OtherKeyEvent(Key::Char('q')))));
    assert!(goes_on(handle_input(&mut app, Input::OtherKeyEvent(Key::Char(' ')))));
    assert!(goes_on(handle_input(&mut app, Input::Nothing)));
    assert!(app.checked.is_empty());
}

#[test]
fn applying_asks_first() {
    let mut app = App::load(reading(&[DEEP], &[], true));
    assert!(goes_on(press(&mut app, Key::Enter)));
    assert_eq!(app.mode, Mode::Browse);
    assert_eq!(app.status, "Select at least one red [X] item first.");
    assert!(goes_on(press(&mut app, Key::Char(' '))));
    assert!(goes_on(press(&mut app, Key::Char('a'))));
    assert_eq!(app.mode, Mode::ConfirmApply);
    assert!(goes_on(press(&mut app, Key::Char('q'))));
    assert_eq!(app.mode, Mode::ConfirmApply);
    match press(&mut app, Key::Char('y')) {
        Effect::Apply { paths, write_policy } => {
            assert_eq!(paths, [DEEP]);
            assert!(write_policy);
        }
        other => panic!("{other:?}"),
    }
    assert_eq!(app.mode, Mode::Browse);
}

#[test]
fn saying_no_changes_nothing() {
    for key in [Key::Char('n'), Key::Esc] {
        let mut app = App::load(reading(&[DEEP], &[], false));
        press(&mut app, Key::Char(' '));
        press(&mut app, Key::Enter);
        assert!(goes_on(press(&mut app, key)));
        assert_eq!(app.mode, Mode::Browse);
        assert_eq!(app.status, "No changes were made.");
        assert!(app.checked.contains(DEEP));
    }
}

#[test]
fn going_down_and_up_again_changes_nothing() {
    let mut app = App::load(reading(&[DEEP], &[], false));
    app.adjust_scope(2);
    app.adjust_scope(-1);
    app.adjust_scope(1);
    assert_eq!(app.items[0].scope, 2);
}

#[test]
fn refreshing_without_news_changes_the_status_only() {
    let other = r"C:\a\b\y.exe";
    let mut app = App::load(reading(&[DEEP, other], &[], false));
    app.selected = 1;
    app.adjust_scope(1);
    app.toggle_selected();
    assert!(app.refresh(Ok(reading(&[DEEP, other], &[], false))).is_ok());
    assert_eq!(app.selected, 1);
    assert_eq!(app.items.len(), 2);
    assert_eq!((app.items[0].scope, app.items[1].scope), (0, 1));
    assert!(app.checked.contains(other) && !app.checked.contains(DEEP));
    assert_eq!(app.mode, Mode::Browse);
}

#[test]
fn only_picked_rows_are_applied() {
    let mut app = App::load(reading(&[DEEP, r"C:\a\b\y.exe", r"C:\c\d"], &[r"C:\c\"], false));
    app.selected = 2;
    press(&mut app, Key::Char(' '));
    app.selected = 0;
    press(&mut app, Key::Char(' '));
    press(&mut app, Key::Enter);
    match press(&mut app, Key::Enter) {
        Effect::Apply { paths, write_policy } => {
            assert_eq!(paths, [DEEP]);
            assert!(!write_policy);
        }
        other => panic!("{other:?}"),
    }
}

#[test]
fn rows_with_slashes_turn_green_after_applying() {
    let path = "C:/a/b.exe";
    let mut app = App::load(reading(&[path], &[], false));
    app.adjust_scope(1);
    app.toggle_selected();
    let targets = app.selected_paths();
    assert_eq!(targets, ["C:/a\\"]);
    apply_with_status(&mut app, Ok(reading(&[path], &["C:/a\\"], false)));
    assert!(app.items[0].excluded_now);
    assert!(app.checked.is_empty());
}

#[test]
fn doubled_separators_do_not_hide_that_folders_are_the_same() {
    let mut app = App::load(reading(&[r"C:\a\b\\x.exe", r"C:\a\b\y.exe"], &[], false));
    for row in [0, 1] {
        app.selected = row;
        app.adjust_scope(1);
        app.toggle_selected();
    }
    assert_eq!(app.selected_paths(), [r"C:\a\b\"]);
}
