//! What each operation does to the state, for every state.

use vstd::prelude::*;

use crate::app::{
    applied, first_spelling, is_first_target, is_picked, item_target, last_scope, law_targets_of,
    lemma_first_of_spelling, loaded, refreshed, rows_of, scope_adjusted, targets_of, toggled,
    with_kept_scope, with_status,
};
use crate::keys::{next, EffectView, Input, Key};
use crate::model::{AppView, ItemView, Mode, SnapshotView};
use crate::paths::{target, widest_scope};
use crate::row_laws::law_fresh_state;
use crate::text::{decimal, less, lower};

verus! {

/// Whether the two states differ in their status lines at most.
pub open spec fn same_but_status(a: AppView, b: AppView) -> bool {
    &&& a.items == b.items
    &&& a.selected == b.selected
    &&& a.checked == b.checked
    &&& a.policy_enabled == b.policy_enabled
    &&& a.mode == b.mode
}

/// Picking flips exactly the highlighted row, unless that row is excluded: its
/// path is picked afterwards when it was not before, and every other path is as it
/// was. The status line says which of these happened.
pub proof fn law_picking_flips_one_row(app: AppView)
    ensures
        app.selected >= app.items.len() ==> toggled(app) == app,
        app.selected < app.items.len() ==> {
            let item = app.items[app.selected as int];
            let after = toggled(app);
            &&& item.excluded_now ==> same_but_status(app, after) && after.status
                == "That path is already excluded."@
            &&& !item.excluded_now ==> {
                &&& forall|path: Seq<char>| #[trigger]
                    after.checked.contains(path) <==> if path == item.path {
                        !app.checked.contains(path)
                    } else {
                        app.checked.contains(path)
                    }
                &&& after.items == app.items
                &&& after.selected == app.selected
                &&& after.policy_enabled == app.policy_enabled
                &&& after.mode == app.mode
                &&& app.checked.contains(item.path) ==> after.status == "Selection cleared."@
                &&& !app.checked.contains(item.path) ==> after.status
                    == "Selected. Will exclude "@ + target(item.path, item.scope)
            }
        },
{
}

/// Moving a target changes the scope of the highlighted row and nothing else of
/// the rows: by as much as was asked for, as far as the file itself or the widest
/// folder. An excluded row stays. The status line says what would be excluded, or
/// why nothing moved.
pub proof fn law_moving_changes_one_scope(app: AppView, delta: int)
    ensures
        app.selected >= app.items.len() ==> scope_adjusted(app, delta) == app,
        app.selected < app.items.len() ==> {
            let k = app.selected as int;
            let item = app.items[k];
            let after = scope_adjusted(app, delta);
            let widest = widest_scope(item.path);
            &&& item.excluded_now ==> same_but_status(app, after) && after.status
                == "That path is already excluded."@
            &&& !item.excluded_now ==> {
                let moved = after.items[k];
                &&& after.items.len() == app.items.len()
                &&& forall|i: int|
                    0 <= i < app.items.len() && i != k ==> #[trigger] after.items[i]
                        == app.items[i]
                &&& moved.time == item.time
                &&& moved.path == item.path
                &&& moved.process == item.process
                &&& moved.rule == item.rule
                &&& moved.occurrences == item.occurrences
                &&& moved.excluded_now == item.excluded_now
                &&& moved.excluded_by == item.excluded_by
                &&& 0 <= item.scope + delta <= widest ==> moved.scope == item.scope + delta
                &&& item.scope + delta < 0 ==> moved.scope == 0
                &&& item.scope + delta > widest ==> moved.scope == widest
                &&& after.selected == app.selected
                &&& after.checked == app.checked
                &&& after.policy_enabled == app.policy_enabled
                &&& after.mode == app.mode
                &&& moved.scope == item.scope && delta > 0 ==> after.status
                    == "Cannot widen further: the drive root is never offered as an exclusion."@
                &&& moved.scope == item.scope && delta <= 0 ==> after.status
                    == "Already at the exact file."@
                &&& moved.scope != item.scope && app.checked.contains(item.path) ==> after.status
                    == "Selected. Will exclude "@ + target(item.path, moved.scope)
                &&& moved.scope != item.scope && !app.checked.contains(item.path)
                    ==> after.status == "Will exclude "@ + target(item.path, moved.scope)
                    + " (press Space to select)"@
            }
        },
{
}

/// Whether row `i` is picked and no picked row before it has the same target,
/// letter case aside.
pub open spec fn has_new_target(app: AppView, i: int) -> bool {
    &&& 0 <= i < app.items.len()
    &&& app.checked.contains(app.items[i].path)
    &&& forall|j: int|
        0 <= j < i && app.checked.contains((#[trigger] app.items[j]).path) ==> lower(
            target(app.items[j].path, app.items[j].scope),
        ) != lower(target(app.items[i].path, app.items[i].scope))
}

/// Whether `text` is the target of such a row.
pub open spec fn belongs_to_a_row(app: AppView, text: Seq<char>) -> bool {
    exists|i: int| #[trigger]
        has_new_target(app, i) && text == target(app.items[i].path, app.items[i].scope)
}

proof fn lemma_new_target(app: AppView, i: int)
    ensures
        has_new_target(app, i) <==> first_spelling(app.items, app.checked, i),
{
    if has_new_target(app, i) {
        assert forall|j: int|
            0 <= j < i && #[trigger] is_picked(app.items, app.checked, j) implies lower(
            item_target(app.items[j]),
        ) != lower(item_target(app.items[i])) by {
            assert(app.checked.contains(app.items[j].path));
        }
    }
    if first_spelling(app.items, app.checked, i) {
        assert forall|j: int|
            0 <= j < i && app.checked.contains((#[trigger] app.items[j]).path) implies lower(
            target(app.items[j].path, app.items[j].scope),
        ) != lower(target(app.items[i].path, app.items[i].scope)) by {
            assert(is_picked(app.items, app.checked, j));
        }
    }
}

/// What is applied is made of the targets of the picked rows and of nothing else:
/// every picked row's target is there, letter case aside, each in the spelling of
/// the first row that has it, once, and in ascending order.
pub proof fn law_targets_are_those_of_picked_rows(app: AppView)
    ensures
        forall|k: int|
            0 <= k < targets_of(app).len() ==> belongs_to_a_row(app, #[trigger] targets_of(app)[k]),
        forall|i: int|
            0 <= i < app.items.len() && app.checked.contains((#[trigger] app.items[i]).path)
                ==> exists|k: int|
                0 <= k < targets_of(app).len() && lower(#[trigger] targets_of(app)[k]) == lower(
                    target(app.items[i].path, app.items[i].scope),
                ),
        forall|a: int, b: int|
            0 <= a < b < targets_of(app).len() ==> less(
                lower(#[trigger] targets_of(app)[a]),
                lower(#[trigger] targets_of(app)[b]),
            ),
{
    law_targets_of(app);
    let list = targets_of(app);
    assert forall|k: int| 0 <= k < list.len() implies belongs_to_a_row(
        app,
        #[trigger] list[k],
    ) by {
        assert(is_first_target(app.items, app.checked, list[k]));
        let i: int = choose|i: int| #[trigger]
            first_spelling(app.items, app.checked, i) && item_target(app.items[i])
                == list[k];
        lemma_new_target(app, i);
        assert(has_new_target(app, i));
    }
    assert forall|i: int|
        0 <= i < app.items.len() && app.checked.contains(
            (#[trigger] app.items[i]).path,
        ) implies exists|k: int|
        0 <= k < list.len() && lower(#[trigger] list[k]) == lower(
            target(app.items[i].path, app.items[i].scope),
        ) by {
        assert(is_picked(app.items, app.checked, i));
        let f: int = lemma_first_of_spelling(app.items, app.checked, i);
        assert(list.contains(item_target(app.items[f])));
        let k: int = choose|k: int|
            0 <= k < list.len() && list[k] == item_target(app.items[f]);
        assert(lower(list[k]) == lower(target(app.items[i].path, app.items[i].scope)));
    }
}

/// Whether `i` is the last row about `path`.
pub open spec fn is_last_about(items: Seq<ItemView>, path: Seq<char>, i: int) -> bool {
    &&& 0 <= i < items.len()
    &&& items[i].path == path
    &&& forall|j: int| i < j < items.len() ==> (#[trigger] items[j]).path != path
}

proof fn lemma_last_scope(items: Seq<ItemView>, path: Seq<char>)
    ensures
        forall|i: int| #[trigger]
            is_last_about(items, path, i) ==> last_scope(items, path) == Some(items[i].scope),
        (forall|i: int| 0 <= i < items.len() ==> (#[trigger] items[i]).path != path)
            ==> last_scope(items, path) is None,
    decreases items.len(),
{
    if items.len() > 0 {
        let before = items.drop_last();
        let last: int = items.len() - 1;
        lemma_last_scope(before, path);
        assert(items.last() == items[last]);
        assert forall|i: int| #[trigger] is_last_about(items, path, i) implies last_scope(
            items,
            path,
        ) == Some(items[i].scope) by {
            if i < last {
                assert(items[last].path != path);
                assert(before[i] == items[i]);
                assert forall|j: int| i < j < before.len() implies (#[trigger] before[j]).path
                    != path by {
                    assert(items[j].path != path);
                }
                assert(is_last_about(before, path, i));
            }
        }
        if forall|i: int| 0 <= i < items.len() ==> (#[trigger] items[i]).path != path {
            assert(items[last].path != path);
            assert forall|i: int| 0 <= i < before.len() implies (#[trigger] before[i]).path
                != path by {
                assert(items[i].path != path);
            }
        }
    }
}

/// A refresh shows the rows of the new reading. Each keeps the scope that its path
/// had, as far as that is still offered, and aims at the file where the path is
/// new. The paths that stay picked are those with a blocked row. The highlight
/// stays where it is, as far as there are rows.
pub proof fn law_refreshing_takes_in_the_reading(app: AppView, snapshot: SnapshotView)
    ensures
        ({
            let after = refreshed(app, snapshot);
            let fresh = loaded(snapshot);
            &&& after.items.len() == fresh.items.len()
            &&& forall|r: int|
                0 <= r < fresh.items.len() ==> {
                    let a = #[trigger] after.items[r];
                    let b = fresh.items[r];
                    &&& a.time == b.time
                    &&& a.path == b.path
                    &&& a.process == b.process
                    &&& a.rule == b.rule
                    &&& a.occurrences == b.occurrences
                    &&& a.excluded_now == b.excluded_now
                    &&& a.excluded_by == b.excluded_by
                }
            &&& forall|r: int, i: int|
                0 <= r < fresh.items.len() && #[trigger] is_last_about(
                    app.items,
                    (#[trigger] after.items[r]).path,
                    i,
                ) ==> after.items[r].scope == if app.items[i].scope < widest_scope(
                    after.items[r].path,
                ) {
                    app.items[i].scope
                } else {
                    widest_scope(after.items[r].path)
                }
            &&& forall|r: int|
                0 <= r < fresh.items.len() && (forall|i: int|
                    0 <= i < app.items.len() ==> (#[trigger] app.items[i]).path
                        != after.items[r].path) ==> (#[trigger] after.items[r]).scope == 0
            &&& forall|path: Seq<char>| #[trigger]
                after.checked.contains(path) <==> app.checked.contains(path) && exists|r: int|
                    0 <= r < fresh.items.len() && (#[trigger] fresh.items[r]).path == path
                        && !fresh.items[r].excluded_now
            &&& after.items.len() == 0 ==> after.selected == 0
            &&& app.selected < after.items.len() ==> after.selected == app.selected
            &&& 0 < after.items.len() <= app.selected ==> after.selected == after.items.len() - 1
            &&& after.policy_enabled == snapshot.settings.policy_enabled
            &&& after.mode == app.mode
            &&& after.status == "Refreshed Defender ASR history and exclusions."@
        }),
{
    let after = refreshed(app, snapshot);
    let fresh = loaded(snapshot);
    law_fresh_state(snapshot);
    assert forall|r: int| 0 <= r < fresh.items.len() implies #[trigger] after.items[r]
        == with_kept_scope(app.items, fresh.items[r]) by {
        assert(fresh.items[r] == rows_of(snapshot.settings, snapshot.events)[r]);
    }
    assert forall|r: int, i: int|
        0 <= r < fresh.items.len() && #[trigger] is_last_about(
            app.items,
            (#[trigger] after.items[r]).path,
            i,
        ) implies after.items[r].scope == if app.items[i].scope < widest_scope(
        after.items[r].path,
    ) {
        app.items[i].scope
    } else {
        widest_scope(after.items[r].path)
    } by {
        lemma_last_scope(app.items, after.items[r].path);
    }
    assert forall|r: int|
        0 <= r < fresh.items.len() && (forall|i: int|
            0 <= i < app.items.len() ==> (#[trigger] app.items[i]).path
                != after.items[r].path) implies (#[trigger] after.items[r]).scope == 0 by {
        lemma_last_scope(app.items, after.items[r].path);
        assert(fresh.items[r].scope == 0);
    }
    assert forall|path: Seq<char>| #[trigger]
        after.checked.contains(path) <==> app.checked.contains(path) && exists|r: int|
            0 <= r < fresh.items.len() && (#[trigger] fresh.items[r]).path == path
                && !fresh.items[r].excluded_now by {
        if after.checked.contains(path) {
            let r: int = choose|r: int|
                0 <= r < after.items.len() && (#[trigger] after.items[r]).path == path
                    && !after.items[r].excluded_now;
            assert(fresh.items[r].path == path && !fresh.items[r].excluded_now);
        }
        if app.checked.contains(path) && exists|r: int|
            0 <= r < fresh.items.len() && (#[trigger] fresh.items[r]).path == path
                && !fresh.items[r].excluded_now {
            let r: int = choose|r: int|
                0 <= r < fresh.items.len() && (#[trigger] fresh.items[r]).path == path
                    && !fresh.items[r].excluded_now;
            assert(after.items[r].path == path && !after.items[r].excluded_now);
        }
    }
}

/// After applying, the state is that of a refresh, and the status line says how
/// many paths were added, and to the policy list too when that was in force.
pub proof fn law_applying_says_what_was_added(app: AppView, snapshot: SnapshotView)
    ensures
        same_but_status(applied(app, snapshot), refreshed(app, snapshot)),
        app.policy_enabled ==> applied(app, snapshot).status == "Added "@ + decimal(
            targets_of(app).len(),
        ) + " path(s) to the Group Policy ASR exclusion list and to local preferences."@,
        !app.policy_enabled ==> applied(app, snapshot).status == "Added "@ + decimal(
            targets_of(app).len(),
        ) + " ASR exclusion(s), then refreshed the list."@,
{
}

/// A report in the status line changes nothing else.
pub proof fn law_reports_change_the_status_only(app: AppView, status: Seq<char>)
    ensures
        same_but_status(with_status(app, status), app),
        with_status(app, status).status == status,
{
}

/// While the question is asked, `y` and Enter both apply: the targets of the picked
/// rows, with the policy flag. The question is closed and nothing else changes.
pub proof fn law_yes_applies(app: AppView, key: Key)
    requires
        app.mode == Mode::ConfirmApply,
        key == Key::Char('y') || key == Key::Enter,
    ensures
        next(app, Input::Press(key)).1 == (EffectView::Apply {
            paths: targets_of(app),
            write_policy: app.policy_enabled,
        }),
        next(app, Input::Press(key)).0.mode == Mode::Browse,
        next(app, Input::Press(key)).0.items == app.items,
        next(app, Input::Press(key)).0.selected == app.selected,
        next(app, Input::Press(key)).0.checked == app.checked,
        next(app, Input::Press(key)).0.policy_enabled == app.policy_enabled,
        next(app, Input::Press(key)).0.status == app.status,
{
}

/// While the question is asked, `n` and Escape close it and nothing is added.
pub proof fn law_no_adds_nothing(app: AppView, key: Key)
    requires
        app.mode == Mode::ConfirmApply,
        key == Key::Char('n') || key == Key::Esc,
    ensures
        next(app, Input::Press(key)).1 == EffectView::Continue,
        next(app, Input::Press(key)).0.mode == Mode::Browse,
        next(app, Input::Press(key)).0.items == app.items,
        next(app, Input::Press(key)).0.selected == app.selected,
        next(app, Input::Press(key)).0.checked == app.checked,
        next(app, Input::Press(key)).0.policy_enabled == app.policy_enabled,
        next(app, Input::Press(key)).0.status == "No changes were made."@,
{
}

/// While the question is asked, no other key does anything.
pub proof fn law_question_waits_for_an_answer(app: AppView, key: Key)
    requires
        app.mode == Mode::ConfirmApply,
        key != Key::Char('y'),
        key != Key::Enter,
        key != Key::Char('n'),
        key != Key::Esc,
    ensures
        next(app, Input::Press(key)) == (app, EffectView::Continue),
{
}

/// Only pressed keys do anything.
pub proof fn law_only_presses_count(app: AppView, input: Input)
    requires
        !(input is Press),
    ensures
        next(app, input) == (app, EffectView::Continue),
{
}

/// In the table, the movement keys move the highlight by one row and not beyond the
/// first and the last.
pub proof fn law_movement_keys_move(app: AppView, key: Key)
    requires
        app.mode == Mode::Browse,
    ensures
        key == Key::Down || key == Key::Char('j') ==> {
            let after = next(app, Input::Press(key)).0;
            &&& next(app, Input::Press(key)).1 == EffectView::Continue
            &&& after == (AppView { selected: after.selected, ..app })
            &&& app.selected + 1 < app.items.len() ==> after.selected == app.selected + 1
            &&& 0 < app.items.len() <= app.selected + 1 ==> after.selected == app.items.len() - 1
            &&& app.items.len() == 0 ==> after.selected == 0
        },
        key == Key::Up || key == Key::Char('k') ==> {
            let after = next(app, Input::Press(key)).0;
            &&& next(app, Input::Press(key)).1 == EffectView::Continue
            &&& after == (AppView { selected: after.selected, ..app })
            &&& app.selected > 0 ==> after.selected == app.selected - 1
            &&& app.selected == 0 ==> after.selected == 0
        },
{
}

/// In the table, Space picks, and the keys to the left widen by one level and those
/// to the right narrow by one.
pub proof fn law_table_keys_act_on_the_row(app: AppView, key: Key)
    requires
        app.mode == Mode::Browse,
    ensures
        key == Key::Char(' ') ==> next(app, Input::Press(key)) == (
            toggled(app),
            EffectView::Continue,
        ),
        key == Key::Left || key == Key::Char('h') || key == Key::Char('-') ==> next(
            app,
            Input::Press(key),
        ) == (scope_adjusted(app, 1), EffectView::Continue),
        key == Key::Right || key == Key::Char('l') || key == Key::Char('+') ==> next(
            app,
            Input::Press(key),
        ) == (scope_adjusted(app, -1), EffectView::Continue),
{
}

/// In the table, `q` and Escape leave and `r` reads anew; neither changes the state.
/// Enter and `a` ask the question when a row is picked, and otherwise only say that
/// one has to be. No other key than these and those for the rows does anything.
pub proof fn law_table_keys_act_on_the_program(app: AppView, key: Key)
    requires
        app.mode == Mode::Browse,
    ensures
        key == Key::Char('q') || key == Key::Esc ==> next(app, Input::Press(key)) == (
            app,
            EffectView::Quit,
        ),
        key == Key::Char('r') ==> next(app, Input::Press(key)) == (app, EffectView::Refresh),
        key == Key::Enter || key == Key::Char('a') ==> {
            let after = next(app, Input::Press(key)).0;
            &&& next(app, Input::Press(key)).1 == EffectView::Continue
            &&& app.checked == Set::<Seq<char>>::empty() ==> same_but_status(app, after)
                && after.status == "Select at least one red [X] item first."@
            &&& app.checked != Set::<Seq<char>>::empty() ==> after == (AppView {
                mode: Mode::ConfirmApply,
                ..app
            })
        },
        ({
            &&& key != Key::Char('q') && key != Key::Esc && key != Key::Char('r')
            &&& key != Key::Enter && key != Key::Char('a') && key != Key::Char(' ')
            &&& key != Key::Down && key != Key::Char('j') && key != Key::Up && key != Key::Char('k')
            &&& key != Key::Left && key != Key::Char('h') && key != Key::Char('-')
            &&& key != Key::Right && key != Key::Char('l') && key != Key::Char('+')
        }) ==> next(app, Input::Press(key)) == (app, EffectView::Continue),
{
    assert(app.checked.is_empty() <==> app.checked =~= Set::<Seq<char>>::empty());
}

} // verus!
