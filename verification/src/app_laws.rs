//! What holds of the manager's operations, for every state.

use vstd::prelude::*;

use crate::app::{
    applied, first_spelling, is_blocked, is_first_target, is_picked, item_target, last_scope,
    law_targets_of, lemma_first_of_spelling, loaded, refreshed, rows_of, scope_adjusted,
    targets_of, toggled, with_kept_scope,
};
use crate::event_laws::{law_excluded_entry_shows, law_one_row_per_path};
use crate::events::{
    are_rows, comes_before, distinct_paths, exclusion_entries, in_order, is_row, is_row_of,
    lemma_block_counted, lemma_rows_exist,
};
use crate::keys::{next, EffectView, Input, Key};
use crate::model::{AppView, ItemView, Mode, SnapshotView};
use crate::path_laws::lemma_trim_twice;
use crate::paths::{law_longest_entry, normalized, target, widest_scope};
use crate::text::{lower, CharClass};

verus! {

/// `rows_of` gives the rows.
pub proof fn lemma_rows_of(snapshot: SnapshotView)
    ensures
        are_rows(
            snapshot.settings,
            snapshot.events,
            rows_of(snapshot.settings, snapshot.events),
        ),
{
    lemma_rows_exist(snapshot.settings, snapshot.events);
}

/// A fresh row is sound.
proof fn lemma_row_wf(snapshot: SnapshotView, r: int)
    requires
        0 <= r < rows_of(snapshot.settings, snapshot.events).len(),
    ensures
        rows_of(snapshot.settings, snapshot.events)[r].wf(),
        rows_of(snapshot.settings, snapshot.events)[r].scope == 0,
{
    lemma_rows_of(snapshot);
    let rows = rows_of(snapshot.settings, snapshot.events);
    let entries = exclusion_entries(snapshot.settings);
    assert(is_row(entries, snapshot.events, rows[r]));
    let e: int = choose|e: int| is_row_of(entries, snapshot.events, rows[r], e);
    lemma_trim_twice(
        match snapshot.events[e].path {
            Some(p) => p,
            None => Seq::empty(),
        },
        CharClass::WhiteSpace,
    );
    lemma_block_counted(snapshot.events, e);
    law_longest_entry(rows[r].path, entries);
}

/// Loading gives a sound state.
pub proof fn law_loaded_is_sound(snapshot: SnapshotView)
    ensures
        loaded(snapshot).ready(),
{
    lemma_rows_of(snapshot);
    let app = loaded(snapshot);
    law_one_row_per_path(snapshot.settings, snapshot.events, app.items);
    assert forall|i: int| 0 <= i < app.items.len() implies (#[trigger] app.items[i]).wf() by {
        lemma_row_wf(snapshot, i);
    }
}

/// Taking in a new reading gives a sound state.
pub proof fn law_refreshed_is_sound(app: AppView, snapshot: SnapshotView)
    ensures
        refreshed(app, snapshot).wf(),
        applied(app, snapshot).wf(),
{
    lemma_rows_of(snapshot);
    let fresh = rows_of(snapshot.settings, snapshot.events);
    law_one_row_per_path(snapshot.settings, snapshot.events, fresh);
    let after = refreshed(app, snapshot);
    let items = after.items;
    assert forall|i: int| 0 <= i < items.len() implies (#[trigger] items[i]).wf() by {
        lemma_row_wf(snapshot, i);
        assert(items[i] == with_kept_scope(app.items, fresh[i]));
    }
    assert forall|i: int, j: int| 0 <= i < j < items.len() implies comes_before(
        #[trigger] items[i],
        #[trigger] items[j],
    ) && items[i].path != items[j].path by {
        assert(comes_before(fresh[i], fresh[j]));
        assert(fresh[i].path != fresh[j].path);
    }
}

/// Changing the scope of a row changes nothing about order and paths.
proof fn lemma_scope_changed(items: Seq<ItemView>, changed: Seq<ItemView>, k: int, scope: nat)
    requires
        0 <= k < items.len(),
        changed == items.update(k, ItemView { scope, ..items[k] }),
        in_order(items),
        distinct_paths(items),
        scope <= widest_scope(items[k].path),
        forall|i: int| 0 <= i < items.len() ==> (#[trigger] items[i]).wf(),
    ensures
        in_order(changed),
        distinct_paths(changed),
        forall|i: int| 0 <= i < items.len() ==> (#[trigger] changed[i]).wf(),
        forall|path: Seq<char>| #[trigger]
            is_blocked(items, path) ==> is_blocked(changed, path),
{
    assert forall|i: int, j: int| 0 <= i < j < changed.len() implies comes_before(
        #[trigger] changed[i],
        #[trigger] changed[j],
    ) && changed[i].path != changed[j].path by {
        assert(comes_before(items[i], items[j]));
        assert(items[i].path != items[j].path);
    }
    assert forall|i: int| 0 <= i < items.len() implies (#[trigger] changed[i]).wf() by {
        assert(items[i].wf());
    }
    assert forall|path: Seq<char>| #[trigger] is_blocked(items, path) implies is_blocked(
        changed,
        path,
    ) by {
        let i: int = choose|i: int|
            0 <= i < items.len() && (#[trigger] items[i]).path == path && !items[i].excluded_now;
        assert(changed[i].path == path && !changed[i].excluded_now);
    }
}

/// Picking a row and putting it back keep the state sound.
pub proof fn law_toggling_stays_sound(app: AppView)
    requires
        app.wf(),
    ensures
        toggled(app).wf(),
{
    if app.selected < app.items.len() {
        let item = app.items[app.selected as int];
        if !item.excluded_now {
            assert(is_blocked(app.items, item.path));
        }
    }
}

/// Moving a row's target keeps the state sound; the scope never leaves the
/// range that is offered.
pub proof fn law_adjusting_stays_sound(app: AppView, delta: int)
    requires
        app.wf(),
    ensures
        scope_adjusted(app, delta).wf(),
{
    let after = scope_adjusted(app, delta);
    if app.selected < app.items.len() && after.items != app.items {
        let k: int = app.selected as int;
        lemma_scope_changed(app.items, after.items, k, after.items[k].scope);
    }
}

/// Whatever the terminal reports, the state stays sound, the question before
/// applying is only asked when a row is picked, and outside work is only asked
/// for while the table has the keys.
pub proof fn law_input_stays_ready(app: AppView, input: Input)
    requires
        app.ready(),
    ensures
        next(app, input).0.ready(),
        next(app, input).1 is Refresh || next(app, input).1 is Apply ==> next(app, input).0.mode
            == Mode::Browse,
{
    law_toggling_stays_sound(app);
    law_adjusting_stays_sound(app, 1);
    law_adjusting_stays_sound(app, -1);
}

/// The state is ready again once the outcome of outside work was taken in.
pub proof fn law_outcome_stays_ready(app: AppView, snapshot: SnapshotView)
    requires
        app.mode == Mode::Browse,
    ensures
        refreshed(app, snapshot).ready(),
        applied(app, snapshot).ready(),
{
    law_refreshed_is_sound(app, snapshot);
}

/// Picking a row and putting it back, or the other way round, changes nothing
/// but the status line.
pub proof fn law_toggling_twice(app: AppView)
    ensures
        toggled(toggled(app)) == (AppView { status: toggled(toggled(app)).status, ..app }),
{
    let twice = toggled(toggled(app));
    assert(twice.checked =~= app.checked);
    assert(twice =~= AppView { status: twice.status, ..app });
}

/// One level up and one level down again changes nothing but the status line,
/// while there is a level to go up.
pub proof fn law_widening_and_narrowing(app: AppView)
    requires
        app.selected < app.items.len(),
        app.items[app.selected as int].scope < widest_scope(app.items[app.selected as int].path),
    ensures
        scope_adjusted(scope_adjusted(app, 1), -1) == (AppView {
            status: scope_adjusted(scope_adjusted(app, 1), -1).status,
            ..app
        }),
{
    let back = scope_adjusted(scope_adjusted(app, 1), -1);
    assert(back.items =~= app.items);
    assert(back =~= AppView { status: back.status, ..app });
}

/// One level down and one level up again changes nothing but the status line,
/// while there is a level to go down.
pub proof fn law_narrowing_and_widening(app: AppView)
    requires
        app.selected < app.items.len(),
        0 < app.items[app.selected as int].scope <= widest_scope(
            app.items[app.selected as int].path,
        ),
    ensures
        scope_adjusted(scope_adjusted(app, -1), 1) == (AppView {
            status: scope_adjusted(scope_adjusted(app, -1), 1).status,
            ..app
        }),
{
    let back = scope_adjusted(scope_adjusted(app, -1), 1);
    assert(back.items =~= app.items);
    assert(back =~= AppView { status: back.status, ..app });
}

/// An excluded row can neither be picked nor widened.
pub proof fn law_excluded_row_is_fixed(app: AppView, delta: int)
    requires
        app.selected < app.items.len(),
        app.items[app.selected as int].excluded_now,
    ensures
        toggled(app) == (AppView { status: toggled(app).status, ..app }),
        scope_adjusted(app, delta) == (AppView {
            status: scope_adjusted(app, delta).status,
            ..app
        }),
{
}

/// Exclusions are only applied after the question was answered with yes, and
/// then exactly the targets of the picked rows are.
pub proof fn law_applying_needs_confirmation(app: AppView, input: Input)
    ensures
        next(app, input).1 matches EffectView::Apply { paths, write_policy } ==> {
            &&& app.mode == Mode::ConfirmApply
            &&& input == Input::Press(Key::Enter) || input == Input::Press(Key::Char('y'))
            &&& paths == targets_of(app)
            &&& write_policy == app.policy_enabled
            &&& targets_of(next(app, input).0) == paths
        },
        app.mode == Mode::Browse && next(app, input).0.mode == Mode::ConfirmApply ==> next(
            app,
            input,
        ).1 is Continue && !app.checked.is_empty(),
{
}

/// Whatever is applied is the target of a row that is picked and blocked.
pub proof fn law_only_blocked_rows_are_applied(app: AppView, k: int)
    requires
        app.wf(),
        0 <= k < targets_of(app).len(),
    ensures
        exists|i: int| #[trigger]
            is_picked(app.items, app.checked, i) && !app.items[i].excluded_now && item_target(
                app.items[i],
            ) == targets_of(app)[k],
{
    law_targets_of(app);
    let list = targets_of(app);
    assert(is_first_target(app.items, app.checked, list[k]));
    let i: int = choose|i: int| #[trigger]
        first_spelling(app.items, app.checked, i) && item_target(app.items[i]) == list[k];
    let path = app.items[i].path;
    assert(is_blocked(app.items, path));
    let j: int = choose|j: int|
        0 <= j < app.items.len() && (#[trigger] app.items[j]).path == path
            && !app.items[j].excluded_now;
    if i < j {
        assert(app.items[i].path != app.items[j].path);
    } else if j < i {
        assert(app.items[j].path != app.items[i].path);
    }
    assert(is_picked(app.items, app.checked, i));
}

/// Every picked row's target is applied, letter case aside.
pub proof fn law_every_picked_row_is_applied(app: AppView, i: int)
    requires
        is_picked(app.items, app.checked, i),
    ensures
        exists|k: int|
            0 <= k < targets_of(app).len() && lower(#[trigger] targets_of(app)[k]) == lower(
                item_target(app.items[i]),
            ),
{
    law_targets_of(app);
    let f: int = lemma_first_of_spelling(app.items, app.checked, i);
    let list = targets_of(app);
    assert(list.contains(item_target(app.items[f])));
    let k: int = choose|k: int| 0 <= k < list.len() && list[k] == item_target(app.items[f]);
    assert(lower(list[k]) == lower(item_target(app.items[i])));
}

/// When something is picked there is something to apply.
pub proof fn law_picked_means_something_to_apply(app: AppView)
    requires
        app.wf(),
        !app.checked.is_empty(),
    ensures
        targets_of(app).len() > 0,
{
    let path = choose|path: Seq<char>| app.checked.contains(path);
    assert(app.checked.contains(path)) by {
        if forall|p: Seq<char>| !app.checked.contains(p) {
            assert(app.checked =~= Set::empty());
        }
    }
    assert(is_blocked(app.items, path));
    let i: int = choose|i: int|
        0 <= i < app.items.len() && (#[trigger] app.items[i]).path == path
            && !app.items[i].excluded_now;
    assert(is_picked(app.items, app.checked, i));
    law_every_picked_row_is_applied(app, i);
}

/// The scope of a path that one row has.
proof fn lemma_scope_of_row(items: Seq<ItemView>, k: int)
    requires
        distinct_paths(items),
        0 <= k < items.len(),
    ensures
        last_scope(items, items[k].path) == Some(items[k].scope),
    decreases items.len(),
{
    if k < items.len() - 1 {
        assert(items[k].path != items[items.len() - 1].path);
        let before = items.drop_last();
        assert forall|i: int, j: int| 0 <= i < j < before.len() implies (
        #[trigger] before[i]).path != (#[trigger] before[j]).path by {
            assert(items[i].path != items[j].path);
        }
        lemma_scope_of_row(before, k);
    }
}

/// Reading the same events and exclusions again changes neither rows nor
/// scopes, neither what is picked nor what is highlighted.
pub proof fn law_refreshing_without_news(app: AppView, snapshot: SnapshotView)
    requires
        app.wf(),
        app.items.map_values(|item: ItemView| ItemView { scope: 0, ..item }) == rows_of(
            snapshot.settings,
            snapshot.events,
        ),
        app.policy_enabled == snapshot.settings.policy_enabled,
    ensures
        refreshed(app, snapshot) == (AppView { status: refreshed(app, snapshot).status, ..app }),
{
    let fresh = rows_of(snapshot.settings, snapshot.events);
    let after = refreshed(app, snapshot);
    assert forall|i: int| 0 <= i < fresh.len() implies after.items[i] == app.items[i] by {
        lemma_scope_of_row(app.items, i);
        assert(fresh[i] == (ItemView { scope: 0, ..app.items[i] }));
        assert(app.items[i].wf());
        assert(after.items[i] == with_kept_scope(app.items, fresh[i]));
    }
    assert(after.items =~= app.items);
    assert(after.checked =~= app.checked);
    assert(after =~= AppView { status: after.status, ..app });
}

/// A row that is still there keeps its scope over a new reading.
pub proof fn law_refreshing_keeps_scopes(app: AppView, snapshot: SnapshotView, i: int, k: int)
    requires
        app.wf(),
        0 <= i < app.items.len(),
        0 <= k < refreshed(app, snapshot).items.len(),
        refreshed(app, snapshot).items[k].path == app.items[i].path,
    ensures
        refreshed(app, snapshot).items[k].scope == app.items[i].scope,
{
    let fresh = rows_of(snapshot.settings, snapshot.events);
    assert(refreshed(app, snapshot).items[k] == with_kept_scope(app.items, fresh[k]));
    lemma_scope_of_row(app.items, i);
    assert(app.items[i].wf());
}

/// Once the applied targets stand in the exclusion lists, the rows that were
/// picked are excluded, and none of them is picked any more, unless normalizing
/// leaves nothing of a path.
pub proof fn law_applied_rows_are_excluded(app: AppView, snapshot: SnapshotView, i: int)
    requires
        app.wf(),
        is_picked(app.items, app.checked, i),
        normalized(app.items[i].path).len() > 0,
        forall|k: int|
            0 <= k < targets_of(app).len() ==> (snapshot.settings.local
                + snapshot.settings.policy).contains(#[trigger] targets_of(app)[k]),
    ensures
        !is_blocked(applied(app, snapshot).items, app.items[i].path),
        !applied(app, snapshot).checked.contains(app.items[i].path),
{
    let path = app.items[i].path;
    let scope = app.items[i].scope;
    let lists = snapshot.settings.local + snapshot.settings.policy;
    law_every_picked_row_is_applied(app, i);
    let k: int = choose|k: int|
        0 <= k < targets_of(app).len() && lower(#[trigger] targets_of(app)[k]) == lower(
            item_target(app.items[i]),
        );
    assert(lists.contains(targets_of(app)[k]));
    let items = applied(app, snapshot).items;
    let fresh = rows_of(snapshot.settings, snapshot.events);
    lemma_rows_of(snapshot);
    assert(app.items[i].wf());
    assert forall|j: int| 0 <= j < items.len() && (#[trigger] items[j]).path == path implies
        items[j].excluded_now by {
        assert(items[j] == with_kept_scope(app.items, fresh[j]));
        law_excluded_entry_shows(
            snapshot.settings,
            snapshot.events,
            fresh,
            j,
            scope,
            targets_of(app)[k],
        );
    }
}

} // verus!
