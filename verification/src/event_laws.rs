//! What holds of the rows, for every list of events.

use vstd::prelude::*;

use crate::events::{
    are_rows, block_count, comes_before, distinct_paths, event_path, exclusion_entries, has_path,
    in_order, is_latest, is_row, is_row_of, lemma_before_strict, rows_cover_events,
    rows_from_events,
};
use crate::model::{EventView, ItemView, SettingsView};
use crate::path_laws::{
    law_letter_case_does_not_matter, law_target_covers_its_path, lemma_trim_twice,
};
use crate::paths::{entry_covers, law_longest_entry, normalized, target, widest_scope};
use crate::text::{lower, CharClass};

verus! {

/// There is one latest event about a path.
proof fn lemma_one_latest(events: Seq<EventView>, i: int, j: int)
    requires
        is_latest(events, i),
        is_latest(events, j),
        event_path(events[i]) == event_path(events[j]),
    ensures
        i == j,
{
}

/// Two rows about the same path are the same row.
proof fn lemma_one_row(
    entries: Seq<Seq<char>>,
    events: Seq<EventView>,
    a: ItemView,
    b: ItemView,
)
    requires
        is_row(entries, events, a),
        is_row(entries, events, b),
        a.path == b.path,
    ensures
        a == b,
{
    let i: int = choose|i: int| is_row_of(entries, events, a, i);
    let j: int = choose|j: int| is_row_of(entries, events, b, j);
    lemma_one_latest(events, i, j);
}

/// Each blocked path has one row.
pub proof fn law_one_row_per_path(
    settings: SettingsView,
    events: Seq<EventView>,
    rows: Seq<ItemView>,
)
    requires
        are_rows(settings, events, rows),
    ensures
        distinct_paths(rows),
{
    let entries = exclusion_entries(settings);
    assert forall|i: int, j: int| 0 <= i < j < rows.len() implies (#[trigger] rows[i]).path != (
    #[trigger] rows[j]).path by {
        if rows[i].path == rows[j].path {
            assert(is_row(entries, events, rows[i]));
            assert(is_row(entries, events, rows[j]));
            lemma_one_row(entries, events, rows[i], rows[j]);
            lemma_before_strict(rows[i], rows[j]);
        }
    }
}

/// Every row of one list stands in the other.
proof fn lemma_same_contents(
    settings: SettingsView,
    events: Seq<EventView>,
    a: Seq<ItemView>,
    b: Seq<ItemView>,
    i: int,
)
    requires
        are_rows(settings, events, a),
        are_rows(settings, events, b),
        0 <= i < a.len(),
    ensures
        b.contains(a[i]),
{
    let entries = exclusion_entries(settings);
    assert(is_row(entries, events, a[i]));
    let e: int = choose|e: int| is_row_of(entries, events, a[i], e);
    assert(has_path(b, event_path(events[e])));
    let r: int = choose|r: int|
        0 <= r < b.len() && (#[trigger] b[r]).path == event_path(events[e]);
    assert(is_row(entries, events, b[r]));
    lemma_one_row(entries, events, a[i], b[r]);
}

/// Two ordered lists with the same rows are equal.
proof fn lemma_order_determines(a: Seq<ItemView>, b: Seq<ItemView>)
    requires
        in_order(a),
        in_order(b),
        forall|x: ItemView| #[trigger] a.contains(x) <==> b.contains(x),
    ensures
        a == b,
    decreases a.len(),
{
    if a.len() == 0 {
        if b.len() > 0 {
            assert(b.contains(b[0]) && !a.contains(b[0]));
        }
        assert(a =~= b);
    } else {
        assert(a.contains(a[0]));
        let k: int = choose|k: int| 0 <= k < b.len() && b[k] == a[0];
        assert(b.contains(b[0]) && a.contains(b[0]));
        let m: int = choose|m: int| 0 <= m < a.len() && a[m] == b[0];
        if k > 0 {
            assert(comes_before(b[0], b[k]));
            if m > 0 {
                assert(comes_before(a[0], a[m]));
            }
            lemma_before_strict(a[0], b[0]);
        }
        assert(a[0] == b[0]);
        let c = a.drop_first();
        let d = b.drop_first();
        assert forall|x: ItemView| #[trigger] c.contains(x) <==> d.contains(x) by {
            lemma_rest_contains(a, x);
            lemma_rest_contains(b, x);
        }
        assert forall|i: int, j: int| 0 <= i < j < c.len() implies comes_before(
            #[trigger] c[i],
            #[trigger] c[j],
        ) by {
            assert(comes_before(a[i + 1], a[j + 1]));
        }
        assert forall|i: int, j: int| 0 <= i < j < d.len() implies comes_before(
            #[trigger] d[i],
            #[trigger] d[j],
        ) by {
            assert(comes_before(b[i + 1], b[j + 1]));
        }
        lemma_order_determines(c, d);
        assert(a =~= seq![a[0]] + c);
        assert(b =~= seq![b[0]] + d);
    }
}

proof fn lemma_rest_contains(a: Seq<ItemView>, x: ItemView)
    requires
        in_order(a),
        a.len() > 0,
    ensures
        a.drop_first().contains(x) <==> a.contains(x) && x != a[0],
{
    let c = a.drop_first();
    if c.contains(x) {
        let i: int = choose|i: int| 0 <= i < c.len() && c[i] == x;
        assert(a[i + 1] == x);
        assert(comes_before(a[0], a[i + 1]));
        lemma_before_strict(a[0], a[0]);
    }
    if a.contains(x) && x != a[0] {
        let i: int = choose|i: int| 0 <= i < a.len() && a[i] == x;
        assert(c[i - 1] == x);
    }
}

/// The events and the exclusions determine the rows and their order.
pub proof fn law_rows_determined(
    settings: SettingsView,
    events: Seq<EventView>,
    a: Seq<ItemView>,
    b: Seq<ItemView>,
)
    requires
        are_rows(settings, events, a),
        are_rows(settings, events, b),
    ensures
        a == b,
{
    assert forall|x: ItemView| #[trigger] a.contains(x) <==> b.contains(x) by {
        if a.contains(x) {
            let i: int = choose|i: int| 0 <= i < a.len() && a[i] == x;
            lemma_same_contents(settings, events, a, b, i);
        }
        if b.contains(x) {
            let i: int = choose|i: int| 0 <= i < b.len() && b[i] == x;
            lemma_same_contents(settings, events, b, a, i);
        }
    }
    lemma_order_determines(a, b);
}

/// How many blocks the rows stand for.
pub open spec fn total_occurrences(rows: Seq<ItemView>) -> nat
    decreases rows.len(),
{
    if rows.len() == 0 {
        0
    } else {
        total_occurrences(rows.drop_last()) + rows.last().occurrences
    }
}

/// How many events name a path.
pub open spec fn named_events(events: Seq<EventView>) -> nat
    decreases events.len(),
{
    if events.len() == 0 {
        0
    } else {
        named_events(events.drop_last()) + if event_path(events.last()).len() > 0 {
            1nat
        } else {
            0
        }
    }
}

/// How many of `events` are about the paths of `rows`, counted row by row.
spec fn counted(events: Seq<EventView>, rows: Seq<ItemView>) -> nat
    decreases rows.len(),
{
    if rows.len() == 0 {
        0
    } else {
        counted(events, rows.drop_last()) + block_count(events, rows.last().path)
    }
}

proof fn lemma_count_one_more(events: Seq<EventView>, rows: Seq<ItemView>)
    requires
        events.len() > 0,
        distinct_paths(rows),
    ensures
        counted(events, rows) == counted(events.drop_last(), rows) + if has_path(
            rows,
            event_path(events.last()),
        ) {
            1nat
        } else {
            0
        },
    decreases rows.len(),
{
    let path = event_path(events.last());
    if rows.len() > 0 {
        let before = rows.drop_last();
        assert(distinct_paths(before)) by {
            assert forall|i: int, j: int| 0 <= i < j < before.len() implies (
            #[trigger] before[i]).path != (#[trigger] before[j]).path by {
                assert(rows[i].path != rows[j].path);
            }
        }
        lemma_count_one_more(events, before);
        if has_path(before, path) {
            let r: int = choose|r: int| 0 <= r < before.len() && (#[trigger] before[r]).path
                == path;
            assert(rows[r].path == path);
            assert(rows[r].path != rows[rows.len() - 1].path);
        } else if has_path(rows, path) {
            let r: int = choose|r: int| 0 <= r < rows.len() && (#[trigger] rows[r]).path == path;
            if r < before.len() {
                assert(before[r].path == path);
            }
        } else {
            assert(rows[rows.len() - 1].path != path);
        }
    }
}

proof fn lemma_counted_is_named(events: Seq<EventView>, rows: Seq<ItemView>)
    requires
        distinct_paths(rows),
        rows_cover_events(events, rows),
        forall|r: int| 0 <= r < rows.len() ==> (#[trigger] rows[r]).path.len() > 0,
    ensures
        counted(events, rows) == named_events(events),
    decreases events.len(),
{
    if events.len() == 0 {
        lemma_counted_nothing(events, rows);
    } else {
        let before = events.drop_last();
        assert forall|i: int|
            0 <= i < before.len() && event_path(#[trigger] before[i]).len() > 0 implies has_path(
            rows,
            event_path(before[i]),
        ) by {
            assert(before[i] == events[i]);
        }
        lemma_counted_is_named(before, rows);
        lemma_count_one_more(events, rows);
        let last = events[events.len() - 1];
        assert(event_path(last).len() > 0 ==> has_path(rows, event_path(last)));
    }
}

proof fn lemma_counted_nothing(events: Seq<EventView>, rows: Seq<ItemView>)
    requires
        events.len() == 0,
    ensures
        counted(events, rows) == 0,
    decreases rows.len(),
{
    if rows.len() > 0 {
        lemma_counted_nothing(events, rows.drop_last());
    }
}

proof fn lemma_total_is_counted(
    entries: Seq<Seq<char>>,
    events: Seq<EventView>,
    rows: Seq<ItemView>,
)
    requires
        rows_from_events(entries, events, rows),
    ensures
        total_occurrences(rows) == counted(events, rows),
    decreases rows.len(),
{
    if rows.len() > 0 {
        let before = rows.drop_last();
        assert forall|r: int| 0 <= r < before.len() implies is_row(
            entries,
            events,
            #[trigger] before[r],
        ) by {
            assert(before[r] == rows[r]);
        }
        lemma_total_is_counted(entries, events, before);
        assert(is_row(entries, events, rows[rows.len() - 1]));
    }
}

/// The counts of the rows add up to the number of events that name a path.
pub proof fn law_every_block_counted(
    settings: SettingsView,
    events: Seq<EventView>,
    rows: Seq<ItemView>,
)
    requires
        are_rows(settings, events, rows),
    ensures
        total_occurrences(rows) == named_events(events),
{
    let entries = exclusion_entries(settings);
    law_one_row_per_path(settings, events, rows);
    lemma_total_is_counted(entries, events, rows);
    assert forall|r: int| 0 <= r < rows.len() implies (#[trigger] rows[r]).path.len() > 0 by {
        assert(is_row(entries, events, rows[r]));
    }
    lemma_counted_is_named(events, rows);
}

/// A row is marked as excluded exactly when an exclusion of the local list or of
/// the policy list covers its path: one that names a folder above it, or one that
/// names the path itself.
pub proof fn law_row_is_excluded_when_covered(
    settings: SettingsView,
    events: Seq<EventView>,
    rows: Seq<ItemView>,
    r: int,
)
    requires
        are_rows(settings, events, rows),
        0 <= r < rows.len(),
    ensures
        rows[r].excluded_now <==> exists|e: int|
            0 <= e < (settings.local + settings.policy).len() && entry_covers(
                #[trigger] (settings.local + settings.policy)[e],
                rows[r].path,
            ),
        rows[r].excluded_by is Some <==> rows[r].excluded_now,
{
    let entries = exclusion_entries(settings);
    assert(is_row(entries, events, rows[r]));
    law_longest_entry(rows[r].path, entries);
    if rows[r].excluded_now {
        let e: int = choose|e: int|
            0 <= e < entries.len() && entry_covers(#[trigger] entries[e], rows[r].path)
                && normalized(entries[e]) == rows[r].excluded_by->0;
        assert(entry_covers((settings.local + settings.policy)[e], rows[r].path));
    }
}

/// Once the target of a row stands in one of the exclusion lists, in whatever
/// letter case, the row for that path counts as excluded, unless normalizing
/// leaves nothing of the path.
pub proof fn law_excluded_entry_shows(
    settings: SettingsView,
    events: Seq<EventView>,
    rows: Seq<ItemView>,
    r: int,
    scope: nat,
    entry: Seq<char>,
)
    requires
        are_rows(settings, events, rows),
        0 <= r < rows.len(),
        scope <= widest_scope(rows[r].path),
        normalized(rows[r].path).len() > 0,
        lower(entry) == lower(target(rows[r].path, scope)),
        (settings.local + settings.policy).contains(entry),
    ensures
        rows[r].excluded_now,
        rows[r].excluded_by is Some,
{
    let entries = exclusion_entries(settings);
    let path = rows[r].path;
    assert(is_row(entries, events, rows[r]));
    let e: int = choose|e: int| is_row_of(entries, events, rows[r], e);
    lemma_trim_twice(
        match events[e].path {
            Some(p) => p,
            None => Seq::empty(),
        },
        CharClass::WhiteSpace,
    );
    law_target_covers_its_path(path, scope);
    law_letter_case_does_not_matter(entry, target(path, scope));
    let k: int = choose|k: int| 0 <= k < entries.len() && entries[k] == entry;
    assert(entry_covers(entries[k], path));
    law_row_is_excluded_when_covered(settings, events, rows, r);
}

} // verus!
