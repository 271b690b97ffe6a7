//! What the rows say about the events, for every reading of Defender's state.

use vstd::prelude::*;

use crate::app::{loaded, rows_of};
use crate::app_laws::lemma_rows_of;
use crate::event_laws::law_one_row_per_path;
use crate::events::{
    block_count, comes_before, event_path, exclusion_entries, has_path, is_latest, is_row,
    is_row_of,
};
use crate::model::{EventView, ItemView, Mode, SnapshotView};
use crate::paths::{entry_covers, law_longest_entry, normalized};
use crate::text::{decimal, lemma_less_strict, less, CharClass};
use crate::text_laws::law_trim_takes_the_ends;

verus! {

/// Whether `text` is `path` at `i` with white space around it.
pub open spec fn surrounds(text: Seq<char>, path: Seq<char>, i: int) -> bool {
    &&& 0 <= i
    &&& i + path.len() <= text.len()
    &&& text.subrange(i, i + path.len()) == path
    &&& forall|j: int| 0 <= j < i ==> CharClass::WhiteSpace.has(#[trigger] text[j])
    &&& forall|j: int|
        i + path.len() <= j < text.len() ==> CharClass::WhiteSpace.has(#[trigger] text[j])
}

/// Whether an event is about `path`: its path is that path with nothing but white
/// space around it.
pub open spec fn is_about(event: EventView, path: Seq<char>) -> bool {
    &&& path.len() > 0
    &&& !CharClass::WhiteSpace.has(path[0])
    &&& !CharClass::WhiteSpace.has(path.last())
    &&& event.path is Some
    &&& exists|i: int| surrounds(event.path->0, path, i)
}

/// An event is about one path, and it is about one whenever its path has a
/// character that is no white space.
pub proof fn law_event_is_about_one_path(event: EventView, path: Seq<char>)
    ensures
        is_about(event, path) <==> event_path(event) == path && path.len() > 0,
        event.path is Some && (exists|j: int|
            0 <= j < event.path->0.len() && !CharClass::WhiteSpace.has(
                #[trigger] event.path->0[j],
            )) ==> is_about(event, event_path(event)),
{
    let white = CharClass::WhiteSpace;
    let text = match event.path {
        Some(text) => text,
        None => Seq::empty(),
    };
    let (a, b) = law_trim_takes_the_ends(text, white);
    let own = event_path(event);
    assert(own == text.subrange(a, b));
    if event.path is Some {
        if own.len() > 0 {
            assert(own[0] == text[a] && own.last() == text[b - 1]);
            assert(surrounds(text, own, a));
        }
        if is_about(event, path) {
            let i: int = choose|i: int| surrounds(text, path, i);
            assert(text.subrange(i, i + path.len())[0] == text[i]);
            assert(text.subrange(i, i + path.len()).last() == text[i + path.len() - 1]);
            assert(a < b) by {
                if a >= b {
                    assert(white.has(text[i]));
                }
            }
            assert(a == i) by {
                if a < i {
                    assert(white.has(text[a]));
                } else if i < a {
                    assert(white.has(text[i]));
                }
            }
            assert(b == i + path.len()) by {
                if b < i + path.len() {
                    assert(white.has(text[i + path.len() - 1]));
                } else if b > i + path.len() {
                    assert(white.has(text[b - 1]));
                }
            }
        }
        if exists|j: int| 0 <= j < text.len() && !white.has(#[trigger] text[j]) {
            let j: int = choose|j: int| 0 <= j < text.len() && !white.has(#[trigger] text[j]);
            assert(a <= j < b);
        }
    }
}

/// Every row is about the path of some event, unchanged but for outer white space.
pub proof fn law_row_has_the_path_of_an_event(snapshot: SnapshotView, r: int)
    requires
        0 <= r < loaded(snapshot).items.len(),
    ensures
        exists|e: int|
            0 <= e < snapshot.events.len() && is_about(
                #[trigger] snapshot.events[e],
                loaded(snapshot).items[r].path,
            ),
{
    let e: int = lemma_latest(snapshot, r);
    law_event_is_about_one_path(snapshot.events[e], loaded(snapshot).items[r].path);
    assert(is_about(snapshot.events[e], loaded(snapshot).items[r].path));
}

/// The event that a row comes from.
proof fn lemma_latest(snapshot: SnapshotView, r: int) -> (e: int)
    requires
        0 <= r < loaded(snapshot).items.len(),
    ensures
        is_row_of(
            exclusion_entries(snapshot.settings),
            snapshot.events,
            loaded(snapshot).items[r],
            e,
        ),
{
    lemma_rows_of(snapshot);
    let rows = loaded(snapshot).items;
    let entries = exclusion_entries(snapshot.settings);
    assert(is_row(entries, snapshot.events, rows[r]));
    choose|e: int| is_row_of(entries, snapshot.events, rows[r], e)
}

/// Every path that an event is about has exactly one row, so two events share a
/// row exactly when their paths differ in outer white space only.
pub proof fn law_each_path_has_one_row(snapshot: SnapshotView, e: int, path: Seq<char>)
    requires
        0 <= e < snapshot.events.len(),
        is_about(snapshot.events[e], path),
    ensures
        exists|r: int|
            0 <= r < loaded(snapshot).items.len() && (#[trigger] loaded(snapshot).items[r]).path
                == path,
        forall|r: int, t: int|
            0 <= r < loaded(snapshot).items.len() && 0 <= t < loaded(snapshot).items.len() && (
            #[trigger] loaded(snapshot).items[r]).path == path && (
            #[trigger] loaded(snapshot).items[t]).path == path ==> r == t,
{
    lemma_rows_of(snapshot);
    let rows = loaded(snapshot).items;
    law_event_is_about_one_path(snapshot.events[e], path);
    assert(has_path(rows, event_path(snapshot.events[e])));
    let k: int = choose|k: int| 0 <= k < rows.len() && (#[trigger] rows[k]).path == path;
    assert(loaded(snapshot).items[k].path == path);
    law_one_row_per_path(snapshot.settings, snapshot.events, rows);
    assert forall|r: int, t: int|
        0 <= r < rows.len() && 0 <= t < rows.len() && (#[trigger] rows[r]).path == path && (
        #[trigger] rows[t]).path == path implies r == t by {
        if r < t {
            assert(rows[r].path != rows[t].path);
        } else if t < r {
            assert(rows[t].path != rows[r].path);
        }
    }
}

proof fn lemma_counted(events: Seq<EventView>, path: Seq<char>)
    requires
        path.len() > 0,
    ensures
        block_count(events, path) == events.filter(|e: EventView| is_about(e, path)).len(),
    decreases events.len(),
{
    let pred = |e: EventView| is_about(e, path);
    if events.len() == 0 {
        reveal(Seq::filter);
    } else {
        let before = events.drop_last();
        lemma_counted(before, path);
        assert(events =~= before.push(events.last()));
        before.lemma_filter_push(events.last(), pred);
        law_event_is_about_one_path(events.last(), path);
    }
}

/// The count of a row is the number of events about its path.
pub proof fn law_row_counts_its_events(snapshot: SnapshotView, r: int)
    requires
        0 <= r < loaded(snapshot).items.len(),
    ensures
        ({
            let path = loaded(snapshot).items[r].path;
            loaded(snapshot).items[r].occurrences == snapshot.events.filter(
                |e: EventView| is_about(e, path),
            ).len()
        }),
{
    let e: int = lemma_latest(snapshot, r);
    lemma_counted(snapshot.events, loaded(snapshot).items[r].path);
}

/// Whether a row shows event `e`: its time, its process and its rule.
pub open spec fn shows(item: ItemView, event: EventView) -> bool {
    &&& item.time == event.time
    &&& event.process is Some ==> item.process == event.process->0
    &&& event.process is None ==> item.process == "<not recorded>"@
    &&& event.rule is Some ==> item.rule == event.rule->0
    &&& event.rule is None ==> item.rule == "<not recorded>"@
}

/// Whether event `e` is about `path`, no event about it is later, and none before
/// it in the list has the same time.
pub open spec fn is_last_block(events: Seq<EventView>, path: Seq<char>, e: int) -> bool {
    &&& 0 <= e < events.len()
    &&& is_about(events[e], path)
    &&& forall|j: int|
        0 <= j < events.len() && is_about(#[trigger] events[j], path) ==> !less(
            events[e].time,
            events[j].time,
        ) && (j < e ==> events[j].time != events[e].time)
}

/// A row shows the latest event about its path, the first of those at one time.
pub proof fn law_row_shows_the_latest_event(snapshot: SnapshotView, r: int)
    requires
        0 <= r < loaded(snapshot).items.len(),
    ensures
        exists|e: int| #[trigger]
            is_last_block(snapshot.events, loaded(snapshot).items[r].path, e) && shows(
                loaded(snapshot).items[r],
                snapshot.events[e],
            ),
{
    let e: int = lemma_latest(snapshot, r);
    let events = snapshot.events;
    let path = loaded(snapshot).items[r].path;
    law_event_is_about_one_path(events[e], path);
    assert(is_latest(events, e));
    assert forall|j: int|
        0 <= j < events.len() && is_about(#[trigger] events[j], path) implies !less(
        events[e].time,
        events[j].time,
    ) && (j < e ==> events[j].time != events[e].time) by {
        law_event_is_about_one_path(events[j], path);
        lemma_less_strict(events[j].time, events[e].time);
    }
    assert(is_last_block(events, path, e));
    assert(shows(loaded(snapshot).items[r], events[e]));
}

/// A row is excluded exactly when an exclusion of one of the lists covers its path,
/// and it names the longest that does.
pub proof fn law_row_names_the_longest_exclusion(snapshot: SnapshotView, r: int)
    requires
        0 <= r < loaded(snapshot).items.len(),
    ensures
        ({
            let item = loaded(snapshot).items[r];
            let lists = snapshot.settings.local + snapshot.settings.policy;
            &&& item.excluded_now <==> exists|i: int|
                0 <= i < lists.len() && entry_covers(#[trigger] lists[i], item.path)
            &&& item.excluded_now <==> item.excluded_by is Some
            &&& item.excluded_now ==> exists|i: int|
                0 <= i < lists.len() && entry_covers(#[trigger] lists[i], item.path) && normalized(
                    lists[i],
                ) == item.excluded_by->0
            &&& item.excluded_now ==> forall|i: int|
                0 <= i < lists.len() && entry_covers(#[trigger] lists[i], item.path)
                    ==> normalized(lists[i]).len() <= item.excluded_by->0.len()
        }),
{
    let e: int = lemma_latest(snapshot, r);
    let lists = snapshot.settings.local + snapshot.settings.policy;
    law_longest_entry(loaded(snapshot).items[r].path, lists);
}

/// The rows stand with the latest first, and by path where the times are the same.
pub proof fn law_latest_rows_come_first(snapshot: SnapshotView, i: int, j: int)
    requires
        0 <= i < j < loaded(snapshot).items.len(),
    ensures
        ({
            let a = loaded(snapshot).items[i];
            let b = loaded(snapshot).items[j];
            less(b.time, a.time) || (a.time == b.time && less(a.path, b.path))
        }),
{
    lemma_rows_of(snapshot);
    let rows = rows_of(snapshot.settings, snapshot.events);
    assert(comes_before(rows[i], rows[j]));
}

/// A fresh state highlights the first row, picks nothing, aims at the files
/// themselves, and says how many rows there are.
pub proof fn law_fresh_state(snapshot: SnapshotView)
    ensures
        loaded(snapshot).selected == 0,
        loaded(snapshot).checked == Set::<Seq<char>>::empty(),
        loaded(snapshot).policy_enabled == snapshot.settings.policy_enabled,
        loaded(snapshot).mode == Mode::Browse,
        forall|r: int|
            0 <= r < loaded(snapshot).items.len() ==> (#[trigger] loaded(snapshot).items[r]).scope
                == 0,
        loaded(snapshot).items.len() == 0 ==> loaded(snapshot).status
            == "No recent ASR block events were found."@,
        loaded(snapshot).items.len() > 0 ==> loaded(snapshot).status == decimal(
            loaded(snapshot).items.len(),
        )
            + " unique blocked paths. Space selects; Left/Right widen/narrow to a folder; Enter applies; r refreshes; q quits."@,
{
    assert forall|r: int| 0 <= r < loaded(snapshot).items.len() implies (
    #[trigger] loaded(snapshot).items[r]).scope == 0 by {
        let e: int = lemma_latest(snapshot, r);
    }
}

} // verus!
