//! From block events to rows: one row for each blocked path, the latest block
//! first.

use vstd::prelude::*;

use crate::model::{
    events_view, items_view, BlockedItem, EventView, ExclusionSettings, ItemView, RawEvent,
    SettingsView,
};
use crate::paths::{covering_entry, longest_entry};
use crate::text::{
    chars_of, lemma_less_strict, lemma_less_total, lemma_less_transitive, less, less_chars,
    string_of, texts, trim, trim_chars, CharClass,
};

verus! {

/// The path that an event is grouped by; an event whose path is blank is left out.
pub open spec fn event_path(event: EventView) -> Seq<char> {
    trim(
        match event.path {
            Some(path) => path,
            None => Seq::empty(),
        },
        CharClass::WhiteSpace,
    )
}

/// How many of `events` are about `path`.
pub open spec fn block_count(events: Seq<EventView>, path: Seq<char>) -> nat
    decreases events.len(),
{
    if events.len() == 0 {
        0
    } else {
        block_count(events.drop_last(), path) + if event_path(events.last()) == path {
            1nat
        } else {
            0
        }
    }
}

/// Whether event `i` is the latest about its path: none is later, and of those
/// at the same time it is the first in the list.
pub open spec fn is_latest(events: Seq<EventView>, i: int) -> bool {
    &&& 0 <= i < events.len()
    &&& forall|j: int|
        0 <= j < events.len() && event_path(#[trigger] events[j]) == event_path(events[i])
            ==> !less(events[i].time, events[j].time) && (j < i ==> less(
            events[j].time,
            events[i].time,
        ))
}

/// The exclusions that paths are held against.
pub open spec fn exclusion_entries(settings: SettingsView) -> Seq<Seq<char>> {
    settings.local + settings.policy
}

/// What a row shows in place of a field that the event lacks.
pub open spec fn recorded(field: Option<Seq<char>>) -> Seq<char> {
    match field {
        Some(text) => text,
        None => "<not recorded>"@,
    }
}

/// The row for the latest event about a path.
pub open spec fn row(entries: Seq<Seq<char>>, latest: EventView, occurrences: nat) -> ItemView {
    let path = event_path(latest);
    let cover = longest_entry(path, entries);
    ItemView {
        time: latest.time,
        path,
        process: recorded(latest.process),
        rule: recorded(latest.rule),
        occurrences,
        excluded_now: cover is Some,
        excluded_by: cover,
        scope: 0,
    }
}

/// The order of the rows: the latest block first, at the same time by path.
pub open spec fn comes_before(a: ItemView, b: ItemView) -> bool {
    less(b.time, a.time) || (a.time == b.time && less(a.path, b.path))
}

/// Whether the rows stand in their order.
pub open spec fn in_order(rows: Seq<ItemView>) -> bool {
    forall|i: int, j: int|
        0 <= i < j < rows.len() ==> comes_before(#[trigger] rows[i], #[trigger] rows[j])
}

/// Whether `item` is the row of its path.
pub open spec fn is_row_of(
    entries: Seq<Seq<char>>,
    events: Seq<EventView>,
    item: ItemView,
    i: int,
) -> bool {
    &&& is_latest(events, i)
    &&& event_path(events[i]).len() > 0
    &&& item == row(entries, events[i], block_count(events, event_path(events[i])))
}

/// Whether `item` is the row of the latest of `events` about some path.
pub open spec fn is_row(entries: Seq<Seq<char>>, events: Seq<EventView>, item: ItemView) -> bool {
    exists|i: int| is_row_of(entries, events, item, i)
}

/// Whether every row comes from the latest event about its path.
pub open spec fn rows_from_events(
    entries: Seq<Seq<char>>,
    events: Seq<EventView>,
    rows: Seq<ItemView>,
) -> bool {
    forall|r: int|
        0 <= r < rows.len() ==> is_row(entries, events, #[trigger] rows[r])
}

/// Whether some row is about `path`.
pub open spec fn has_path(rows: Seq<ItemView>, path: Seq<char>) -> bool {
    exists|r: int| 0 <= r < rows.len() && (#[trigger] rows[r]).path == path
}

/// Whether every path that an event names has a row.
pub open spec fn rows_cover_events(events: Seq<EventView>, rows: Seq<ItemView>) -> bool {
    forall|i: int|
        0 <= i < events.len() && event_path(#[trigger] events[i]).len() > 0 ==> has_path(
            rows,
            event_path(events[i]),
        )
}

/// Whether `rows` are the rows for `events` under the exclusions `settings`.
pub open spec fn are_rows(
    settings: SettingsView,
    events: Seq<EventView>,
    rows: Seq<ItemView>,
) -> bool {
    &&& in_order(rows)
    &&& rows_from_events(exclusion_entries(settings), events, rows)
    &&& rows_cover_events(events, rows)
}

/// Whether no two rows are about the same path.
pub open spec fn distinct_paths(rows: Seq<ItemView>) -> bool {
    forall|i: int, j: int|
        0 <= i < j < rows.len() ==> (#[trigger] rows[i]).path != (#[trigger] rows[j]).path
}

/// The exclusions of both lists, the local ones first.
fn all_exclusions(settings: &ExclusionSettings) -> (r: Vec<String>)
    ensures
        texts(r@) == exclusion_entries(settings@),
{
    let mut r: Vec<String> = Vec::new();
    let ghost all = exclusion_entries(settings@);
    let ghost first = settings.local@.len() as int;
    let mut i: usize = 0;
    while i < settings.local.len()
        invariant
            i <= settings.local@.len(),
            first == settings.local@.len(),
            all == exclusion_entries(settings@),
            texts(r@) == all.take(i as int),
        decreases settings.local@.len() - i,
    {
        let entry = settings.local[i].clone();
        let ghost before = r@;
        r.push(entry);
        assert(texts(r@) =~= texts(before).push(entry@));
        assert(all.take(i + 1) =~= all.take(i as int).push(entry@));
        i += 1;
    }
    i = 0;
    while i < settings.policy.len()
        invariant
            i <= settings.policy@.len(),
            first == settings.local@.len(),
            all == exclusion_entries(settings@),
            texts(r@) == all.take(first + i),
        decreases settings.policy@.len() - i,
    {
        let entry = settings.policy[i].clone();
        let ghost before = r@;
        r.push(entry);
        assert(texts(r@) =~= texts(before).push(entry@));
        assert(all.take(first + i + 1) =~= all.take(first + i).push(entry@));
        i += 1;
    }
    assert(all.take(all.len() as int) =~= all);
    r
}

proof fn lemma_block_count(events: Seq<EventView>, path: Seq<char>)
    ensures
        block_count(events, path) <= events.len(),
        (forall|i: int| 0 <= i < events.len() ==> event_path(#[trigger] events[i]) != path)
            ==> block_count(events, path) == 0,
    decreases events.len(),
{
    if events.len() > 0 {
        lemma_block_count(events.drop_last(), path);
        if forall|i: int| 0 <= i < events.len() ==> event_path(#[trigger] events[i]) != path {
            assert(event_path(events[events.len() - 1]) != path);
            assert forall|i: int| 0 <= i < events.drop_last().len() implies event_path(
                #[trigger] events.drop_last()[i],
            ) != path by {
                assert(events.drop_last()[i] == events[i]);
            }
        }
    }
}

/// An event counts for its own path.
pub proof fn lemma_block_counted(events: Seq<EventView>, i: int)
    requires
        0 <= i < events.len(),
    ensures
        block_count(events, event_path(events[i])) > 0,
    decreases events.len(),
{
    if i < events.len() - 1 {
        lemma_block_counted(events.drop_last(), i);
    }
}

/// An event about another path changes nothing about a row.
proof fn lemma_other_event(
    entries: Seq<Seq<char>>,
    events: Seq<EventView>,
    event: EventView,
    item: ItemView,
    i: int,
)
    requires
        is_row_of(entries, events, item, i),
        event_path(event) != event_path(events[i]),
    ensures
        is_row_of(entries, events.push(event), item, i),
{
    let more = events.push(event);
    assert(more[i] == events[i]);
    assert(more.drop_last() =~= events);
    assert forall|j: int|
        0 <= j < more.len() && event_path(#[trigger] more[j]) == event_path(
            more[i],
        ) implies !less(more[i].time, more[j].time) && (j < i ==> less(
        more[j].time,
        more[i].time,
    )) by {
        assert(j < events.len());
        assert(more[j] == events[j]);
    }
}

/// The rows after one more event, whose path is blank.
proof fn lemma_blank_event(
    entries: Seq<Seq<char>>,
    events: Seq<EventView>,
    event: EventView,
    rows: Seq<ItemView>,
)
    requires
        rows_from_events(entries, events, rows),
        rows_cover_events(events, rows),
        event_path(event).len() == 0,
    ensures
        rows_from_events(entries, events.push(event), rows),
        rows_cover_events(events.push(event), rows),
{
    let more = events.push(event);
    assert forall|r: int| 0 <= r < rows.len() implies is_row(
        entries,
        more,
        #[trigger] rows[r],
    ) by {
        let i: int = choose|i: int| is_row_of(entries, events, rows[r], i);
        lemma_other_event(entries, events, event, rows[r], i);
    }
    assert forall|i: int|
        0 <= i < more.len() && event_path(#[trigger] more[i]).len() > 0 implies has_path(
        rows,
        event_path(more[i]),
    ) by {
        assert(more[i] == events[i]);
    }
}

/// The rows after one more event, about a path that has no row yet.
proof fn lemma_new_path(
    entries: Seq<Seq<char>>,
    events: Seq<EventView>,
    event: EventView,
    rows: Seq<ItemView>,
)
    requires
        rows_from_events(entries, events, rows),
        rows_cover_events(events, rows),
        distinct_paths(rows),
        event_path(event).len() > 0,
        !has_path(rows, event_path(event)),
    ensures
        rows_from_events(entries, events.push(event), rows.push(row(entries, event, 1))),
        rows_cover_events(events.push(event), rows.push(row(entries, event, 1))),
        distinct_paths(rows.push(row(entries, event, 1))),
{
    let more = events.push(event);
    let added = row(entries, event, 1);
    let all = rows.push(added);
    let n: int = events.len() as int;
    let path = event_path(event);
    assert forall|j: int| 0 <= j < events.len() implies event_path(#[trigger] events[j])
        != path by {
        if event_path(events[j]) == path {
            assert(has_path(rows, event_path(events[j])));
        }
    }
    lemma_block_count(events, path);
    assert(more.drop_last() =~= events);
    assert(is_row_of(entries, more, added, n)) by {
        assert forall|j: int|
            0 <= j < more.len() && event_path(#[trigger] more[j]) == path implies j == n by {
            if j < n {
                assert(more[j] == events[j]);
            }
        }
        lemma_less_strict(event.time, event.time);
    }
    assert forall|r: int| 0 <= r < all.len() implies is_row(
        entries,
        more,
        #[trigger] all[r],
    ) by {
        if r < rows.len() {
            let i: int = choose|i: int| is_row_of(entries, events, rows[r], i);
            assert(rows[r].path == event_path(events[i]));
            lemma_other_event(entries, events, event, rows[r], i);
            assert(is_row_of(entries, more, all[r], i));
        } else {
            assert(is_row_of(entries, more, all[r], n));
        }
    }
    assert forall|i: int|
        0 <= i < more.len() && event_path(#[trigger] more[i]).len() > 0 implies has_path(
        all,
        event_path(more[i]),
    ) by {
        if i < n {
            assert(more[i] == events[i]);
            let r: int = choose|r: int|
                0 <= r < rows.len() && (#[trigger] rows[r]).path == event_path(events[i]);
            assert(all[r].path == event_path(more[i]));
        } else {
            assert(all[rows.len() as int].path == event_path(more[i]));
        }
    }
    assert forall|i: int, j: int| 0 <= i < j < all.len() implies (#[trigger] all[i]).path != (
    #[trigger] all[j]).path by {
        if j == rows.len() {
            assert(rows[i].path != path);
        }
    }
}

/// The row for `path` after one more event about it.
pub open spec fn row_after(entries: Seq<Seq<char>>, item: ItemView, event: EventView) -> ItemView {
    if less(item.time, event.time) {
        row(entries, event, item.occurrences + 1)
    } else {
        ItemView { occurrences: item.occurrences + 1, ..item }
    }
}

/// The rows after one more event, about the path of row `k`.
proof fn lemma_known_path(
    entries: Seq<Seq<char>>,
    events: Seq<EventView>,
    event: EventView,
    rows: Seq<ItemView>,
    k: int,
)
    requires
        rows_from_events(entries, events, rows),
        rows_cover_events(events, rows),
        distinct_paths(rows),
        0 <= k < rows.len(),
        rows[k].path == event_path(event),
    ensures
        rows[k].occurrences <= events.len(),
        rows_from_events(
            entries,
            events.push(event),
            rows.update(k, row_after(entries, rows[k], event)),
        ),
        rows_cover_events(
            events.push(event),
            rows.update(k, row_after(entries, rows[k], event)),
        ),
        distinct_paths(rows.update(k, row_after(entries, rows[k], event))),
{
    let more = events.push(event);
    let item = rows[k];
    let path = event_path(event);
    let n: int = events.len() as int;
    let changed = row_after(entries, item, event);
    let all = rows.update(k, changed);
    let old_i: int = choose|i: int| is_row_of(entries, events, item, i);
    lemma_block_count(events, path);
    assert(more.drop_last() =~= events);
    assert(more[old_i] == events[old_i]);
    assert(changed.path == path);
    assert(is_row(entries, more, changed)) by {
        if less(item.time, event.time) {
            assert forall|j: int|
                0 <= j < more.len() && event_path(#[trigger] more[j]) == event_path(
                    more[n],
                ) implies !less(more[n].time, more[j].time) && (j < n ==> less(
                more[j].time,
                more[n].time,
            )) by {
                lemma_less_strict(more[n].time, more[n].time);
                if j < n {
                    assert(more[j] == events[j]);
                    lemma_less_total(events[j].time, item.time);
                    if less(events[j].time, item.time) {
                        lemma_less_transitive(events[j].time, item.time, event.time);
                    }
                    lemma_less_strict(events[j].time, event.time);
                }
            }
            assert(is_row_of(entries, more, changed, n));
        } else {
            assert forall|j: int|
                0 <= j < more.len() && event_path(#[trigger] more[j]) == event_path(
                    more[old_i],
                ) implies !less(more[old_i].time, more[j].time) && (j < old_i ==> less(
                more[j].time,
                more[old_i].time,
            )) by {
                if j < n {
                    assert(more[j] == events[j]);
                }
            }
            assert(is_row_of(entries, more, changed, old_i));
        }
    }
    assert forall|r: int| 0 <= r < all.len() implies is_row(
        entries,
        more,
        #[trigger] all[r],
    ) by {
        if r != k {
            assert(all[r] == rows[r]);
            let i: int = choose|i: int| is_row_of(entries, events, rows[r], i);
            assert(rows[r].path != rows[k].path);
            lemma_other_event(entries, events, event, rows[r], i);
        }
    }
    assert forall|i: int|
        0 <= i < more.len() && event_path(#[trigger] more[i]).len() > 0 implies has_path(
        all,
        event_path(more[i]),
    ) by {
        if i < n {
            assert(more[i] == events[i]);
            let r: int = choose|r: int|
                0 <= r < rows.len() && (#[trigger] rows[r]).path == event_path(events[i]);
            assert(all[r].path == event_path(more[i]));
        } else {
            assert(all[k].path == event_path(more[i]));
        }
    }
    assert forall|i: int, j: int| 0 <= i < j < all.len() implies (#[trigger] all[i]).path != (
    #[trigger] all[j]).path by {
        assert(rows[i].path != rows[j].path);
    }
}

/// The text of a field, or the note that it was not recorded.
fn recorded_text(field: &Option<String>) -> (r: String)
    ensures
        r@ == recorded(crate::model::optional_text(*field)),
{
    match field {
        Some(text) => text.clone(),
        None => "<not recorded>".to_owned(),
    }
}

/// The trimmed path of an event.
fn trimmed_path(event: &RawEvent) -> (r: String)
    ensures
        r@ == event_path(event@),
{
    let all = match &event.path {
        Some(path) => chars_of(path.as_str()),
        None => Vec::new(),
    };
    string_of(trim_chars(all.as_slice(), CharClass::WhiteSpace))
}

/// The row that an event gives on its own.
fn row_of_event(event: &RawEvent, path: String, exclusions: &Vec<String>) -> (r: BlockedItem)
    requires
        path@ == event_path(event@),
    ensures
        r@ == row(texts(exclusions@), event@, 1),
{
    let excluded_by = covering_entry(path.as_str(), exclusions);
    BlockedItem {
        time: event.time.clone(),
        path,
        process: recorded_text(&event.process),
        rule: recorded_text(&event.rule),
        occurrences: 1,
        excluded_now: excluded_by.is_some(),
        excluded_by,
        scope: 0,
    }
}

/// Finds the row about `path`.
pub fn find_row(rows: &Vec<BlockedItem>, path: &String) -> (r: Option<usize>)
    ensures
        r matches Some(k) ==> k < rows@.len() && rows@[k as int].path@ == path@,
        r is None ==> !has_path(items_view(rows@), path@),
{
    let mut k: usize = 0;
    while k < rows.len()
        invariant
            k <= rows@.len(),
            forall|j: int| 0 <= j < k ==> (#[trigger] items_view(rows@)[j]).path != path@,
        decreases rows@.len() - k,
    {
        if rows[k].path == *path {
            return Some(k);
        }
        k += 1;
    }
    None
}

/// Groups the events by path, in the order in which the paths first occur.
fn group_events(events: &Vec<RawEvent>, exclusions: &Vec<String>) -> (rows: Vec<BlockedItem>)
    ensures
        rows_from_events(texts(exclusions@), events_view(events@), items_view(rows@)),
        rows_cover_events(events_view(events@), items_view(rows@)),
        distinct_paths(items_view(rows@)),
{
    let mut rows: Vec<BlockedItem> = Vec::new();
    let ghost all = events_view(events@);
    let ghost entries = texts(exclusions@);
    let mut n: usize = 0;
    while n < events.len()
        invariant
            n <= events@.len(),
            all == events_view(events@),
            entries == texts(exclusions@),
            rows_from_events(entries, all.take(n as int), items_view(rows@)),
            rows_cover_events(all.take(n as int), items_view(rows@)),
            distinct_paths(items_view(rows@)),
        decreases events@.len() - n,
    {
        let event = &events[n];
        let ghost before = items_view(rows@);
        assert(all.take(n + 1) =~= all.take(n as int).push(event@));
        let path = trimmed_path(event);
        if path.as_str().is_empty() {
            proof {
                lemma_blank_event(entries, all.take(n as int), event@, before);
            }
        } else {
            match find_row(&rows, &path) {
                Some(k) => {
                    proof {
                        lemma_known_path(entries, all.take(n as int), event@, before, k as int);
                    }
                    let mut item = row_of_event(event, path, exclusions);
                    let count: usize = rows[k].occurrences + 1;
                    let newer = less_chars(
                        chars_of(rows[k].time.as_str()).as_slice(),
                        chars_of(item.time.as_str()).as_slice(),
                    );
                    if newer {
                        item.occurrences = count;
                        rows[k] = item;
                    } else {
                        rows[k].occurrences = count;
                    }
                    assert(items_view(rows@) =~= before.update(
                        k as int,
                        row_after(entries, before[k as int], event@),
                    ));
                },
                None => {
                    proof {
                        lemma_new_path(entries, all.take(n as int), event@, before);
                    }
                    rows.push(row_of_event(event, path, exclusions));
                    assert(items_view(rows@) =~= before.push(row(entries, event@, 1)));
                },
            }
        }
        n += 1;
    }
    assert(all.take(all.len() as int) =~= all);
    rows
}

proof fn lemma_before_total(a: ItemView, b: ItemView)
    requires
        a.path != b.path,
    ensures
        comes_before(a, b) || comes_before(b, a),
{
    lemma_less_total(a.time, b.time);
    lemma_less_total(a.path, b.path);
}

pub proof fn lemma_before_strict(a: ItemView, b: ItemView)
    ensures
        !(comes_before(a, b) && comes_before(b, a)),
        !comes_before(a, a),
{
    lemma_less_strict(a.time, b.time);
    lemma_less_strict(b.time, a.time);
    lemma_less_strict(a.path, b.path);
}

pub proof fn lemma_before_transitive(a: ItemView, b: ItemView, c: ItemView)
    requires
        comes_before(a, b),
        comes_before(b, c),
    ensures
        comes_before(a, c),
{
    if less(b.time, a.time) {
        if less(c.time, b.time) {
            lemma_less_transitive(c.time, b.time, a.time);
        }
    } else if !less(c.time, b.time) {
        lemma_less_transitive(a.path, b.path, c.path);
    }
}

/// Tells whether row `a` comes before row `b`.
fn row_before(a: &BlockedItem, b: &BlockedItem) -> (r: bool)
    ensures
        r == comes_before(a@, b@),
{
    if a.time == b.time {
        proof {
            lemma_less_strict(a.time@, a.time@);
        }
        less_chars(chars_of(a.path.as_str()).as_slice(), chars_of(b.path.as_str()).as_slice())
    } else {
        less_chars(chars_of(b.time.as_str()).as_slice(), chars_of(a.time.as_str()).as_slice())
    }
}

/// Inserting a row where its successors begin keeps the order.
proof fn lemma_insert_in_order(rows: Seq<ItemView>, item: ItemView, k: int)
    requires
        in_order(rows),
        0 <= k <= rows.len(),
        forall|j: int| 0 <= j < k ==> comes_before(#[trigger] rows[j], item),
        k < rows.len() ==> comes_before(item, rows[k]),
    ensures
        in_order(rows.insert(k, item)),
        forall|x: ItemView| #[trigger]
            rows.insert(k, item).contains(x) <==> rows.contains(x) || x == item,
{
    let all = rows.insert(k, item);
    assert forall|i: int, j: int| 0 <= i < j < all.len() implies comes_before(
        #[trigger] all[i],
        #[trigger] all[j],
    ) by {
        if i == k {
            if j > k + 1 {
                lemma_before_transitive(item, rows[k], rows[j - 1]);
            }
        }
    }
    assert forall|x: ItemView| #[trigger] all.contains(x) <==> rows.contains(x) || x == item by {
        if all.contains(x) {
            let i: int = choose|i: int| 0 <= i < all.len() && all[i] == x;
            if i < k {
                assert(rows[i] == x);
            } else if i > k {
                assert(rows[i - 1] == x);
            }
        }
        if rows.contains(x) {
            let i: int = choose|i: int| 0 <= i < rows.len() && rows[i] == x;
            assert(all[if i < k { i } else { i + 1 }] == x);
        }
        assert(all[k] == item);
    }
}

/// Puts the rows in their order.
fn sort_rows(rows: Vec<BlockedItem>) -> (r: Vec<BlockedItem>)
    requires
        distinct_paths(items_view(rows@)),
    ensures
        in_order(items_view(r@)),
        forall|x: ItemView| #[trigger]
            items_view(r@).contains(x) <==> items_view(rows@).contains(x),
{
    let ghost all = items_view(rows@);
    let mut left = rows;
    let mut r: Vec<BlockedItem> = Vec::new();
    assert(all.take(all.len() as int) =~= all);
    while left.len() > 0
        invariant
            left@.len() <= all.len(),
            items_view(left@) == all.take(left@.len() as int),
            distinct_paths(all),
            in_order(items_view(r@)),
            forall|x: ItemView| #[trigger]
                all.contains(x) <==> items_view(r@).contains(x) || items_view(left@).contains(x),
            forall|i: int, j: int|
                0 <= i < left@.len() && 0 <= j < r@.len() ==> (#[trigger] all[i]).path != (
                #[trigger] items_view(r@)[j]).path,
        decreases left@.len(),
    {
        let ghost before = left@;
        let ghost done = items_view(r@);
        let last: usize = left.len() - 1;
        let item = left.remove(last);
        let ghost view = item@;
        assert(view == all[last as int]) by {
            assert(items_view(before)[last as int] == all.take(before.len() as int)[last as int]);
        }
        assert(items_view(left@) =~= all.take(last as int));
        let mut k: usize = 0;
        while k < r.len() && row_before(&r[k], &item)
            invariant
                k <= r@.len(),
                done == items_view(r@),
                view == item@,
                forall|j: int| 0 <= j < k ==> comes_before(#[trigger] done[j], view),
            decreases r@.len() - k,
        {
            k += 1;
        }
        proof {
            if k < r@.len() {
                assert(all[last as int].path != done[k as int].path);
                lemma_before_total(done[k as int], view);
            }
            lemma_insert_in_order(done, view, k as int);
        }
        r.insert(k, item);
        assert(items_view(r@) =~= done.insert(k as int, view));
        assert forall|x: ItemView| #[trigger] all.contains(x) <==> items_view(r@).contains(x)
            || items_view(left@).contains(x) by {
            assert(items_view(before) =~= items_view(left@).push(view));
            if items_view(before).contains(x) && x != view {
                let i: int = choose|i: int|
                    0 <= i < items_view(before).len() && items_view(before)[i] == x;
                assert(items_view(left@)[i] == x);
            }
            if items_view(left@).contains(x) {
                let i: int = choose|i: int|
                    0 <= i < items_view(left@).len() && items_view(left@)[i] == x;
                assert(items_view(before)[i] == x);
            }
            assert(items_view(before)[last as int] == view);
        }
        assert forall|i: int, j: int| 0 <= i < left@.len() && 0 <= j < r@.len() implies (
        #[trigger] all[i]).path != (#[trigger] items_view(r@)[j]).path by {
            if j == k {
                assert(all[i].path != all[last as int].path);
            } else {
                assert(all[i].path != done[if j < k { j } else { j - 1 }].path);
            }
        }
    }
    r
}

/// The rows for `events` under the exclusions `settings`.
pub fn rows_for(settings: &ExclusionSettings, events: &Vec<RawEvent>) -> (r: Vec<BlockedItem>)
    ensures
        are_rows(settings@, events_view(events@), items_view(r@)),
{
    let exclusions = all_exclusions(settings);
    let grouped = group_events(events, &exclusions);
    let ghost groups = items_view(grouped@);
    let r = sort_rows(grouped);
    proof {
        lemma_ordered_groups(settings@, events_view(events@), groups, items_view(r@));
    }
    r
}

/// There are groups for any events.
proof fn lemma_groups_exist(entries: Seq<Seq<char>>, events: Seq<EventView>) -> (rows: Seq<
    ItemView,
>)
    ensures
        rows_from_events(entries, events, rows),
        rows_cover_events(events, rows),
        distinct_paths(rows),
    decreases events.len(),
{
    if events.len() == 0 {
        Seq::empty()
    } else {
        let before = events.drop_last();
        let event = events.last();
        let rows = lemma_groups_exist(entries, before);
        assert(before.push(event) =~= events);
        if event_path(event).len() == 0 {
            lemma_blank_event(entries, before, event, rows);
            rows
        } else if has_path(rows, event_path(event)) {
            let k: int = choose|k: int|
                0 <= k < rows.len() && (#[trigger] rows[k]).path == event_path(event);
            lemma_known_path(entries, before, event, rows, k);
            rows.update(k, row_after(entries, rows[k], event))
        } else {
            lemma_new_path(entries, before, event, rows);
            rows.push(row(entries, event, 1))
        }
    }
}

/// Where the successors of a row begin in an ordered list.
proof fn lemma_place(rows: Seq<ItemView>, item: ItemView) -> (k: int)
    ensures
        0 <= k <= rows.len(),
        forall|j: int| 0 <= j < k ==> comes_before(#[trigger] rows[j], item),
        k < rows.len() ==> !comes_before(rows[k], item),
    decreases rows.len(),
{
    if rows.len() == 0 {
        0
    } else {
        let before = rows.drop_last();
        let k: int = lemma_place(before, item);
        assert(forall|j: int| 0 <= j < before.len() ==> #[trigger] before[j] == rows[j]);
        if k == before.len() && comes_before(rows.last(), item) {
            assert forall|j: int| 0 <= j < k + 1 implies comes_before(#[trigger] rows[j], item) by {
                if j < k {
                    assert(comes_before(before[j], item));
                }
            }
            k + 1
        } else {
            assert forall|j: int| 0 <= j < k implies comes_before(#[trigger] rows[j], item) by {
                assert(comes_before(before[j], item));
            }
            k
        }
    }
}

/// Any rows about distinct paths can be put in order.
proof fn lemma_order_exists(rows: Seq<ItemView>) -> (ordered: Seq<ItemView>)
    requires
        distinct_paths(rows),
    ensures
        in_order(ordered),
        forall|x: ItemView| #[trigger] ordered.contains(x) <==> rows.contains(x),
    decreases rows.len(),
{
    if rows.len() == 0 {
        rows
    } else {
        let before = rows.drop_last();
        let item = rows.last();
        assert(distinct_paths(before)) by {
            assert forall|i: int, j: int| 0 <= i < j < before.len() implies (
            #[trigger] before[i]).path != (#[trigger] before[j]).path by {
                assert(rows[i].path != rows[j].path);
            }
        }
        let ordered = lemma_order_exists(before);
        let k: int = lemma_place(ordered, item);
        if k < ordered.len() {
            assert(ordered.contains(ordered[k]));
            let b: int = choose|b: int| 0 <= b < before.len() && before[b] == ordered[k];
            assert(rows[b].path != rows[rows.len() - 1].path);
            lemma_before_total(ordered[k], item);
        }
        lemma_insert_in_order(ordered, item, k);
        let all = ordered.insert(k, item);
        assert forall|x: ItemView| #[trigger] all.contains(x) <==> rows.contains(x) by {
            assert(all.contains(x) <==> ordered.contains(x) || x == item);
            assert(ordered.contains(x) <==> before.contains(x));
            if before.contains(x) {
                let b: int = choose|b: int| 0 <= b < before.len() && before[b] == x;
                assert(rows[b] == x);
            }
            if rows.contains(x) && x != item {
                let b: int = choose|b: int| 0 <= b < rows.len() && rows[b] == x;
                assert(before[b] == x);
            }
            assert(rows[rows.len() - 1] == item);
        }
        all
    }
}

/// Ordered groups are the rows.
proof fn lemma_ordered_groups(
    settings: SettingsView,
    events: Seq<EventView>,
    groups: Seq<ItemView>,
    rows: Seq<ItemView>,
)
    requires
        rows_from_events(exclusion_entries(settings), events, groups),
        rows_cover_events(events, groups),
        in_order(rows),
        forall|x: ItemView| #[trigger] rows.contains(x) <==> groups.contains(x),
    ensures
        are_rows(settings, events, rows),
{
    let entries = exclusion_entries(settings);
    assert forall|i: int| 0 <= i < rows.len() implies is_row(
        entries,
        events,
        #[trigger] rows[i],
    ) by {
        assert(rows.contains(rows[i]));
        let g: int = choose|g: int| 0 <= g < groups.len() && groups[g] == rows[i];
        assert(is_row(entries, events, groups[g]));
    }
    assert forall|i: int|
        0 <= i < events.len() && event_path(#[trigger] events[i]).len() > 0 implies has_path(
        rows,
        event_path(events[i]),
    ) by {
        assert(has_path(groups, event_path(events[i])));
        let g: int = choose|g: int|
            0 <= g < groups.len() && (#[trigger] groups[g]).path == event_path(events[i]);
        assert(groups.contains(groups[g]) && rows.contains(groups[g]));
        let k: int = choose|k: int| 0 <= k < rows.len() && rows[k] == groups[g];
        assert(rows[k].path == event_path(events[i]));
    }
}

/// There are rows for any events and exclusions.
pub proof fn lemma_rows_exist(settings: SettingsView, events: Seq<EventView>)
    ensures
        exists|rows: Seq<ItemView>| are_rows(settings, events, rows),
{
    let groups = lemma_groups_exist(exclusion_entries(settings), events);
    let rows = lemma_order_exists(groups);
    lemma_ordered_groups(settings, events, groups, rows);
}

} // verus!
