//! The manager's operations: loading the rows, picking them, choosing how wide
//! an exclusion is, and taking in what Defender reports afterwards.

use vstd::hash_map::StringHashMap;
use vstd::hash_set::StringHashSet;
use vstd::prelude::*;
use vstd::string::StringExecFns;

use crate::app_laws::{
    law_adjusting_stays_sound, law_loaded_is_sound, law_outcome_stays_ready,
    law_refreshed_is_sound, law_toggling_stays_sound,
};
use crate::event_laws::law_rows_determined;
use crate::events::{are_rows, rows_for};
use crate::model::{
    items_view, App, AppView, BlockedItem, EventView, ItemView, Mode, SettingsView, Snapshot,
    SnapshotView,
};
use crate::paths::{exclusion_target, max_scope, target, widest_scope};
use crate::text::{
    chars_of, decimal, decimal_text, lemma_less_strict, lemma_less_total, lemma_less_transitive,
    less, less_chars, lower, lower_chars, same_chars, texts,
};

verus! {

/// The rows for `events` under the exclusions `settings`.
pub open spec fn rows_of(settings: SettingsView, events: Seq<EventView>) -> Seq<ItemView> {
    choose|rows: Seq<ItemView>| are_rows(settings, events, rows)
}

/// What the status line says after loading that many rows.
pub open spec fn loaded_status(rows: nat) -> Seq<char> {
    if rows == 0 {
        "No recent ASR block events were found."@
    } else {
        decimal(rows)
            + " unique blocked paths. Space selects; Left/Right widen/narrow to a folder; Enter applies; r refreshes; q quits."@
    }
}

/// The state after loading.
pub open spec fn loaded(snapshot: SnapshotView) -> AppView {
    let items = rows_of(snapshot.settings, snapshot.events);
    AppView {
        items,
        selected: 0,
        checked: Set::empty(),
        policy_enabled: snapshot.settings.policy_enabled,
        status: loaded_status(items.len()),
        mode: Mode::Browse,
    }
}

/// The path that a row would add to the exclusions.
pub open spec fn item_target(item: ItemView) -> Seq<char> {
    target(item.path, item.scope)
}

/// The state after picking the highlighted row, or putting it back.
pub open spec fn toggled(app: AppView) -> AppView {
    if app.selected >= app.items.len() {
        app
    } else {
        let item = app.items[app.selected as int];
        if item.excluded_now {
            AppView { status: "That path is already excluded."@, ..app }
        } else if app.checked.contains(item.path) {
            AppView {
                checked: app.checked.remove(item.path),
                status: "Selection cleared."@,
                ..app
            }
        } else {
            AppView {
                checked: app.checked.insert(item.path),
                status: "Selected. Will exclude "@ + item_target(item),
                ..app
            }
        }
    }
}

/// The scope `delta` levels up from `scope`, held between the file itself and
/// the widest folder that is offered.
pub open spec fn moved_scope(scope: nat, delta: int, widest: nat) -> nat {
    if scope + delta < 0 {
        0
    } else if scope + delta > widest {
        widest
    } else {
        (scope + delta) as nat
    }
}

/// The state after moving the target of the highlighted row up by `delta`
/// levels, or down where `delta` is negative.
pub open spec fn scope_adjusted(app: AppView, delta: int) -> AppView {
    if app.selected >= app.items.len() {
        app
    } else {
        let item = app.items[app.selected as int];
        let scope = moved_scope(item.scope, delta, widest_scope(item.path));
        if item.excluded_now {
            AppView { status: "That path is already excluded."@, ..app }
        } else if scope == item.scope {
            AppView {
                status: if delta > 0 {
                    "Cannot widen further: the drive root is never offered as an exclusion."@
                } else {
                    "Already at the exact file."@
                },
                ..app
            }
        } else {
            let moved = ItemView { scope, ..item };
            AppView {
                items: app.items.update(app.selected as int, moved),
                status: if app.checked.contains(item.path) {
                    "Selected. Will exclude "@ + item_target(moved)
                } else {
                    "Will exclude "@ + item_target(moved) + " (press Space to select)"@
                },
                ..app
            }
        }
    }
}

impl App {
    /// The manager's state for what was read from Defender.
    pub fn load(snapshot: Snapshot) -> (r: App)
        ensures
            are_rows(snapshot@.settings, snapshot@.events, r@.items),
            r@ == loaded(snapshot@),
            r@.ready(),
    {
        proof {
            law_loaded_is_sound(snapshot@);
        }
        let items = rows_for(&snapshot.settings, &snapshot.events);
        let status = if items.len() == 0 {
            "No recent ASR block events were found.".to_owned()
        } else {
            decimal_text(items.len()).concat(
                " unique blocked paths. Space selects; Left/Right widen/narrow to a folder; Enter applies; r refreshes; q quits.",
            )
        };
        proof {
            law_rows_determined(
                snapshot@.settings,
                snapshot@.events,
                items_view(items@),
                rows_of(snapshot@.settings, snapshot@.events),
            );
        }
        App {
            items,
            selected: 0,
            checked: StringHashSet::new(),
            policy_enabled: snapshot.settings.policy_enabled,
            status,
            mode: Mode::Browse,
        }
    }

    /// The highlighted row, when there is one.
    pub fn selected_item(&self) -> (r: Option<&BlockedItem>)
        ensures
            r is Some <==> self@.selected < self@.items.len(),
            r matches Some(item) ==> *item == self.items@[self.selected as int],
    {
        if self.selected < self.items.len() {
            Some(&self.items[self.selected])
        } else {
            None
        }
    }

    /// Picks the highlighted row, or puts it back. An excluded row cannot be
    /// picked.
    pub fn toggle_selected(&mut self)
        ensures
            final(self)@ == toggled(old(self)@),
            old(self)@.wf() ==> final(self)@.wf(),
    {
        proof {
            if self@.wf() {
                law_toggling_stays_sound(self@);
            }
        }
        if self.selected >= self.items.len() {
            return;
        }
        let item = &self.items[self.selected];
        if item.excluded_now {
            self.status = "That path is already excluded.".to_owned();
            return;
        }
        let path = item.path.clone();
        let chosen = exclusion_target(path.as_str(), item.scope);
        if self.checked.contains(path.as_str()) {
            self.checked.remove(path.as_str());
            self.status = "Selection cleared.".to_owned();
        } else {
            self.checked.insert(path);
            self.status = "Selected. Will exclude ".to_owned().concat(chosen.as_str());
        }
    }

    /// Moves the exclusion target of the highlighted row up the folder tree
    /// (positive `delta`) or back down towards the file (negative `delta`).
    pub fn adjust_scope(&mut self, delta: isize)
        ensures
            final(self)@ == scope_adjusted(old(self)@, delta as int),
            old(self)@.wf() ==> final(self)@.wf(),
    {
        proof {
            if self@.wf() {
                law_adjusting_stays_sound(self@, delta as int);
            }
        }
        if self.selected >= self.items.len() {
            return;
        }
        if self.items[self.selected].excluded_now {
            self.status = "That path is already excluded.".to_owned();
            return;
        }
        let widest: usize = max_scope(self.items[self.selected].path.as_str());
        let scope: usize = self.items[self.selected].scope;
        let new_scope: usize = move_scope(scope, delta, widest);
        if new_scope == scope {
            self.status = if delta > 0 {
                "Cannot widen further: the drive root is never offered as an exclusion.".to_owned()
            } else {
                "Already at the exact file.".to_owned()
            };
            return;
        }
        self.items[self.selected].scope = new_scope;
        let item = &self.items[self.selected];
        let chosen = exclusion_target(item.path.as_str(), new_scope);
        let picked = self.checked.contains(item.path.as_str());
        self.status = if picked {
            "Selected. Will exclude ".to_owned().concat(chosen.as_str())
        } else {
            "Will exclude ".to_owned().concat(chosen.as_str()).concat(" (press Space to select)")
        };
        assert(self@.items =~= scope_adjusted(old(self)@, delta as int).items);
    }
}

/// Whether row `i` is picked.
pub open spec fn is_picked(items: Seq<ItemView>, checked: Set<Seq<char>>, i: int) -> bool {
    0 <= i < items.len() && checked.contains(items[i].path)
}

/// Whether row `i` is the first picked row whose target, letter case aside, is
/// what it is.
pub open spec fn first_spelling(items: Seq<ItemView>, checked: Set<Seq<char>>, i: int) -> bool {
    &&& is_picked(items, checked, i)
    &&& forall|j: int|
        0 <= j < i && #[trigger] is_picked(items, checked, j) ==> lower(item_target(items[j]))
            != lower(item_target(items[i]))
}

/// Whether the texts ascend, letter case aside, so that no two are the same.
pub open spec fn ascending(list: Seq<Seq<char>>) -> bool {
    forall|a: int, b: int|
        0 <= a < b < list.len() ==> less(lower(#[trigger] list[a]), lower(#[trigger] list[b]))
}

/// Whether `text` is the target of a row that is the first of its spelling.
pub open spec fn is_first_target(
    items: Seq<ItemView>,
    checked: Set<Seq<char>>,
    text: Seq<char>,
) -> bool {
    exists|i: int| #[trigger]
        first_spelling(items, checked, i) && item_target(items[i]) == text
}

/// Whether `list` holds the targets of the picked rows: ascending, each in the
/// spelling of the first row that has it.
pub open spec fn are_targets(
    items: Seq<ItemView>,
    checked: Set<Seq<char>>,
    list: Seq<Seq<char>>,
) -> bool {
    &&& ascending(list)
    &&& forall|k: int|
        0 <= k < list.len() ==> is_first_target(items, checked, #[trigger] list[k])
    &&& forall|i: int| #[trigger]
        first_spelling(items, checked, i) ==> list.contains(item_target(items[i]))
}

/// The targets of the picked rows.
pub open spec fn targets_of(app: AppView) -> Seq<Seq<char>> {
    choose|list: Seq<Seq<char>>| are_targets(app.items, app.checked, list)
}

/// Two ascending lists with the same texts are equal.
proof fn lemma_ascending_determines(a: Seq<Seq<char>>, b: Seq<Seq<char>>)
    requires
        ascending(a),
        ascending(b),
        forall|x: Seq<char>| #[trigger] a.contains(x) <==> b.contains(x),
    ensures
        a == b,
    decreases a.len(),
{
    if a.len() == 0 {
        if b.len() > 0 {
            assert(b.contains(b[0]) && !a.contains(b[0]));
        }
        assert(a =~= b);
    } else {
        assert(a.contains(a[0]));
        let k: int = choose|k: int| 0 <= k < b.len() && b[k] == a[0];
        assert(b.contains(b[0]) && a.contains(b[0]));
        let m: int = choose|m: int| 0 <= m < a.len() && a[m] == b[0];
        if k > 0 {
            assert(less(lower(b[0]), lower(b[k])));
            if m > 0 {
                assert(less(lower(a[0]), lower(a[m])));
            }
            lemma_less_strict(lower(a[0]), lower(b[0]));
        }
        let c = a.drop_first();
        let d = b.drop_first();
        assert forall|x: Seq<char>| #[trigger] c.contains(x) <==> d.contains(x) by {
            lemma_rest_of_ascending(a, x);
            lemma_rest_of_ascending(b, x);
        }
        assert forall|i: int, j: int| 0 <= i < j < c.len() implies less(
            lower(#[trigger] c[i]),
            lower(#[trigger] c[j]),
        ) by {
            assert(less(lower(a[i + 1]), lower(a[j + 1])));
        }
        assert forall|i: int, j: int| 0 <= i < j < d.len() implies less(
            lower(#[trigger] d[i]),
            lower(#[trigger] d[j]),
        ) by {
            assert(less(lower(b[i + 1]), lower(b[j + 1])));
        }
        lemma_ascending_determines(c, d);
        assert(a =~= seq![a[0]] + c);
        assert(b =~= seq![b[0]] + d);
    }
}

proof fn lemma_rest_of_ascending(a: Seq<Seq<char>>, x: Seq<char>)
    requires
        ascending(a),
        a.len() > 0,
    ensures
        a.drop_first().contains(x) <==> a.contains(x) && x != a[0],
{
    let c = a.drop_first();
    if c.contains(x) {
        let i: int = choose|i: int| 0 <= i < c.len() && c[i] == x;
        assert(a[i + 1] == x);
        assert(less(lower(a[0]), lower(a[i + 1])));
        lemma_less_strict(lower(x), lower(x));
    }
    if a.contains(x) && x != a[0] {
        let i: int = choose|i: int| 0 <= i < a.len() && a[i] == x;
        assert(c[i - 1] == x);
    }
}

/// The picked rows determine the list of targets.
pub proof fn law_targets_determined(
    items: Seq<ItemView>,
    checked: Set<Seq<char>>,
    a: Seq<Seq<char>>,
    b: Seq<Seq<char>>,
)
    requires
        are_targets(items, checked, a),
        are_targets(items, checked, b),
    ensures
        a == b,
{
    assert forall|x: Seq<char>| #[trigger] a.contains(x) <==> b.contains(x) by {
        if a.contains(x) {
            let k: int = choose|k: int| 0 <= k < a.len() && a[k] == x;
            assert(is_first_target(items, checked, a[k]));
        }
        if b.contains(x) {
            let k: int = choose|k: int| 0 <= k < b.len() && b[k] == x;
            assert(is_first_target(items, checked, b[k]));
        }
    }
    lemma_ascending_determines(a, b);
}

/// Rows further down do not matter for whether a row is the first of its
/// spelling.
proof fn lemma_first_spelling_prefix(
    items: Seq<ItemView>,
    checked: Set<Seq<char>>,
    n: int,
    i: int,
)
    requires
        0 <= n <= items.len(),
        i < n,
    ensures
        first_spelling(items.take(n), checked, i) == first_spelling(items, checked, i),
{
    let part = items.take(n);
    assert forall|j: int| j < n implies #[trigger] is_picked(part, checked, j) == is_picked(
        items,
        checked,
        j,
    ) by {
        if 0 <= j {
            assert(part[j] == items[j]);
        }
    }
    if first_spelling(part, checked, i) {
        assert(is_picked(part, checked, i));
        assert forall|j: int| 0 <= j < i && #[trigger] is_picked(items, checked, j) implies lower(
            item_target(items[j]),
        ) != lower(item_target(items[i])) by {
            assert(is_picked(part, checked, j));
        }
    }
    if first_spelling(items, checked, i) {
        assert(is_picked(items, checked, i));
        assert(is_picked(part, checked, i));
        assert forall|j: int| 0 <= j < i && #[trigger] is_picked(part, checked, j) implies lower(
            item_target(part[j]),
        ) != lower(item_target(part[i])) by {
            assert(is_picked(items, checked, j));
        }
    }
}

/// Some row up to a picked one is the first of its spelling.
pub proof fn lemma_first_of_spelling(
    items: Seq<ItemView>,
    checked: Set<Seq<char>>,
    i: int,
) -> (f: int)
    requires
        is_picked(items, checked, i),
    ensures
        0 <= f <= i,
        first_spelling(items, checked, f),
        lower(item_target(items[f])) == lower(item_target(items[i])),
    decreases i,
{
    if first_spelling(items, checked, i) {
        i
    } else {
        let j: int = choose|j: int|
            0 <= j < i && #[trigger] is_picked(items, checked, j) && lower(item_target(items[j]))
                == lower(item_target(items[i]));
        lemma_first_of_spelling(items, checked, j)
    }
}

/// The list after a row that is not picked, or whose spelling is in the list.
proof fn lemma_targets_same(
    items: Seq<ItemView>,
    checked: Set<Seq<char>>,
    list: Seq<Seq<char>>,
    n: int,
    k: int,
)
    requires
        0 <= n < items.len(),
        are_targets(items.take(n), checked, list),
        is_picked(items, checked, n) ==> 0 <= k < list.len() && lower(list[k]) == lower(
            item_target(items[n]),
        ),
    ensures
        are_targets(items.take(n + 1), checked, list),
{
    let part = items.take(n);
    let more = items.take(n + 1);
    assert forall|j: int| 0 <= j < list.len() implies is_first_target(
        more,
        checked,
        #[trigger] list[j],
    ) by {
        assert(is_first_target(part, checked, list[j]));
        let i: int = choose|i: int| #[trigger]
            first_spelling(part, checked, i) && item_target(part[i]) == list[j];
        lemma_first_spelling_prefix(items, checked, n, i);
        lemma_first_spelling_prefix(items, checked, n + 1, i);
        assert(first_spelling(more, checked, i) && item_target(more[i]) == list[j]);
    }
    assert forall|i: int| #[trigger] first_spelling(more, checked, i) implies list.contains(
        item_target(more[i]),
    ) by {
        lemma_first_spelling_prefix(items, checked, n + 1, i);
        if i < n {
            lemma_first_spelling_prefix(items, checked, n, i);
            assert(list.contains(item_target(part[i])));
        } else {
            assert(is_picked(items, checked, n));
            assert(is_first_target(part, checked, list[k]));
            let f: int = choose|f: int| #[trigger]
                first_spelling(part, checked, f) && item_target(part[f]) == list[k];
            assert(is_picked(part, checked, f));
            assert(is_picked(more, checked, f));
            assert(more[f] == part[f]);
            assert(more[n] == items[n]);
        }
    }
}

/// The list after a picked row whose spelling is new.
proof fn lemma_targets_added(
    items: Seq<ItemView>,
    checked: Set<Seq<char>>,
    list: Seq<Seq<char>>,
    n: int,
    k: int,
)
    requires
        0 <= n < items.len(),
        are_targets(items.take(n), checked, list),
        is_picked(items, checked, n),
        0 <= k <= list.len(),
        forall|j: int|
            0 <= j < k ==> less(lower(#[trigger] list[j]), lower(item_target(items[n]))),
        k < list.len() ==> less(lower(item_target(items[n])), lower(list[k])),
    ensures
        are_targets(items.take(n + 1), checked, list.insert(k, item_target(items[n]))),
{
    let part = items.take(n);
    let more = items.take(n + 1);
    let new = item_target(items[n]);
    let all = list.insert(k, new);
    assert forall|a: int, b: int| 0 <= a < b < all.len() implies less(
        lower(#[trigger] all[a]),
        lower(#[trigger] all[b]),
    ) by {
        if a == k {
            if b > k + 1 {
                lemma_less_transitive(lower(new), lower(list[k]), lower(list[b - 1]));
            }
        }
    }
    assert(first_spelling(items, checked, n)) by {
        assert forall|j: int| 0 <= j < n && #[trigger] is_picked(items, checked, j) implies lower(
            item_target(items[j]),
        ) != lower(new) by {
            if lower(item_target(items[j])) == lower(new) {
                let f: int = lemma_first_of_spelling(items, checked, j);
                lemma_first_spelling_prefix(items, checked, n, f);
                assert(list.contains(item_target(part[f])));
                let p: int = choose|p: int| 0 <= p < list.len() && list[p] == item_target(part[f]);
                lemma_less_strict(lower(new), lower(new));
                if p >= k {
                    if p > k {
                        assert(less(lower(list[k]), lower(list[p])));
                        lemma_less_strict(lower(new), lower(list[k]));
                    }
                } else {
                    assert(less(lower(list[p]), lower(new)));
                }
            }
        }
    }
    lemma_first_spelling_prefix(items, checked, n + 1, n);
    assert(more[n] == items[n]);
    assert forall|j: int| 0 <= j < all.len() implies is_first_target(
        more,
        checked,
        #[trigger] all[j],
    ) by {
        if j == k {
            assert(first_spelling(more, checked, n) && item_target(more[n]) == all[j]);
        } else {
            let o: int = if j < k {
                j
            } else {
                j - 1
            };
            assert(all[j] == list[o]);
            assert(is_first_target(part, checked, list[o]));
            let i: int = choose|i: int| #[trigger]
                first_spelling(part, checked, i) && item_target(part[i]) == list[o];
            lemma_first_spelling_prefix(items, checked, n, i);
            lemma_first_spelling_prefix(items, checked, n + 1, i);
            assert(first_spelling(more, checked, i) && item_target(more[i]) == all[j]);
        }
    }
    assert forall|i: int| #[trigger] first_spelling(more, checked, i) implies all.contains(
        item_target(more[i]),
    ) by {
        lemma_first_spelling_prefix(items, checked, n + 1, i);
        if i < n {
            lemma_first_spelling_prefix(items, checked, n, i);
            assert(list.contains(item_target(part[i])));
            let p: int = choose|p: int| 0 <= p < list.len() && list[p] == item_target(part[i]);
            assert(all[if p < k { p } else { p + 1 }] == item_target(more[i]));
        } else {
            assert(all[k] == item_target(more[i]));
        }
    }
}

/// Where the texts not below `key` begin.
proof fn lemma_target_place(list: Seq<Seq<char>>, key: Seq<char>) -> (k: int)
    ensures
        0 <= k <= list.len(),
        forall|j: int| 0 <= j < k ==> less(lower(#[trigger] list[j]), key),
        k < list.len() ==> !less(lower(list[k]), key),
    decreases list.len(),
{
    if list.len() == 0 {
        0
    } else {
        let before = list.drop_last();
        let k: int = lemma_target_place(before, key);
        assert(forall|j: int| 0 <= j < before.len() ==> #[trigger] before[j] == list[j]);
        let more: bool = k == before.len() && less(lower(list.last()), key);
        assert forall|j: int| 0 <= j < k implies less(lower(#[trigger] list[j]), key) by {
            assert(less(lower(before[j]), key));
        }
        if more {
            k + 1
        } else {
            k
        }
    }
}

proof fn lemma_targets_exist(items: Seq<ItemView>, checked: Set<Seq<char>>, n: int) -> (list: Seq<
    Seq<char>,
>)
    requires
        0 <= n <= items.len(),
    ensures
        are_targets(items.take(n), checked, list),
    decreases n,
{
    if n == 0 {
        Seq::empty()
    } else {
        let list = lemma_targets_exist(items, checked, n - 1);
        let new = item_target(items[n - 1]);
        let k: int = lemma_target_place(list, lower(new));
        if !is_picked(items, checked, n - 1) || (k < list.len() && lower(list[k]) == lower(new)) {
            lemma_targets_same(items, checked, list, n - 1, k);
            list
        } else {
            if k < list.len() {
                lemma_less_total(lower(list[k]), lower(new));
            }
            lemma_targets_added(items, checked, list, n - 1, k);
            list.insert(k, new)
        }
    }
}

/// The targets of the picked rows form one list, for every state.
pub proof fn law_targets_of(app: AppView)
    ensures
        are_targets(app.items, app.checked, targets_of(app)),
{
    let list = lemma_targets_exist(app.items, app.checked, app.items.len() as int);
    assert(app.items.take(app.items.len() as int) =~= app.items);
    assert(are_targets(app.items, app.checked, list));
}

impl App {
    /// The distinct paths that would be added, honoring each row's scope.
    /// Several rows widened to the same folder collapse into one entry.
    pub fn selected_paths(&self) -> (r: Vec<String>)
        ensures
            are_targets(self@.items, self@.checked, texts(r@)),
            texts(r@) == targets_of(self@),
    {
        let mut r: Vec<String> = Vec::new();
        let ghost items = self@.items;
        let ghost checked = self@.checked;
        let mut n: usize = 0;
        while n < self.items.len()
            invariant
                n <= self.items@.len(),
                items == self@.items,
                checked == self@.checked,
                are_targets(items.take(n as int), checked, texts(r@)),
            decreases self.items@.len() - n,
        {
            let ghost list = texts(r@);
            let item = &self.items[n];
            assert(items[n as int] == item@);
            if self.checked.contains(item.path.as_str()) {
                let chosen = exclusion_target(item.path.as_str(), item.scope);
                let key = lower_chars(chars_of(chosen.as_str()).as_slice());
                let mut k: usize = 0;
                while k < r.len() && less_chars(
                    lower_chars(chars_of(r[k].as_str()).as_slice()).as_slice(),
                    key.as_slice(),
                )
                    invariant
                        k <= r@.len(),
                        list == texts(r@),
                        key@ == lower(chosen@),
                        forall|j: int| 0 <= j < k ==> less(lower(#[trigger] list[j]), key@),
                    decreases r@.len() - k,
                {
                    k += 1;
                }
                let known = k < r.len() && same_chars(
                    lower_chars(chars_of(r[k].as_str()).as_slice()).as_slice(),
                    key.as_slice(),
                );
                if known {
                    proof {
                        lemma_targets_same(items, checked, list, n as int, k as int);
                    }
                } else {
                    proof {
                        if k < r@.len() {
                            lemma_less_total(lower(list[k as int]), key@);
                        }
                        lemma_targets_added(items, checked, list, n as int, k as int);
                    }
                    r.insert(k, chosen);
                    assert(texts(r@) =~= list.insert(k as int, chosen@));
                }
            } else {
                proof {
                    lemma_targets_same(items, checked, list, n as int, 0);
                }
            }
            n += 1;
        }
        assert(items.take(items.len() as int) =~= items);
        proof {
            law_targets_determined(items, checked, texts(r@), targets_of(self@));
        }
        r
    }
}

/// The scope `delta` levels up from `scope`, between zero and `widest`.
fn move_scope(scope: usize, delta: isize, widest: usize) -> (r: usize)
    ensures
        r == moved_scope(scope as nat, delta as int, widest as nat),
{
    if delta >= 0 {
        let up: usize = delta as usize;
        if scope >= widest || up >= widest - scope {
            widest
        } else {
            scope + up
        }
    } else {
        let down: usize = if delta == isize::MIN {
            (isize::MAX as usize) + 1
        } else {
            (-delta) as usize
        };
        if down >= scope {
            0
        } else if scope - down > widest {
            widest
        } else {
            scope - down
        }
    }
}

/// The scope of the last of `items` about `path`.
pub open spec fn last_scope(items: Seq<ItemView>, path: Seq<char>) -> Option<nat>
    decreases items.len(),
{
    if items.len() == 0 {
        None
    } else if items.last().path == path {
        Some(items.last().scope)
    } else {
        last_scope(items.drop_last(), path)
    }
}

/// A fresh row with the scope that its path had among the `earlier` rows.
pub open spec fn with_kept_scope(earlier: Seq<ItemView>, item: ItemView) -> ItemView {
    match last_scope(earlier, item.path) {
        Some(scope) => ItemView {
            scope: if scope < widest_scope(item.path) {
                scope
            } else {
                widest_scope(item.path)
            },
            ..item
        },
        None => item,
    }
}

/// Whether some row about `path` is not excluded.
pub open spec fn is_blocked(items: Seq<ItemView>, path: Seq<char>) -> bool {
    exists|i: int|
        0 <= i < items.len() && (#[trigger] items[i]).path == path && !items[i].excluded_now
}

/// The rows after taking in a new reading: scopes are kept.
pub open spec fn refreshed_items(items: Seq<ItemView>, snapshot: SnapshotView) -> Seq<ItemView> {
    rows_of(snapshot.settings, snapshot.events).map_values(
        |item: ItemView| with_kept_scope(items, item),
    )
}

/// `selected`, held to a list of that many rows.
pub open spec fn held_selection(selected: nat, rows: nat) -> nat {
    if rows == 0 {
        0
    } else if selected >= rows {
        (rows - 1) as nat
    } else {
        selected
    }
}

/// The state after taking in a new reading of Defender's state: the scopes stay,
/// and so do the picked rows that are still there and still blocked.
pub open spec fn refreshed(app: AppView, snapshot: SnapshotView) -> AppView {
    let items = refreshed_items(app.items, snapshot);
    AppView {
        items,
        selected: held_selection(app.selected, items.len()),
        checked: app.checked.filter(|path: Seq<char>| is_blocked(items, path)),
        policy_enabled: snapshot.settings.policy_enabled,
        status: "Refreshed Defender ASR history and exclusions."@,
        mode: app.mode,
    }
}

/// What the status line says after that many paths were added.
pub open spec fn applied_status(count: nat, write_policy: bool) -> Seq<char> {
    if write_policy {
        "Added "@ + decimal(count)
            + " path(s) to the Group Policy ASR exclusion list and to local preferences."@
    } else {
        "Added "@ + decimal(count) + " ASR exclusion(s), then refreshed the list."@
    }
}

/// The state after the exclusions were added and the state was read again.
pub open spec fn applied(app: AppView, snapshot: SnapshotView) -> AppView {
    AppView {
        status: applied_status(targets_of(app).len(), app.policy_enabled),
        ..refreshed(app, snapshot)
    }
}

/// The state with nothing but another status line.
pub open spec fn with_status(app: AppView, status: Seq<char>) -> AppView {
    AppView { status, ..app }
}

/// The scopes of the rows, by path.
fn scopes_by_path(items: &Vec<BlockedItem>) -> (r: StringHashMap<usize>)
    ensures
        forall|path: Seq<char>| #[trigger]
            r@.contains_key(path) <==> last_scope(items_view(items@), path) is Some,
        forall|path: Seq<char>| #[trigger]
            r@.contains_key(path) ==> r@[path] == last_scope(items_view(items@), path)->0,
{
    let mut r: StringHashMap<usize> = StringHashMap::new();
    let ghost all = items_view(items@);
    let mut n: usize = 0;
    while n < items.len()
        invariant
            n <= items@.len(),
            all == items_view(items@),
            forall|path: Seq<char>| #[trigger]
                r@.contains_key(path) <==> last_scope(all.take(n as int), path) is Some,
            forall|path: Seq<char>| #[trigger]
                r@.contains_key(path) ==> r@[path] == last_scope(all.take(n as int), path)->0,
        decreases items@.len() - n,
    {
        assert(all.take(n + 1).drop_last() =~= all.take(n as int));
        r.insert(items[n].path.clone(), items[n].scope);
        n += 1;
    }
    assert(all.take(all.len() as int) =~= all);
    r
}

/// Gives the fresh rows the scopes that their paths had.
fn keep_scopes(items: &mut Vec<BlockedItem>, earlier: &Vec<BlockedItem>)
    ensures
        items_view(final(items)@) == items_view(old(items)@).map_values(
            |item: ItemView| with_kept_scope(items_view(earlier@), item),
        ),
{
    let scopes = scopes_by_path(earlier);
    let ghost before = items_view(items@);
    let ghost wanted = before.map_values(
        |item: ItemView| with_kept_scope(items_view(earlier@), item),
    );
    let mut n: usize = 0;
    while n < items.len()
        invariant
            n <= items@.len(),
            items@.len() == before.len(),
            wanted == before.map_values(
                |item: ItemView| with_kept_scope(items_view(earlier@), item),
            ),
            forall|path: Seq<char>| #[trigger]
                scopes@.contains_key(path) <==> last_scope(items_view(earlier@), path) is Some,
            forall|path: Seq<char>| #[trigger]
                scopes@.contains_key(path) ==> scopes@[path] == last_scope(
                    items_view(earlier@),
                    path,
                )->0,
            forall|j: int| 0 <= j < n ==> #[trigger] items_view(items@)[j] == wanted[j],
            forall|j: int| n <= j < before.len() ==> #[trigger] items_view(items@)[j] == before[j],
        decreases items@.len() - n,
    {
        let ghost now = items_view(items@);
        assert(now[n as int] == before[n as int]);
        let kept: Option<usize> = match scopes.get(items[n].path.as_str()) {
            Some(scope) => Some(*scope),
            None => None,
        };
        match kept {
            Some(scope) => {
                let widest: usize = max_scope(items[n].path.as_str());
                items[n].scope = if scope < widest {
                    scope
                } else {
                    widest
                };
            },
            None => {},
        }
        assert(items_view(items@)[n as int] == wanted[n as int]);
        assert forall|j: int| 0 <= j < before.len() && j != n implies #[trigger] items_view(
            items@,
        )[j] == now[j] by {}
        n += 1;
    }
    assert(items_view(items@) =~= wanted);
}

/// Of the picked paths, those with a row that is not excluded.
fn still_blocked(items: &Vec<BlockedItem>, checked: &StringHashSet) -> (r: StringHashSet)
    ensures
        r@ == checked@.filter(|path: Seq<char>| is_blocked(items_view(items@), path)),
{
    let mut r = StringHashSet::new();
    let ghost all = items_view(items@);
    let mut n: usize = 0;
    while n < items.len()
        invariant
            n <= items@.len(),
            all == items_view(items@),
            forall|path: Seq<char>| #[trigger]
                r@.contains(path) <==> checked@.contains(path) && is_blocked(
                    all.take(n as int),
                    path,
                ),
        decreases items@.len() - n,
    {
        let ghost before = r@;
        let ghost part = all.take(n as int);
        let ghost more = all.take(n + 1);
        let item = &items[n];
        assert(more[n as int] == item@);
        if !item.excluded_now && checked.contains(item.path.as_str()) {
            r.insert(item.path.clone());
        }
        assert forall|path: Seq<char>| #[trigger] r@.contains(path) <==> checked@.contains(path)
            && is_blocked(more, path) by {
            assert(before.contains(path) <==> checked@.contains(path) && is_blocked(part, path));
            if is_blocked(part, path) {
                let i: int = choose|i: int|
                    0 <= i < part.len() && (#[trigger] part[i]).path == path
                        && !part[i].excluded_now;
                assert(more[i] == part[i]);
            }
            if is_blocked(more, path) {
                let i: int = choose|i: int|
                    0 <= i < more.len() && (#[trigger] more[i]).path == path
                        && !more[i].excluded_now;
                if i < n {
                    assert(part[i] == more[i]);
                }
            }
        }
        n += 1;
    }
    assert(all.take(all.len() as int) =~= all);
    assert(r@ =~= checked@.filter(|path: Seq<char>| is_blocked(items_view(items@), path)));
    r
}

impl App {
    /// Takes in a new reading of Defender's state, or gives back why there is
    /// none and leaves everything as it was.
    pub fn refresh(&mut self, reading: Result<Snapshot, String>) -> (r: Result<(), String>)
        ensures
            r is Ok <==> reading is Ok,
            reading matches Ok(snapshot) ==> final(self)@ == refreshed(old(self)@, snapshot@),
            reading matches Err(error) ==> r == Err::<(), String>(error) && *final(self) == *old(
                self,
            ),
            r is Ok ==> final(self)@.wf(),
    {
        let snapshot = match reading {
            Ok(snapshot) => snapshot,
            Err(error) => {
                return Err(error);
            },
        };
        let ghost view = snapshot@;
        proof {
            law_refreshed_is_sound(self@, view);
        }
        let fresh = App::load(snapshot);
        let mut items = fresh.items;
        keep_scopes(&mut items, &self.items);
        let last: usize = if items.len() == 0 {
            0
        } else {
            items.len() - 1
        };
        if self.selected > last {
            self.selected = last;
        }
        self.checked = still_blocked(&items, &self.checked);
        self.items = items;
        self.policy_enabled = fresh.policy_enabled;
        self.status = "Refreshed Defender ASR history and exclusions.".to_owned();
        assert(self@ =~= refreshed(old(self)@, view));
        Ok(())
    }

    /// Takes in a new reading; where there is none, the status line says why.
    pub fn refresh_with_status(&mut self, reading: Result<Snapshot, String>)
        ensures
            reading matches Ok(snapshot) ==> final(self)@ == refreshed(old(self)@, snapshot@),
            reading matches Err(error) ==> final(self)@ == with_status(
                old(self)@,
                "Refresh failed: "@ + error@,
            ),
            old(self)@.ready() && old(self)@.mode == Mode::Browse ==> final(self)@.ready(),
    {
        proof {
            if self@.mode == Mode::Browse && reading is Ok {
                law_outcome_stays_ready(self@, reading->Ok_0@);
            }
        }
        match self.refresh(reading) {
            Ok(_) => {},
            Err(error) => {
                self.status = "Refresh failed: ".to_owned().concat(error.as_str());
            },
        }
    }
}

/// Takes in the reading that follows after the picked paths were added; it is
/// an error where adding them or reading failed.
pub fn apply_and_refresh(app: &mut App, reading: Result<Snapshot, String>) -> (r: Result<
    (),
    String,
>)
    ensures
        r is Ok <==> reading is Ok,
        reading matches Ok(snapshot) ==> final(app)@ == applied(old(app)@, snapshot@),
        reading matches Err(error) ==> r == Err::<(), String>(error) && *final(app) == *old(app),
{
    let count: usize = app.selected_paths().len();
    let write_policy = app.policy_enabled;
    assert(count == targets_of(app@).len());
    match app.refresh(reading) {
        Ok(_) => {},
        Err(error) => {
            return Err(error);
        },
    }
    let start = "Added ".to_owned().concat(decimal_text(count).as_str());
    app.status = if write_policy {
        start.concat(" path(s) to the Group Policy ASR exclusion list and to local preferences.")
    } else {
        start.concat(" ASR exclusion(s), then refreshed the list.")
    };
    Ok(())
}

/// Takes in the outcome of applying the selection and reports it in the status
/// line, also where it failed.
pub fn apply_with_status(app: &mut App, reading: Result<Snapshot, String>)
    ensures
        reading matches Ok(snapshot) ==> final(app)@ == applied(old(app)@, snapshot@),
        reading matches Err(error) ==> final(app)@ == with_status(
            old(app)@,
            "Apply failed: "@ + error@,
        ),
        old(app)@.ready() && old(app)@.mode == Mode::Browse ==> final(app)@.ready(),
{
    proof {
        if app@.mode == Mode::Browse && reading is Ok {
            law_outcome_stays_ready(app@, reading->Ok_0@);
        }
    }
    match apply_and_refresh(app, reading) {
        Ok(_) => {},
        Err(error) => {
            app.status = "Apply failed: ".to_owned().concat(error.as_str());
        },
    }
}

} // verus!
