//! The data of the manager and the values that stand for it in contracts.

use vstd::hash_set::StringHashSet;
use vstd::prelude::*;

use crate::app::is_blocked;
use crate::events::{distinct_paths, in_order};
use crate::paths::{covers, normalized, widest_scope};
use crate::text::{texts, trim, CharClass};

verus! {

/// One block event as Defender recorded it.
#[derive(Debug)]
pub struct RawEvent {
    /// When it happened, in UTC and ISO 8601, so that text order is time order.
    pub time: String,
    pub path: Option<String>,
    pub process: Option<String>,
    pub rule: Option<String>,
}

/// The exclusions in force.
#[derive(Debug)]
pub struct ExclusionSettings {
    /// The entries of the local preferences.
    pub local: Vec<String>,
    /// The entries of the Group Policy list.
    pub policy: Vec<String>,
    /// Whether the Group Policy list is in force.
    pub policy_enabled: bool,
}

/// What one reading of Defender's state gives.
#[derive(Debug)]
pub struct Snapshot {
    pub settings: ExclusionSettings,
    pub events: Vec<RawEvent>,
}

/// A row: one blocked path with its latest block.
#[derive(Debug)]
pub struct BlockedItem {
    pub time: String,
    pub path: String,
    pub process: String,
    pub rule: String,
    pub occurrences: usize,
    pub excluded_now: bool,
    /// The normalized exclusion entry (file or folder) that currently covers
    /// this path, when one does.
    pub excluded_by: Option<String>,
    /// How many trailing path components are dropped to form the exclusion
    /// target: 0 = the file itself, 1 = its folder, 2 = the parent of that, ...
    pub scope: usize,
}

/// What the keys act on: the table, or the question before applying.
#[derive(Debug, Clone, Copy, PartialEq, Eq, Structural)]
pub enum Mode {
    Browse,
    ConfirmApply,
}

/// The state of the manager.
pub struct App {
    pub items: Vec<BlockedItem>,
    pub selected: usize,
    /// The paths of the rows that are picked.
    pub checked: StringHashSet,
    pub policy_enabled: bool,
    pub status: String,
    pub mode: Mode,
}

/// The text in an optional string.
pub open spec fn optional_text(s: Option<String>) -> Option<Seq<char>> {
    match s {
        Some(t) => Some(t@),
        None => None,
    }
}

/// A block event.
#[verifier::ext_equal]
pub struct EventView {
    pub time: Seq<char>,
    pub path: Option<Seq<char>>,
    pub process: Option<Seq<char>>,
    pub rule: Option<Seq<char>>,
}

impl View for RawEvent {
    type V = EventView;

    open spec fn view(&self) -> EventView {
        EventView {
            time: self.time@,
            path: optional_text(self.path),
            process: optional_text(self.process),
            rule: optional_text(self.rule),
        }
    }
}

/// The exclusions in force.
#[verifier::ext_equal]
pub struct SettingsView {
    pub local: Seq<Seq<char>>,
    pub policy: Seq<Seq<char>>,
    pub policy_enabled: bool,
}

impl View for ExclusionSettings {
    type V = SettingsView;

    open spec fn view(&self) -> SettingsView {
        SettingsView {
            local: texts(self.local@),
            policy: texts(self.policy@),
            policy_enabled: self.policy_enabled,
        }
    }
}

/// One reading of Defender's state.
#[verifier::ext_equal]
pub struct SnapshotView {
    pub settings: SettingsView,
    pub events: Seq<EventView>,
}

/// The values of a sequence of events.
pub open spec fn events_view(events: Seq<RawEvent>) -> Seq<EventView> {
    events.map_values(|e: RawEvent| e@)
}

impl View for Snapshot {
    type V = SnapshotView;

    open spec fn view(&self) -> SnapshotView {
        SnapshotView { settings: self.settings@, events: events_view(self.events@) }
    }
}

/// A row.
#[verifier::ext_equal]
pub struct ItemView {
    pub time: Seq<char>,
    pub path: Seq<char>,
    pub process: Seq<char>,
    pub rule: Seq<char>,
    pub occurrences: nat,
    pub excluded_now: bool,
    pub excluded_by: Option<Seq<char>>,
    pub scope: nat,
}

impl View for BlockedItem {
    type V = ItemView;

    open spec fn view(&self) -> ItemView {
        ItemView {
            time: self.time@,
            path: self.path@,
            process: self.process@,
            rule: self.rule@,
            occurrences: self.occurrences as nat,
            excluded_now: self.excluded_now,
            excluded_by: optional_text(self.excluded_by),
            scope: self.scope as nat,
        }
    }
}

/// The values of a sequence of rows.
pub open spec fn items_view(items: Seq<BlockedItem>) -> Seq<ItemView> {
    items.map_values(|i: BlockedItem| i@)
}

/// The state of the manager.
#[verifier::ext_equal]
pub struct AppView {
    pub items: Seq<ItemView>,
    pub selected: nat,
    pub checked: Set<Seq<char>>,
    pub policy_enabled: bool,
    pub status: Seq<char>,
    pub mode: Mode,
}

impl View for App {
    type V = AppView;

    open spec fn view(&self) -> AppView {
        AppView {
            items: items_view(self.items@),
            selected: self.selected as nat,
            checked: self.checked@,
            policy_enabled: self.policy_enabled,
            status: self.status@,
            mode: self.mode,
        }
    }
}

impl ItemView {
    /// What every row keeps: its path is trimmed and not empty, it stands for a
    /// block, it is excluded exactly when an entry is named for it, which then
    /// covers it, and its scope does not go beyond the widest that is offered.
    pub open spec fn wf(self) -> bool {
        &&& self.path.len() > 0
        &&& trim(self.path, CharClass::WhiteSpace) == self.path
        &&& self.occurrences > 0
        &&& self.excluded_now == self.excluded_by is Some
        &&& self.excluded_by matches Some(entry) ==> covers(entry, normalized(self.path))
        &&& self.scope <= widest_scope(self.path)
    }
}

impl AppView {
    /// What every operation keeps: the rows are sound, in order and about
    /// distinct paths, only blocked rows are picked, and a row is highlighted
    /// where there is one.
    pub open spec fn wf(self) -> bool {
        &&& in_order(self.items)
        &&& distinct_paths(self.items)
        &&& forall|i: int| 0 <= i < self.items.len() ==> (#[trigger] self.items[i]).wf()
        &&& forall|path: Seq<char>| #[trigger]
            self.checked.contains(path) ==> is_blocked(self.items, path)
        &&& self.selected < self.items.len() || self.selected == 0
    }

    /// What holds between two inputs: the state is sound, and the question
    /// before applying is only asked when a row is picked.
    pub open spec fn ready(self) -> bool {
        &&& self.wf()
        &&& self.mode == Mode::ConfirmApply ==> !self.checked.is_empty()
    }
}

} // verus!
