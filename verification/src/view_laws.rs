//! What the values in contracts say about the data: every field, unchanged.

use vstd::prelude::*;

use crate::json::{JsonDocument, JsonDocumentView};
use crate::keys::{Effect, EffectView};
use crate::model::{App, BlockedItem, ExclusionSettings, RawEvent, Snapshot};
use crate::screen::{Detail, Dialog, PathCell, PathCellView, Screen, TableRow};

verus! {

/// An event.
pub proof fn law_event_view(event: RawEvent)
    ensures
        event@.time == event.time@,
        event@.path is Some <==> event.path is Some,
        event.path is Some ==> event@.path->0 == event.path->0@,
        event@.process is Some <==> event.process is Some,
        event.process is Some ==> event@.process->0 == event.process->0@,
        event@.rule is Some <==> event.rule is Some,
        event.rule is Some ==> event@.rule->0 == event.rule->0@,
{
}

/// A reading of Defender's state.
pub proof fn law_snapshot_view(snapshot: Snapshot, settings: ExclusionSettings)
    ensures
        settings@.policy_enabled == settings.policy_enabled,
        settings@.local.len() == settings.local@.len(),
        forall|i: int|
            0 <= i < settings.local@.len() ==> #[trigger] settings@.local[i]
                == settings.local@[i]@,
        settings@.policy.len() == settings.policy@.len(),
        forall|i: int|
            0 <= i < settings.policy@.len() ==> #[trigger] settings@.policy[i]
                == settings.policy@[i]@,
        snapshot@.settings == snapshot.settings@,
        snapshot@.events.len() == snapshot.events@.len(),
        forall|i: int|
            0 <= i < snapshot.events@.len() ==> #[trigger] snapshot@.events[i]
                == snapshot.events@[i]@,
{
}

/// A row.
pub proof fn law_item_view(item: BlockedItem)
    ensures
        item@.time == item.time@,
        item@.path == item.path@,
        item@.process == item.process@,
        item@.rule == item.rule@,
        item@.occurrences == item.occurrences,
        item@.excluded_now == item.excluded_now,
        item@.excluded_by is Some <==> item.excluded_by is Some,
        item.excluded_by is Some ==> item@.excluded_by->0 == item.excluded_by->0@,
        item@.scope == item.scope,
{
}

/// The state.
pub proof fn law_app_view(app: App)
    ensures
        app@.items.len() == app.items@.len(),
        forall|i: int| 0 <= i < app.items@.len() ==> #[trigger] app@.items[i] == app.items@[i]@,
        app@.selected == app.selected,
        app@.checked == app.checked@,
        app@.policy_enabled == app.policy_enabled,
        app@.status == app.status@,
        app@.mode == app.mode,
{
}

/// What the terminal loop has to do.
pub proof fn law_effect_view(effect: Effect)
    ensures
        effect is Continue <==> effect@ == EffectView::Continue,
        effect is Quit <==> effect@ == EffectView::Quit,
        effect is Refresh <==> effect@ == EffectView::Refresh,
        effect matches Effect::Apply { paths, write_policy } ==> (effect@ matches EffectView::Apply {
            paths: texts,
            write_policy: flag,
        } && flag == write_policy && texts.len() == paths@.len() && forall|i: int|
            0 <= i < paths@.len() ==> #[trigger] texts[i] == paths@[i]@),
{
}

/// A path in the table.
pub proof fn law_path_cell_view(cell: PathCell)
    ensures
        cell matches PathCell::Plain(path) ==> cell@ == PathCellView::Plain(path@),
        cell matches PathCell::Parted { covered, rest } ==> cell@ == (PathCellView::Parted {
            covered: covered@,
            rest: rest@,
        }),
{
}

/// A row of the table.
pub proof fn law_table_row_view(row: TableRow)
    ensures
        row@.pick == row.pick@,
        row@.status == row.status@,
        row@.excluded == row.excluded,
        row@.time == row.time@,
        row@.path == row.path@,
        row@.process == row.process@,
        row@.count == row.count@,
{
}

/// The screen.
pub proof fn law_screen_view(screen: Screen, detail: Detail, dialog: Dialog)
    ensures
        detail@.rule == detail.rule@,
        detail@.label == detail.label@,
        detail@.target == detail.target@,
        dialog@.title == dialog.title@,
        dialog@.message == dialog.message@,
        screen@.rows.len() == screen.rows@.len(),
        forall|i: int|
            0 <= i < screen.rows@.len() ==> #[trigger] screen@.rows[i] == screen.rows@[i]@,
        screen@.highlighted is Some <==> screen.highlighted is Some,
        screen.highlighted is Some ==> screen@.highlighted->0 == screen.highlighted->0,
        screen@.status == screen.status@,
        screen@.detail is Some <==> screen.detail is Some,
        screen.detail is Some ==> screen@.detail->0 == screen.detail->0@,
        screen@.dialog is Some <==> screen.dialog is Some,
        screen.dialog is Some ==> screen@.dialog->0 == screen.dialog->0@,
{
}

/// A JSON text.
pub proof fn law_json_view(document: JsonDocument)
    ensures
        document is Null <==> document@ == JsonDocumentView::Null,
        document matches JsonDocument::Array(elements) ==> (document@ matches JsonDocumentView::Array(
            list,
        ) && list.len() == elements@.len() && forall|i: int|
            0 <= i < elements@.len() ==> #[trigger] list[i] == elements@[i]@),
        document matches JsonDocument::Other(text) ==> document@ == JsonDocumentView::Other(text@),
{
}

} // verus!
