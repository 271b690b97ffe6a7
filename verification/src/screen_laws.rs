//! What holds of the screen, for every state.

use vstd::prelude::*;
use vstd::utf8::{
    decode_utf8_split, encode_utf8, encode_utf8_decode_utf8, encode_utf8_valid_utf8,
    is_char_boundary,
};

use crate::app::{item_target, targets_of};
use crate::keys::{next, EffectView, Input, Key};
use crate::model::{AppView, ItemView, Mode};
use crate::path_laws::{
    law_cover_maps_back, law_target_is_a_leading_part, lemma_boundary_after, lemma_trimmed_start,
};
use crate::paths::{byte_len, covered_end, covered_prefix, normalized, target};
use crate::screen::{
    detail_of, dialog_message, lemma_target_parts, listing, parting, path_cell, screen_of,
    shown_entry, table_row, DialogView, PathCellView, POLICY_WARNING,
};
use crate::text::{decimal, lower, starts_with, CharClass};

verus! {

/// The path column always shows the whole path: its two parts joined are the
/// path.
pub proof fn law_path_column_shows_the_path(item: ItemView)
    ensures
        match path_cell(item) {
            PathCellView::Plain(path) => path == item.path,
            PathCellView::Parted { covered, rest } => covered + rest == item.path,
        },
{
    if path_cell(item) is Parted {
        let at: int = parting(item)->0 as int;
        if item.excluded_now {
            law_cover_maps_back(item.path, item.excluded_by->0);
        } else {
            lemma_target_parts(item.path, item.scope);
        }
        assert(is_char_boundary(encode_utf8(item.path), at));
        encode_utf8_valid_utf8(item.path);
        decode_utf8_split(encode_utf8(item.path), at);
        encode_utf8_decode_utf8(item.path);
    }
}

/// The underlined part of a widened row is the folder that will be excluded, up
/// to the kind of its last separator.
pub proof fn law_widened_row_underlines_its_target(item: ItemView)
    requires
        item.wf(),
        !item.excluded_now,
        item.scope > 0,
    ensures
        byte_len(item_target(item)) < byte_len(item.path) ==> path_cell(item) is Parted,
        path_cell(item) matches PathCellView::Parted { covered, rest } ==> {
            &&& covered.drop_last() == item_target(item).drop_last()
            &&& item_target(item).last() == '\\'
            &&& covered.len() == item_target(item).len()
            &&& CharClass::Separator.has(covered.last())
        },
{
    law_target_is_a_leading_part(item.path, item.scope);
    if path_cell(item) is Parted {
        lemma_target_parts(item.path, item.scope);
        let c: int = item_target(item).len() as int;
        lemma_boundary_after(item.path, c);
        encode_utf8_decode_utf8(item.path.take(c));
        assert(item.path.take(c).drop_last() =~= item.path.take(c - 1));
    }
}

/// The underlined part of an excluded row is the entry that covers it, as the
/// path spells it, with the separator after it. The status line shows the same.
pub proof fn law_excluded_row_underlines_its_entry(item: ItemView)
    requires
        item.wf(),
        item.excluded_now,
    ensures
        path_cell(item) matches PathCellView::Parted { covered, rest } ==> {
            &&& covered.len() == item.excluded_by->0.len() + 1
            &&& lower(covered.drop_last()) == item.excluded_by->0
            &&& CharClass::Separator.has(covered.last())
            &&& shown_entry(item.path, item.excluded_by->0) == covered
        },
{
    if path_cell(item) is Parted {
        let entry = item.excluded_by->0;
        law_cover_maps_back(item.path, entry);
        let c: int = covered_end(item.path, entry);
        lemma_trimmed_start(item.path, CharClass::WhiteSpace);
        lemma_boundary_after(item.path, c);
        encode_utf8_decode_utf8(item.path.take(c));
        assert(item.path.take(c).drop_last() =~= item.path.subrange(0, c - 1));
    }
}

/// The table has one row for each row of the state, and what is highlighted is
/// one of them.
pub proof fn law_highlight_is_in_the_table(app: AppView)
    requires
        app.wf(),
    ensures
        screen_of(app).rows.len() == app.items.len(),
        screen_of(app).highlighted is Some <==> app.items.len() > 0,
        screen_of(app).highlighted matches Some(row) ==> row < screen_of(app).rows.len(),
        screen_of(app).detail is Some <==> screen_of(app).highlighted is Some,
{
}

/// The question is about exactly the paths that saying yes adds, and it names
/// the policy exactly when saying yes writes to it.
pub proof fn law_question_is_about_what_is_applied(app: AppView)
    ensures
        screen_of(app).dialog is Some <==> app.mode == Mode::ConfirmApply,
        screen_of(app).dialog matches Some(dialog) ==> next(app, Input::Press(Key::Enter)).1 == (
        EffectView::Apply { paths: targets_of(app), write_policy: app.policy_enabled })
            && dialog.message == dialog_message(targets_of(app), app.policy_enabled),
{
}

/// Each of the first paths stands on a line of its own in the question.
pub proof fn law_listing_has_a_line_for_each_path(targets: Seq<Seq<char>>, i: int)
    requires
        0 <= i < targets.len(),
    ensures
        listing(targets.take(i + 1)) == listing(targets.take(i)) + "  "@ + targets[i] + "\n"@,
        listing(targets).len() >= listing(targets.take(i + 1)).len(),
        listing(targets).take(listing(targets.take(i + 1)).len() as int) == listing(
            targets.take(i + 1),
        ),
    decreases targets.len(),
{
    assert(targets.take(i + 1).drop_last() =~= targets.take(i));
    if i + 1 == targets.len() {
        assert(targets.take(i + 1) =~= targets);
    } else {
        let before = targets.drop_last();
        law_listing_has_a_line_for_each_path(before, i);
        assert(before.take(i + 1) =~= targets.take(i + 1));
        let n: int = listing(targets.take(i + 1)).len() as int;
        assert(listing(targets).take(n) =~= listing(before).take(n));
    }
}

/// A row of the table shows the fields of its row, whether it is picked and, while
/// that can still change, how many levels up its target is.
pub proof fn law_table_row_shows_its_row(item: ItemView, picked: bool)
    ensures
        ({
            let row = table_row(item, picked);
            let mark = if picked {
                "[x]"@
            } else {
                "[ ]"@
            };
            &&& row.time == item.time
            &&& row.process == item.process
            &&& row.count == decimal(item.occurrences)
            &&& row.excluded == item.excluded_now
            &&& row.path == path_cell(item)
            &&& item.excluded_now ==> row.status == "[OK] Excluded"@ && row.pick == mark
            &&& !item.excluded_now ==> row.status == "[X] Blocked"@
            &&& !item.excluded_now && item.scope == 0 ==> row.pick == mark
            &&& !item.excluded_now && item.scope > 0 ==> row.pick == mark + " ^"@ + decimal(
                item.scope,
            )
        }),
{
}

/// Where the path of a row is parted: a blocked row where its target ends, if that
/// is inside the path; an excluded row where the entry that covers it ends, if that
/// can be mapped back.
pub proof fn law_path_is_parted_where_the_exclusion_ends(item: ItemView)
    ensures
        !item.excluded_now && item.scope == 0 ==> path_cell(item) == PathCellView::Plain(item.path),
        !item.excluded_now && item.scope > 0 ==> {
            let folder = target(item.path, item.scope);
            let inside = encode_utf8(folder).len() < encode_utf8(item.path).len();
            &&& !inside ==> path_cell(item) == PathCellView::Plain(item.path)
            &&& inside ==> path_cell(item) == (PathCellView::Parted {
                covered: item.path.take(folder.len() as int),
                rest: item.path.skip(folder.len() as int),
            })
        },
        item.excluded_now && item.excluded_by is None ==> path_cell(item) == PathCellView::Plain(
            item.path,
        ),
        item.excluded_now && item.excluded_by is Some ==> {
            let at = covered_prefix(item.path, item.excluded_by->0);
            &&& at is None ==> path_cell(item) == PathCellView::Plain(item.path)
            &&& at is Some ==> (path_cell(item) matches PathCellView::Parted { covered, rest }
                && encode_utf8(covered).len() == at->0 && covered + rest == item.path)
        },
{
    law_path_column_shows_the_path(item);
    if !item.excluded_now && item.scope > 0 {
        lemma_target_parts(item.path, item.scope);
        if path_cell(item) is Parted {
            let c: int = item_target(item).len() as int;
            lemma_boundary_after(item.path, c);
            encode_utf8_decode_utf8(item.path.take(c));
            encode_utf8_decode_utf8(item.path.skip(c));
        }
    }
    if item.excluded_now && item.excluded_by is Some {
        let entry = item.excluded_by->0;
        law_cover_maps_back(item.path, entry);
        if covered_prefix(item.path, entry) is Some {
            let c: int = covered_end(item.path, entry);
            lemma_boundary_after(item.path, c);
            encode_utf8_decode_utf8(item.path.take(c));
        }
    }
}

/// The line about the highlighted row names its rule and either what will be
/// excluded or what excludes it, the latter as the path spells it where that can be
/// told.
pub proof fn law_detail_names_the_exclusion(item: ItemView)
    ensures
        detail_of(item).rule == item.rule,
        item.excluded_by is None ==> {
            &&& detail_of(item).target == target(item.path, item.scope)
            &&& item.scope == 0 ==> detail_of(item).label == "  Exclude ("@ + "file"@ + ") "@
            &&& item.scope == 1 ==> detail_of(item).label == "  Exclude ("@ + "folder"@ + ") "@
            &&& item.scope > 1 ==> detail_of(item).label == "  Exclude ("@ + ("folder, "@ + decimal(
                item.scope,
            ) + " levels up"@) + ") "@
        },
        item.excluded_by is Some ==> {
            let entry = item.excluded_by->0;
            let at = covered_prefix(item.path, entry);
            let shown = detail_of(item).target;
            &&& detail_of(item).label == "  Excluded by "@
            &&& at is Some ==> starts_with(item.path, shown) && encode_utf8(shown).len() == at->0
            &&& at is None && normalized(item.path) == entry ==> shown == item.path
            &&& at is None && normalized(item.path) != entry ==> shown == entry
        },
{
    if item.excluded_by is Some {
        let entry = item.excluded_by->0;
        law_cover_maps_back(item.path, entry);
        if covered_prefix(item.path, entry) is Some {
            let c: int = covered_end(item.path, entry);
            lemma_boundary_after(item.path, c);
            encode_utf8_decode_utf8(item.path.take(c));
            assert(item.path.take(c).len() == c);
        }
    }
}

/// The screen shows every row in its place, marked as picked when its path is, the
/// status line as it is, the highlight where it is, the line about that row, and
/// the question while it is asked.
pub proof fn law_screen_shows_the_state(app: AppView)
    ensures
        ({
            let screen = screen_of(app);
            &&& screen.rows.len() == app.items.len()
            &&& forall|i: int|
                0 <= i < app.items.len() ==> #[trigger] screen.rows[i] == table_row(
                    app.items[i],
                    app.checked.contains(app.items[i].path),
                )
            &&& screen.status == app.status
            &&& app.items.len() == 0 ==> screen.highlighted is None
            &&& app.items.len() > 0 ==> screen.highlighted == Some(app.selected)
            &&& app.selected >= app.items.len() ==> screen.detail is None
            &&& app.selected < app.items.len() ==> screen.detail == Some(
                detail_of(app.items[app.selected as int]),
            )
            &&& app.mode == Mode::Browse ==> screen.dialog is None
            &&& app.mode == Mode::ConfirmApply && app.policy_enabled ==> screen.dialog == Some(
                (DialogView {
                    title: " Confirm policy override "@,
                    message: dialog_message(targets_of(app), true),
                }),
            )
            &&& app.mode == Mode::ConfirmApply && !app.policy_enabled ==> screen.dialog == Some(
                (DialogView {
                    title: " Confirm exclusions "@,
                    message: dialog_message(targets_of(app), false),
                }),
            )
        }),
{
}

/// The question gives the number of the paths, lists ten of them at most, says how
/// many more there are, and names the keys; under a policy it begins with the
/// warning.
pub proof fn law_question_text(targets: Seq<Seq<char>>, policy_enabled: bool)
    ensures
        listing(Seq::empty()).len() == 0,
        ({
            let asked = decimal(targets.len()) + " path(s) will be excluded from ASR:\n"@;
            let keys = "\nEnter/Y = apply    Esc/N = cancel"@;
            let question = dialog_message(targets, false);
            &&& targets.len() <= 10 ==> question == asked + listing(targets) + keys
            &&& targets.len() > 10 ==> question == asked + listing(targets.take(10)) + (
            "  ... and "@ + decimal((targets.len() - 10) as nat) + " more\n"@) + keys
            &&& dialog_message(targets, true) == POLICY_WARNING@ + question
        }),
{
    let none: Seq<char> = Seq::empty();
    let asked = decimal(targets.len()) + " path(s) will be excluded from ASR:\n"@;
    let keys = "\nEnter/Y = apply    Esc/N = cancel"@;
    if targets.len() <= 10 {
        assert(dialog_message(targets, false) =~= asked + listing(targets) + keys);
    } else {
        assert(dialog_message(targets, false) =~= asked + listing(targets.take(10)) + (
        "  ... and "@ + decimal((targets.len() - 10) as nat) + " more\n"@) + keys);
    }
    assert(dialog_message(targets, true) =~= POLICY_WARNING@ + dialog_message(targets, false));
}

} // verus!
