//! What the screen shows: the rows of the table, the status lines and the
//! question before applying, as text that is ready to be drawn.

use vstd::prelude::*;
use vstd::string::StringExecFns;
use vstd::utf8::{
    decode_utf8, encode_utf8, encode_utf8_decode_utf8, is_char_boundary,
};

use crate::app::{item_target, targets_of};
use crate::model::{App, AppView, BlockedItem, ItemView, Mode};
use crate::path_laws::{lemma_boundary_after, lemma_encode_concat, lemma_target_cut};
use crate::paths::{
    byte_len, covered_prefix, covered_prefix_len, exclusion_target, normalize_path, normalized,
    target,
};
use crate::text::{decimal, decimal_text, texts, CharClass};

verus! {

/// How many paths the question before applying lists.
pub const MAX_LISTED: usize = 10;

/// The warning that stands in the question while a policy is in force.
pub const POLICY_WARNING: &'static str = "Group Policy currently manages ASR exclusions on this computer. The paths below will be added to that policy list (the same registry location gpedit writes) and to local Defender preferences. A domain or Intune policy refresh may remove them again.\n\n";

/// A path in the table: plain, or parted into what the exclusion covers and the
/// rest.
#[derive(Debug)]
pub enum PathCell {
    Plain(String),
    Parted { covered: String, rest: String },
}

/// A row of the table.
#[derive(Debug)]
pub struct TableRow {
    pub pick: String,
    pub status: String,
    /// Excluded rows are green, blocked rows red.
    pub excluded: bool,
    pub time: String,
    pub path: PathCell,
    pub process: String,
    pub count: String,
}

/// The line about the highlighted row.
#[derive(Debug)]
pub struct Detail {
    pub rule: String,
    pub label: String,
    pub target: String,
}

/// The question before applying.
#[derive(Debug)]
pub struct Dialog {
    pub title: String,
    pub message: String,
}

/// Everything that is shown.
#[derive(Debug)]
pub struct Screen {
    pub rows: Vec<TableRow>,
    /// The highlighted row.
    pub highlighted: Option<usize>,
    pub status: String,
    pub detail: Option<Detail>,
    pub dialog: Option<Dialog>,
}

/// A path in the table.
pub enum PathCellView {
    Plain(Seq<char>),
    Parted { covered: Seq<char>, rest: Seq<char> },
}

impl View for PathCell {
    type V = PathCellView;

    open spec fn view(&self) -> PathCellView {
        match *self {
            PathCell::Plain(path) => PathCellView::Plain(path@),
            PathCell::Parted { covered, rest } => PathCellView::Parted {
                covered: covered@,
                rest: rest@,
            },
        }
    }
}

/// A row of the table.
pub struct TableRowView {
    pub pick: Seq<char>,
    pub status: Seq<char>,
    pub excluded: bool,
    pub time: Seq<char>,
    pub path: PathCellView,
    pub process: Seq<char>,
    pub count: Seq<char>,
}

impl View for TableRow {
    type V = TableRowView;

    open spec fn view(&self) -> TableRowView {
        TableRowView {
            pick: self.pick@,
            status: self.status@,
            excluded: self.excluded,
            time: self.time@,
            path: self.path@,
            process: self.process@,
            count: self.count@,
        }
    }
}

/// The line about the highlighted row.
pub struct DetailView {
    pub rule: Seq<char>,
    pub label: Seq<char>,
    pub target: Seq<char>,
}

impl View for Detail {
    type V = DetailView;

    open spec fn view(&self) -> DetailView {
        DetailView { rule: self.rule@, label: self.label@, target: self.target@ }
    }
}

/// The question before applying.
pub struct DialogView {
    pub title: Seq<char>,
    pub message: Seq<char>,
}

impl View for Dialog {
    type V = DialogView;

    open spec fn view(&self) -> DialogView {
        DialogView { title: self.title@, message: self.message@ }
    }
}

/// Everything that is shown.
#[verifier::ext_equal]
pub struct ScreenView {
    pub rows: Seq<TableRowView>,
    pub highlighted: Option<nat>,
    pub status: Seq<char>,
    pub detail: Option<DetailView>,
    pub dialog: Option<DialogView>,
}

/// The values of a sequence of table rows.
pub open spec fn rows_view(rows: Seq<TableRow>) -> Seq<TableRowView> {
    rows.map_values(|row: TableRow| row@)
}

impl View for Screen {
    type V = ScreenView;

    open spec fn view(&self) -> ScreenView {
        ScreenView {
            rows: rows_view(self.rows@),
            highlighted: match self.highlighted {
                Some(row) => Some(row as nat),
                None => None,
            },
            status: self.status@,
            detail: match self.detail {
                Some(detail) => Some(detail@),
                None => None,
            },
            dialog: match self.dialog {
                Some(dialog) => Some(dialog@),
                None => None,
            },
        }
    }
}

/// The first column: whether the row is picked, and how many levels up its
/// target is while that can still change.
pub open spec fn pick_text(picked: bool, scope: nat, excluded: bool) -> Seq<char> {
    let mark = if picked {
        "[x]"@
    } else {
        "[ ]"@
    };
    if scope == 0 || excluded {
        mark
    } else {
        mark + " ^"@ + decimal(scope)
    }
}

/// The first `at` bytes of a path, as text.
pub open spec fn part_before(path: Seq<char>, at: nat) -> Seq<char> {
    decode_utf8(encode_utf8(path).subrange(0, at as int))
}

/// A path without its first `at` bytes, as text.
pub open spec fn part_after(path: Seq<char>, at: nat) -> Seq<char> {
    decode_utf8(encode_utf8(path).subrange(at as int, byte_len(path) as int))
}

/// Up to which byte the exclusion of a row covers its path: for an excluded row
/// by the folder entry that covers it, for a blocked row by its target.
pub open spec fn parting(item: ItemView) -> Option<nat> {
    if item.excluded_now {
        match item.excluded_by {
            Some(entry) => covered_prefix(item.path, entry),
            None => None,
        }
    } else if item.scope > 0 {
        Some(byte_len(item_target(item)))
    } else {
        None
    }
}

/// The path of a row as it is shown.
pub open spec fn path_cell(item: ItemView) -> PathCellView {
    match parting(item) {
        Some(at) => if at < byte_len(item.path) {
            PathCellView::Parted {
                covered: part_before(item.path, at),
                rest: part_after(item.path, at),
            }
        } else {
            PathCellView::Plain(item.path)
        },
        None => PathCellView::Plain(item.path),
    }
}

/// A row as it is shown.
pub open spec fn table_row(item: ItemView, picked: bool) -> TableRowView {
    TableRowView {
        pick: pick_text(picked, item.scope, item.excluded_now),
        status: if item.excluded_now {
            "[OK] Excluded"@
        } else {
            "[X] Blocked"@
        },
        excluded: item.excluded_now,
        time: item.time,
        path: path_cell(item),
        process: item.process,
        count: decimal(item.occurrences),
    }
}

/// How the width of a target is called.
pub open spec fn scope_label(scope: nat) -> Seq<char> {
    if scope == 0 {
        "file"@
    } else if scope == 1 {
        "folder"@
    } else {
        "folder, "@ + decimal(scope) + " levels up"@
    }
}

/// The covering entry of a path, in the path's own letter case where possible.
pub open spec fn shown_entry(path: Seq<char>, entry: Seq<char>) -> Seq<char> {
    match covered_prefix(path, entry) {
        Some(at) => part_before(path, at),
        None => if normalized(path) == entry {
            path
        } else {
            entry
        },
    }
}

/// The line about a highlighted row.
pub open spec fn detail_of(item: ItemView) -> DetailView {
    match item.excluded_by {
        Some(entry) => DetailView {
            rule: item.rule,
            label: "  Excluded by "@,
            target: shown_entry(item.path, entry),
        },
        None => DetailView {
            rule: item.rule,
            label: "  Exclude ("@ + scope_label(item.scope) + ") "@,
            target: item_target(item),
        },
    }
}

/// The listed paths, each on a line of its own.
pub open spec fn listing(targets: Seq<Seq<char>>) -> Seq<char>
    decreases targets.len(),
{
    if targets.len() == 0 {
        Seq::empty()
    } else {
        listing(targets.drop_last()) + "  "@ + targets.last() + "\n"@
    }
}

/// The question before applying `targets`: the first of them are listed, and
/// the number of the others is given.
pub open spec fn dialog_message(targets: Seq<Seq<char>>, policy_enabled: bool) -> Seq<char> {
    (if policy_enabled {
        POLICY_WARNING@
    } else {
        Seq::empty()
    }) + decimal(targets.len()) + " path(s) will be excluded from ASR:\n"@ + listing(
        if targets.len() > MAX_LISTED {
            targets.take(MAX_LISTED as int)
        } else {
            targets
        },
    ) + (if targets.len() > MAX_LISTED {
        "  ... and "@ + decimal((targets.len() - MAX_LISTED) as nat) + " more\n"@
    } else {
        Seq::empty()
    }) + "\nEnter/Y = apply    Esc/N = cancel"@
}

/// The question before applying.
pub open spec fn dialog_of(app: AppView) -> DialogView {
    DialogView {
        title: if app.policy_enabled {
            " Confirm policy override "@
        } else {
            " Confirm exclusions "@
        },
        message: dialog_message(targets_of(app), app.policy_enabled),
    }
}

/// Everything that is shown.
pub open spec fn screen_of(app: AppView) -> ScreenView {
    ScreenView {
        rows: app.items.map_values(
            |item: ItemView| table_row(item, app.checked.contains(item.path)),
        ),
        highlighted: if app.items.len() > 0 {
            Some(app.selected)
        } else {
            None
        },
        status: app.status,
        detail: if app.selected < app.items.len() {
            Some(detail_of(app.items[app.selected as int]))
        } else {
            None
        },
        dialog: if app.mode == Mode::ConfirmApply {
            Some(dialog_of(app))
        } else {
            None
        },
    }
}

/// The target of a blocked row ends inside its path at a character, or does not
/// end inside it.
pub proof fn lemma_target_parts(path: Seq<char>, scope: nat)
    requires
        scope > 0,
    ensures
        byte_len(target(path, scope)) < byte_len(path) ==> {
            &&& target(path, scope).len() < path.len()
            &&& byte_len(target(path, scope)) == byte_len(
                path.take(target(path, scope).len() as int),
            )
            &&& is_char_boundary(encode_utf8(path), byte_len(target(path, scope)) as int)
        },
{
    lemma_target_cut(path, scope);
    let t = target(path, scope);
    let c: int = t.len() - 1;
    let up = t.drop_last();
    assert(t =~= up + seq!['\\']);
    lemma_encode_concat(up, seq!['\\']);
    lemma_separator_byte('\\');
    if t.len() <= path.len() {
        lemma_separator_byte(path[c]);
        assert(path.take(c + 1) =~= up + seq![path[c]]);
        lemma_encode_concat(up, seq![path[c]]);
        lemma_boundary_after(path, c + 1);
        if c + 1 == path.len() {
            assert(path.take(c + 1) =~= path);
        }
    } else {
        assert(path.take(c) =~= path);
    }
}

proof fn lemma_separator_byte(c: char)
    requires
        CharClass::Separator.has(c),
    ensures
        byte_len(seq![c]) == 1,
{
    reveal_with_fuel(encode_utf8, 2);
}

/// Parts a text after `at` bytes.
fn part_text(path: &String, at: usize) -> (r: (String, String))
    requires
        is_char_boundary(encode_utf8(path@), at as int),
    ensures
        r.0@ == part_before(path@, at as nat),
        r.1@ == part_after(path@, at as nat),
{
    let (covered, rest) = path.as_str().split_at(at);
    proof {
        encode_utf8_decode_utf8(covered@);
        encode_utf8_decode_utf8(rest@);
    }
    (covered.to_owned(), rest.to_owned())
}

fn pick_column(picked: bool, scope: usize, excluded: bool) -> (r: String)
    ensures
        r@ == pick_text(picked, scope as nat, excluded),
{
    let mark = if picked {
        "[x]".to_owned()
    } else {
        "[ ]".to_owned()
    };
    if scope == 0 || excluded {
        mark
    } else {
        mark.concat(" ^").concat(decimal_text(scope).as_str())
    }
}

fn path_column(item: &BlockedItem) -> (r: PathCell)
    ensures
        r@ == path_cell(item@),
{
    let at: Option<usize> = if item.excluded_now {
        match &item.excluded_by {
            Some(entry) => covered_prefix_len(item.path.as_str(), entry.as_str()),
            None => None,
        }
    } else if item.scope > 0 {
        let chosen = exclusion_target(item.path.as_str(), item.scope);
        proof {
            lemma_target_parts(item.path@, item.scope as nat);
        }
        Some(chosen.as_str().as_bytes().len())
    } else {
        None
    };
    match at {
        Some(n) => if n < item.path.as_str().as_bytes().len() {
            let (covered, rest) = part_text(&item.path, n);
            PathCell::Parted { covered, rest }
        } else {
            PathCell::Plain(item.path.clone())
        },
        None => PathCell::Plain(item.path.clone()),
    }
}

fn render_row(item: &BlockedItem, picked: bool) -> (r: TableRow)
    ensures
        r@ == table_row(item@, picked),
{
    TableRow {
        pick: pick_column(picked, item.scope, item.excluded_now),
        status: if item.excluded_now {
            "[OK] Excluded".to_owned()
        } else {
            "[X] Blocked".to_owned()
        },
        excluded: item.excluded_now,
        time: item.time.clone(),
        path: path_column(item),
        process: item.process.clone(),
        count: decimal_text(item.occurrences),
    }
}

fn entry_text(path: &String, entry: &String) -> (r: String)
    ensures
        r@ == shown_entry(path@, entry@),
{
    match covered_prefix_len(path.as_str(), entry.as_str()) {
        Some(at) => part_text(path, at).0,
        None => {
            let normal = normalize_path(path.as_str());
            if normal == *entry {
                path.clone()
            } else {
                entry.clone()
            }
        },
    }
}

fn render_detail(item: &BlockedItem) -> (r: Detail)
    ensures
        r@ == detail_of(item@),
{
    match &item.excluded_by {
        Some(entry) => Detail {
            rule: item.rule.clone(),
            label: "  Excluded by ".to_owned(),
            target: entry_text(&item.path, entry),
        },
        None => {
            let width = if item.scope == 0 {
                "file".to_owned()
            } else if item.scope == 1 {
                "folder".to_owned()
            } else {
                "folder, ".to_owned().concat(decimal_text(item.scope).as_str()).concat(
                    " levels up",
                )
            };
            Detail {
                rule: item.rule.clone(),
                label: "  Exclude (".to_owned().concat(width.as_str()).concat(") "),
                target: exclusion_target(item.path.as_str(), item.scope),
            }
        },
    }
}

/// The question before applying the paths.
pub fn render_message(targets: &Vec<String>, policy_enabled: bool) -> (r: String)
    ensures
        r@ == dialog_message(texts(targets@), policy_enabled),
{
    let ghost all = texts(targets@);
    let mut r = String::new();
    if policy_enabled {
        r.append(POLICY_WARNING);
    }
    r.append(decimal_text(targets.len()).as_str());
    r.append(" path(s) will be excluded from ASR:\n");
    let ghost head = r@;
    let mut i: usize = 0;
    assert(r@ =~= head + listing(all.take(0)));
    while i < targets.len() && i < MAX_LISTED
        invariant
            i <= targets@.len(),
            i <= MAX_LISTED,
            all == texts(targets@),
            r@ == head + listing(all.take(i as int)),
        decreases targets@.len() - i,
    {
        assert(all.take(i + 1).drop_last() =~= all.take(i as int));
        let ghost before = listing(all.take(i as int));
        r.append("  ");
        r.append(targets[i].as_str());
        r.append("\n");
        assert(r@ =~= head + (before + "  "@ + targets@[i as int]@ + "\n"@));
        i += 1;
    }
    assert(all.len() <= MAX_LISTED ==> all.take(i as int) =~= all);
    if targets.len() > MAX_LISTED {
        r.append("  ... and ");
        r.append(decimal_text(targets.len() - MAX_LISTED).as_str());
        r.append(" more\n");
    }
    r.append("\nEnter/Y = apply    Esc/N = cancel");
    assert(r@ =~= dialog_message(all, policy_enabled));
    r
}

fn render_dialog(app: &App) -> (r: Dialog)
    ensures
        r@ == dialog_of(app@),
{
    Dialog {
        title: if app.policy_enabled {
            " Confirm policy override ".to_owned()
        } else {
            " Confirm exclusions ".to_owned()
        },
        message: render_message(&app.selected_paths(), app.policy_enabled),
    }
}

/// What the screen shows for a state.
pub fn render(app: &App) -> (r: Screen)
    ensures
        r@ == screen_of(app@),
{
    let mut rows: Vec<TableRow> = Vec::new();
    let ghost wanted = screen_of(app@).rows;
    let mut i: usize = 0;
    while i < app.items.len()
        invariant
            i <= app.items@.len(),
            wanted == screen_of(app@).rows,
            rows_view(rows@) == wanted.take(i as int),
        decreases app.items@.len() - i,
    {
        let ghost before = rows@;
        let item = &app.items[i];
        let row = render_row(item, app.checked.contains(item.path.as_str()));
        rows.push(row);
        assert(rows_view(rows@) =~= rows_view(before).push(row@));
        assert(wanted.take(i + 1) =~= wanted.take(i as int).push(row@));
        i += 1;
    }
    assert(wanted.take(wanted.len() as int) =~= wanted);
    let detail = match app.selected_item() {
        Some(item) => Some(render_detail(item)),
        None => None,
    };
    Screen {
        rows,
        highlighted: if app.items.len() > 0 {
            Some(app.selected)
        } else {
            None
        },
        status: app.status.clone(),
        detail,
        dialog: match app.mode {
            Mode::ConfirmApply => Some(render_dialog(app)),
            Mode::Browse => None,
        },
    }
}

} // verus!
