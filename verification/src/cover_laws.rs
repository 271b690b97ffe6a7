//! What it means that an exclusion covers a path, for every path.

use vstd::prelude::*;
use vstd::utf8::encode_utf8;

use crate::path_laws::{lemma_trim_end_cut, lemma_trim_start_cut};
use crate::paths::{
    covered_end, covered_prefix, covers, entry_covers, law_longest_entry, longest_entry,
    names_folder, normalized,
};
use crate::target_laws::parts_components;
use crate::text::{lower, starts_with, trim, trim_start, CharClass};
use crate::text_laws::law_trim_takes_the_ends;

verus! {

/// What normalizing takes away and what it leaves: white space at both ends, then
/// quotes at both ends, then backslashes at the end; what is left is put in lower
/// case.
pub proof fn law_normalizing_keeps_the_middle(path: Seq<char>) -> (r: (int, int, int, int, int))
    ensures
        0 <= r.0 <= r.1 <= r.2 <= r.3 <= r.4 <= path.len(),
        forall|i: int| 0 <= i < r.0 ==> CharClass::WhiteSpace.has(#[trigger] path[i]),
        forall|i: int| r.0 <= i < r.1 ==> #[trigger] path[i] == '"',
        forall|i: int| r.2 <= i < r.3 ==> #[trigger] path[i] == '\\',
        forall|i: int| r.3 <= i < r.4 ==> #[trigger] path[i] == '"',
        forall|i: int| r.4 <= i < path.len() ==> CharClass::WhiteSpace.has(#[trigger] path[i]),
        r.0 < r.4 ==> !CharClass::WhiteSpace.has(path[r.0]) && !CharClass::WhiteSpace.has(
            path[r.4 - 1],
        ),
        r.1 < r.3 ==> path[r.1] != '"' && path[r.3 - 1] != '"',
        r.1 < r.2 ==> path[r.2 - 1] != '\\',
        normalized(path).len() == r.2 - r.1,
        forall|i: int|
            0 <= i < r.2 - r.1 ==> (#[trigger] normalized(path)[i]) as int == if 65 <= path[r.1
                + i] as int <= 90 {
                path[r.1 + i] as int + 32
            } else {
                path[r.1 + i] as int
            },
{
    let (a, e) = law_trim_takes_the_ends(path, CharClass::WhiteSpace);
    let inner = trim(path, CharClass::WhiteSpace);
    assert(forall|i: int| 0 <= i < inner.len() ==> inner[i] == #[trigger] path[a + i]);
    let (b, d) = law_trim_takes_the_ends(inner, CharClass::Quote);
    let core = trim(inner, CharClass::Quote);
    assert(forall|i: int| 0 <= i < core.len() ==> core[i] == #[trigger] inner[b + i]);
    let c: int = lemma_trim_end_cut(core, CharClass::Backslash);
    assert forall|i: int| a <= i < a + b implies #[trigger] path[i] == '"' by {
        assert(CharClass::Quote.has(inner[i - a]));
        assert(inner[i - a] == path[a + (i - a)]);
    }
    assert forall|i: int| a + d <= i < e implies #[trigger] path[i] == '"' by {
        assert(CharClass::Quote.has(inner[i - a]));
        assert(inner[i - a] == path[a + (i - a)]);
    }
    assert forall|i: int| a + b + c <= i < a + d implies #[trigger] path[i] == '\\' by {
        assert(CharClass::Backslash.has(core[i - a - b]));
        assert(core[i - a - b] == inner[b + (i - a - b)]);
        assert(inner[i - a] == path[a + (i - a)]);
    }
    if b < d {
        assert(inner[b] == path[a + b]);
        assert(inner[d - 1] == path[a + (d - 1)]);
    }
    if c > 0 {
        assert(core[c - 1] == inner[b + (c - 1)]);
        assert(inner[b + c - 1] == path[a + (b + c - 1)]);
    }
    let kept = core.take(c);
    assert(normalized(path) == lower(kept));
    assert forall|i: int| 0 <= i < c implies (#[trigger] normalized(path)[i]) as int == if 65
        <= path[a + b + i] as int <= 90 {
        path[a + b + i] as int + 32
    } else {
        path[a + b + i] as int
    } by {
        assert(kept[i] == core[i]);
        assert(core[i] == inner[b + i]);
        assert(inner[b + i] == path[a + (b + i)]);
    }
    (a, a + b, a + b + c, a + d, e)
}

/// Whether `path` goes on after `folder` with a separator.
pub open spec fn goes_on_after(path: Seq<char>, folder: Seq<char>) -> bool {
    &&& folder.len() < path.len()
    &&& path.take(folder.len() as int) == folder
    &&& parts_components(path[folder.len() as int])
}

/// A normalized entry covers itself and every path that goes on after it with a
/// separator, and nothing else; an empty one covers nothing.
pub proof fn law_covering(entry: Seq<char>, path: Seq<char>)
    ensures
        covers(entry, path) <==> entry.len() > 0 && (path == entry || goes_on_after(path, entry)),
{
}

/// A folder covers whatever a folder inside it covers.
pub proof fn law_covering_reaches_down(outer: Seq<char>, inner: Seq<char>, path: Seq<char>)
    requires
        covers(outer, inner),
        covers(inner, path),
    ensures
        covers(outer, path),
{
    if outer != inner && inner != path {
        assert(path.take(outer.len() as int) =~= inner.take(outer.len() as int));
        assert(path[outer.len() as int] == path.take(inner.len() as int)[outer.len() as int]);
    }
}

/// Whether a backslash at `i` ends `entry`, but for quotes up to `j` and white
/// space after them.
pub open spec fn backslash_ends(entry: Seq<char>, i: int, j: int) -> bool {
    &&& 0 <= i < j <= entry.len()
    &&& entry[i] == '\\'
    &&& forall|k: int| i < k < j ==> #[trigger] entry[k] == '"'
    &&& forall|k: int| j <= k < entry.len() ==> CharClass::WhiteSpace.has(#[trigger] entry[k])
}

/// An exclusion names a folder exactly when it ends with a backslash, outer quotes
/// and white space aside.
pub proof fn law_folders_end_with_a_backslash(entry: Seq<char>)
    ensures
        names_folder(entry) <==> exists|i: int, j: int| backslash_ends(entry, i, j),
{
    let (a, e) = law_trim_takes_the_ends(entry, CharClass::WhiteSpace);
    let inner = trim(entry, CharClass::WhiteSpace);
    assert(forall|i: int| 0 <= i < inner.len() ==> inner[i] == #[trigger] entry[a + i]);
    let (b, d) = law_trim_takes_the_ends(inner, CharClass::Quote);
    let core = trim(inner, CharClass::Quote);
    assert(forall|i: int| 0 <= i < core.len() ==> core[i] == #[trigger] inner[b + i]);
    if names_folder(entry) {
        let i: int = a + d - 1;
        assert(core.last() == inner[b + (d - b - 1)]);
        assert(inner[d - 1] == entry[a + (d - 1)]);
        assert forall|k: int| i < k < e implies #[trigger] entry[k] == '"' by {
            assert(CharClass::Quote.has(inner[k - a]));
            assert(inner[k - a] == entry[a + (k - a)]);
        }
        assert(backslash_ends(entry, i, e));
    }
    if exists|i: int, j: int| backslash_ends(entry, i, j) {
        let (i, j): (int, int) = choose|i: int, j: int| backslash_ends(entry, i, j);
        assert(a <= i < e) by {
            if i < a || i >= e {
                assert(CharClass::WhiteSpace.has(entry[i]));
            }
        }
        assert(e == j) by {
            if e > j {
                assert(CharClass::WhiteSpace.has(entry[e - 1]));
            }
            if e < j {
                assert(CharClass::WhiteSpace.has(entry[e]));
                assert(entry[e] == '"');
            }
        }
        assert(inner[i - a] == entry[a + (i - a)]);
        assert(b <= i - a < d) by {
            if i - a < b || i - a >= d {
                assert(CharClass::Quote.has(inner[i - a]));
            }
        }
        assert(d == i - a + 1) by {
            if d > i - a + 1 {
                assert(inner[d - 1] == entry[a + (d - 1)]);
                assert(entry[a + d - 1] == '"');
            }
        }
        assert(core.last() == inner[b + (d - b - 1)]);
    }
}

/// An exclusion covers the path that it names, and where it names a folder also
/// every path in that folder.
pub proof fn law_exclusion_covers(entry: Seq<char>, path: Seq<char>)
    ensures
        entry_covers(entry, path) <==> normalized(entry).len() > 0 && (normalized(entry)
            == normalized(path) || (names_folder(entry) && goes_on_after(
            normalized(path),
            normalized(entry),
        ))),
{
}

/// Another exclusion never takes away that a path is covered.
pub proof fn law_more_exclusions_cover_more(
    path: Seq<char>,
    entries: Seq<Seq<char>>,
    more: Seq<Seq<char>>,
)
    requires
        longest_entry(path, entries) is Some,
    ensures
        longest_entry(path, entries + more) is Some,
        longest_entry(path, more + entries) is Some,
        longest_entry(path, entries)->0.len() <= longest_entry(path, entries + more)->0.len(),
{
    law_longest_entry(path, entries);
    law_longest_entry(path, entries + more);
    law_longest_entry(path, more + entries);
    let i: int = choose|i: int|
        0 <= i < entries.len() && entry_covers(#[trigger] entries[i], path) && normalized(
            entries[i],
        ) == longest_entry(path, entries)->0;
    assert((entries + more)[i] == entries[i]);
    assert((more + entries)[more.len() + i] == entries[i]);
}

/// Whether the entry and one separator stand in `path` from `start` to `end`, after
/// nothing but white space and before something else.
pub open spec fn maps_to(path: Seq<char>, entry: Seq<char>, start: int, end: int) -> bool {
    &&& 0 <= start
    &&& end == start + entry.len() + 1
    &&& end < path.len()
    &&& forall|i: int| 0 <= i < start ==> CharClass::WhiteSpace.has(#[trigger] path[i])
    &&& !CharClass::WhiteSpace.has(path[start])
    &&& lower(path.subrange(start, end - 1)) == entry
    &&& parts_components(path[end - 1])
}

/// A prefix is mapped back exactly where the entry and a separator stand at the
/// beginning of the path, and normalizing took nothing but white space away; it is
/// as long as that part in bytes.
pub proof fn law_prefix_is_mapped_back(path: Seq<char>, entry: Seq<char>)
    ensures
        covered_prefix(path, entry) is Some <==> normalized(path) == lower(
            trim(path, CharClass::WhiteSpace),
        ) && exists|start: int, end: int| maps_to(path, entry, start, end),
        forall|start: int, end: int|
            covered_prefix(path, entry) is Some && #[trigger] maps_to(path, entry, start, end)
                ==> covered_prefix(path, entry)->0 == encode_utf8(path.take(end)).len(),
{
    let white = CharClass::WhiteSpace;
    let a: int = lemma_trim_start_cut(path, white);
    let rest = trim_start(path, white);
    let b: int = lemma_trim_end_cut(rest, white);
    let inner = trim(path, white);
    let n: int = entry.len() as int;
    assert forall|start: int, end: int| #[trigger] maps_to(path, entry, start, end) implies start
        == a && end == covered_end(path, entry) by {
        if start < a {
            assert(white.has(path[start]));
        } else if a < start {
            assert(white.has(path[a]));
        }
    }
    if normalized(path) == lower(inner) {
        let full = normalized(path);
        assert(forall|i: int| 0 <= i < b ==> inner[i] == #[trigger] path[a + i]);
        if covered_prefix(path, entry) is Some {
            let end: int = covered_end(path, entry);
            assert(lower(path.subrange(a, end - 1)) =~= full.take(n)) by {
                assert forall|i: int| 0 <= i < n implies lower(path.subrange(a, end - 1))[i]
                    == full.take(n)[i] by {
                    assert(inner[i] == path[a + i]);
                }
            }
            assert(full[n] == lower(inner)[n]);
            assert(inner[n] == path[a + n]);
            assert(parts_components(path[end - 1]));
            assert(maps_to(path, entry, a, end));
        }
        if exists|start: int, end: int| maps_to(path, entry, start, end) {
            let (start, end): (int, int) = choose|start: int, end: int|
                maps_to(path, entry, start, end);
            assert(n < b) by {
                if b <= n {
                    assert(white.has(rest[n]));
                    assert(rest[n] == path[a + n]);
                }
            }
            assert(full.take(n) =~= entry) by {
                assert forall|i: int| 0 <= i < n implies full.take(n)[i] == lower(
                    path.subrange(start, end - 1),
                )[i] by {
                    assert(inner[i] == path[a + i]);
                }
            }
            assert(inner[n] == path[a + n]);
            assert(full[n] == lower(inner)[n]);
            assert(starts_with(full, entry));
        }
    }
}

} // verus!
