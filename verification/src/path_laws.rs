//! What holds of exclusion targets and of covering entries, for every path.

use vstd::prelude::*;
use vstd::utf8::{
    encode_utf8, encode_utf8_first_scalar, encode_utf8_valid_utf8, is_char_boundary,
    length_of_first_scalar, pop_first_scalar,
};

use crate::paths::{
    ancestor, byte_len, component_count, covered_end, covered_prefix, covers, entry_covers,
    last_separator, names_folder, normalized, reserved_components, target, widest_scope,
    without_end,
};
use crate::text::{
    lemma_trim_end_at, lemma_trim_start_at, lower, lower_char, starts_with, trim, trim_end,
    trim_start, CharClass,
};

verus! {

/// What `trim_start` takes away.
pub proof fn lemma_trim_start_cut(s: Seq<char>, class: CharClass) -> (k: int)
    ensures
        0 <= k <= s.len(),
        trim_start(s, class) == s.skip(k),
        forall|j: int| 0 <= j < k ==> class.has(#[trigger] s[j]),
        k < s.len() ==> !class.has(s[k]),
    decreases s.len(),
{
    if s.len() > 0 && class.has(s[0]) {
        let rest = s.drop_first();
        let k: int = lemma_trim_start_cut(rest, class);
        assert(rest.skip(k) =~= s.skip(k + 1));
        assert forall|j: int| 0 <= j < k + 1 implies class.has(#[trigger] s[j]) by {
            if j > 0 {
                assert(rest[j - 1] == s[j]);
            }
        }
        k + 1
    } else {
        assert(s.skip(0) =~= s);
        0
    }
}

/// What `trim_end` leaves.
pub proof fn lemma_trim_end_cut(s: Seq<char>, class: CharClass) -> (k: int)
    ensures
        0 <= k <= s.len(),
        trim_end(s, class) == s.take(k),
        forall|j: int| k <= j < s.len() ==> class.has(#[trigger] s[j]),
        k > 0 ==> !class.has(s[k - 1]),
    decreases s.len(),
{
    if s.len() > 0 && class.has(s.last()) {
        let rest = s.drop_last();
        let k: int = lemma_trim_end_cut(rest, class);
        assert(rest.take(k) =~= s.take(k));
        assert forall|j: int| k <= j < s.len() implies class.has(#[trigger] s[j]) by {
            if j < rest.len() {
                assert(rest[j] == s[j]);
            }
        }
        k
    } else {
        assert(s.take(s.len() as int) =~= s);
        s.len() as int
    }
}

pub proof fn lemma_count_separators(s: Seq<char>, k: int)
    requires
        0 <= k <= s.len(),
        forall|j: int| k <= j < s.len() ==> CharClass::Separator.has(#[trigger] s[j]),
    ensures
        component_count(s) == component_count(s.take(k)),
    decreases s.len() - k,
{
    if k < s.len() {
        assert(CharClass::Separator.has(s[s.len() - 1]));
        lemma_count_separators(s.drop_last(), k);
        assert(s.drop_last().take(k) =~= s.take(k));
    } else {
        assert(s.take(k) =~= s);
    }
}

pub proof fn lemma_count_one_component(s: Seq<char>, k: int)
    requires
        0 <= k <= s.len(),
        forall|j: int| k <= j < s.len() ==> !CharClass::Separator.has(#[trigger] s[j]),
    ensures
        component_count(s) <= component_count(s.take(k)) + 1,
        k < s.len() && (k == 0 || CharClass::Separator.has(s[k - 1])) ==> component_count(s)
            == component_count(s.take(k)) + 1,
    decreases s.len() - k,
{
    if k < s.len() {
        lemma_count_one_component(s.drop_last(), k);
        assert(s.drop_last().take(k) =~= s.take(k));
        if k < s.len() - 1 {
            assert(!CharClass::Separator.has(s[s.len() - 2]));
        } else {
            assert(s.drop_last() =~= s.take(k));
        }
    } else {
        assert(s.take(k) =~= s);
    }
}

pub proof fn lemma_last_separator_found(s: Seq<char>)
    ensures
        last_separator(s) matches Some(i) ==> {
            &&& i < s.len()
            &&& CharClass::Separator.has(s[i as int])
            &&& forall|j: int| i < j < s.len() ==> !CharClass::Separator.has(#[trigger] s[j])
        },
        last_separator(s) is None ==> forall|j: int|
            0 <= j < s.len() ==> !CharClass::Separator.has(#[trigger] s[j]),
    decreases s.len(),
{
    if s.len() > 0 && !CharClass::Separator.has(s.last()) {
        let rest = s.drop_last();
        lemma_last_separator_found(rest);
        assert forall|j: int|
            0 <= j < s.len() && (last_separator(s) is None || last_separator(s)->0
                < j) implies !CharClass::Separator.has(#[trigger] s[j]) by {
            if j < rest.len() {
                assert(rest[j] == s[j]);
            }
        }
    }
}

/// One step up from a name drops that name and the separators before it, and
/// there is a step to take while two components are left.
proof fn lemma_step_up(s: Seq<char>)
    requires
        s.len() > 0,
        !CharClass::Separator.has(s.last()),
        component_count(s) >= 2,
    ensures
        last_separator(s) is Some,
        last_separator(s)->0 > 0,
        ({
            let up = without_end(s.take(last_separator(s)->0 as int));
            &&& component_count(up) == component_count(s) - 1
            &&& up.len() > 0
            &&& !CharClass::Separator.has(up.last())
        }),
{
    lemma_last_separator_found(s);
    assert(s.take(0).len() == 0);
    if last_separator(s) is Some {
        let i: int = last_separator(s)->0 as int;
        lemma_count_one_component(s, i + 1);
        lemma_count_separators(s.take(i + 1), i);
        assert(s.take(i + 1).take(i) =~= s.take(i));
        let part = s.take(i);
        let k: int = lemma_trim_end_cut(part, CharClass::Separator);
        lemma_count_separators(part, k);
        assert(k > 0) by {
            if k == 0 {
                assert(part.take(0).len() == 0);
            }
        }
    } else {
        lemma_count_one_component(s, 0);
    }
}

/// An ancestor is a leading part that ends before a separator.
pub proof fn lemma_ancestor(s: Seq<char>, levels: nat)
    ensures
        starts_with(s, ancestor(s, levels)),
        ancestor(s, levels).len() < s.len() ==> CharClass::Separator.has(
            s[ancestor(s, levels).len() as int],
        ),
    decreases levels,
{
    assert(s.take(s.len() as int) =~= s);
    if levels > 0 {
        lemma_last_separator_found(s);
        if last_separator(s) is Some && last_separator(s)->0 > 0 {
            let i: int = last_separator(s)->0 as int;
            let part = s.take(i);
            let k: int = lemma_trim_end_cut(part, CharClass::Separator);
            let kept = without_end(part);
            assert(kept =~= s.take(kept.len() as int));
            lemma_ancestor(kept, (levels - 1) as nat);
            let up = ancestor(s, levels);
            assert(up == ancestor(kept, (levels - 1) as nat));
            assert(kept.take(up.len() as int) =~= s.take(up.len() as int));
            if up.len() < kept.len() {
                assert(kept[up.len() as int] == s[up.len() as int]);
            } else if up.len() < i {
                assert(CharClass::Separator.has(part[up.len() as int]));
            }
        }
    }
}

/// Each level drops one component.
pub proof fn lemma_ancestor_count(s: Seq<char>, levels: nat)
    requires
        s.len() > 0,
        !CharClass::Separator.has(s.last()),
        component_count(s) >= levels + 1,
    ensures
        component_count(ancestor(s, levels)) == component_count(s) - levels,
        ancestor(s, levels).len() > 0,
        !CharClass::Separator.has(ancestor(s, levels).last()),
        levels > 0 ==> ancestor(s, levels).len() < s.len(),
    decreases levels,
{
    if levels > 0 {
        lemma_step_up(s);
        lemma_last_separator_found(s);
        let part = s.take(last_separator(s)->0 as int);
        let k: int = lemma_trim_end_cut(part, CharClass::Separator);
        lemma_ancestor_count(without_end(part), (levels - 1) as nat);
        lemma_ancestor(without_end(part), (levels - 1) as nat);
    }
}

/// What a folder target leaves of its path, for the scopes that are offered.
proof fn lemma_offered(path: Seq<char>, scope: nat)
    requires
        1 <= scope <= widest_scope(path),
    ensures
        component_count(target(path, scope)) == component_count(path) - scope,
        2 <= target(path, scope).len() <= path.len(),
        !CharClass::Separator.has(path[target(path, scope).len() - 2]),
{
    let trimmed = trim_end(path, CharClass::Separator);
    lemma_trimmed_count(path);
    let k: int = lemma_trim_end_cut(path, CharClass::Separator);
    assert(k > 0) by {
        if k == 0 {
            assert(path.take(0).len() == 0);
        }
    }
    lemma_ancestor_count(trimmed, scope);
    lemma_ancestor(trimmed, scope);
    let up = ancestor(trimmed, scope);
    lemma_count_separators(up.push('\\'), up.len() as int);
    assert(up.push('\\').take(up.len() as int) =~= up);
    assert(up.last() == path[up.len() - 1]);
}

pub proof fn lemma_trimmed_count(path: Seq<char>)
    ensures
        component_count(trim_end(path, CharClass::Separator)) == component_count(path),
{
    let k: int = lemma_trim_end_cut(path, CharClass::Separator);
    lemma_count_separators(path, k);
}

/// The scope is the number of components that a target drops: the folder of the
/// file for one, that folder's parent for two, and so on.
pub proof fn law_scope_counts_components(path: Seq<char>, scope: nat)
    requires
        scope <= widest_scope(path),
    ensures
        component_count(target(path, scope)) == component_count(path) - scope,
{
    if scope > 0 {
        lemma_offered(path, scope);
    }
}

/// The folder for a scope between one and the widest keeps the reserved
/// components: the drive and a folder, or a UNC server, a share and a folder, in
/// the long form of a UNC path too.
/// A drive root is never offered.
pub proof fn law_drive_root_never_offered(path: Seq<char>, scope: nat)
    requires
        1 <= scope <= widest_scope(path),
    ensures
        component_count(target(path, scope)) >= reserved_components(path),
{
    lemma_offered(path, scope);
}

/// Where a folder target was cut from its path.
pub proof fn lemma_target_cut(path: Seq<char>, scope: nat)
    requires
        scope >= 1,
    ensures
        1 <= target(path, scope).len() <= path.len() + 1,
        target(path, scope).last() == '\\',
        target(path, scope).drop_last() == path.take(target(path, scope).len() - 1),
        target(path, scope).len() <= path.len() ==> CharClass::Separator.has(
            path[target(path, scope).len() - 1],
        ),
{
    let trimmed = trim_end(path, CharClass::Separator);
    lemma_ancestor(trimmed, scope);
    let k: int = lemma_trim_end_cut(path, CharClass::Separator);
    let up = ancestor(trimmed, scope);
    assert(target(path, scope).drop_last() =~= up);
    assert(path.take(up.len() as int) =~= trimmed.take(up.len() as int));
    if up.len() < path.len() {
        if up.len() < k {
            assert(trimmed[up.len() as int] == path[up.len() as int]);
        }
    }
}

/// A folder target is the path up to one of its separators, with a backslash
/// in that separator's place.
pub proof fn law_target_is_a_leading_part(path: Seq<char>, scope: nat)
    requires
        1 <= scope <= widest_scope(path),
    ensures
        target(path, scope).last() == '\\',
        2 <= target(path, scope).len() <= path.len(),
        target(path, scope).drop_last() == path.take(target(path, scope).len() - 1),
        CharClass::Separator.has(path[target(path, scope).len() - 1]),
        !CharClass::Separator.has(path[target(path, scope).len() - 2]),
{
    lemma_offered(path, scope);
    lemma_target_cut(path, scope);
}

/// Widening by one level gives a folder whose name is a leading part of the
/// narrower one.
pub proof fn law_wider_scope_contains_narrower(path: Seq<char>, scope: nat)
    requires
        scope >= 1,
    ensures
        starts_with(target(path, scope).drop_last(), target(path, scope + 1).drop_last()),
{
    let trimmed = trim_end(path, CharClass::Separator);
    lemma_ancestor_prefix(trimmed, scope);
    assert(target(path, scope).drop_last() =~= ancestor(trimmed, scope));
    assert(target(path, scope + 1).drop_last() =~= ancestor(trimmed, scope + 1));
}

proof fn lemma_ancestor_prefix(s: Seq<char>, levels: nat)
    ensures
        starts_with(ancestor(s, levels), ancestor(s, levels + 1)),
    decreases levels,
{
    if levels == 0 {
        lemma_ancestor(s, 1);
    } else {
        match last_separator(s) {
            Some(i) => if i > 0 {
                lemma_ancestor_prefix(without_end(s.take(i as int)), (levels - 1) as nat);
            } else {
                assert(s.take(s.len() as int) =~= s);
            },
            None => {
                assert(s.take(s.len() as int) =~= s);
            },
        }
    }
}

/// Trimming again changes nothing.
pub proof fn lemma_trim_twice(s: Seq<char>, class: CharClass)
    ensures
        trim(trim(s, class), class) == trim(s, class),
{
    let a: int = lemma_trim_start_cut(s, class);
    let middle = s.skip(a);
    let b: int = lemma_trim_end_cut(middle, class);
    let r = trim(s, class);
    assert(r == middle.take(b));
    if r.len() > 0 {
        assert(r[0] == middle[0]);
        assert(r[b - 1] == middle[b - 1]);
    }
    lemma_trim_start_at(r, class, 0);
    assert(r.skip(0) =~= r);
    lemma_trim_end_at(r, class, r.len() as int);
    assert(r.take(r.len() as int) =~= r);
}

/// Text with no character of `class` at either end is its own trimmed form.
proof fn lemma_trim_nothing(s: Seq<char>, class: CharClass)
    requires
        s.len() > 0 ==> !class.has(s[0]) && !class.has(s.last()),
    ensures
        trim(s, class) == s,
{
    lemma_trim_start_at(s, class, 0);
    assert(s.skip(0) =~= s);
    lemma_trim_end_at(s, class, s.len() as int);
    assert(s.take(s.len() as int) =~= s);
}

/// Nothing is taken from the start of trimmed text.
pub proof fn lemma_trimmed_start(s: Seq<char>, class: CharClass)
    requires
        trim(s, class) == s,
    ensures
        trim_start(s, class) == s,
{
    let a: int = lemma_trim_start_cut(s, class);
    let b: int = lemma_trim_end_cut(s.skip(a), class);
    assert(s.skip(a).len() == s.len() - a);
    assert(a == 0);
    assert(s.skip(0) =~= s);
}

/// Trimmed text has no character of `class` at either end.
proof fn lemma_trimmed_ends(s: Seq<char>, class: CharClass)
    requires
        trim(s, class) == s,
        s.len() > 0,
    ensures
        !class.has(s[0]),
        !class.has(s.last()),
{
    let a: int = lemma_trim_start_cut(s, class);
    let b: int = lemma_trim_end_cut(s.skip(a), class);
}

/// An exclusion made from a row's target covers that row, so that the row counts
/// as excluded once the exclusion is in place, unless normalizing leaves nothing
/// of its path.
pub proof fn law_target_covers_its_path(path: Seq<char>, scope: nat)
    requires
        trim(path, CharClass::WhiteSpace) == path,
        scope <= widest_scope(path),
    ensures
        entry_covers(target(path, scope), path) <==> normalized(path).len() > 0,
{
    if scope > 0 {
        law_target_is_a_leading_part(path, scope);
        law_drive_root_never_offered(path, scope);
        let t = target(path, scope);
        let end: int = t.len() - 1;
        assert(t =~= path.take(end).push('\\'));
        lemma_trimmed_ends(path, CharClass::WhiteSpace);
        assert(t[0] == path[0]);
        lemma_trim_nothing(t, CharClass::WhiteSpace);
        // Both lose the same leading quotes.
        let k: int = lemma_trim_start_cut(path, CharClass::Quote);
        assert(k <= end) by {
            if k > end {
                assert(CharClass::Quote.has(path[end]));
            }
        }
        assert forall|j: int| 0 <= j < k implies CharClass::Quote.has(#[trigger] t[j]) by {
            assert(t[j] == path[j]);
        }
        lemma_trim_start_at(t, CharClass::Quote, k);
        let folder = t.skip(k);
        lemma_trim_end_at(folder, CharClass::Quote, folder.len() as int);
        assert(folder.take(folder.len() as int) =~= folder);
        assert(trim(t, CharClass::Quote) == folder);
        let inner = path.skip(k);
        let m: int = lemma_trim_end_cut(inner, CharClass::Quote);
        assert(m > end - k) by {
            if m <= end - k {
                assert(CharClass::Quote.has(inner[end - k]));
            }
        }
        let file = inner.take(m);
        assert(trim(path, CharClass::Quote) == file);
        // Then the trailing backslashes go.
        let e: int = lemma_trim_end_cut(folder, CharClass::Backslash);
        let f: int = lemma_trim_end_cut(file, CharClass::Backslash);
        lemma_name_is_left(path, k, end, e);
        assert(e <= end - k) by {
            assert(folder[end - k] == '\\');
            if e == folder.len() {
                assert(!CharClass::Backslash.has(folder[e - 1]));
            }
        }
        assert(folder[e - 1] == path[k + e - 1]);
        assert(f >= e) by {
            if f < e {
                assert(CharClass::Backslash.has(file[e - 1]));
                assert(file[e - 1] == path[k + e - 1]);
            }
        }
        let entry = normalized(t);
        let full = normalized(path);
        assert(entry == lower(folder.take(e)));
        assert(full == lower(file.take(f)));
        assert forall|j: int| 0 <= j < e implies entry[j] == #[trigger] full[j] by {
            assert(folder.take(e)[j] == file.take(f)[j]);
        }
        assert(e == end - k) by {
            if e < end - k {
                assert(CharClass::Backslash.has(folder[end - k - 1]));
                assert(folder[end - k - 1] == path[end - 1]);
            }
        }
        assert(names_folder(t));
        assert(file[e] == path[end]);
        if f == e {
            assert(full =~= entry);
        } else {
            assert(file.take(f)[e] == path[end]);
            assert(CharClass::Separator.has(full[e]));
            assert(full.take(e) =~= entry);
        }
    }
}

/// A folder of two components keeps a character that is neither a leading quote
/// nor a trailing backslash.
proof fn lemma_name_is_left(path: Seq<char>, k: int, end: int, e: int)
    requires
        0 <= k <= end < path.len(),
        forall|j: int| 0 <= j < k ==> CharClass::Quote.has(#[trigger] path[j]),
        component_count(path.take(end).push('\\')) >= 2,
        0 <= e <= end - k + 1,
        forall|j: int|
            e <= j < end - k + 1 ==> CharClass::Backslash.has(
                #[trigger] path.take(end).push('\\').skip(k)[j],
            ),
    ensures
        e > 0,
{
    if e == 0 {
        let t = path.take(end).push('\\');
        assert forall|j: int| k <= j < t.len() implies CharClass::Separator.has(
            #[trigger] t[j],
        ) by {
            assert(CharClass::Backslash.has(t.skip(k)[j - k]));
        }
        lemma_count_separators(t, k);
        let quotes = t.take(k);
        assert forall|j: int| 0 <= j < quotes.len() implies !CharClass::Separator.has(
            #[trigger] quotes[j],
        ) by {
            assert(quotes[j] == path[j]);
        }
        lemma_count_one_component(quotes, 0);
        assert(quotes.take(0).len() == 0);
    }
}

/// The encoding of two texts in a row.
pub proof fn lemma_encode_concat(a: Seq<char>, b: Seq<char>)
    ensures
        encode_utf8(a + b) == encode_utf8(a) + encode_utf8(b),
    decreases a.len(),
{
    if a.len() == 0 {
        assert(a + b =~= b);
        assert(encode_utf8(a) + encode_utf8(b) =~= encode_utf8(b));
    } else {
        lemma_encode_concat(a.drop_first(), b);
        assert((a + b).drop_first() =~= a.drop_first() + b);
        assert(encode_utf8(a + b) =~= encode_utf8(a) + encode_utf8(b));
    }
}

/// A text has at least as many bytes as characters.
proof fn lemma_byte_len_bound(s: Seq<char>)
    ensures
        byte_len(s) >= s.len(),
    decreases s.len(),
{
    if s.len() > 0 {
        lemma_byte_len_bound(s.drop_first());
    }
}

/// The end of each leading part of a text is a character boundary.
pub proof fn lemma_boundary_after(s: Seq<char>, c: int)
    requires
        0 <= c <= s.len(),
    ensures
        is_char_boundary(encode_utf8(s), byte_len(s.take(c)) as int),
        byte_len(s.take(c)) <= byte_len(s),
        encode_utf8(s).subrange(0, byte_len(s.take(c)) as int) == encode_utf8(s.take(c)),
        encode_utf8(s).subrange(byte_len(s.take(c)) as int, byte_len(s) as int) == encode_utf8(
            s.skip(c),
        ),
    decreases c,
{
    let bytes = encode_utf8(s);
    encode_utf8_valid_utf8(s);
    assert(s =~= s.take(c) + s.skip(c));
    lemma_encode_concat(s.take(c), s.skip(c));
    let at: int = byte_len(s.take(c)) as int;
    assert(bytes.subrange(0, at) =~= encode_utf8(s.take(c)));
    assert(bytes.subrange(at, bytes.len() as int) =~= encode_utf8(s.skip(c)));
    if c > 0 {
        encode_utf8_first_scalar(s);
        let rest = s.drop_first();
        lemma_boundary_after(rest, c - 1);
        assert(pop_first_scalar(bytes) =~= encode_utf8(rest));
        assert(s.take(c).drop_first() =~= rest.take(c - 1));
        assert(s.take(c)[0] == s[0]);
        assert(at == length_of_first_scalar(bytes) + byte_len(rest.take(c - 1)));
        lemma_byte_len_bound(s.take(c));
    } else {
        assert(s.take(0).len() == 0);
    }
}

/// What is mapped back onto a path is the white space before it, the entry as the
/// path spells it, and one separator; something of the path is left after it.
/// Where an entry covers a path, only what normalizing took away can stand in the
/// way, or that nothing is left.
pub proof fn law_cover_maps_back(path: Seq<char>, entry: Seq<char>)
    ensures
        covered_prefix(path, entry) matches Some(at) ==> {
            let end = covered_end(path, entry);
            let start = end - entry.len() - 1;
            &&& 0 <= start < end < path.len()
            &&& at == byte_len(path.take(end)) < byte_len(path)
            &&& is_char_boundary(encode_utf8(path), at as int)
            &&& trim_start(path, CharClass::WhiteSpace) == path.skip(start)
            &&& lower(path.subrange(start, end - 1)) == entry
            &&& CharClass::Separator.has(path[end - 1])
        },
        covers(entry, normalized(path)) && entry != normalized(path) ==> (covered_prefix(
            path,
            entry,
        ) is Some <==> normalized(path) == lower(trim(path, CharClass::WhiteSpace)) && covered_end(
            path,
            entry,
        ) < path.len()),
{
    if covered_prefix(path, entry) is Some {
        let start: int = lemma_trim_start_cut(path, CharClass::WhiteSpace);
        let rest = path.skip(start);
        let b: int = lemma_trim_end_cut(rest, CharClass::WhiteSpace);
        let end: int = covered_end(path, entry);
        let full = normalized(path);
        let n: int = entry.len() as int;
        assert(full == lower(rest.take(b)));
        assert(lower(path.subrange(start, end - 1)) =~= entry) by {
            assert(full.take(n) == entry);
            assert(lower(path.subrange(start, end - 1)) =~= full.take(n));
        }
        assert(full[n] == lower_char(path[end - 1]));
        lemma_boundary_after(path, end);
        assert(path =~= path.take(end) + path.skip(end));
        lemma_encode_concat(path.take(end), path.skip(end));
        lemma_byte_len_bound(path.skip(end));
    }
}

proof fn lemma_lower_keeps_class(s: Seq<char>, class: CharClass)
    ensures
        trim_start(lower(s), class) == lower(trim_start(s, class)),
        trim_end(lower(s), class) == lower(trim_end(s, class)),
{
    let low = lower(s);
    assert(forall|i: int| 0 <= i < s.len() ==> class.has(#[trigger] low[i]) == class.has(s[i]));
    let a: int = lemma_trim_start_cut(s, class);
    assert forall|j: int| 0 <= j < a implies class.has(#[trigger] low[j]) by {
        assert(class.has(s[j]));
    }
    lemma_trim_start_at(low, class, a);
    assert(low.skip(a) =~= lower(s.skip(a)));
    let b: int = lemma_trim_end_cut(s, class);
    assert forall|j: int| b <= j < low.len() implies class.has(#[trigger] low[j]) by {
        assert(class.has(s[j]));
    }
    lemma_trim_end_at(low, class, b);
    assert(low.take(b) =~= lower(s.take(b)));
}

proof fn lemma_lower_twice(s: Seq<char>)
    ensures
        lower(lower(s)) == lower(s),
{
    assert(lower(lower(s)) =~= lower(s));
}

/// Normalizing puts aside letter case, and an exclusion covers the same paths in
/// any letter case.
pub proof fn law_letter_case_does_not_matter(a: Seq<char>, b: Seq<char>)
    requires
        lower(a) == lower(b),
    ensures
        normalized(a) == normalized(b),
        names_folder(a) == names_folder(b),
        forall|path: Seq<char>| #[trigger] entry_covers(a, path) == entry_covers(b, path),
{
    lemma_normalized_of_lower(a);
    lemma_normalized_of_lower(b);
}

proof fn lemma_normalized_of_lower(s: Seq<char>)
    ensures
        normalized(lower(s)) == normalized(s),
        names_folder(lower(s)) == names_folder(s),
{
    let white = CharClass::WhiteSpace;
    let quote = CharClass::Quote;
    let back = CharClass::Backslash;
    lemma_lower_keeps_class(s, white);
    lemma_lower_keeps_class(trim_start(s, white), white);
    let t = trim(s, white);
    lemma_lower_keeps_class(t, quote);
    lemma_lower_keeps_class(trim_start(t, quote), quote);
    let u = trim(t, quote);
    lemma_lower_keeps_class(u, back);
    lemma_lower_twice(trim_end(u, back));
}

} // verus!
