//! Windows paths: how an exclusion entry covers a path, and which folder an
//! exclusion may be widened to.

use vstd::prelude::*;
use vstd::slice::slice_subrange;
use vstd::utf8::{encode_utf8, is_char_boundary};

use crate::path_laws::{lemma_boundary_after, lemma_trim_end_cut, lemma_trim_start_cut};
use crate::text::{
    chars_of, lower, lower_chars, same_chars, starts_with, starts_with_chars, string_of, texts,
    trim, trim_chars, trim_end, trim_end_chars, trim_start, trim_start_chars, CharClass,
};

verus! {

/// The form in which paths and exclusion entries are compared: without outer
/// white space and quotes, without trailing backslashes, in lower case.
pub open spec fn normalized(path: Seq<char>) -> Seq<char> {
    lower(
        trim_end(trim(trim(path, CharClass::WhiteSpace), CharClass::Quote), CharClass::Backslash),
    )
}

/// Puts a path or an exclusion entry into the form in which they are compared.
pub fn normalize_path(path: &str) -> (r: String)
    ensures
        r@ == normalized(path@),
{
    let all = chars_of(path);
    let inner = trim_chars(
        trim_chars(all.as_slice(), CharClass::WhiteSpace),
        CharClass::Quote,
    );
    let low = lower_chars(trim_end_chars(inner, CharClass::Backslash));
    string_of(low.as_slice())
}

/// Whether `path` lies in `folder`: it goes on after the folder with a separator.
pub open spec fn lies_in(path: Seq<char>, folder: Seq<char>) -> bool {
    &&& folder.len() < path.len()
    &&& starts_with(path, folder)
    &&& CharClass::Separator.has(path[folder.len() as int])
}

/// Whether the normalized `entry` covers the normalized `path`: it is the path
/// itself or a folder above it.
pub open spec fn covers(entry: Seq<char>, path: Seq<char>) -> bool {
    entry.len() > 0 && (path == entry || lies_in(path, entry))
}

/// The longest of `entries` that covers the normalized `path`.
pub open spec fn longest_cover(path: Seq<char>, entries: Seq<Seq<char>>) -> Option<Seq<char>>
    decreases entries.len(),
{
    if entries.len() == 0 {
        None
    } else {
        let earlier = longest_cover(path, entries.drop_last());
        let entry = entries.last();
        if covers(entry, path) && (earlier matches Some(e) ==> e.len() <= entry.len()) {
            Some(entry)
        } else {
            earlier
        }
    }
}

/// `longest_cover` finds an entry exactly when one covers the path, and none
/// that covers the path is longer.
pub proof fn law_longest_cover(path: Seq<char>, entries: Seq<Seq<char>>)
    ensures
        longest_cover(path, entries) is None <==> forall|i: int|
            0 <= i < entries.len() ==> !covers(#[trigger] entries[i], path),
        longest_cover(path, entries) matches Some(e) ==> {
            &&& entries.contains(e)
            &&& covers(e, path)
            &&& forall|i: int|
                0 <= i < entries.len() && covers(#[trigger] entries[i], path) ==> entries[i].len()
                    <= e.len()
        },
    decreases entries.len(),
{
    if entries.len() > 0 {
        let before = entries.drop_last();
        law_longest_cover(path, before);
        assert(forall|i: int| 0 <= i < before.len() ==> before[i] == #[trigger] entries[i]);
        if longest_cover(path, before) is Some {
            let e = longest_cover(path, before)->0;
            let k: int = choose|k: int| 0 <= k < before.len() && before[k] == e;
            assert(entries[k] == e);
            assert(covers(entries[k], path));
        }
        assert(entries.last() == entries[entries.len() - 1]);
        assert forall|i: int|
            longest_cover(path, entries) is None && 0 <= i < entries.len() implies !covers(
            #[trigger] entries[i],
            path,
        ) by {
            if i < before.len() {
                assert(!covers(before[i], path));
            }
        }
    }
}

fn lies_in_chars(path: &[char], folder: &[char]) -> (r: bool)
    ensures
        r == lies_in(path@, folder@),
{
    folder.len() < path.len() && starts_with_chars(path, folder) && CharClass::Separator.contains(
        path[folder.len()],
    )
}

/// Returns the exclusion entry that covers `path`, preferring the most specific
/// (longest) one when several do. The entries are normalized, `path` need not be.
pub fn matching_exclusion(path: &str, exclusions: &[String]) -> (r: Option<String>)
    ensures
        r is Some <==> longest_cover(normalized(path@), texts(exclusions@)) is Some,
        r matches Some(e) ==> e@ == longest_cover(normalized(path@), texts(exclusions@))->0,
{
    let normal = normalize_path(path);
    let full = chars_of(normal.as_str());
    let mut best: Option<String> = None;
    let mut best_len: usize = 0;
    let ghost all = texts(exclusions@);
    let mut i: usize = 0;
    while i < exclusions.len()
        invariant
            i <= exclusions@.len(),
            all == texts(exclusions@),
            full@ == normalized(path@),
            best is Some <==> longest_cover(full@, all.take(i as int)) is Some,
            best matches Some(e) ==> e@ == longest_cover(full@, all.take(i as int))->0 && best_len
                == e@.len(),
        decreases exclusions@.len() - i,
    {
        let entry = chars_of(exclusions[i].as_str());
        assert(all.take(i + 1).drop_last() =~= all.take(i as int));
        assert(all.take(i + 1).last() == entry@);
        let hit = entry.len() > 0 && (same_chars(full.as_slice(), entry.as_slice())
            || lies_in_chars(full.as_slice(), entry.as_slice()));
        if hit && (best.is_none() || best_len <= entry.len()) {
            best = Some(exclusions[i].clone());
            best_len = entry.len();
        }
        i += 1;
    }
    assert(all.take(all.len() as int) =~= all);
    best
}

/// The number of bytes of `s` in UTF-8.
pub open spec fn byte_len(s: Seq<char>) -> nat {
    encode_utf8(s).len()
}

/// Whether an exclusion names a folder: without outer white space and quotes it
/// ends with a backslash. Defender takes any other for the name of a file.
pub open spec fn names_folder(entry: Seq<char>) -> bool {
    let inner = trim(trim(entry, CharClass::WhiteSpace), CharClass::Quote);
    inner.len() > 0 && inner.last() == '\\'
}

/// Whether an exclusion, as it stands in a list, covers `path`: as a folder or as
/// the file itself.
pub open spec fn entry_covers(entry: Seq<char>, path: Seq<char>) -> bool {
    &&& covers(normalized(entry), normalized(path))
    &&& names_folder(entry) || normalized(entry) == normalized(path)
}

/// The longest of the exclusions that cover `path`, normalized.
pub open spec fn longest_entry(path: Seq<char>, entries: Seq<Seq<char>>) -> Option<Seq<char>>
    decreases entries.len(),
{
    if entries.len() == 0 {
        None
    } else {
        let earlier = longest_entry(path, entries.drop_last());
        let entry = normalized(entries.last());
        if entry_covers(entries.last(), path) && (earlier matches Some(e) ==> e.len()
            <= entry.len()) {
            Some(entry)
        } else {
            earlier
        }
    }
}

/// `longest_entry` finds an exclusion exactly when one covers the path, and none
/// that covers the path is longer.
pub proof fn law_longest_entry(path: Seq<char>, entries: Seq<Seq<char>>)
    ensures
        longest_entry(path, entries) is None <==> forall|i: int|
            0 <= i < entries.len() ==> !entry_covers(#[trigger] entries[i], path),
        longest_entry(path, entries) matches Some(e) ==> {
            &&& covers(e, normalized(path))
            &&& exists|i: int|
                0 <= i < entries.len() && entry_covers(#[trigger] entries[i], path) && normalized(
                    entries[i],
                ) == e
            &&& forall|i: int|
                0 <= i < entries.len() && entry_covers(#[trigger] entries[i], path) ==> normalized(
                    entries[i],
                ).len() <= e.len()
        },
    decreases entries.len(),
{
    if entries.len() > 0 {
        let before = entries.drop_last();
        let last: int = entries.len() - 1;
        law_longest_entry(path, before);
        assert(forall|i: int| 0 <= i < last ==> before[i] == #[trigger] entries[i]);
        assert(entries.last() == entries[last]);
        if longest_entry(path, before) is Some {
            let k: int = choose|k: int|
                0 <= k < before.len() && entry_covers(#[trigger] before[k], path) && normalized(
                    before[k],
                ) == longest_entry(path, before)->0;
            assert(entry_covers(entries[k], path));
        }
        assert forall|i: int|
            0 <= i < last && entry_covers(#[trigger] entries[i], path) implies longest_entry(
            path,
            before,
        ) is Some && normalized(entries[i]).len() <= longest_entry(path, before)->0.len() by {
            assert(entry_covers(before[i], path));
        }
    }
}

/// The normalized forms of the exclusions that cover `path` if they are a leading
/// part of it.
spec fn candidates(path: Seq<char>, entries: Seq<Seq<char>>) -> Seq<Seq<char>>
    decreases entries.len(),
{
    if entries.len() == 0 {
        Seq::empty()
    } else {
        let earlier = candidates(path, entries.drop_last());
        let entry = normalized(entries.last());
        if names_folder(entries.last()) || entry == normalized(path) {
            earlier.push(entry)
        } else {
            earlier
        }
    }
}

proof fn lemma_candidates(path: Seq<char>, entries: Seq<Seq<char>>)
    ensures
        longest_cover(normalized(path), candidates(path, entries)) == longest_entry(path, entries),
    decreases entries.len(),
{
    if entries.len() > 0 {
        let earlier = candidates(path, entries.drop_last());
        lemma_candidates(path, entries.drop_last());
        assert(earlier.push(normalized(entries.last())).drop_last() =~= earlier);
    }
}

/// Returns the exclusion that covers `path`, normalized, preferring the most
/// specific (longest) one when several do. The exclusions are as they stand in
/// the lists.
pub fn covering_entry(path: &str, entries: &Vec<String>) -> (r: Option<String>)
    ensures
        r is Some <==> longest_entry(path@, texts(entries@)) is Some,
        r matches Some(e) ==> e@ == longest_entry(path@, texts(entries@))->0,
{
    let full = normalize_path(path);
    let ghost all = texts(entries@);
    let mut found: Vec<String> = Vec::new();
    let mut i: usize = 0;
    assert(texts(found@) =~= candidates(path@, all.take(0)));
    while i < entries.len()
        invariant
            i <= entries@.len(),
            all == texts(entries@),
            full@ == normalized(path@),
            texts(found@) == candidates(path@, all.take(i as int)),
        decreases entries@.len() - i,
    {
        assert(all.take(i + 1).drop_last() =~= all.take(i as int));
        let ghost before = found@;
        let given = chars_of(entries[i].as_str());
        let inner = trim_chars(
            trim_chars(given.as_slice(), CharClass::WhiteSpace),
            CharClass::Quote,
        );
        let folder = inner.len() > 0 && inner[inner.len() - 1] == '\\';
        let entry = normalize_path(entries[i].as_str());
        if folder || entry == full {
            found.push(entry);
            assert(texts(found@) =~= texts(before).push(entry@));
        }
        i += 1;
    }
    assert(all.take(all.len() as int) =~= all);
    proof {
        lemma_candidates(path@, all);
    }
    matching_exclusion(path, found.as_slice())
}

/// How many characters of `path` the folder `entry` and the separator after it
/// take up, the white space before them counted in.
pub open spec fn covered_end(path: Seq<char>, entry: Seq<char>) -> int {
    path.len() - trim_start(path, CharClass::WhiteSpace).len() + entry.len() + 1
}

/// The byte length of the leading part of `path` that the folder `entry`
/// covers, the separator after the folder counted in. There is none when the
/// path does not lie in the folder, as is so when the entry is the path itself,
/// when normalizing took more than outer white space away, or when nothing of
/// the path is left after it.
pub open spec fn covered_prefix(path: Seq<char>, entry: Seq<char>) -> Option<nat> {
    if lies_in(normalized(path), entry) && normalized(path) == lower(
        trim(path, CharClass::WhiteSpace),
    ) && covered_end(path, entry) < path.len() {
        Some(byte_len(path.take(covered_end(path, entry))))
    } else {
        None
    }
}

/// Byte length of the leading part of `path` that a folder exclusion covers,
/// including the separator after the folder. `None` when the entry is the file
/// itself or the prefix cannot be mapped back onto the displayed path.
pub fn covered_prefix_len(path: &str, entry: &str) -> (r: Option<usize>)
    ensures
        r is Some <==> covered_prefix(path@, entry@) is Some,
        r matches Some(n) ==> n == covered_prefix(path@, entry@)->0 && is_char_boundary(
            encode_utf8(path@),
            n as int,
        ),
{
    let full = chars_of(normalize_path(path).as_str());
    let wanted = chars_of(entry);
    let all = chars_of(path);
    let rest = trim_start_chars(all.as_slice(), CharClass::WhiteSpace);
    let inner = trim_end_chars(rest, CharClass::WhiteSpace);
    if !lies_in_chars(full.as_slice(), wanted.as_slice()) || !same_chars(
        full.as_slice(),
        lower_chars(inner).as_slice(),
    ) {
        return None;
    }
    proof {
        lemma_trim_start_cut(path@, CharClass::WhiteSpace);
        lemma_trim_end_cut(rest@, CharClass::WhiteSpace);
    }
    let end: usize = all.len() - rest.len() + wanted.len() + 1;
    if end < all.len() {
        let prefix = string_of(slice_subrange(all.as_slice(), 0, end));
        proof {
            assert(prefix@ =~= path@.take(end as int));
            lemma_boundary_after(path@, end as int);
        }
        Some(prefix.as_str().as_bytes().len())
    } else {
        None
    }
}

/// How many components `path` has: runs of characters that are no separators.
pub open spec fn component_count(path: Seq<char>) -> nat
    decreases path.len(),
{
    if path.len() == 0 {
        0
    } else {
        component_count(path.drop_last()) + if starts_component(path, path.len() - 1) {
            1nat
        } else {
            0
        }
    }
}

/// Whether a component of `path` begins at `i`.
pub open spec fn starts_component(path: Seq<char>, i: int) -> bool {
    &&& !CharClass::Separator.has(path[i])
    &&& i == 0 || CharClass::Separator.has(path[i - 1])
}

/// Whether `path` begins with a UNC server: with two separators.
pub open spec fn is_unc(path: Seq<char>) -> bool {
    &&& path.len() >= 2
    &&& CharClass::Separator.has(path[0])
    &&& CharClass::Separator.has(path[1])
}

/// Whether `path` is the long form of a UNC path, where `\\?\UNC\` or `\\.\UNC\`
/// stands before the server.
pub open spec fn is_long_unc(path: Seq<char>) -> bool {
    &&& path.len() >= 8
    &&& is_unc(path)
    &&& path[2] == '?' || path[2] == '.'
    &&& CharClass::Separator.has(path[3])
    &&& lower(path.subrange(4, 7)) == seq!['u', 'n', 'c']
    &&& CharClass::Separator.has(path[7])
}

/// How many components stay in any folder that is offered: the drive or the
/// UNC server and share, and one folder; in the long form of a UNC path also the
/// two that stand before the server.
pub open spec fn reserved_components(path: Seq<char>) -> nat {
    if is_long_unc(path) {
        5
    } else if is_unc(path) {
        3
    } else {
        2
    }
}

/// How many components may be dropped from `path`.
pub open spec fn widest_scope(path: Seq<char>) -> nat {
    if component_count(path) > reserved_components(path) {
        (component_count(path) - reserved_components(path)) as nat
    } else {
        0
    }
}

fn reserved_count(path: &[char]) -> (r: usize)
    ensures
        r == reserved_components(path@),
{
    let unc = path.len() >= 2 && CharClass::Separator.contains(path[0])
        && CharClass::Separator.contains(path[1]);
    if unc && path.len() >= 8 && (path[2] == '?' || path[2] == '.')
        && CharClass::Separator.contains(path[3]) && CharClass::Separator.contains(path[7]) {
        let name = lower_chars(slice_subrange(path, 4, 7));
        assert(name@.len() == 3);
        if name[0] == 'u' && name[1] == 'n' && name[2] == 'c' {
            assert(name@ =~= seq!['u', 'n', 'c']);
            return 5;
        }
    }
    if unc {
        3
    } else {
        2
    }
}

/// How far the exclusion target may move up from the file. The drive (or UNC
/// server and share) plus at least one folder always remain, so `C:\` itself is
/// never offered as an exclusion.
pub fn max_scope(path: &str) -> (r: usize)
    ensures
        r == widest_scope(path@),
{
    let all = chars_of(path);
    let mut components: usize = 0;
    let mut i: usize = 0;
    while i < all.len()
        invariant
            i <= all@.len(),
            components <= i,
            components == component_count(all@.take(i as int)),
        decreases all@.len() - i,
    {
        assert(all@.take(i + 1).drop_last() =~= all@.take(i as int));
        if !CharClass::Separator.contains(all[i]) && (i == 0 || CharClass::Separator.contains(
            all[i - 1],
        )) {
            components += 1;
        }
        i += 1;
    }
    assert(all@.take(all@.len() as int) =~= all@);
    let reserved: usize = reserved_count(all.as_slice());
    if components > reserved {
        components - reserved
    } else {
        0
    }
}

/// Where the last separator of `s` stands.
pub open spec fn last_separator(s: Seq<char>) -> Option<nat>
    decreases s.len(),
{
    if s.len() == 0 {
        None
    } else if CharClass::Separator.has(s.last()) {
        Some((s.len() - 1) as nat)
    } else {
        last_separator(s.drop_last())
    }
}

/// `s` without the separators at its end, unless it holds nothing else.
pub open spec fn without_end(s: Seq<char>) -> Seq<char> {
    let kept = trim_end(s, CharClass::Separator);
    if kept.len() > 0 {
        kept
    } else {
        s
    }
}

/// `s` cut `levels` times before its last separators, as long as anything stands
/// before them.
pub open spec fn ancestor(s: Seq<char>, levels: nat) -> Seq<char>
    decreases levels,
{
    if levels == 0 {
        s
    } else {
        match last_separator(s) {
            Some(i) => if i > 0 {
                ancestor(without_end(s.take(i as int)), (levels - 1) as nat)
            } else {
                s
            },
            None => s,
        }
    }
}

/// The path that is excluded: the file itself for scope zero, else the folder
/// that many levels up, with a backslash at its end.
pub open spec fn target(path: Seq<char>, scope: nat) -> Seq<char> {
    if scope == 0 {
        path
    } else {
        ancestor(trim_end(path, CharClass::Separator), scope).push('\\')
    }
}

proof fn lemma_last_separator(s: Seq<char>, k: int)
    requires
        0 <= k <= s.len(),
        forall|j: int| k <= j < s.len() ==> !CharClass::Separator.has(#[trigger] s[j]),
    ensures
        k > 0 && CharClass::Separator.has(s[k - 1]) ==> last_separator(s) == Some((k - 1) as nat),
        k == 0 ==> last_separator(s) is None,
    decreases s.len() - k,
{
    if k < s.len() {
        assert(!CharClass::Separator.has(s[s.len() - 1]));
        lemma_last_separator(s.drop_last(), k);
    }
}

/// The path that will actually be excluded: the file itself for scope 0, its
/// folder for scope 1, that folder's parent for scope 2, and so on.
///
/// Folder targets end with a backslash. Defender treats an exclusion without
/// one as a file name, so `C:\Tools` would not cover `C:\Tools\x.exe` while
/// `C:\Tools\` does.
pub fn exclusion_target(path: &str, scope: usize) -> (r: String)
    ensures
        r@ == target(path@, scope as nat),
{
    let all = chars_of(path);
    if scope == 0 {
        return string_of(all.as_slice());
    }
    let trimmed = trim_end_chars(all.as_slice(), CharClass::Separator);
    let ghost whole = trimmed@;
    let mut end: usize = trimmed.len();
    let mut left: usize = scope;
    assert(whole.take(end as int) =~= whole);
    while left > 0
        invariant
            end <= trimmed@.len(),
            whole == trimmed@,
            ancestor(whole, scope as nat) == ancestor(whole.take(end as int), left as nat),
        decreases left,
    {
        let ghost part = whole.take(end as int);
        let mut k: usize = end;
        while k > 0 && !CharClass::Separator.contains(trimmed[k - 1])
            invariant
                k <= end <= trimmed@.len(),
                part == trimmed@.take(end as int),
                forall|j: int| k <= j < end ==> !CharClass::Separator.has(#[trigger] part[j]),
            decreases k,
        {
            k -= 1;
        }
        proof {
            lemma_last_separator(part, k as int);
        }
        if k > 1 {
            assert(part.take(k - 1) =~= whole.take(k - 1));
            let kept: usize = trim_end_chars(
                slice_subrange(trimmed, 0, k - 1),
                CharClass::Separator,
            ).len();
            proof {
                let cut: int = lemma_trim_end_cut(whole.take(k - 1), CharClass::Separator);
                assert(whole.take(k - 1).take(cut) =~= whole.take(cut));
            }
            end = if kept > 0 {
                kept
            } else {
                k - 1
            };
            left -= 1;
        } else {
            assert(ancestor(part, left as nat) == part);
            left = 0;
        }
    }
    let mut r = string_of(slice_subrange(trimmed, 0, end));
    r.push('\\');
    r
}

} // verus!
