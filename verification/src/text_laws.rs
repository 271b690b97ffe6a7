//! What holds of the text functions, for every text.

use vstd::prelude::*;

use crate::path_laws::{lemma_trim_end_cut, lemma_trim_start_cut};
use crate::text::{
    decimal, find, join, lemma_find_holds, less, lower, replace, starts_with, texts, trim, CharClass,
};

verus! {

/// The characters of the classes.
pub proof fn law_classes(c: char)
    ensures
        CharClass::Quote.has(c) <==> c == '"',
        CharClass::Backslash.has(c) <==> c == '\\',
        CharClass::Separator.has(c) <==> c == '\\' || c == '/',
        CharClass::WhiteSpace.has(c) <==> 9 <= c as int <= 13 || c as int == 32 || c as int == 0x85
            || c as int == 0xa0 || c as int == 0x1680 || 0x2000 <= c as int <= 0x200a || c as int
            == 0x2028 || c as int == 0x2029 || c as int == 0x202f || c as int == 0x205f || c as int
            == 0x3000,
{
}

/// Trimming takes away the characters of the class at both ends and nothing else:
/// what is left is one part of the text, with no character of the class at its
/// ends and none but such characters around it.
pub proof fn law_trim_takes_the_ends(s: Seq<char>, class: CharClass) -> (r: (int, int))
    ensures
        0 <= r.0 <= r.1 <= s.len(),
        trim(s, class) == s.subrange(r.0, r.1),
        forall|j: int| 0 <= j < r.0 ==> class.has(#[trigger] s[j]),
        forall|j: int| r.1 <= j < s.len() ==> class.has(#[trigger] s[j]),
        r.0 < r.1 ==> !class.has(s[r.0]) && !class.has(s[r.1 - 1]),
{
    let a: int = lemma_trim_start_cut(s, class);
    let rest = s.skip(a);
    let b: int = lemma_trim_end_cut(rest, class);
    assert(rest.take(b) =~= s.subrange(a, a + b));
    assert forall|j: int| a + b <= j < s.len() implies class.has(#[trigger] s[j]) by {
        assert(class.has(rest[j - a]));
    }
    if b > 0 {
        assert(rest[b - 1] == s[a + b - 1]);
        assert(a < s.len());
    }
    (a, a + b)
}

/// Whether every character of `s` belongs to `class`.
pub open spec fn all_of(s: Seq<char>, class: CharClass) -> bool {
    forall|j: int| 0 <= j < s.len() ==> class.has(#[trigger] s[j])
}

/// Trimming gives back what stands between two runs of characters of the class,
/// when it has none at its own ends.
pub proof fn law_trim_gives_back_the_core(
    before: Seq<char>,
    core: Seq<char>,
    after: Seq<char>,
    class: CharClass,
)
    requires
        all_of(before, class),
        all_of(after, class),
        core.len() > 0 ==> !class.has(core[0]) && !class.has(core.last()),
    ensures
        trim(before + core + after, class) == core,
{
    let s = before + core + after;
    let (a, b) = law_trim_takes_the_ends(s, class);
    assert(forall|j: int| 0 <= j < before.len() ==> s[j] == before[j]);
    assert(forall|j: int| 0 <= j < core.len() ==> s[before.len() + j] == core[j]);
    assert(forall|j: int|
        0 <= j < after.len() ==> s[before.len() + core.len() + j] == after[j]);
    assert forall|j: int| 0 <= j < before.len() implies class.has(#[trigger] s[j]) by {
        assert(class.has(before[j]));
    }
    let end: int = before.len() as int + core.len();
    assert forall|j: int| end <= j < s.len() implies class.has(#[trigger] s[j]) by {
        assert(class.has(after[j - end]));
    }
    if core.len() > 0 {
        assert(s[before.len() as int] == core[0]);
        assert(s[end - 1] == core.last());
        assert(a == before.len());
        assert(b == end);
    } else {
        assert(a == b) by {
            if a < b {
                if a < before.len() {
                } else {
                    assert(class.has(s[a]));
                }
            }
        }
    }
    assert(s.subrange(a, b) =~= core);
}

/// Lower case changes the letters `A` to `Z` and nothing else.
pub proof fn law_lower_changes_letters_only(s: Seq<char>)
    ensures
        lower(s).len() == s.len(),
        forall|i: int|
            0 <= i < s.len() ==> (#[trigger] lower(s)[i]) as int == if 65 <= s[i] as int <= 90 {
                s[i] as int + 32
            } else {
                s[i] as int
            },
{
}

/// A text begins with exactly those texts that it continues.
pub proof fn law_beginnings(s: Seq<char>, prefix: Seq<char>, tail: Seq<char>)
    ensures
        starts_with(prefix + tail, prefix),
        starts_with(s, prefix) ==> s == prefix + s.skip(prefix.len() as int),
{
    assert((prefix + tail).take(prefix.len() as int) =~= prefix);
    if starts_with(s, prefix) {
        assert(s =~= s.take(prefix.len() as int) + s.skip(prefix.len() as int));
    }
}

/// Whether `pattern` stands in `s` at `i`.
pub open spec fn stands_at(s: Seq<char>, pattern: Seq<char>, i: int) -> bool {
    0 <= i && i + pattern.len() <= s.len() && s.subrange(i, i + pattern.len()) == pattern
}

/// The first place is one where the pattern stands, none stands before it, and
/// where nothing is found none stands at all.
pub proof fn law_first_place(s: Seq<char>, pattern: Seq<char>)
    ensures
        find(s, pattern) matches Some(i) ==> stands_at(s, pattern, i as int) && forall|j: int|
            j < i ==> !#[trigger] stands_at(s, pattern, j),
        find(s, pattern) is None ==> forall|j: int| !#[trigger] stands_at(s, pattern, j),
    decreases s.len(),
{
    lemma_find_holds(s, pattern);
    let p: int = pattern.len() as int;
    if find(s, pattern) is Some {
        let i: int = find(s, pattern)->0 as int;
        assert(s.skip(i).take(p) =~= s.subrange(i, i + p));
    }
    if s.len() >= p && !starts_with(s, pattern) {
        assert(s.take(p) =~= s.subrange(0, p));
        assert(!stands_at(s, pattern, 0));
        if s.len() > 0 {
            let rest = s.drop_first();
            law_first_place(rest, pattern);
            assert forall|j: int|
                (find(s, pattern) is None || j < find(s, pattern)->0) implies !#[trigger] stands_at(
                s,
                pattern,
                j,
            ) by {
                if stands_at(s, pattern, j) && j > 0 {
                    assert(rest.subrange(j - 1, j - 1 + p) =~= s.subrange(j, j + p));
                    assert(stands_at(rest, pattern, j - 1));
                }
            }
        }
    }
}

/// Replacing puts the new text in the place of the first occurrence and goes on
/// after it; a text without the pattern stays as it is.
pub proof fn law_replacing(s: Seq<char>, pattern: Seq<char>, with: Seq<char>)
    requires
        pattern.len() > 0,
    ensures
        find(s, pattern) is None ==> replace(s, pattern, with) == s,
        find(s, pattern) matches Some(i) ==> replace(s, pattern, with) == s.take(i as int) + with
            + replace(s.skip(i as int + pattern.len()), pattern, with),
    decreases s.len(),
{
    let p: int = pattern.len() as int;
    if s.len() >= p {
        if starts_with(s, pattern) {
            assert(s.take(0) + with =~= with);
        } else {
            let rest = s.drop_first();
            law_replacing(rest, pattern, with);
            match find(rest, pattern) {
                None => {
                    assert(seq![s[0]] + rest =~= s);
                },
                Some(i) => {
                    lemma_find_holds(rest, pattern);
                    assert(rest.skip(i as int + p) =~= s.skip(i as int + 1 + p));
                    assert(seq![s[0]] + rest.take(i as int) =~= s.take(i as int + 1));
                    let more = replace(s.skip(i as int + 1 + p), pattern, with);
                    assert(seq![s[0]] + (rest.take(i as int) + with + more) =~= s.take(
                        i as int + 1,
                    ) + with + more);
                },
            }
        }
    }
}

/// Whether `a` and `b` first differ at `k`, and `a` is the smaller there, or ends
/// there.
pub open spec fn smaller_at(a: Seq<char>, b: Seq<char>, k: int) -> bool {
    &&& 0 <= k <= a.len()
    &&& k < b.len()
    &&& a.take(k) == b.take(k)
    &&& k == a.len() || a[k] < b[k]
}

/// The order of texts goes by the first difference.
pub proof fn law_order_goes_by_first_difference(a: Seq<char>, b: Seq<char>)
    ensures
        less(a, b) <==> exists|k: int| smaller_at(a, b, k),
    decreases a.len(),
{
    if b.len() > 0 && a.len() == 0 {
        assert(a.take(0) =~= b.take(0));
        assert(smaller_at(a, b, 0));
    } else if b.len() > 0 && a.len() > 0 {
        let c = a.drop_first();
        let d = b.drop_first();
        if a[0] == b[0] {
            law_order_goes_by_first_difference(c, d);
            if less(c, d) {
                let k: int = choose|k: int| smaller_at(c, d, k);
                assert(a.take(k + 1) =~= seq![a[0]] + c.take(k));
                assert(b.take(k + 1) =~= seq![b[0]] + d.take(k));
                assert(smaller_at(a, b, k + 1));
            }
            if exists|k: int| smaller_at(a, b, k) {
                let k: int = choose|k: int| smaller_at(a, b, k);
                assert(k > 0);
                assert(c.take(k - 1) =~= a.take(k).drop_first());
                assert(d.take(k - 1) =~= b.take(k).drop_first());
                assert(smaller_at(c, d, k - 1));
            }
        } else {
            if a[0] < b[0] {
                assert(a.take(0) =~= b.take(0));
                assert(smaller_at(a, b, 0));
            }
            assert forall|k: int| smaller_at(a, b, k) implies a[0] < b[0] by {
                if k > 0 {
                    assert(a.take(k)[0] == b.take(k)[0]);
                }
            }
        }
    }
}

/// The number that decimal digits stand for.
pub open spec fn number(digits: Seq<char>) -> int
    decreases digits.len(),
{
    if digits.len() == 0 {
        0
    } else {
        number(digits.drop_last()) * 10 + (digits.last() as int - 48)
    }
}

/// The decimal digits of a number stand for it: they are digits, without a zero in
/// front.
pub proof fn law_decimal_tells_the_number(n: nat)
    ensures
        number(decimal(n)) == n,
        decimal(n).len() > 0,
        forall|i: int| 0 <= i < decimal(n).len() ==> 48 <= (#[trigger] decimal(n)[i]) as int <= 57,
        decimal(n).len() > 1 ==> decimal(n)[0] as int != 48,
        n > 0 ==> decimal(n)[0] as int != 48,
    decreases n,
{
    if n < 10 {
        reveal_with_fuel(number, 2);
        assert(decimal(n).drop_last() =~= Seq::empty());
        assert(number(decimal(n)) == n);
    } else {
        law_decimal_tells_the_number(n / 10);
        let before = decimal(n / 10);
        assert(decimal(n).drop_last() =~= before);
        assert(number(decimal(n)) == n);
        assert(decimal(n)[0] == before[0]);
    }
}

/// Joining leaves a single part as it is and puts the separator between the
/// parts, wherever the list is divided.
pub proof fn law_joining(
    part: Seq<char>,
    a: Seq<Seq<char>>,
    b: Seq<Seq<char>>,
    separator: Seq<char>,
)
    ensures
        join(Seq::empty(), separator).len() == 0,
        join(seq![part], separator) == part,
        a.len() > 0 && b.len() > 0 ==> join(a + b, separator) == join(a, separator) + separator
            + join(b, separator),
    decreases a.len(),
{
    if a.len() > 0 && b.len() > 0 {
        let all = a + b;
        let rest = a.drop_first();
        assert(all.drop_first() =~= rest + b);
        assert(all[0] == a[0]);
        if a.len() == 1 {
            assert(rest + b =~= b);
        } else {
            law_joining(part, rest, b, separator);
            assert(a[0] + separator + (join(rest, separator) + separator + join(b, separator))
                =~= join(a, separator) + separator + join(b, separator));
        }
    }
}

/// The texts are those of the strings, in their order.
pub proof fn law_texts(v: Seq<String>)
    ensures
        texts(v).len() == v.len(),
        forall|i: int| 0 <= i < v.len() ==> #[trigger] texts(v)[i] == v[i]@,
{
}

} // verus!
