//! Text as sequences of characters: trimming, searching, replacing, ordering
//! and decimal numbers.

use vstd::prelude::*;
use vstd::slice::slice_subrange;
use vstd::string::StringExecFns;

verus! {

/// `String::push` appends one character.
pub assume_specification[ String::push ](text: &mut String, c: char)
    ensures
        final(text)@ == old(text)@.push(c),
;

/// A set of characters that trimming and splitting go by.
#[derive(Clone, Copy, PartialEq, Eq, Structural, Debug)]
pub enum CharClass {
    /// The Unicode `White_Space` property.
    WhiteSpace,
    /// The double quote.
    Quote,
    /// The backslash.
    Backslash,
    /// The backslash and the slash.
    Separator,
}

impl CharClass {
    /// Whether `c` belongs to the class.
    pub open spec fn has(self, c: char) -> bool {
        match self {
            CharClass::WhiteSpace => {
                ||| '\u{9}' <= c <= '\u{d}'
                ||| c == ' '
                ||| c == '\u{85}'
                ||| c == '\u{a0}'
                ||| c == '\u{1680}'
                ||| '\u{2000}' <= c <= '\u{200a}'
                ||| c == '\u{2028}'
                ||| c == '\u{2029}'
                ||| c == '\u{202f}'
                ||| c == '\u{205f}'
                ||| c == '\u{3000}'
            },
            CharClass::Quote => c == '"',
            CharClass::Backslash => c == '\\',
            CharClass::Separator => c == '\\' || c == '/',
        }
    }

    /// Tells whether `c` belongs to the class.
    pub fn contains(self, c: char) -> (r: bool)
        ensures
            r == self.has(c),
    {
        match self {
            CharClass::WhiteSpace => ('\u{9}' <= c && c <= '\u{d}') || c == ' ' || c == '\u{85}'
                || c == '\u{a0}' || c == '\u{1680}' || ('\u{2000}' <= c && c <= '\u{200a}')
                || c == '\u{2028}' || c == '\u{2029}' || c == '\u{202f}' || c == '\u{205f}'
                || c == '\u{3000}',
            CharClass::Quote => c == '"',
            CharClass::Backslash => c == '\\',
            CharClass::Separator => c == '\\' || c == '/',
        }
    }
}

/// `s` without the characters of `class` at its start.
pub open spec fn trim_start(s: Seq<char>, class: CharClass) -> Seq<char>
    decreases s.len(),
{
    if s.len() > 0 && class.has(s[0]) {
        trim_start(s.drop_first(), class)
    } else {
        s
    }
}

/// `s` without the characters of `class` at its end.
pub open spec fn trim_end(s: Seq<char>, class: CharClass) -> Seq<char>
    decreases s.len(),
{
    if s.len() > 0 && class.has(s.last()) {
        trim_end(s.drop_last(), class)
    } else {
        s
    }
}

/// `s` without the characters of `class` at either end.
pub open spec fn trim(s: Seq<char>, class: CharClass) -> Seq<char> {
    trim_end(trim_start(s, class), class)
}

/// The characters of a string slice.
pub fn chars_of(s: &str) -> (r: Vec<char>)
    ensures
        r@ == s@,
{
    let mut r: Vec<char> = Vec::new();
    for c in it: s.chars()
        invariant
            r@ == it.seq().take(it.index() as int),
            it.seq() == s@,
    {
        r.push(c);
        assert(it.seq().take(it.index() + 1) =~= it.seq().take(it.index() as int).push(c));
    }
    assert(s@.take(s@.len() as int) =~= s@);
    r
}

/// The string made of `chars`.
pub fn string_of(chars: &[char]) -> (r: String)
    ensures
        r@ == chars@,
{
    let mut r = String::new();
    let mut i: usize = 0;
    while i < chars.len()
        invariant
            i <= chars@.len(),
            r@ == chars@.take(i as int),
        decreases chars@.len() - i,
    {
        r.push(chars[i]);
        assert(chars@.take(i + 1) =~= chars@.take(i as int).push(chars@[i as int]));
        i += 1;
    }
    assert(chars@.take(chars@.len() as int) =~= chars@);
    r
}

/// `trim_start` drops the longest prefix made of `class`.
pub proof fn lemma_trim_start_at(s: Seq<char>, class: CharClass, k: int)
    requires
        0 <= k <= s.len(),
        forall|j: int| 0 <= j < k ==> class.has(#[trigger] s[j]),
        k < s.len() ==> !class.has(s[k]),
    ensures
        trim_start(s, class) == s.skip(k),
    decreases k,
{
    if k == 0 {
        assert(s.skip(0) =~= s);
    } else {
        assert(class.has(s[0]));
        lemma_trim_start_at(s.drop_first(), class, k - 1);
        assert(s.drop_first().skip(k - 1) =~= s.skip(k));
    }
}

/// `trim_end` drops the longest suffix made of `class`.
pub proof fn lemma_trim_end_at(s: Seq<char>, class: CharClass, k: int)
    requires
        0 <= k <= s.len(),
        forall|j: int| k <= j < s.len() ==> class.has(#[trigger] s[j]),
        k > 0 ==> !class.has(s[k - 1]),
    ensures
        trim_end(s, class) == s.take(k),
    decreases s.len() - k,
{
    if k == s.len() {
        assert(s.take(k) =~= s);
    } else {
        assert(class.has(s[s.len() - 1]));
        lemma_trim_end_at(s.drop_last(), class, k);
        assert(s.drop_last().take(k) =~= s.take(k));
    }
}

/// Drops the characters of `class` at the start of `s`.
pub fn trim_start_chars<'a>(s: &'a [char], class: CharClass) -> (r: &'a [char])
    ensures
        r@ == trim_start(s@, class),
{
    let mut k: usize = 0;
    while k < s.len() && class.contains(s[k])
        invariant
            k <= s@.len(),
            forall|j: int| 0 <= j < k ==> class.has(#[trigger] s@[j]),
        decreases s@.len() - k,
    {
        k += 1;
    }
    proof {
        lemma_trim_start_at(s@, class, k as int);
    }
    slice_subrange(s, k, s.len())
}

/// Drops the characters of `class` at the end of `s`.
pub fn trim_end_chars<'a>(s: &'a [char], class: CharClass) -> (r: &'a [char])
    ensures
        r@ == trim_end(s@, class),
{
    let mut k: usize = s.len();
    while k > 0 && class.contains(s[k - 1])
        invariant
            k <= s@.len(),
            forall|j: int| k <= j < s@.len() ==> class.has(#[trigger] s@[j]),
        decreases k,
    {
        k -= 1;
    }
    proof {
        lemma_trim_end_at(s@, class, k as int);
    }
    slice_subrange(s, 0, k)
}

/// Drops the characters of `class` at both ends of `s`.
pub fn trim_chars<'a>(s: &'a [char], class: CharClass) -> (r: &'a [char])
    ensures
        r@ == trim(s@, class),
{
    trim_end_chars(trim_start_chars(s, class), class)
}

/// The lower-case letter for `A` to `Z`, any other character as it is.
pub open spec fn lower_char(c: char) -> char {
    if 'A' <= c <= 'Z' {
        ((c as u8 + 32) as u8) as char
    } else {
        c
    }
}

/// `s` with the letters `A` to `Z` in lower case.
pub open spec fn lower(s: Seq<char>) -> Seq<char> {
    s.map_values(|c: char| lower_char(c))
}

/// Puts the letters `A` to `Z` of `s` in lower case.
pub fn lower_chars(s: &[char]) -> (r: Vec<char>)
    ensures
        r@ == lower(s@),
{
    let mut r: Vec<char> = Vec::new();
    let mut i: usize = 0;
    while i < s.len()
        invariant
            i <= s@.len(),
            r@ == lower(s@).take(i as int),
        decreases s@.len() - i,
    {
        let c = s[i];
        let d = if 'A' <= c && c <= 'Z' {
            (c as u8 + 32) as char
        } else {
            c
        };
        r.push(d);
        assert(lower(s@).take(i + 1) =~= lower(s@).take(i as int).push(d));
        i += 1;
    }
    assert(lower(s@).take(s@.len() as int) =~= lower(s@));
    r
}

/// Whether `s` begins with `prefix`.
pub open spec fn starts_with(s: Seq<char>, prefix: Seq<char>) -> bool {
    prefix.len() <= s.len() && s.take(prefix.len() as int) == prefix
}

/// Tells whether `s` begins with `prefix`.
pub fn starts_with_chars(s: &[char], prefix: &[char]) -> (r: bool)
    ensures
        r == starts_with(s@, prefix@),
{
    if prefix.len() > s.len() {
        return false;
    }
    let mut i: usize = 0;
    while i < prefix.len()
        invariant
            i <= prefix@.len() <= s@.len(),
            forall|j: int| 0 <= j < i ==> s@[j] == #[trigger] prefix@[j],
        decreases prefix@.len() - i,
    {
        if s[i] != prefix[i] {
            assert(s@.take(prefix@.len() as int)[i as int] != prefix@[i as int]);
            return false;
        }
        i += 1;
    }
    assert(s@.take(prefix@.len() as int) =~= prefix@);
    true
}

/// Tells whether two character slices are equal.
pub fn same_chars(a: &[char], b: &[char]) -> (r: bool)
    ensures
        r == (a@ == b@),
{
    if a.len() != b.len() {
        return false;
    }
    let r = starts_with_chars(a, b);
    assert(a@.take(b@.len() as int) =~= a@);
    r
}

/// Where `pattern` first occurs in `s`.
pub open spec fn find(s: Seq<char>, pattern: Seq<char>) -> Option<nat>
    decreases s.len(),
{
    if s.len() < pattern.len() {
        None
    } else if starts_with(s, pattern) {
        Some(0)
    } else if s.len() == 0 {
        None
    } else {
        match find(s.drop_first(), pattern) {
            Some(i) => Some(i + 1),
            None => None,
        }
    }
}

/// A place that `find` gives holds the pattern, inside the text.
pub proof fn lemma_find_holds(s: Seq<char>, pattern: Seq<char>)
    ensures
        find(s, pattern) matches Some(i) ==> {
            &&& i + pattern.len() <= s.len()
            &&& starts_with(s.skip(i as int), pattern)
        },
    decreases s.len(),
{
    if s.len() < pattern.len() {
    } else if starts_with(s, pattern) {
        assert(s.skip(0) =~= s);
    } else if s.len() > 0 {
        lemma_find_holds(s.drop_first(), pattern);
        if find(s.drop_first(), pattern) is Some {
            let i: int = find(s.drop_first(), pattern)->0 as int;
            assert(s.drop_first().skip(i) =~= s.skip(i + 1));
        }
    }
}

/// Finds the first place of `pattern` in `s`.
pub fn find_chars(s: &[char], pattern: &[char]) -> (r: Option<usize>)
    ensures
        r is Some <==> find(s@, pattern@) is Some,
        r matches Some(i) ==> i == find(s@, pattern@)->0,
{
    if pattern.len() > s.len() {
        return None;
    }
    let last: usize = s.len() - pattern.len();
    let mut i: usize = 0;
    assert(s@.skip(0) =~= s@);
    while i <= last
        invariant
            last == s@.len() - pattern@.len(),
            i <= last + 1,
            i <= s@.len(),
            find(s@, pattern@) is Some <==> find(s@.skip(i as int), pattern@) is Some,
            find(s@, pattern@) matches Some(k) ==> k == i + find(s@.skip(i as int), pattern@)->0,
        decreases last + 1 - i,
    {
        let rest = slice_subrange(s, i, s.len());
        assert(rest@ =~= s@.skip(i as int));
        if starts_with_chars(rest, pattern) {
            return Some(i);
        }
        if i == s.len() {
            return None;
        }
        assert(s@.skip(i as int).drop_first() =~= s@.skip(i + 1));
        i += 1;
    }
    None
}

/// `s` with every occurrence of `pattern`, read from the left and without
/// overlap, replaced by `with`.
pub open spec fn replace(s: Seq<char>, pattern: Seq<char>, with: Seq<char>) -> Seq<char>
    decreases s.len(),
{
    if pattern.len() == 0 || s.len() < pattern.len() {
        s
    } else if starts_with(s, pattern) {
        with + replace(s.skip(pattern.len() as int), pattern, with)
    } else {
        seq![s[0]] + replace(s.drop_first(), pattern, with)
    }
}

/// Appends `more` to `to`.
pub fn append_chars(to: &mut Vec<char>, more: &[char])
    ensures
        final(to)@ == old(to)@ + more@,
{
    let ghost start = to@;
    let mut i: usize = 0;
    while i < more.len()
        invariant
            i <= more@.len(),
            to@ == start + more@.take(i as int),
        decreases more@.len() - i,
    {
        to.push(more[i]);
        assert(start + more@.take(i + 1) =~= (start + more@.take(i as int)).push(more@[i as int]));
        i += 1;
    }
    assert(more@.take(more@.len() as int) =~= more@);
}

/// Replaces every occurrence of `pattern` in `s` by `with`.
pub fn replace_chars(s: &[char], pattern: &[char], with: &[char]) -> (r: Vec<char>)
    requires
        pattern@.len() > 0,
    ensures
        r@ == replace(s@, pattern@, with@),
{
    let mut r: Vec<char> = Vec::new();
    let mut i: usize = 0;
    assert(s@.skip(0) =~= s@);
    assert(r@ + s@ =~= s@);
    while s.len() - i >= pattern.len()
        invariant
            i <= s@.len(),
            pattern@.len() > 0,
            replace(s@, pattern@, with@) =~= r@ + replace(s@.skip(i as int), pattern@, with@),
        decreases s@.len() - i,
    {
        let rest = slice_subrange(s, i, s.len());
        assert(rest@ =~= s@.skip(i as int));
        if starts_with_chars(rest, pattern) {
            append_chars(&mut r, with);
            assert(rest@.skip(pattern@.len() as int) =~= s@.skip(i + pattern@.len()));
            i += pattern.len();
        } else {
            r.push(s[i]);
            assert(rest@.drop_first() =~= s@.skip(i + 1));
            i += 1;
        }
    }
    append_chars(&mut r, slice_subrange(s, i, s.len()));
    r
}

/// Whether `a` comes before `b` in the order of code points.
pub open spec fn less(a: Seq<char>, b: Seq<char>) -> bool
    decreases a.len(),
{
    if b.len() == 0 {
        false
    } else if a.len() == 0 {
        true
    } else if a[0] == b[0] {
        less(a.drop_first(), b.drop_first())
    } else {
        a[0] < b[0]
    }
}

/// The order is total.
pub proof fn lemma_less_total(a: Seq<char>, b: Seq<char>)
    ensures
        less(a, b) || a == b || less(b, a),
    decreases a.len(),
{
    if a.len() > 0 && b.len() > 0 {
        lemma_less_total(a.drop_first(), b.drop_first());
        if a[0] == b[0] && a.drop_first() == b.drop_first() {
            assert(a =~= seq![a[0]] + a.drop_first());
            assert(b =~= seq![b[0]] + b.drop_first());
        }
    } else if a.len() == 0 && b.len() == 0 {
        assert(a =~= b);
    }
}

/// Nothing comes before itself, and never do two texts come before each other.
pub proof fn lemma_less_strict(a: Seq<char>, b: Seq<char>)
    ensures
        !(less(a, b) && less(b, a)),
        !less(a, a),
    decreases a.len(),
{
    if a.len() > 0 {
        if b.len() > 0 {
            lemma_less_strict(a.drop_first(), b.drop_first());
        } else {
            lemma_less_strict(a.drop_first(), a.drop_first());
        }
    }
}

/// The order is transitive.
pub proof fn lemma_less_transitive(a: Seq<char>, b: Seq<char>, c: Seq<char>)
    requires
        less(a, b),
        less(b, c),
    ensures
        less(a, c),
    decreases a.len(),
{
    if a.len() > 0 && b.len() > 0 && c.len() > 0 && a[0] == b[0] && b[0] == c[0] {
        lemma_less_transitive(a.drop_first(), b.drop_first(), c.drop_first());
    }
}

/// Tells whether `a` comes before `b`.
pub fn less_chars(a: &[char], b: &[char]) -> (r: bool)
    ensures
        r == less(a@, b@),
{
    let mut i: usize = 0;
    assert(a@.skip(0) =~= a@);
    assert(b@.skip(0) =~= b@);
    while i < a.len() && i < b.len() && a[i] == b[i]
        invariant
            i <= a@.len(),
            i <= b@.len(),
            less(a@, b@) == less(a@.skip(i as int), b@.skip(i as int)),
        decreases a@.len() - i,
    {
        assert(a@.skip(i as int).drop_first() =~= a@.skip(i + 1));
        assert(b@.skip(i as int).drop_first() =~= b@.skip(i + 1));
        i += 1;
    }
    if i == b.len() {
        false
    } else if i == a.len() {
        true
    } else {
        a[i] < b[i]
    }
}

/// The digit for a number below ten.
pub open spec fn digit(n: nat) -> char {
    ((48 + n) as u8) as char
}

/// `n` in decimal digits.
pub open spec fn decimal(n: nat) -> Seq<char>
    decreases n,
{
    if n < 10 {
        seq![digit(n)]
    } else {
        decimal(n / 10).push(digit(n % 10))
    }
}

/// Writes `n` in decimal digits.
pub fn decimal_text(n: usize) -> (r: String)
    ensures
        r@ == decimal(n as nat),
    decreases n,
{
    let last = (48u8 + (n % 10) as u8) as char;
    let mut r = if n < 10 {
        String::new()
    } else {
        decimal_text(n / 10)
    };
    r.push(last);
    assert(n < 10 ==> r@ =~= seq![digit(n as nat)]);
    r
}

/// The texts of a sequence of strings.
pub open spec fn texts(v: Seq<String>) -> Seq<Seq<char>> {
    v.map_values(|s: String| s@)
}

/// The parts one after another, with `separator` between each two.
pub open spec fn join(parts: Seq<Seq<char>>, separator: Seq<char>) -> Seq<char>
    decreases parts.len(),
{
    if parts.len() == 0 {
        Seq::empty()
    } else if parts.len() == 1 {
        parts[0]
    } else {
        parts[0] + separator + join(parts.drop_first(), separator)
    }
}

proof fn lemma_join_push(parts: Seq<Seq<char>>, separator: Seq<char>, last: Seq<char>)
    requires
        parts.len() > 0,
    ensures
        join(parts.push(last), separator) == join(parts, separator) + separator + last,
    decreases parts.len(),
{
    let more = parts.push(last);
    assert(more.drop_first() =~= parts.drop_first().push(last));
    if parts.len() == 1 {
        assert(join(more.drop_first(), separator) == last);
        assert(join(more, separator) == more[0] + separator + last);
    } else {
        lemma_join_push(parts.drop_first(), separator, last);
        assert(join(more, separator) =~= join(parts, separator) + separator + last);
    }
}

/// Joins the parts with `separator` between each two.
pub fn join_text(parts: &Vec<String>, separator: &str) -> (r: String)
    ensures
        r@ == join(texts(parts@), separator@),
{
    let mut r = String::new();
    let ghost all = texts(parts@);
    let mut i: usize = 0;
    while i < parts.len()
        invariant
            i <= parts@.len(),
            all == texts(parts@),
            r@ == join(all.take(i as int), separator@),
        decreases parts@.len() - i,
    {
        assert(all.take(i + 1) =~= all.take(i as int).push(parts@[i as int]@));
        if i > 0 {
            proof {
                lemma_join_push(all.take(i as int), separator@, parts@[i as int]@);
            }
            r.append(separator);
        } else {
            assert(r@ + parts@[i as int]@ =~= parts@[i as int]@);
        }
        r.append(parts[i].as_str());
        i += 1;
    }
    assert(all.take(all.len() as int) =~= all);
    r
}

} // verus!
