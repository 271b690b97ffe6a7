//! What components, scopes and targets are, for every path.

use vstd::prelude::*;

use crate::path_laws::{
    lemma_ancestor, lemma_ancestor_count, lemma_count_one_component, lemma_count_separators,
    lemma_last_separator_found, lemma_trim_end_cut, lemma_trimmed_count,
};
use crate::paths::{
    ancestor, component_count, is_long_unc, last_separator, target, widest_scope, without_end,
};
use crate::text::{lower, trim_end, CharClass};

verus! {

/// Whether `c` parts the components of a path.
pub open spec fn parts_components(c: char) -> bool {
    c == '\\' || c == '/'
}

/// Counting components: none in an empty text, one in a text without separators,
/// and a separator parts the components before it from those after it.
pub proof fn law_counting_components(name: Seq<char>, a: Seq<char>, b: Seq<char>, separator: char)
    requires
        forall|i: int| 0 <= i < name.len() ==> !parts_components(#[trigger] name[i]),
        parts_components(separator),
    ensures
        component_count(Seq::empty()) == 0,
        name.len() > 0 ==> component_count(name) == 1,
        component_count(a + seq![separator] + b) == component_count(a) + component_count(b),
    decreases b.len(),
{
    assert(name.take(0) =~= Seq::empty());
    assert forall|j: int| 0 <= j < name.len() implies !CharClass::Separator.has(
        #[trigger] name[j],
    ) by {
        assert(!parts_components(name[j]));
    }
    lemma_count_one_component(name, 0);
    let all = a + seq![separator] + b;
    if b.len() == 0 {
        assert(all =~= a.push(separator));
        assert(a.push(separator).drop_last() =~= a);
        assert(CharClass::Separator.has(a.push(separator).last()));
    } else {
        law_counting_components(name, a, b.drop_last(), separator);
        assert(all.drop_last() =~= a + seq![separator] + b.drop_last());
        assert(all.last() == b.last());
        if b.len() > 1 {
            assert(all[all.len() - 2] == b[b.len() - 2]);
        } else {
            assert(all[all.len() - 2] == separator);
        }
    }
}

/// Whether `path` begins with two separators, as a UNC path does.
pub open spec fn begins_with_two(path: Seq<char>) -> bool {
    path.len() >= 2 && parts_components(path[0]) && parts_components(path[1])
}

/// Whether `path` begins with `\\?\UNC\` or `\\.\UNC\`, in either separator and in
/// any letter case.
pub open spec fn begins_with_long_prefix(path: Seq<char>) -> bool {
    &&& begins_with_two(path)
    &&& path.len() >= 8
    &&& path[2] == '?' || path[2] == '.'
    &&& parts_components(path[3])
    &&& path[4] == 'U' || path[4] == 'u'
    &&& path[5] == 'N' || path[5] == 'n'
    &&& path[6] == 'C' || path[6] == 'c'
    &&& parts_components(path[7])
}

/// The widest scope leaves two components of a path with a drive: the drive and a
/// folder. It leaves three of a UNC path: the server, the share and a folder; and
/// five of the long form of one. Where a path has no more than that, it cannot be
/// widened.
pub proof fn law_widest_scope_leaves_a_folder(path: Seq<char>)
    ensures
        ({
            let stay: int = if begins_with_long_prefix(path) {
                5
            } else if begins_with_two(path) {
                3
            } else {
                2
            };
            &&& component_count(path) >= stay ==> widest_scope(path) == component_count(path) - stay
            &&& component_count(path) < stay ==> widest_scope(path) == 0
        }),
{
    if path.len() >= 8 {
        let name = path.subrange(4, 7);
        let low = lower(name);
        assert(low.len() == 3);
        assert(name[0] == path[4] && name[1] == path[5] && name[2] == path[6]);
        if begins_with_long_prefix(path) {
            assert(low =~= seq!['u', 'n', 'c']);
        } else if is_long_unc(path) {
            assert(low[0] == 'u' && low[1] == 'n' && low[2] == 'c');
        }
    }
}

/// The file itself is its target for scope zero, character for character.
pub proof fn law_file_is_its_own_target(path: Seq<char>)
    ensures
        target(path, 0) == path,
{
}

/// Whether `path` up to `end` is `path` without its last `dropped` components: a
/// component ends there, and that many follow.
pub open spec fn ends_before_last(path: Seq<char>, end: int, dropped: int) -> bool {
    &&& 0 < end <= path.len()
    &&& !parts_components(path[end - 1])
    &&& end < path.len() ==> parts_components(path[end])
    &&& component_count(path.take(end)) == component_count(path) - dropped
}

/// What is left of a path before its last components, from a text that a component
/// ends.
proof fn lemma_left(path: Seq<char>, levels: nat)
    requires
        component_count(path) >= levels + 1,
    ensures
        ({
            let up = ancestor(trim_end(path, CharClass::Separator), levels);
            &&& up == path.take(up.len() as int)
            &&& ends_before_last(path, up.len() as int, levels as int)
        }),
{
    let trimmed = trim_end(path, CharClass::Separator);
    lemma_trimmed_count(path);
    let k: int = lemma_trim_end_cut(path, CharClass::Separator);
    assert(k > 0) by {
        if k == 0 {
            assert(path.take(0).len() == 0);
        }
    }
    lemma_ancestor_count(trimmed, levels);
    lemma_ancestor(trimmed, levels);
    let up = ancestor(trimmed, levels);
    assert(up =~= path.take(up.len() as int));
    assert(up.last() == path[up.len() - 1]);
    if up.len() < path.len() {
        if up.len() < k {
            assert(trimmed[up.len() as int] == path[up.len() as int]);
        }
    }
}

/// The target for a scope of at least one is the path without that many of its
/// last components, with one backslash at its end.
pub proof fn law_target_drops_components(path: Seq<char>, scope: nat)
    requires
        1 <= scope < component_count(path),
    ensures
        target(path, scope).len() >= 2,
        target(path, scope) == path.take(target(path, scope).len() - 1).push('\\'),
        ends_before_last(path, target(path, scope).len() - 1, scope as int),
{
    lemma_left(path, scope);
    let up = ancestor(trim_end(path, CharClass::Separator), scope);
    assert(target(path, scope).len() - 1 == up.len());
}

/// There is only one place before the last so many components of a path.
pub proof fn law_one_place_before_components(path: Seq<char>, a: int, b: int, dropped: int)
    requires
        ends_before_last(path, a, dropped),
        ends_before_last(path, b, dropped),
    ensures
        a == b,
{
    if a < b {
        lemma_more_components(path, a, b);
    } else if b < a {
        lemma_more_components(path, b, a);
    }
}

proof fn lemma_more_components(path: Seq<char>, a: int, b: int)
    requires
        0 < a < b <= path.len(),
        parts_components(path[a]),
        !parts_components(path[b - 1]),
    ensures
        component_count(path.take(a)) < component_count(path.take(b)),
    decreases b - a,
{
    let after = path.subrange(a + 1, b);
    let none: Seq<char> = Seq::empty();
    law_counting_components(none, path.take(a), after, path[a]);
    assert(path.take(b) =~= path.take(a) + seq![path[a]] + after);
    assert(after.last() == path[b - 1]);
    lemma_some_component(after);
}

proof fn lemma_some_component(s: Seq<char>)
    requires
        s.len() > 0,
        !parts_components(s.last()),
    ensures
        component_count(s) > 0,
    decreases s.len(),
{
    if s.len() > 1 && !parts_components(s[s.len() - 2]) {
        lemma_some_component(s.drop_last());
    }
}

/// Beyond the first component nothing is dropped: of a path that does not begin
/// with two separators the first component stays, whatever the scope.
pub proof fn law_first_component_stays(path: Seq<char>, scope: nat)
    requires
        scope >= 1,
        component_count(path) >= 1,
        scope >= component_count(path),
        !begins_with_two(path),
    ensures
        target(path, scope).len() >= 2,
        target(path, scope) == path.take(target(path, scope).len() - 1).push('\\'),
        ends_before_last(path, target(path, scope).len() - 1, component_count(path) - 1),
{
    let levels: nat = (component_count(path) - 1) as nat;
    let trimmed = trim_end(path, CharClass::Separator);
    lemma_left(path, levels);
    let up = ancestor(trimmed, levels);
    let more: nat = (scope - levels) as nat;
    lemma_ancestor_twice(trimmed, levels, more);
    assert(component_count(up) == 1);
    lemma_last_separator_found(up);
    if last_separator(up) is Some && last_separator(up)->0 > 0 {
        let i: int = last_separator(up)->0 as int;
        // What stands before the last separator is separators too.
        lemma_count_one_component(up, i + 1);
        lemma_count_separators(up.take(i + 1), i);
        assert(up.take(i + 1).take(i) =~= up.take(i));
        assert(component_count(up.take(i)) == 0);
        lemma_no_component(up.take(i));
        assert(CharClass::Separator.has(up.take(i)[0]));
        assert(up[0] == path[0]);
        if i >= 2 {
            assert(CharClass::Separator.has(up.take(i)[1]));
            assert(up[1] == path[1]);
        } else {
            assert(up[1] == path[1]);
        }
        assert(begins_with_two(path));
    }
    assert(ancestor(up, more) == up);
    assert(target(path, scope) == up.push('\\'));
}

proof fn lemma_no_component(s: Seq<char>)
    requires
        component_count(s) == 0,
    ensures
        forall|i: int| 0 <= i < s.len() ==> CharClass::Separator.has(#[trigger] s[i]),
    decreases s.len(),
{
    if s.len() > 0 {
        lemma_no_component(s.drop_last());
        assert forall|i: int| 0 <= i < s.len() implies CharClass::Separator.has(
            #[trigger] s[i],
        ) by {
            if i < s.len() - 1 {
                assert(CharClass::Separator.has(s.drop_last()[i]));
            } else if i > 0 {
                assert(CharClass::Separator.has(s.drop_last()[i - 1]));
            }
        }
    }
}

proof fn lemma_ancestor_twice(s: Seq<char>, a: nat, b: nat)
    ensures
        ancestor(ancestor(s, a), b) == ancestor(s, a + b),
    decreases a,
{
    if a > 0 {
        match last_separator(s) {
            Some(i) => if i > 0 {
                lemma_ancestor_twice(without_end(s.take(i as int)), (a - 1) as nat, b);
                assert(ancestor(s, a + b) == ancestor(
                    without_end(s.take(i as int)),
                    (a + b - 1) as nat,
                ));
            } else {
                assert(ancestor(s, a) == s);
                assert(ancestor(s, b) == s);
            },
            None => {
                assert(ancestor(s, a) == s);
                assert(ancestor(s, b) == s);
            },
        }
    }
}

/// Beyond the server a UNC path loses its leading separators one by one, and one
/// always stays.
pub proof fn law_leading_separators_stay(path: Seq<char>, separators: int, scope: nat)
    requires
        component_count(path) >= 1,
        scope >= component_count(path),
        2 <= separators < path.len(),
        forall|i: int| 0 <= i < separators ==> parts_components(#[trigger] path[i]),
        !parts_components(path[separators]),
    ensures
        ({
            let left = separators - (scope - component_count(path)) - 1;
            target(path, scope) == path.take(
                if left >= 1 {
                    left
                } else {
                    1
                },
            ).push('\\')
        }),
{
    let levels: nat = (component_count(path) - 1) as nat;
    let trimmed = trim_end(path, CharClass::Separator);
    lemma_left(path, levels);
    let up = ancestor(trimmed, levels);
    let more: nat = (scope - levels) as nat;
    lemma_ancestor_twice(trimmed, levels, more);
    assert(up.len() > separators) by {
        if up.len() <= separators {
            assert(parts_components(path[up.len() - 1]));
        }
    }
    // Nothing but the server follows the separators.
    assert forall|j: int| separators <= j < up.len() implies !CharClass::Separator.has(
        #[trigger] up[j],
    ) by {
        if CharClass::Separator.has(up[j]) {
            let none: Seq<char> = Seq::empty();
            let before = up.take(j);
            let after = up.subrange(j + 1, up.len() as int);
            law_counting_components(none, before, after, up[j]);
            assert(up =~= before + seq![up[j]] + after);
            assert(after.last() == up.last());
            lemma_some_component(after);
            assert(j > separators);
            assert(before[separators] == path[separators]);
            lemma_some_component_inside(before, separators);
        }
    }
    lemma_last_separator_at(up, separators - 1);
    let rest = up.take(separators - 1);
    assert(rest =~= path.take(separators - 1));
    lemma_all_separators(rest);
    assert(ancestor(up, more) == ancestor(rest, (more - 1) as nat));
    lemma_peel(rest, (more - 1) as nat);
    let left: int = separators - 1 - (more - 1);
    let n: int = if left >= 1 {
        left
    } else {
        1
    };
    assert(rest.take(n) =~= path.take(n));
}

proof fn lemma_some_component_inside(s: Seq<char>, i: int)
    requires
        0 <= i < s.len(),
        !parts_components(s[i]),
    ensures
        component_count(s) > 0,
{
    if component_count(s) == 0 {
        lemma_no_component(s);
        assert(CharClass::Separator.has(s[i]));
    }
}

proof fn lemma_last_separator_at(s: Seq<char>, i: int)
    requires
        0 <= i < s.len(),
        CharClass::Separator.has(s[i]),
        forall|j: int| i < j < s.len() ==> !CharClass::Separator.has(#[trigger] s[j]),
    ensures
        last_separator(s) == Some(i as nat),
{
    lemma_last_separator_found(s);
    if last_separator(s) is Some {
        let k: int = last_separator(s)->0 as int;
        if k > i {
            assert(!CharClass::Separator.has(s[k]));
        }
    }
}

proof fn lemma_all_separators(s: Seq<char>)
    requires
        forall|i: int| 0 <= i < s.len() ==> parts_components(#[trigger] s[i]),
    ensures
        without_end(s) == s,
{
    let k: int = lemma_trim_end_cut(s, CharClass::Separator);
    if k > 0 {
        assert(parts_components(s[k - 1]));
    }
}

/// From a run of separators one is cut at each step, but for the last.
proof fn lemma_peel(s: Seq<char>, levels: nat)
    requires
        s.len() >= 1,
        forall|i: int| 0 <= i < s.len() ==> parts_components(#[trigger] s[i]),
    ensures
        ancestor(s, levels) == s.take(
            if s.len() - levels >= 1 {
                s.len() - levels
            } else {
                1
            },
        ),
    decreases levels,
{
    assert(s.take(s.len() as int) =~= s);
    if levels > 0 {
        assert(parts_components(s.last()));
        lemma_last_separator_at(s, s.len() - 1);
        if s.len() > 1 {
            let rest = s.take(s.len() - 1);
            assert(forall|i: int| 0 <= i < rest.len() ==> rest[i] == s[i]);
            lemma_all_separators(rest);
            lemma_peel(rest, (levels - 1) as nat);
            let n: int = if rest.len() - (levels - 1) >= 1 {
                rest.len() - (levels - 1)
            } else {
                1
            };
            assert(rest.take(n) =~= s.take(n));
        }
    }
}

/// Of a path without any component only the closing backslash is left.
pub proof fn law_no_component_leaves_a_backslash(path: Seq<char>, scope: nat)
    requires
        scope >= 1,
        forall|i: int| 0 <= i < path.len() ==> parts_components(#[trigger] path[i]),
    ensures
        target(path, scope) == seq!['\\'],
{
    let k: int = lemma_trim_end_cut(path, CharClass::Separator);
    if k > 0 {
        assert(parts_components(path[k - 1]));
    }
    let none = trim_end(path, CharClass::Separator);
    assert(none.len() == 0);
    assert(ancestor(none, scope) == none);
    assert(target(path, scope) =~= seq!['\\']);
}

/// The folders that are offered keep two components, so a drive root is never
/// offered; of UNC paths they keep three.
pub proof fn law_offered_folders_keep_components(path: Seq<char>, scope: nat)
    requires
        1 <= scope <= widest_scope(path),
    ensures
        component_count(target(path, scope)) == component_count(path) - scope,
        component_count(target(path, scope)) >= 2,
        begins_with_two(path) ==> component_count(target(path, scope)) >= 3,
        begins_with_long_prefix(path) ==> component_count(target(path, scope)) >= 5,
{
    law_widest_scope_leaves_a_folder(path);
    law_target_drops_components(path, scope);
    let t = target(path, scope);
    let none: Seq<char> = Seq::empty();
    let part = path.take(t.len() - 1);
    law_counting_components(none, part, none, '\\');
    assert(t =~= part + seq!['\\'] + none);
}

} // verus!
