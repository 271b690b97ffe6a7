//! What holds of the relaunch: which arguments the elevated copy gets.

use vstd::prelude::*;

use crate::elevation::{
    backslashes, command_line, escaped, is_marked, leading_backslashes, lemma_leading_backslashes,
    needs_quotes, quoted, relaunch_args, unmarked, RelaunchError, ELEVATED_FLAG,
};
use crate::text::{decimal, join};

verus! {

proof fn lemma_unmarked(args: Seq<Seq<char>>)
    ensures
        forall|i: int|
            0 <= i < unmarked(args).len() ==> #[trigger] unmarked(args)[i] != ELEVATED_FLAG@,
    decreases args.len(),
{
    if args.len() > 1 {
        lemma_unmarked(args.drop_last());
        assert forall|i: int| 0 <= i < unmarked(args).len() implies #[trigger] unmarked(args)[i]
            != ELEVATED_FLAG@ by {
            if i < unmarked(args.drop_last()).len() {
                assert(unmarked(args)[i] == unmarked(args.drop_last())[i]);
            }
        }
    }
}

/// The elevated copy knows itself by the mark, which it gets once, as its last
/// argument.
pub proof fn law_copy_knows_itself(program: Seq<char>, args: Seq<Seq<char>>)
    ensures
        is_marked(seq![program] + relaunch_args(args)),
        forall|i: int|
            0 <= i < relaunch_args(args).len() - 1 ==> #[trigger] relaunch_args(args)[i]
                != ELEVATED_FLAG@,
{
    let copy = seq![program] + relaunch_args(args);
    assert(copy[copy.len() - 1] == ELEVATED_FLAG@);
    lemma_unmarked(args);
    assert forall|i: int| 0 <= i < relaunch_args(args).len() - 1 implies #[trigger] relaunch_args(
        args,
    )[i] != ELEVATED_FLAG@ by {
        assert(relaunch_args(args)[i] == unmarked(args)[i]);
    }
}

/// Where nothing is marked, every argument is handed on.
proof fn lemma_unmarked_all(args: Seq<Seq<char>>)
    requires
        args.len() > 0,
        !is_marked(args),
    ensures
        unmarked(args) == args.drop_first(),
    decreases args.len(),
{
    if args.len() > 1 {
        let before = args.drop_last();
        assert(args[args.len() - 1] != ELEVATED_FLAG@);
        assert(!is_marked(before)) by {
            if is_marked(before) {
                let i: int = choose|i: int|
                    1 <= i < before.len() && #[trigger] before[i] == ELEVATED_FLAG@;
                assert(args[i] == ELEVATED_FLAG@);
            }
        }
        lemma_unmarked_all(before);
        assert(unmarked(args) =~= args.drop_first());
    } else {
        assert(unmarked(args) =~= args.drop_first());
    }
}

/// The copy gets all arguments in their order, and starting the copy again
/// would hand on the same arguments.
pub proof fn law_relaunching_keeps_arguments(program: Seq<char>, args: Seq<Seq<char>>)
    ensures
        args.len() > 0 && !is_marked(args) ==> relaunch_args(args) == args.drop_first().push(
            ELEVATED_FLAG@,
        ),
        relaunch_args(seq![program] + relaunch_args(args)) == relaunch_args(args),
{
    if args.len() > 0 && !is_marked(args) {
        lemma_unmarked_all(args);
    }
    let copy = seq![program] + relaunch_args(args);
    let plain = seq![program] + unmarked(args);
    lemma_unmarked(args);
    assert(copy.drop_last() =~= plain);
    assert(copy.last() == ELEVATED_FLAG@);
    assert(!is_marked(plain)) by {
        if is_marked(plain) {
            let i: int = choose|i: int|
                1 <= i < plain.len() && #[trigger] plain[i] == ELEVATED_FLAG@;
            assert(unmarked(args)[i - 1] == ELEVATED_FLAG@);
        }
    }
    lemma_unmarked_all(plain);
    assert(plain.drop_first() =~= unmarked(args));
    assert(unmarked(copy) == unmarked(args));
}

/// The mark needs no quotes, so the command line holds the arguments of the
/// copy, each quoted where needed.
pub proof fn law_command_line_holds_the_arguments(args: Seq<Seq<char>>)
    ensures
        command_line(args) == join(
            relaunch_args(args).map_values(|arg: Seq<char>| quoted(arg)),
            " "@,
        ),
{
    reveal_strlit("--elevated");
    assert(!needs_quotes(ELEVATED_FLAG@));
    assert(unmarked(args).map_values(|arg: Seq<char>| quoted(arg)).push(ELEVATED_FLAG@)
        =~= relaunch_args(args).map_values(|arg: Seq<char>| quoted(arg)));
}

/// The arguments that are complete, as far as there is one.
pub open spec fn complete(current: Option<Seq<char>>) -> Seq<Seq<char>> {
    match current {
        Some(arg) => seq![arg],
        None => Seq::empty(),
    }
}

/// How Windows splits the rest of a command line into arguments, inside quotes or
/// not, after it has read the beginning of the current argument, if any.
///
/// Blanks outside quotes end an argument. Backslashes are plain unless a quote
/// follows them: then each two of them stand for one, and where one is left over
/// the quote is plain too. Any other quote opens or closes quotes, but inside
/// quotes two in a row stand for a plain one.
pub open spec fn split_rest(
    rest: Seq<char>,
    quotes: bool,
    current: Option<Seq<char>>,
) -> Seq<Seq<char>>
    decreases rest.len(),
{
    let n = leading_backslashes(rest) as int;
    let arg = match current {
        Some(arg) => arg,
        None => Seq::empty(),
    };
    if rest.len() == 0 {
        complete(current)
    } else if !quotes && (rest[0] == ' ' || rest[0] == '\t') {
        complete(current) + split_rest(rest.skip(1), false, None)
    } else if n < rest.len() && rest[n] == '"' {
        let more = arg + backslashes((n / 2) as nat);
        if n % 2 == 1 {
            split_rest(rest.skip(n + 1), quotes, Some(more.push('"')))
        } else if quotes && n + 1 < rest.len() && rest[n + 1] == '"' {
            split_rest(rest.skip(n + 2), quotes, Some(more.push('"')))
        } else {
            split_rest(rest.skip(n + 1), !quotes, Some(more))
        }
    } else if 0 < n <= rest.len() {
        split_rest(rest.skip(n), quotes, Some(arg + backslashes(n as nat)))
    } else {
        split_rest(rest.skip(1), quotes, Some(arg.push(rest[0])))
    }
}

/// The arguments into which Windows splits the command line of a program, its own
/// name left out.
pub open spec fn split_line(line: Seq<char>) -> Seq<Seq<char>> {
    split_rest(line, false, None)
}

proof fn lemma_backslashes_before(s: Seq<char>, n: nat)
    requires
        s.len() == 0 || s[0] != '\\',
    ensures
        leading_backslashes(backslashes(n) + s) == n,
    decreases n,
{
    let all = backslashes(n) + s;
    if n > 0 {
        lemma_backslashes_before(s, (n - 1) as nat);
        assert(all.drop_first() =~= backslashes((n - 1) as nat) + s);
    } else {
        assert(all =~= s);
    }
}

/// Whether an argument ends before `tail`.
spec fn ends_argument(tail: Seq<char>) -> bool {
    tail.len() == 0 || tail[0] == ' '
}

/// Between quotes an argument is read back up to the closing quote.
proof fn lemma_escaped_is_read(arg: Seq<char>, tail: Seq<char>, before: Seq<char>)
    requires
        ends_argument(tail),
    ensures
        split_rest(escaped(arg) + seq!['"'] + tail, true, Some(before)) == split_rest(
            tail,
            false,
            Some(before + arg),
        ),
    decreases arg.len(),
{
    lemma_leading_backslashes(arg);
    let n: nat = leading_backslashes(arg);
    let rest = escaped(arg) + seq!['"'] + tail;
    if n >= arg.len() {
        let after = seq!['"'] + tail;
        assert(rest =~= backslashes(2 * n) + after);
        lemma_backslashes_before(after, 2 * n);
        assert(rest[2 * n as int] == '"');
        assert(rest.skip(2 * n as int + 1) =~= tail);
        assert(arg.take(n as int) =~= arg);
        assert(before + backslashes(n) == before + arg);
    } else {
        let next = arg.skip(n as int + 1);
        let after = escaped(next) + seq!['"'] + tail;
        let c = arg[n as int];
        assert(arg =~= backslashes(n) + seq![c] + next);
        if c == '"' {
            let odd: nat = 2 * n + 1;
            assert(rest =~= backslashes(odd) + (seq!['"'] + after));
            lemma_backslashes_before(seq!['"'] + after, odd);
            assert(rest[odd as int] == '"');
            assert(rest.skip(odd as int + 1) =~= after);
            lemma_escaped_is_read(next, tail, before + backslashes(n).push('"'));
            assert((before + backslashes(n)).push('"') =~= before + backslashes(n).push('"'));
            assert(before + backslashes(n).push('"') + next =~= before + arg);
        } else {
            let plain = seq![c] + after;
            assert(rest =~= backslashes(n) + plain);
            lemma_backslashes_before(plain, n);
            lemma_backslashes_before(plain, 0);
            assert(backslashes(0) + plain =~= plain);
            assert(rest[n as int] == c);
            assert(rest.skip(n as int) =~= plain);
            assert(plain.skip(1) =~= after);
            lemma_escaped_is_read(next, tail, before + backslashes(n).push(c));
            assert((before + backslashes(n)).push(c) =~= before + backslashes(n).push(c));
            assert(before + backslashes(n).push(c) + next =~= before + arg);
            let read = before + backslashes(n);
            if n == 0 {
                assert(read =~= before);
                assert(plain =~= rest);
            } else {
                assert(split_rest(rest, true, Some(before)) == split_rest(plain, true, Some(read)));
            }
            assert(split_rest(plain, true, Some(read)) == split_rest(
                after,
                true,
                Some(read.push(c)),
            ));
        }
    }
}

/// Without quotes an argument is read back up to the next blank.
proof fn lemma_plain_is_read(arg: Seq<char>, tail: Seq<char>, before: Option<Seq<char>>)
    requires
        ends_argument(tail),
        !arg.contains(' ') && !arg.contains('\t') && !arg.contains('"'),
        arg.len() > 0 || before is Some,
    ensures
        split_rest(arg + tail, false, before) == split_rest(
            tail,
            false,
            Some(
                match before {
                    Some(b) => b + arg,
                    None => arg,
                },
            ),
        ),
    decreases arg.len(),
{
    let b = match before {
        Some(b) => b,
        None => Seq::empty(),
    };
    assert(b + arg =~= match before {
        Some(b) => b + arg,
        None => arg,
    });
    let rest = arg + tail;
    if arg.len() == 0 {
        assert(rest =~= tail);
        assert(b + arg =~= b);
    } else {
        lemma_leading_backslashes(arg);
        let n: nat = leading_backslashes(arg);
        assert(arg.contains(arg[0]));
        let next = arg.skip(n as int);
        assert(arg =~= backslashes(n) + next);
        assert(rest =~= backslashes(n) + (next + tail));
        lemma_backslashes_before(next + tail, n);
        if n < arg.len() {
            assert(arg.contains(arg[n as int]));
        }
        let step: nat = if n == 0 {
            1
        } else {
            n
        };
        let left = arg.skip(step as int);
        assert(rest.skip(step as int) =~= left + tail);
        assert forall|i: int| 0 <= i < left.len() implies #[trigger] left[i] != ' ' && left[i]
            != '\t' && left[i] != '"' by {
            assert(arg.contains(arg[i + step]));
        }
        let read = b + arg.take(step as int);
        lemma_plain_is_read(left, tail, Some(read));
        assert(read + left =~= b + arg);
        assert(n == 0 ==> b.push(arg[0]) =~= read);
        assert(n > 0 ==> b + backslashes(n) =~= read);
    }
}

/// One argument is read back.
proof fn lemma_argument_is_read(arg: Seq<char>, tail: Seq<char>)
    requires
        ends_argument(tail),
    ensures
        split_rest(quoted(arg) + tail, false, None) == split_rest(tail, false, Some(arg)),
{
    if needs_quotes(arg) {
        let rest = quoted(arg) + tail;
        let after = escaped(arg) + seq!['"'] + tail;
        assert(rest =~= seq!['"'] + after);
        assert(rest.skip(1) =~= after);
        assert(leading_backslashes(rest) == 0);
        assert(Seq::<char>::empty() + backslashes(0) =~= Seq::<char>::empty());
        lemma_escaped_is_read(arg, tail, Seq::empty());
        assert(Seq::<char>::empty() + arg =~= arg);
    } else {
        lemma_plain_is_read(arg, tail, None);
    }
}

/// Quoted arguments with blanks between them are read back.
proof fn lemma_arguments_are_read(args: Seq<Seq<char>>)
    ensures
        split_line(join(args.map_values(|arg: Seq<char>| quoted(arg)), " "@)) == args,
    decreases args.len(),
{
    reveal_strlit(" ");
    let parts = args.map_values(|arg: Seq<char>| quoted(arg));
    if args.len() == 0 {
        assert(split_line(join(parts, " "@)) =~= args);
    } else if args.len() == 1 {
        let line = join(parts, " "@);
        assert(line =~= quoted(args[0]) + Seq::<char>::empty());
        lemma_argument_is_read(args[0], Seq::empty());
        assert(seq![args[0]] =~= args);
    } else {
        let others = args.drop_first();
        let more = others.map_values(|arg: Seq<char>| quoted(arg));
        assert(parts.drop_first() =~= more);
        let tail = " "@ + join(more, " "@);
        assert(join(parts, " "@) =~= quoted(args[0]) + tail);
        lemma_argument_is_read(args[0], tail);
        lemma_arguments_are_read(others);
        assert(tail.skip(1) =~= join(more, " "@));
        assert(seq![args[0]] + others =~= args);
    }
}

/// The arguments are forwarded: Windows splits the command line back into them,
/// whatever characters they hold, with the mark at the end.
pub proof fn law_arguments_are_forwarded(args: Seq<Seq<char>>)
    ensures
        split_line(command_line(args)) == relaunch_args(args),
{
    law_command_line_holds_the_arguments(args);
    lemma_arguments_are_read(relaunch_args(args));
}

/// Whether no backslash ends `s`.
pub open spec fn ends_plainly(s: Seq<char>) -> bool {
    s.len() == 0 || s.last() != '\\'
}

/// One step of escaping, before whatever follows.
proof fn lemma_escape_step(a: Seq<char>, more: Seq<char>)
    requires
        a.len() > 0,
        ends_plainly(a),
    ensures
        ({
            let n = leading_backslashes(a);
            let rest = a.skip(n as int + 1);
            let c = a[n as int];
            &&& n < a.len()
            &&& c != '\\'
            &&& a == backslashes(n) + seq![c] + rest
            &&& ends_plainly(rest)
            &&& escaped(a + more) == (if c == '"' {
                backslashes(2 * n + 1).push('"')
            } else {
                backslashes(n).push(c)
            }) + escaped(rest + more)
        }),
{
    lemma_leading_backslashes(a);
    let n: nat = leading_backslashes(a);
    if n == a.len() {
        assert(a.take(n as int) =~= a);
        assert(a.last() == backslashes(n)[n - 1]);
    }
    let c = a[n as int];
    let rest = a.skip(n as int + 1);
    assert(a =~= backslashes(n) + seq![c] + rest);
    let all = a + more;
    let after = seq![c] + rest + more;
    assert(all =~= backslashes(n) + after);
    lemma_backslashes_before(after, n);
    assert(all[n as int] == c);
    assert(all.skip(n as int + 1) =~= rest + more);
    if rest.len() > 0 {
        assert(rest.last() == a.last());
    }
}

/// Between quotes, text without quotes is kept unless a backslash ends it;
/// backslashes at the end are doubled; a quote gets a backslash, and backslashes
/// before it are doubled.
pub proof fn law_escaping(a: Seq<char>, n: nat, b: Seq<char>)
    requires
        ends_plainly(a),
    ensures
        !a.contains('"') ==> escaped(a) == a,
        escaped(a + backslashes(n)) == escaped(a) + backslashes(2 * n),
        escaped(a + backslashes(n) + seq!['"'] + b) == escaped(a) + backslashes(2 * n) + seq![
            '\\',
            '"',
        ] + escaped(b),
    decreases a.len(),
{
    let none: Seq<char> = Seq::empty();
    let quote = backslashes(n) + seq!['"'] + b;
    assert(a + backslashes(n) + seq!['"'] + b =~= a + quote);
    if a.len() == 0 {
        assert(backslashes(0) =~= none);
        lemma_backslashes_before(none, n);
        assert(a + backslashes(n) =~= backslashes(n) + none);
        assert(a + quote =~= backslashes(n) + (seq!['"'] + b));
        lemma_backslashes_before(seq!['"'] + b, n);
        assert((a + quote)[n as int] == '"');
        assert((a + quote).skip(n as int + 1) =~= b);
        assert(escaped(a) =~= none);
        assert(backslashes(2 * n + 1).push('"') + escaped(b) =~= escaped(a) + backslashes(2 * n)
            + seq!['\\', '"'] + escaped(b));
        assert(escaped(a) + backslashes(2 * n) =~= backslashes(2 * n));
    } else {
        lemma_escape_step(a, none);
        lemma_escape_step(a, backslashes(n));
        lemma_escape_step(a, quote);
        let m: nat = leading_backslashes(a);
        let c = a[m as int];
        let rest = a.skip(m as int + 1);
        law_escaping(rest, n, b);
        assert(rest + backslashes(n) + seq!['"'] + b =~= rest + quote);
        assert(a + none =~= a);
        assert(rest + none =~= rest);
        let piece = if c == '"' {
            backslashes(2 * m + 1).push('"')
        } else {
            backslashes(m).push(c)
        };
        assert(escaped(a) == piece + escaped(rest));
        assert(piece + (escaped(rest) + backslashes(2 * n)) =~= escaped(a) + backslashes(2 * n));
        assert(piece + (escaped(rest) + backslashes(2 * n) + seq!['\\', '"'] + escaped(b))
            =~= escaped(a) + backslashes(2 * n) + seq!['\\', '"'] + escaped(b));
        if !a.contains('"') {
            assert(a.contains(a[m as int]));
            assert(!rest.contains('"')) by {
                if rest.contains('"') {
                    let i: int = choose|i: int| 0 <= i < rest.len() && rest[i] == '"';
                    assert(a[m + 1 + i] == '"');
                }
            }
            assert(backslashes(m).push(c) + rest =~= a);
        }
    }
}

/// Quotes are put around an argument that is empty or holds a blank, a tab or a
/// quote, and around no other.
pub proof fn law_quoting_where_needed(arg: Seq<char>)
    ensures
        arg.len() > 0 && !arg.contains(' ') && !arg.contains('\t') && !arg.contains('"')
            ==> quoted(arg) == arg,
        arg.len() == 0 || arg.contains(' ') || arg.contains('\t') || arg.contains('"')
            ==> quoted(arg) == seq!['"'] + escaped(arg) + seq!['"'],
{
}

/// The copy gets the arguments after the program's name, those that are the mark
/// left out, and then the mark.
pub proof fn law_copy_gets_the_arguments(args: Seq<Seq<char>>)
    requires
        args.len() > 0,
    ensures
        relaunch_args(args) == args.drop_first().filter(
            |arg: Seq<char>| arg != "--elevated"@,
        ).push("--elevated"@),
        is_marked(args) <==> args.drop_first().contains("--elevated"@),
    decreases args.len(),
{
    let pred = |arg: Seq<char>| arg != "--elevated"@;
    let own = args.drop_first();
    if args.len() == 1 {
        reveal(Seq::filter);
        assert(own =~= Seq::empty());
        assert(unmarked(args) =~= own.filter(pred));
    } else {
        let before = args.drop_last();
        law_copy_gets_the_arguments(before);
        let less_own = before.drop_first();
        assert(own =~= less_own.push(args.last()));
        less_own.lemma_filter_push(args.last(), pred);
        assert(relaunch_args(before).drop_last() =~= unmarked(before));
        assert(less_own.filter(pred).push("--elevated"@).drop_last() =~= less_own.filter(pred));
        assert(unmarked(args) =~= own.filter(pred));
    }
    if is_marked(args) {
        let i: int = choose|i: int| 1 <= i < args.len() && #[trigger] args[i] == ELEVATED_FLAG@;
        assert(own[i - 1] == "--elevated"@);
    }
    if own.contains("--elevated"@) {
        let i: int = choose|i: int| 0 <= i < own.len() && own[i] == "--elevated"@;
        assert(args[i + 1] == ELEVATED_FLAG@);
    }
}

/// Without any argument only the mark is handed on.
pub proof fn law_mark_alone(args: Seq<Seq<char>>)
    requires
        args.len() == 0,
    ensures
        relaunch_args(args) == seq!["--elevated"@],
        !is_marked(args),
{
    assert(relaunch_args(args) =~= seq!["--elevated"@]);
}

/// What the errors of the relaunch say.
pub proof fn law_relaunch_errors(code: usize)
    ensures
        RelaunchError::Unsupported.text() == "elevation is only supported on Windows"@,
        RelaunchError::Declined.text() == "the UAC prompt was declined"@,
        RelaunchError::Failed(code).text() == "ShellExecuteW failed with code "@ + decimal(
            code as nat,
        ),
{
}

} // verus!
