//! Administrator rights: how the answers of Windows are read, and with which
//! arguments the program starts itself again.

use vstd::prelude::*;
use vstd::slice::slice_subrange;
use vstd::string::StringExecFns;

use crate::text::{
    chars_of, decimal, decimal_text, join, join_text, same_chars, string_of, texts,
};

verus! {

/// The argument by which the elevated copy knows that it owns its console.
pub const ELEVATED_FLAG: &'static str = "--elevated";

/// Why the program could not be started again with administrator rights.
#[derive(Debug, Clone, Copy, PartialEq, Eq, Structural)]
pub enum RelaunchError {
    /// The system knows no elevation.
    Unsupported,
    /// The prompt was declined.
    Declined,
    /// The shell reported this code.
    Failed(usize),
}

impl RelaunchError {
    /// What the error says.
    pub open spec fn text(self) -> Seq<char> {
        match self {
            RelaunchError::Unsupported => "elevation is only supported on Windows"@,
            RelaunchError::Declined => "the UAC prompt was declined"@,
            RelaunchError::Failed(code) => "ShellExecuteW failed with code "@ + decimal(
                code as nat,
            ),
        }
    }

    /// What the error says.
    pub fn message(self) -> (r: String)
        ensures
            r@ == self.text(),
    {
        match self {
            RelaunchError::Unsupported => "elevation is only supported on Windows".to_owned(),
            RelaunchError::Declined => "the UAC prompt was declined".to_owned(),
            RelaunchError::Failed(code) => "ShellExecuteW failed with code ".to_owned().concat(
                decimal_text(code).as_str(),
            ),
        }
    }
}

/// Whether the process has administrator rights, where the system knows no
/// elevation: there every process counts as elevated.
pub fn is_elevated() -> (r: bool)
    ensures
        r,
{
    true
}

/// Starting again with administrator rights, where the system knows no
/// elevation: that is refused.
pub fn relaunch_elevated() -> (r: Result<(), RelaunchError>)
    ensures
        r == Err::<(), RelaunchError>(RelaunchError::Unsupported),
{
    Err(RelaunchError::Unsupported)
}

/// Reads what Windows answers about the process token: whether it could be
/// opened and queried (zero means no), and its elevation. A token that cannot
/// be read counts as not elevated.
pub fn token_is_elevated(opened: i32, queried: i32, elevation: u32) -> (r: bool)
    ensures
        r == (opened != 0 && queried != 0 && elevation != 0),
{
    opened != 0 && queried != 0 && elevation != 0
}

/// Reads the code that `ShellExecuteW` returns: up to 32 it is an error, and 5
/// says that access was denied.
pub fn relaunch_outcome(code: usize) -> (r: Result<(), RelaunchError>)
    ensures
        r is Ok <==> code > 32,
        code == 5 ==> r == Err::<(), RelaunchError>(RelaunchError::Declined),
        code <= 32 && code != 5 ==> r == Err::<(), RelaunchError>(RelaunchError::Failed(code)),
{
    if code > 32 {
        Ok(())
    } else if code == 5 {
        Err(RelaunchError::Declined)
    } else {
        Err(RelaunchError::Failed(code))
    }
}

/// Whether an argument has to be quoted.
pub open spec fn needs_quotes(arg: Seq<char>) -> bool {
    arg.len() == 0 || arg.contains(' ') || arg.contains('\t') || arg.contains('"')
}

/// That many backslashes.
pub open spec fn backslashes(n: nat) -> Seq<char> {
    Seq::new(n, |i: int| '\\')
}

/// How many backslashes `s` begins with.
pub open spec fn leading_backslashes(s: Seq<char>) -> nat
    decreases s.len(),
{
    if s.len() > 0 && s[0] == '\\' {
        1 + leading_backslashes(s.drop_first())
    } else {
        0
    }
}

/// An argument as it stands between quotes: a quote has a backslash before it, and
/// backslashes that stand before a quote or at the end are doubled.
pub open spec fn escaped(arg: Seq<char>) -> Seq<char>
    decreases arg.len(),
{
    let n = leading_backslashes(arg);
    if n >= arg.len() {
        backslashes(2 * n)
    } else if arg[n as int] == '"' {
        backslashes(2 * n + 1).push('"') + escaped(arg.skip(n as int + 1))
    } else {
        backslashes(n).push(arg[n as int]) + escaped(arg.skip(n as int + 1))
    }
}

/// An argument as it stands on a command line.
pub open spec fn quoted(arg: Seq<char>) -> Seq<char> {
    if needs_quotes(arg) {
        seq!['"'] + escaped(arg) + seq!['"']
    } else {
        arg
    }
}

/// The backslashes that a text begins with.
pub proof fn lemma_leading_backslashes(s: Seq<char>)
    ensures
        leading_backslashes(s) <= s.len(),
        s.take(leading_backslashes(s) as int) == backslashes(leading_backslashes(s)),
        leading_backslashes(s) < s.len() ==> s[leading_backslashes(s) as int] != '\\',
    decreases s.len(),
{
    if s.len() > 0 && s[0] == '\\' {
        let rest = s.drop_first();
        lemma_leading_backslashes(rest);
        let n: int = leading_backslashes(rest) as int;
        assert forall|i: int| 0 <= i <= n implies #[trigger] s[i] == '\\' by {
            if i > 0 {
                assert(rest.take(n)[i - 1] == backslashes(n as nat)[i - 1]);
                assert(rest[i - 1] == s[i]);
            }
        }
        assert(s.take(n + 1) =~= backslashes((n + 1) as nat));
    } else {
        assert(s.take(0) =~= backslashes(0));
    }
}

/// Counts the backslashes that `s` begins with.
fn count_backslashes(s: &[char]) -> (r: usize)
    ensures
        r == leading_backslashes(s@),
        r <= s@.len(),
{
    let mut n: usize = 0;
    assert(s@.skip(0) =~= s@);
    while n < s.len() && s[n] == '\\'
        invariant
            n <= s@.len(),
            leading_backslashes(s@) == n + leading_backslashes(s@.skip(n as int)),
        decreases s@.len() - n,
    {
        assert(s@.skip(n as int).drop_first() =~= s@.skip(n + 1));
        n += 1;
    }
    n
}

/// Appends that many backslashes.
fn push_backslashes(to: &mut Vec<char>, n: usize)
    ensures
        final(to)@ == old(to)@ + backslashes(n as nat),
{
    let ghost start = to@;
    let mut i: usize = 0;
    assert(to@ =~= start + backslashes(0));
    while i < n
        invariant
            i <= n,
            to@ == start + backslashes(i as nat),
        decreases n - i,
    {
        to.push('\\');
        i += 1;
        assert(to@ =~= start + backslashes(i as nat));
    }
}

/// Writes an argument as it stands between quotes.
fn escape_chars(arg: &[char]) -> (r: Vec<char>)
    ensures
        r@ == escaped(arg@),
{
    let mut r: Vec<char> = Vec::new();
    let mut at: usize = 0;
    assert(arg@.skip(0) =~= arg@);
    assert(r@ + escaped(arg@) =~= escaped(arg@));
    loop
        invariant
            at <= arg@.len(),
            escaped(arg@) == r@ + escaped(arg@.skip(at as int)),
        decreases arg@.len() - at,
    {
        let rest = slice_subrange(arg, at, arg.len());
        assert(rest@ =~= arg@.skip(at as int));
        let ghost before = r@;
        let n: usize = count_backslashes(rest);
        push_backslashes(&mut r, n);
        if n == rest.len() {
            push_backslashes(&mut r, n);
            assert(r@ =~= before + backslashes((2 * n) as nat));
            return r;
        }
        let c = rest[n];
        if c == '"' {
            push_backslashes(&mut r, n);
            r.push('\\');
            assert(r@ =~= before + backslashes((2 * n + 1) as nat));
        }
        r.push(c);
        at = at + n + 1;
        assert(rest@.skip(n + 1) =~= arg@.skip(at as int));
        assert(escaped(arg@) =~= r@ + escaped(arg@.skip(at as int)));
    }
}

/// Quotes an argument for a command line where that is needed.
pub fn quote_arg(arg: String) -> (r: String)
    ensures
        r@ == quoted(arg@),
{
    let all = chars_of(arg.as_str());
    let mut needed = all.len() == 0;
    let mut i: usize = 0;
    while i < all.len()
        invariant
            i <= all@.len(),
            needed <==> all@.len() == 0 || exists|j: int|
                0 <= j < i && (#[trigger] all@[j] == ' ' || all@[j] == '\t' || all@[j] == '"'),
        decreases all@.len() - i,
    {
        if all[i] == ' ' || all[i] == '\t' || all[i] == '"' {
            needed = true;
        }
        i += 1;
    }
    assert(needed == needs_quotes(arg@));
    if !needed {
        return arg;
    }
    let inner = escape_chars(all.as_slice());
    let mut r = String::new();
    r.push('"');
    r.append(string_of(inner.as_slice()).as_str());
    r.push('"');
    assert(r@ =~= quoted(arg@));
    r
}

/// The arguments of `args`, whose first is the program, without the mark.
pub open spec fn unmarked(args: Seq<Seq<char>>) -> Seq<Seq<char>>
    decreases args.len(),
{
    if args.len() <= 1 {
        Seq::empty()
    } else if args.last() == ELEVATED_FLAG@ {
        unmarked(args.drop_last())
    } else {
        unmarked(args.drop_last()).push(args.last())
    }
}

/// The arguments that the elevated copy gets.
pub open spec fn relaunch_args(args: Seq<Seq<char>>) -> Seq<Seq<char>> {
    unmarked(args).push(ELEVATED_FLAG@)
}

/// The command line that the elevated copy gets.
pub open spec fn command_line(args: Seq<Seq<char>>) -> Seq<char> {
    join(unmarked(args).map_values(|arg: Seq<char>| quoted(arg)).push(ELEVATED_FLAG@), " "@)
}

/// The command line for the elevated copy of a program that was started with
/// `args`, the program itself first: the same arguments, and the mark.
pub fn relaunch_parameters(args: &Vec<String>) -> (r: String)
    ensures
        r@ == command_line(texts(args@)),
{
    let mut parts: Vec<String> = Vec::new();
    let ghost all = texts(args@);
    let flag = chars_of(ELEVATED_FLAG);
    let mut i: usize = 1;
    assert(all.len() > 0 ==> texts(parts@) =~= unmarked(all.take(1)).map_values(
        |arg: Seq<char>| quoted(arg),
    ));
    while i < args.len()
        invariant
            1 <= i,
            i <= args@.len() || i == 1,
            all == texts(args@),
            flag@ == ELEVATED_FLAG@,
            i <= args@.len() ==> texts(parts@) == unmarked(all.take(i as int)).map_values(
                |arg: Seq<char>| quoted(arg),
            ),
            args@.len() == 0 ==> parts@.len() == 0,
        decreases args@.len() - i,
    {
        let ghost before = parts@;
        assert(all.take(i + 1).drop_last() =~= all.take(i as int));
        let arg = chars_of(args[i].as_str());
        if !same_chars(arg.as_slice(), flag.as_slice()) {
            let part = quote_arg(args[i].clone());
            parts.push(part);
            assert(texts(parts@) =~= texts(before).push(part@));
            assert(unmarked(all.take(i + 1)).map_values(|arg: Seq<char>| quoted(arg))
                =~= unmarked(all.take(i as int)).map_values(|arg: Seq<char>| quoted(arg)).push(
                quoted(arg@),
            ));
        }
        i += 1;
    }
    let ghost before = parts@;
    assert(texts(before) =~= unmarked(all).map_values(|arg: Seq<char>| quoted(arg))) by {
        if all.len() > 0 {
            assert(all.take(all.len() as int) =~= all);
        }
    }
    parts.push(ELEVATED_FLAG.to_owned());
    assert(texts(parts@) =~= texts(before).push(ELEVATED_FLAG@));
    join_text(&parts, " ")
}

/// Whether a program that was started with `args`, the program itself first, is
/// the elevated copy.
pub open spec fn is_marked(args: Seq<Seq<char>>) -> bool {
    exists|i: int| 1 <= i < args.len() && #[trigger] args[i] == ELEVATED_FLAG@
}

/// Tells whether a program that was started with `args`, the program itself
/// first, is the elevated copy.
pub fn was_relaunched(args: &Vec<String>) -> (r: bool)
    ensures
        r == is_marked(texts(args@)),
{
    let flag = chars_of(ELEVATED_FLAG);
    let mut i: usize = 1;
    while i < args.len()
        invariant
            1 <= i,
            flag@ == ELEVATED_FLAG@,
            forall|j: int| 1 <= j < i && j < args@.len() ==> texts(args@)[j] != ELEVATED_FLAG@,
        decreases args@.len() - i,
    {
        let arg = chars_of(args[i].as_str());
        if same_chars(arg.as_slice(), flag.as_slice()) {
            assert(texts(args@)[i as int] == ELEVATED_FLAG@);
            return true;
        }
        i += 1;
    }
    false
}

} // verus!
