//! What holds of the scripts and of cleaned error output.

use vstd::prelude::*;
use vstd::utf8::{encode_utf8, encode_utf8_decode_utf8};

use crate::path_laws::lemma_trim_twice;
use crate::powershell::{
    add_script, base64_digit, base64_len, base64_text, cleaned, encoded_paths, error_texts,
    path_lines, plain_arguments, unescaped, ADD_HEAD, ADD_MIDDLE, ADD_TAIL, CLIXML_MARK,
    ERROR_CLOSE, ERROR_OPEN, WRAP_HEAD, WRAP_TAIL,
};
use crate::text::{find, replace, starts_with, trim, CharClass};
use crate::text_laws::{law_first_place, law_joining, law_replacing, stands_at};

verus! {

/// Cleaning loses no error: the message is only blank where the output is.
pub proof fn law_cleaning_keeps_a_message(stderr: Seq<char>)
    ensures
        cleaned(stderr).len() == 0 <==> trim(stderr, CharClass::WhiteSpace).len() == 0,
{
    let all = trim(stderr, CharClass::WhiteSpace);
    if all.len() == 0 {
        reveal_strlit("#< CLIXML");
        assert(!starts_with(all, CLIXML_MARK@));
    }
}

/// Output that is no CLIXML is passed on, without outer white space.
pub proof fn law_plain_errors_pass(stderr: Seq<char>)
    requires
        !starts_with(trim(stderr, CharClass::WhiteSpace), CLIXML_MARK@),
    ensures
        cleaned(stderr) == trim(stderr, CharClass::WhiteSpace),
{
}

/// A cleaned message has no white space at either end.
pub proof fn law_cleaned_is_trimmed(stderr: Seq<char>)
    ensures
        trim(cleaned(stderr), CharClass::WhiteSpace) == cleaned(stderr),
{
    lemma_trim_twice(stderr, CharClass::WhiteSpace);
    lemma_trim_twice(error_texts(trim(stderr, CharClass::WhiteSpace)), CharClass::WhiteSpace);
}

/// PowerShell is started with neither an encoded command nor an execution policy,
/// and its last argument makes it read standard input.
pub proof fn law_command_line_is_plain()
    ensures
        forall|i: int|
            0 <= i < plain_arguments().len() ==> #[trigger] plain_arguments()[i]
                != "-EncodedCommand"@ && plain_arguments()[i] != "-ExecutionPolicy"@,
        plain_arguments().last() == "-"@,
        plain_arguments()[plain_arguments().len() - 2] == "-Command"@,
{
    reveal_strlit("-EncodedCommand");
    reveal_strlit("-ExecutionPolicy");
    reveal_strlit("-NoProfile");
    reveal_strlit("-NonInteractive");
    reveal_strlit("-Command");
    reveal_strlit("-");
    let args = plain_arguments();
    assert(args[0].len() == 10 && args[1].len() == 15 && args[2].len() == 8 && args[3].len() == 1);
    assert("-EncodedCommand"@[1] == 'E' && args[1][1] == 'N');
    assert("-ExecutionPolicy"@.len() == 16);
}

/// What PowerShell reads ends with a blank line, which completes the block.
pub proof fn law_input_ends_with_a_blank_line(script: Seq<char>)
    ensures
        ({
            let input = WRAP_HEAD@ + script + WRAP_TAIL@ + "\n\n"@;
            &&& input.len() >= 3
            &&& input.last() == '\n'
            &&& input[input.len() - 2] == '\n'
            &&& input[input.len() - 3] == '\n'
        }),
{
    reveal_strlit("\n\n");
    reveal_strlit(r#"
} catch {
    [Console]::Error.WriteLine($_.Exception.Message)
    exit 1
}
"#);
}

/// Whether `c` may occur in Base64 text.
pub open spec fn is_base64_char(c: char) -> bool {
    ||| 'A' <= c <= 'Z'
    ||| 'a' <= c <= 'z'
    ||| '0' <= c <= '9'
    ||| c == '+'
    ||| c == '/'
    ||| c == '='
}

/// Base64 text is made of the characters of its alphabet and the padding sign,
/// four for every three bytes begun.
pub proof fn law_base64_is_plain(bytes: Seq<u8>)
    ensures
        base64_text(bytes).len() == base64_len(bytes.len()),
        forall|i: int|
            0 <= i < base64_text(bytes).len() ==> is_base64_char(#[trigger] base64_text(bytes)[i]),
    decreases bytes.len(),
{
    if bytes.len() >= 3 {
        let rest = bytes.skip(3);
        law_base64_is_plain(rest);
        let text = base64_text(bytes);
        assert forall|i: int| 0 <= i < text.len() implies is_base64_char(#[trigger] text[i]) by {
            if i >= 4 {
                assert(text[i] == base64_text(rest)[i - 4]);
            }
        }
    }
}

proof fn lemma_digit_tells(m: int, n: int)
    requires
        0 <= m < 64,
        0 <= n < 64,
        base64_digit(m) == base64_digit(n),
    ensures
        m == n,
        base64_digit(m) != '=',
{
}

/// The first bytes of two texts that begin alike.
proof fn lemma_first_bytes(a: Seq<u8>, b: Seq<u8>)
    requires
        a.len() > 0,
        b.len() > 0,
        base64_text(a).take(4) == base64_text(b).take(4),
    ensures
        a.len() >= 3 <==> b.len() >= 3,
        a.len() < 3 ==> a == b,
        a.len() >= 3 ==> a.take(3) == b.take(3),
{
    let s = base64_text(a);
    let t = base64_text(b);
    assert(forall|i: int| 0 <= i < 4 ==> s[i] == s.take(4)[i] && t[i] == t.take(4)[i]);
    assert(s[0] == s.take(4)[0] && s[1] == s.take(4)[1] && s[2] == s.take(4)[2] && s[3]
        == s.take(4)[3]);
    assert(t[0] == t.take(4)[0] && t[1] == t.take(4)[1] && t[2] == t.take(4)[2] && t[3]
        == t.take(4)[3]);
    let a0 = a[0] as int;
    let b0 = b[0] as int;
    let a1: int = if a.len() > 1 {
        a[1] as int
    } else {
        0
    };
    let b1: int = if b.len() > 1 {
        b[1] as int
    } else {
        0
    };
    let a2: int = if a.len() > 2 {
        a[2] as int
    } else {
        0
    };
    let b2: int = if b.len() > 2 {
        b[2] as int
    } else {
        0
    };
    lemma_digit_tells(a2 % 64, a2 % 64);
    lemma_digit_tells(b2 % 64, b2 % 64);
    lemma_digit_tells(a1 % 16 * 4 + a2 / 64, a1 % 16 * 4 + a2 / 64);
    lemma_digit_tells(b1 % 16 * 4 + b2 / 64, b1 % 16 * 4 + b2 / 64);
    assert(a.len() >= 3 <==> s[3] != '=');
    assert(b.len() >= 3 <==> t[3] != '=');
    assert(a.len() >= 2 <==> s[2] != '=');
    assert(b.len() >= 2 <==> t[2] != '=');
    lemma_digit_tells(a0 / 4, b0 / 4);
    lemma_digit_tells(a0 % 4 * 16 + a1 / 16, b0 % 4 * 16 + b1 / 16);
    if a.len() >= 2 {
        lemma_digit_tells(a1 % 16 * 4 + a2 / 64, b1 % 16 * 4 + b2 / 64);
    }
    if a.len() >= 3 {
        lemma_digit_tells(a2 % 64, b2 % 64);
        assert(a.take(3) =~= b.take(3));
    } else {
        assert(a =~= b);
    }
}

/// Base64 text tells its bytes.
pub proof fn law_base64_tells_the_bytes(a: Seq<u8>, b: Seq<u8>)
    requires
        base64_text(a) == base64_text(b),
    ensures
        a == b,
    decreases a.len(),
{
    law_base64_is_plain(a);
    law_base64_is_plain(b);
    if a.len() == 0 || b.len() == 0 {
        assert(a =~= b);
    } else {
        lemma_first_bytes(a, b);
        if a.len() >= 3 {
            let text = base64_text(a);
            assert(base64_text(a.skip(3)) =~= text.skip(4));
            assert(base64_text(b.skip(3)) =~= text.skip(4));
            law_base64_tells_the_bytes(a.skip(3), b.skip(3));
            assert(a =~= a.take(3) + a.skip(3));
            assert(b =~= b.take(3) + b.skip(3));
        }
    }
}

/// Where the encoded text stands in the add script.
proof fn lemma_encoded_place(encoded: Seq<char>, write_policy: bool)
    ensures
        ADD_HEAD@.len() > 0,
        add_script(encoded, write_policy)[ADD_HEAD@.len() - 1] == '\'',
        add_script(encoded, write_policy).subrange(
            ADD_HEAD@.len() as int,
            (ADD_HEAD@.len() + encoded.len()) as int,
        ) == encoded,
        add_script(encoded, write_policy)[(ADD_HEAD@.len() + encoded.len()) as int] == '\'',
{
    let script = add_script(encoded, write_policy);
    let start: int = ADD_HEAD@.len() as int;
    let end: int = start + encoded.len();
    reveal_strlit(r#"
$text = [Text.Encoding]::UTF8.GetString([Convert]::FromBase64String('"#);
    reveal_strlit(r#"'))
[string[]] $paths = @($text -split "`n" | ForEach-Object { $_.Trim() } | Where-Object { $_ })
if ("#);
    assert(script[start - 1] == ADD_HEAD@[start - 1]);
    assert(script[end] == ADD_MIDDLE@[0]);
    assert(script.subrange(start, end) =~= encoded);
}

/// The quoted literal of the add script ends where the encoded paths end: they
/// hold no quote, so nothing in a path can end it earlier.
pub proof fn law_encoded_paths_stay_quoted(paths: Seq<Seq<char>>, write_policy: bool)
    ensures
        ({
            let encoded = encoded_paths(paths);
            let script = add_script(encoded, write_policy);
            let start = ADD_HEAD@.len() as int;
            let end = start + encoded.len();
            &&& start > 0
            &&& script[start - 1] == '\''
            &&& script.subrange(start, end) == encoded
            &&& script[end] == '\''
            &&& forall|i: int| start <= i < end ==> #[trigger] script[i] != '\''
        }),
{
    let encoded = encoded_paths(paths);
    let script = add_script(encoded, write_policy);
    let start: int = ADD_HEAD@.len() as int;
    let end: int = start + encoded.len();
    lemma_encoded_place(encoded, write_policy);
    law_base64_is_plain(encode_utf8(path_lines(paths)));
    assert forall|i: int| start <= i < end implies #[trigger] script[i] != '\'' by {
        assert(script.subrange(start, end)[i - start] == encoded[i - start]);
    }
}

/// Whether `path` is one line.
pub open spec fn is_one_line(path: Seq<char>) -> bool {
    !path.contains('\n')
}

/// One path on each line: the lines tell the paths.
pub proof fn law_lines_tell_the_paths(a: Seq<Seq<char>>, b: Seq<Seq<char>>)
    requires
        a.len() > 0,
        b.len() > 0,
        forall|i: int| 0 <= i < a.len() ==> is_one_line(#[trigger] a[i]),
        forall|i: int| 0 <= i < b.len() ==> is_one_line(#[trigger] b[i]),
        path_lines(a) == path_lines(b),
    ensures
        a == b,
    decreases a.len(),
{
    lemma_first_line(a);
    lemma_first_line(b);
    let lines = path_lines(a);
    assert(a[0].len() == b[0].len()) by {
        if a[0].len() < b[0].len() {
            assert(lines[a[0].len() as int] == b[0][a[0].len() as int]);
        } else if b[0].len() < a[0].len() {
            assert(lines[b[0].len() as int] == a[0][b[0].len() as int]);
        }
    }
    assert(a[0] =~= b[0]) by {
        assert(a[0] =~= lines.take(a[0].len() as int));
        assert(b[0] =~= lines.take(b[0].len() as int));
    }
    if a.len() > 1 && b.len() > 1 {
        let c = a.drop_first();
        let d = b.drop_first();
        assert(path_lines(c) =~= lines.skip(a[0].len() as int + 1));
        assert(path_lines(d) =~= lines.skip(b[0].len() as int + 1));
        assert(forall|i: int| 0 <= i < c.len() ==> #[trigger] c[i] == a[i + 1]);
        assert(forall|i: int| 0 <= i < d.len() ==> #[trigger] d[i] == b[i + 1]);
        law_lines_tell_the_paths(c, d);
        assert(a =~= seq![a[0]] + c);
        assert(b =~= seq![b[0]] + d);
    } else {
        assert(a.len() == 1 && b.len() == 1);
        assert(a =~= b);
    }
}

/// The first path and what follows it.
proof fn lemma_first_line(a: Seq<Seq<char>>)
    requires
        a.len() > 0,
        forall|i: int| 0 <= i < a.len() ==> is_one_line(#[trigger] a[i]),
    ensures
        path_lines(a).len() >= a[0].len(),
        path_lines(a).take(a[0].len() as int) == a[0],
        a.len() == 1 ==> path_lines(a).len() == a[0].len(),
        a.len() > 1 ==> path_lines(a) == a[0] + seq!['\n'] + path_lines(a.drop_first()),
        forall|i: int| 0 <= i < a[0].len() ==> #[trigger] a[0][i] != '\n',
{
    assert(path_lines(a).take(a[0].len() as int) =~= a[0]);
    assert(is_one_line(a[0]));
    assert forall|i: int| 0 <= i < a[0].len() implies #[trigger] a[0][i] != '\n' by {
        if a[0][i] == '\n' {
            assert(a[0].contains('\n'));
        }
    }
}

/// The add script tells the paths and the policy flag: two scripts are only the
/// same when they add the same paths in the same way.
pub proof fn law_add_script_tells_the_paths(
    a: Seq<Seq<char>>,
    policy_a: bool,
    b: Seq<Seq<char>>,
    policy_b: bool,
)
    requires
        a.len() > 0,
        b.len() > 0,
        forall|i: int| 0 <= i < a.len() ==> is_one_line(#[trigger] a[i]),
        forall|i: int| 0 <= i < b.len() ==> is_one_line(#[trigger] b[i]),
        add_script(encoded_paths(a), policy_a) == add_script(encoded_paths(b), policy_b),
    ensures
        a == b,
        policy_a == policy_b,
{
    law_encoded_paths_stay_quoted(a, policy_a);
    law_encoded_paths_stay_quoted(b, policy_b);
    let script = add_script(encoded_paths(a), policy_a);
    let start: int = ADD_HEAD@.len() as int;
    let end_a: int = start + encoded_paths(a).len();
    let end_b: int = start + encoded_paths(b).len();
    assert(end_a == end_b) by {
        if end_a < end_b {
            assert(script[end_a] != '\'');
        } else if end_b < end_a {
            assert(script[end_b] != '\'');
        }
    }
    assert(encoded_paths(a) == encoded_paths(b));
    let flag: int = end_a + ADD_MIDDLE@.len();
    reveal_strlit("$true");
    reveal_strlit("$false");
    assert(script[flag + 1] == if policy_a { 't' } else { 'f' });
    assert(add_script(encoded_paths(b), policy_b)[flag + 1] == if policy_b { 't' } else { 'f' });
    law_base64_tells_the_bytes(encode_utf8(path_lines(a)), encode_utf8(path_lines(b)));
    encode_utf8_decode_utf8(path_lines(a));
    encode_utf8_decode_utf8(path_lines(b));
    law_lines_tell_the_paths(a, b);
}

/// The number below 64 that a Base64 digit stands for.
pub open spec fn base64_value(c: char) -> int {
    let n = c as int;
    if 65 <= n <= 90 {
        n - 65
    } else if 97 <= n <= 122 {
        n - 71
    } else if 48 <= n <= 57 {
        n + 4
    } else if c == '+' {
        62
    } else {
        63
    }
}

/// Every four characters of Base64 text hold the bits of three bytes, the first bit
/// first. At the end, one byte is followed by two padding signs and two bytes by
/// one.
pub proof fn law_base64_holds_the_bits(bytes: Seq<u8>, g: int)
    requires
        0 <= g,
        3 * g < bytes.len(),
    ensures
        ({
            let text = base64_text(bytes);
            let left = bytes.len() - 3 * g;
            let a = base64_value(text[4 * g]);
            let b = base64_value(text[4 * g + 1]);
            let c = base64_value(text[4 * g + 2]);
            let d = base64_value(text[4 * g + 3]);
            &&& left >= 3 ==> {
                &&& a * 262144 + b * 4096 + c * 64 + d == bytes[3 * g] * 65536 + bytes[3 * g + 1]
                    * 256 + bytes[3 * g + 2]
                &&& text[4 * g + 2] != '=' && text[4 * g + 3] != '='
            }
            &&& left == 2 ==> {
                &&& a * 4096 + b * 64 + c == bytes[3 * g] * 1024 + bytes[3 * g + 1] * 4
                &&& text[4 * g + 2] != '=' && text[4 * g + 3] == '='
            }
            &&& left == 1 ==> {
                &&& a * 64 + b == bytes[3 * g] * 16
                &&& text[4 * g + 2] == '=' && text[4 * g + 3] == '='
            }
        }),
    decreases g,
{
    if g > 0 {
        let rest = bytes.skip(3);
        law_base64_holds_the_bits(rest, g - 1);
        law_base64_is_plain(rest);
        let text = base64_text(bytes);
        let more = base64_text(rest);
        assert(text[4 * g] == more[4 * (g - 1)]);
        assert(text[4 * g + 1] == more[4 * (g - 1) + 1]);
        assert(text[4 * g + 2] == more[4 * (g - 1) + 2]);
        assert(text[4 * g + 3] == more[4 * (g - 1) + 3]);
        assert(rest[3 * (g - 1)] == bytes[3 * g]);
    } else {
        let a = bytes[0] as int;
        let b: int = if bytes.len() > 1 {
            bytes[1] as int
        } else {
            0
        };
        let c: int = if bytes.len() > 2 {
            bytes[2] as int
        } else {
            0
        };
        lemma_value_of_digit(a / 4);
        lemma_value_of_digit(a % 4 * 16 + b / 16);
        lemma_value_of_digit(b % 16 * 4 + c / 64);
        lemma_value_of_digit(c % 64);
    }
}

proof fn lemma_value_of_digit(n: int)
    requires
        0 <= n < 64,
    ensures
        base64_value(base64_digit(n)) == n,
        base64_digit(n) != '=',
{
}

/// One path is its own line, and lists one after the other have a line feed between
/// them.
pub proof fn law_one_path_on_each_line(
    path: Seq<char>,
    a: Seq<Seq<char>>,
    b: Seq<Seq<char>>,
)
    ensures
        path_lines(seq![path]) == path,
        a.len() > 0 && b.len() > 0 ==> path_lines(a + b) == path_lines(a) + seq!['\n']
            + path_lines(b),
{
    law_joining(path, a, b, seq!['\n']);
}

/// What the add script carries is the Base64 text of the lines in UTF-8, and
/// around it stands the same text for all paths; only the word between the last two
/// parts goes by the policy flag.
pub proof fn law_add_script_carries_the_paths(
    paths: Seq<Seq<char>>,
    encoded: Seq<char>,
    write_policy: bool,
)
    ensures
        encoded_paths(paths) == base64_text(encode_utf8(path_lines(paths))),
        ({
            let script = add_script(encoded, write_policy);
            let begin = ADD_HEAD@.len() as int;
            let end = begin + encoded.len();
            let flag = if write_policy {
                "$true"@
            } else {
                "$false"@
            };
            &&& script.take(begin) == ADD_HEAD@
            &&& script.subrange(begin, end) == encoded
            &&& script.skip(end) == ADD_MIDDLE@ + flag + ADD_TAIL@
        }),
{
    let script = add_script(encoded, write_policy);
    let begin: int = ADD_HEAD@.len() as int;
    let end: int = begin + encoded.len();
    let flag = if write_policy {
        "$true"@
    } else {
        "$false"@
    };
    assert(script.take(begin) =~= ADD_HEAD@);
    assert(script.subrange(begin, end) =~= encoded);
    assert(script.skip(end) =~= ADD_MIDDLE@ + flag + ADD_TAIL@);
}

/// Where no error text begins, or the one that begins does not end, nothing is
/// found; otherwise the first is followed by those after it.
pub proof fn law_error_texts_in_order(s: Seq<char>)
    ensures
        ({
            let begin = find(s, r#"<S S="Error">"#@);
            &&& begin is None ==> error_texts(s).len() == 0
            &&& begin is Some ==> {
                let body = s.skip(begin->0 as int + 13);
                let end = find(body, "</S>"@);
                &&& end is None ==> error_texts(s).len() == 0
                &&& end is Some ==> error_texts(s) == unescaped(body.take(end->0 as int))
                    + error_texts(body.skip(end->0 as int + 4))
            }
        }),
{
    reveal_strlit(r#"<S S="Error">"#);
    reveal_strlit("</S>");
    assert(ERROR_OPEN@.len() == 13);
    assert(ERROR_CLOSE@.len() == 4);
}

/// A message that is no CLIXML is the output without outer white space; of CLIXML it
/// is what its error texts say, without outer white space, unless they say nothing.
pub proof fn law_message_of_the_output(stderr: Seq<char>)
    ensures
        ({
            let all = trim(stderr, CharClass::WhiteSpace);
            let said = trim(error_texts(all), CharClass::WhiteSpace);
            &&& !starts_with(all, "#< CLIXML"@) ==> cleaned(stderr) == all
            &&& starts_with(all, "#< CLIXML"@) && said.len() == 0 ==> cleaned(stderr) == all
            &&& starts_with(all, "#< CLIXML"@) && said.len() > 0 ==> cleaned(stderr) == said
        }),
{
}

proof fn lemma_pattern_is_not_there(s: Seq<char>, pattern: Seq<char>)
    requires
        pattern.len() > 0,
        !s.contains(pattern[0]),
    ensures
        find(s, pattern) is None,
{
    law_first_place(s, pattern);
    if find(s, pattern) is Some {
        let i: int = find(s, pattern)->0 as int;
        assert(s.subrange(i, i + pattern.len())[0] == s[i]);
        assert(s.contains(s[i]));
    }
}

/// Text without escapes stays as it is.
pub proof fn law_text_without_escapes_is_kept(s: Seq<char>)
    requires
        !s.contains('_'),
        !s.contains('&'),
    ensures
        unescaped(s) == s,
{
    lemma_escapes();
    lemma_replace_nothing(s, "_x000D__x000A_"@, "\n"@);
    lemma_replace_nothing(s, "_x000A_"@, "\n"@);
    lemma_replace_nothing(s, "&lt;"@, "<"@);
    lemma_replace_nothing(s, "&gt;"@, ">"@);
    lemma_replace_nothing(s, "&quot;"@, "\""@);
    lemma_replace_nothing(s, "&apos;"@, "'"@);
    lemma_replace_nothing(s, "&amp;"@, "&"@);
}

proof fn lemma_escapes()
    ensures
        "_x000D__x000A_"@.len() == 14,
        "_x000D__x000A_"@[0] == '_',
        "_x000A_"@.len() == 7,
        "_x000A_"@[0] == '_',
        "&lt;"@ == seq!['&', 'l', 't', ';'],
        "&gt;"@ == seq!['&', 'g', 't', ';'],
        "&quot;"@ == seq!['&', 'q', 'u', 'o', 't', ';'],
        "&apos;"@ == seq!['&', 'a', 'p', 'o', 's', ';'],
        "&amp;"@ == seq!['&', 'a', 'm', 'p', ';'],
        "<"@ == seq!['<'],
        ">"@ == seq!['>'],
        "\""@ == seq!['"'],
        "'"@ == seq!['\''],
        "&"@ == seq!['&'],
{
    reveal_strlit("_x000D__x000A_");
    reveal_strlit("_x000A_");
    reveal_strlit("&lt;");
    reveal_strlit("&gt;");
    reveal_strlit("&quot;");
    reveal_strlit("&apos;");
    reveal_strlit("&amp;");
    reveal_strlit("<");
    reveal_strlit(">");
    reveal_strlit("\"");
    reveal_strlit("'");
    reveal_strlit("&");
    assert("&lt;"@ =~= seq!['&', 'l', 't', ';']);
    assert("&gt;"@ =~= seq!['&', 'g', 't', ';']);
    assert("&quot;"@ =~= seq!['&', 'q', 'u', 'o', 't', ';']);
    assert("&apos;"@ =~= seq!['&', 'a', 'p', 'o', 's', ';']);
    assert("&amp;"@ =~= seq!['&', 'a', 'm', 'p', ';']);
    assert("<"@ =~= seq!['<']);
    assert(">"@ =~= seq!['>']);
    assert("\""@ =~= seq!['"']);
    assert("'"@ =~= seq!['\'']);
    assert("&"@ =~= seq!['&']);
}

proof fn lemma_replace_nothing(s: Seq<char>, pattern: Seq<char>, with: Seq<char>)
    requires
        pattern.len() > 0,
        !s.contains(pattern[0]),
    ensures
        replace(s, pattern, with) == s,
{
    lemma_pattern_is_not_there(s, pattern);
    law_replacing(s, pattern, with);
}

/// In a text with one ampersand, a pattern that begins with one stands there or
/// nowhere.
proof fn lemma_one_ampersand(
    a: Seq<char>,
    tail: Seq<char>,
    b: Seq<char>,
    pattern: Seq<char>,
    with: Seq<char>,
)
    requires
        !a.contains('&'),
        !tail.contains('&'),
        !b.contains('&'),
        pattern.len() >= 3,
        pattern[0] == '&',
    ensures
        pattern == seq!['&'] + tail ==> replace(a + (seq!['&'] + tail) + b, pattern, with) == a
            + with + b,
        tail.len() >= 2 && (pattern[1] != tail[0] || pattern[2] != tail[1]) ==> replace(
            a + (seq!['&'] + tail) + b,
            pattern,
            with,
        ) == a + (seq!['&'] + tail) + b,
{
    let token = seq!['&'] + tail;
    let s = a + token + b;
    let k: int = a.len() as int;
    law_first_place(s, pattern);
    law_replacing(s, pattern, with);
    assert forall|j: int| #[trigger] stands_at(s, pattern, j) implies j == k by {
        assert(s.subrange(j, j + pattern.len())[0] == s[j]);
        if j < k {
            assert(a.contains(a[j]));
        } else if k < j < k + token.len() {
            assert(tail.contains(tail[j - k - 1]));
        } else if j >= k + token.len() {
            assert(b.contains(b[j - k - token.len()]));
        }
    }
    if pattern == token {
        assert(s.subrange(k, k + pattern.len()) =~= pattern);
        assert(stands_at(s, pattern, k));
        assert(find(s, pattern) == Some(k as nat));
        assert(s.take(k) =~= a);
        assert(s.skip(k + pattern.len()) =~= b);
        lemma_replace_nothing(b, pattern, with);
    }
    if tail.len() >= 2 && (pattern[1] != tail[0] || pattern[2] != tail[1]) {
        assert(!stands_at(s, pattern, k)) by {
            if stands_at(s, pattern, k) {
                let there = s.subrange(k, k + pattern.len());
                assert(there[1] == s[k + 1] && there[2] == s[k + 2]);
                assert(s[k + 1] == tail[0] && s[k + 2] == tail[1]);
            }
        }
    }
}

/// Whether no escape can begin in `s`.
pub open spec fn holds_no_escape(s: Seq<char>) -> bool {
    !s.contains('_') && !s.contains('&')
}

proof fn lemma_no_underscore(a: Seq<char>, b: Seq<char>, c: Seq<char>)
    requires
        !a.contains('_'),
        !b.contains('_'),
        !c.contains('_'),
    ensures
        !(a + b + c).contains('_'),
{
    let s = a + b + c;
    if s.contains('_') {
        let i: int = choose|i: int| 0 <= i < s.len() && s[i] == '_';
        if i < a.len() {
            assert(a.contains(a[i]));
        } else if i < a.len() + b.len() {
            assert(b.contains(b[i - a.len()]));
        } else {
            assert(c.contains(c[i - a.len() - b.len()]));
        }
    }
}

proof fn lemma_no_ampersand(a: Seq<char>, c: char, b: Seq<char>)
    requires
        !a.contains('&'),
        !b.contains('&'),
        c != '&',
    ensures
        !(a + seq![c] + b).contains('&'),
{
    let s = a + seq![c] + b;
    if s.contains('&') {
        let i: int = choose|i: int| 0 <= i < s.len() && s[i] == '&';
        if i < a.len() {
            assert(a.contains(a[i]));
        } else if i > a.len() {
            assert(b.contains(b[i - a.len() - 1]));
        }
    }
}

/// Each of the five entities stands for its character.
#[verifier::rlimit(60)]
pub proof fn law_entities_are_resolved(a: Seq<char>, b: Seq<char>)
    requires
        holds_no_escape(a),
        holds_no_escape(b),
    ensures
        unescaped(a + "&lt;"@ + b) == a + "<"@ + b,
        unescaped(a + "&gt;"@ + b) == a + ">"@ + b,
        unescaped(a + "&quot;"@ + b) == a + "\""@ + b,
        unescaped(a + "&apos;"@ + b) == a + "'"@ + b,
        unescaped(a + "&amp;"@ + b) == a + "&"@ + b,
{
    lemma_escapes();
    lemma_entity(a, seq!['l', 't', ';'], b);
    lemma_entity(a, seq!['g', 't', ';'], b);
    lemma_entity(a, seq!['q', 'u', 'o', 't', ';'], b);
    lemma_entity(a, seq!['a', 'p', 'o', 's', ';'], b);
    lemma_entity(a, seq!['a', 'm', 'p', ';'], b);
    assert(seq!['&'] + seq!['l', 't', ';'] =~= "&lt;"@);
    assert(seq!['&'] + seq!['g', 't', ';'] =~= "&gt;"@);
    assert(seq!['&'] + seq!['q', 'u', 'o', 't', ';'] =~= "&quot;"@);
    assert(seq!['&'] + seq!['a', 'p', 'o', 's', ';'] =~= "&apos;"@);
    assert(seq!['&'] + seq!['a', 'm', 'p', ';'] =~= "&amp;"@);
}

/// What each entity stands for.
spec fn entity(tail: Seq<char>) -> char {
    if tail[0] == 'l' {
        '<'
    } else if tail[0] == 'g' {
        '>'
    } else if tail[0] == 'q' {
        '"'
    } else if tail[1] == 'p' {
        '\''
    } else {
        '&'
    }
}

proof fn lemma_entity(a: Seq<char>, tail: Seq<char>, b: Seq<char>)
    requires
        holds_no_escape(a),
        holds_no_escape(b),
        tail == seq!['l', 't', ';'] || tail == seq!['g', 't', ';'] || tail == seq![
            'q',
            'u',
            'o',
            't',
            ';',
        ] || tail == seq!['a', 'p', 'o', 's', ';'] || tail == seq!['a', 'm', 'p', ';'],
    ensures
        unescaped(a + (seq!['&'] + tail) + b) == a + seq![entity(tail)] + b,
{
    lemma_escapes();
    let s = a + (seq!['&'] + tail) + b;
    let c = entity(tail);
    let t = a + seq![c] + b;
    assert(!tail.contains('&'));
    assert(!(seq!['&'] + tail).contains('_'));
    lemma_no_underscore(a, seq!['&'] + tail, b);
    lemma_replace_nothing(s, "_x000D__x000A_"@, "\n"@);
    lemma_replace_nothing(s, "_x000A_"@, "\n"@);
    lemma_one_ampersand(a, tail, b, "&lt;"@, "<"@);
    lemma_one_ampersand(a, tail, b, "&gt;"@, ">"@);
    lemma_one_ampersand(a, tail, b, "&quot;"@, "\""@);
    lemma_one_ampersand(a, tail, b, "&apos;"@, "'"@);
    lemma_one_ampersand(a, tail, b, "&amp;"@, "&"@);
    assert(seq!['&'] + seq!['l', 't', ';'] =~= "&lt;"@);
    assert(seq!['&'] + seq!['g', 't', ';'] =~= "&gt;"@);
    assert(seq!['&'] + seq!['q', 'u', 'o', 't', ';'] =~= "&quot;"@);
    assert(seq!['&'] + seq!['a', 'p', 'o', 's', ';'] =~= "&apos;"@);
    assert(seq!['&'] + seq!['a', 'm', 'p', ';'] =~= "&amp;"@);
    if c != '&' {
        lemma_no_ampersand(a, c, b);
        lemma_replace_nothing(t, "&gt;"@, ">"@);
        lemma_replace_nothing(t, "&quot;"@, "\""@);
        lemma_replace_nothing(t, "&apos;"@, "'"@);
        lemma_replace_nothing(t, "&amp;"@, "&"@);
    }
}

/// The escapes are resolved one kind after the other, line ends first and the
/// ampersand last, so that an escaped ampersand begins no other escape.
pub proof fn law_escapes_are_resolved_in_order(s: Seq<char>)
    ensures
        ({
            let lines = replace(replace(s, "_x000D__x000A_"@, "\n"@), "_x000A_"@, "\n"@);
            let angles = replace(replace(lines, "&lt;"@, "<"@), "&gt;"@, ">"@);
            let quotes = replace(replace(angles, "&quot;"@, "\""@), "&apos;"@, "'"@);
            unescaped(s) == replace(quotes, "&amp;"@, "&"@)
        }),
{
}

} // verus!
