//! Driving Defender through Windows PowerShell: the scripts, how they are
//! handed over, and what is made of the output.

use base64::engine::general_purpose::STANDARD;
use base64::Engine;
use vstd::prelude::*;
use vstd::slice::slice_subrange;
use vstd::string::StringExecFns;
use vstd::utf8::{decode_utf8, encode_utf8, valid_utf8};

use crate::text::{
    append_chars, chars_of, find, find_chars, join, join_text, lemma_find_holds, replace,
    replace_chars, starts_with, starts_with_chars, string_of, texts, trim, trim_chars, CharClass,
};

verus! {

/// The log that holds the block events.
pub const EVENT_LOG: &'static str = "Microsoft-Windows-Windows Defender/Operational";

/// The event query up to the name of the log.
pub const EVENTS_HEAD: &'static str = r#"
$items = @(Get-WinEvent -FilterHashtable @{ LogName = '"#;

/// The event query after the name of the log.
pub const EVENTS_TAIL: &'static str = r#"'; Id = 1121 } -MaxEvents 100 -ErrorAction SilentlyContinue | ForEach-Object {
    [xml] $xml = $_.ToXml()
    $fields = @{}
    foreach ($field in @($xml.Event.EventData.Data)) { $fields[$field.Name] = [string] $field.InnerText }
    [pscustomobject]@{
        time = $_.TimeCreated.ToUniversalTime().ToString('o')
        path = $fields['Path']
        process = $fields['Process Name']
        rule = $fields['ID']
    }
})
$items | ConvertTo-Json -Compress
"#;

/// The script that reads the exclusions in force.
pub const EXCLUSIONS_SCRIPT: &'static str = r#"
$policyKey = 'HKLM:\SOFTWARE\Policies\Microsoft\Windows Defender\Windows Defender Exploit Guard\ASR'
$listKey = "$policyKey\ASROnlyExclusions"
$local = try { @((Get-MpPreference).AttackSurfaceReductionOnlyExclusions) } catch { @() }
$policy = try { if (Test-Path -LiteralPath $listKey) { @((Get-Item -LiteralPath $listKey).Property) } else { @() } } catch { @() }
$policyEnabled = try { (Get-ItemProperty -LiteralPath $policyKey -ErrorAction Stop).ExploitGuard_ASR_ASROnlyExclusions -eq 1 } catch { $false }
[pscustomobject]@{ local = $local; policy = $policy; policy_enabled = $policyEnabled } | ConvertTo-Json -Compress
"#;

/// The script that reads the latest block events.
pub fn load_events_script() -> (r: String)
    ensures
        r@ == EVENTS_HEAD@ + EVENT_LOG@ + EVENTS_TAIL@,
{
    EVENTS_HEAD.to_owned().concat(EVENT_LOG).concat(EVENTS_TAIL)
}

/// The script that reads the exclusions in force.
pub fn load_exclusions_script() -> (r: String)
    ensures
        r@ == EXCLUSIONS_SCRIPT@,
{
    EXCLUSIONS_SCRIPT.to_owned()
}

/// The add script up to the encoded paths.
pub const ADD_HEAD: &'static str = r#"
$text = [Text.Encoding]::UTF8.GetString([Convert]::FromBase64String('"#;

/// The add script between the encoded paths and the policy flag.
pub const ADD_MIDDLE: &'static str = r#"'))
[string[]] $paths = @($text -split "`n" | ForEach-Object { $_.Trim() } | Where-Object { $_ })
if ("#;

/// The add script after the policy flag.
pub const ADD_TAIL: &'static str = r#") {
    $listKey = 'HKLM:\SOFTWARE\Policies\Microsoft\Windows Defender\Windows Defender Exploit Guard\ASR\ASROnlyExclusions'
    if (-not (Test-Path -LiteralPath $listKey)) { New-Item -Path $listKey -Force | Out-Null }
    foreach ($path in $paths) {
        New-ItemProperty -LiteralPath $listKey -Name $path -Value '0' -PropertyType String -Force | Out-Null
    }
}
Add-MpPreference -AttackSurfaceReductionOnlyExclusions $paths
"#;

/// The Base64 digit for a number below 64, in the standard alphabet.
pub open spec fn base64_digit(n: int) -> char {
    if n < 26 {
        ('A' as int + n) as char
    } else if n < 52 {
        ('a' as int + (n - 26)) as char
    } else if n < 62 {
        ('0' as int + (n - 52)) as char
    } else if n == 62 {
        '+'
    } else {
        '/'
    }
}

/// The Base64 text of `bytes`, in the standard alphabet and with padding: four
/// digits of six bits for every three bytes.
pub open spec fn base64_text(bytes: Seq<u8>) -> Seq<char>
    decreases bytes.len(),
{
    let a = bytes[0] as int;
    let b = bytes[1] as int;
    let c = bytes[2] as int;
    if bytes.len() == 0 {
        Seq::empty()
    } else if bytes.len() == 1 {
        seq![base64_digit(a / 4), base64_digit(a % 4 * 16), '=', '=']
    } else if bytes.len() == 2 {
        seq![
            base64_digit(a / 4),
            base64_digit(a % 4 * 16 + b / 16),
            base64_digit(b % 16 * 4),
            '=',
        ]
    } else {
        seq![
            base64_digit(a / 4),
            base64_digit(a % 4 * 16 + b / 16),
            base64_digit(b % 16 * 4 + c / 64),
            base64_digit(c % 64),
        ] + base64_text(bytes.skip(3))
    }
}

/// How many characters the Base64 text of that many bytes has.
pub open spec fn base64_len(bytes: nat) -> nat {
    ((bytes + 2) / 3 * 4) as nat
}

/// `base64::Engine::encode` of `base64::engine::general_purpose::STANDARD`: the
/// Base64 text of the bytes. The call panics when that text would be longer than
/// `isize::MAX`, which is the most that a `String` holds.
#[verifier::external_body]
fn base64_encode(bytes: &[u8]) -> (r: String)
    requires
        base64_len(bytes@.len()) <= isize::MAX,
    ensures
        r@ == base64_text(bytes@),
{
    STANDARD.encode(bytes)
}

/// The paths as the add script carries them: one on each line.
pub open spec fn path_lines(paths: Seq<Seq<char>>) -> Seq<char> {
    join(paths, seq!['\n'])
}

/// The paths in Base64.
pub open spec fn encoded_paths(paths: Seq<Seq<char>>) -> Seq<char> {
    base64_text(encode_utf8(path_lines(paths)))
}

/// The script that adds the paths behind `encoded`.
pub open spec fn add_script(encoded: Seq<char>, write_policy: bool) -> Seq<char> {
    ADD_HEAD@ + encoded + ADD_MIDDLE@ + (if write_policy {
        "$true"@
    } else {
        "$false"@
    }) + ADD_TAIL@
}

/// The script around paths that are encoded already.
pub fn add_script_text(encoded: &str, write_policy: bool) -> (r: String)
    ensures
        r@ == add_script(encoded@, write_policy),
{
    let flag = if write_policy {
        "$true"
    } else {
        "$false"
    };
    ADD_HEAD.to_owned().concat(encoded).concat(ADD_MIDDLE).concat(flag).concat(ADD_TAIL)
}

/// The script that adds the paths as exclusions, or nothing where there is no
/// path to add.
///
/// When `write_policy` is set, the paths are also written into the Group Policy
/// list, the registry location that the gpedit setting uses. While that policy
/// is enabled, Defender ignores the local preference list, so without this the
/// additions would never show up as effective exclusions.
pub fn add_exclusions_script(paths: &Vec<String>, write_policy: bool) -> (r: Option<String>)
    requires
        base64_len(encode_utf8(path_lines(texts(paths@))).len()) <= isize::MAX,
    ensures
        r is None <==> paths@.len() == 0,
        r matches Some(script) ==> script@ == add_script(
            encoded_paths(texts(paths@)),
            write_policy,
        ),
{
    if paths.len() == 0 {
        return None;
    }
    let lines = join_text(paths, "\n");
    proof {
        reveal_strlit("\n");
        assert("\n"@ =~= seq!['\n']);
    }
    let encoded = base64_encode(lines.as_str().as_bytes());
    Some(add_script_text(encoded.as_str(), write_policy))
}

/// The program that runs the scripts.
pub const POWERSHELL: &'static str = "powershell.exe";

/// The arguments with which PowerShell is started, whatever the script.
pub open spec fn plain_arguments() -> Seq<Seq<char>> {
    seq!["-NoProfile"@, "-NonInteractive"@, "-Command"@, "-"@]
}

/// The arguments with which PowerShell is started: it reads the script from
/// standard input. Defender's suspicious command line heuristic takes encoded
/// commands and a bypassed execution policy for threats, so the command line is
/// plain and the same for every script.
pub fn powershell_arguments() -> (r: Vec<String>)
    ensures
        texts(r@) == plain_arguments(),
{
    let mut r: Vec<String> = Vec::new();
    r.push("-NoProfile".to_owned());
    r.push("-NonInteractive".to_owned());
    r.push("-Command".to_owned());
    r.push("-".to_owned());
    assert(texts(r@) =~= plain_arguments());
    r
}

/// What stands before a script that is handed to PowerShell.
pub const WRAP_HEAD: &'static str = r#"
$ErrorActionPreference = 'Stop'
$ProgressPreference = 'SilentlyContinue'
try {
"#;

/// What stands after a script that is handed to PowerShell.
pub const WRAP_TAIL: &'static str = r#"
} catch {
    [Console]::Error.WriteLine($_.Exception.Message)
    exit 1
}
"#;

/// The whole standard input for a script. Any failure becomes a terminating
/// error whose message is written to standard error as plain text. PowerShell
/// reads standard input like typed input, where a block of several lines only
/// runs once a blank line follows it, so one does.
pub fn powershell_input(script: &str) -> (r: String)
    ensures
        r@ == WRAP_HEAD@ + script@ + WRAP_TAIL@ + "\n\n"@,
{
    WRAP_HEAD.to_owned().concat(script).concat(WRAP_TAIL).concat("\n\n")
}

/// The first words of error output that is serialized as CLIXML.
pub const CLIXML_MARK: &'static str = "#< CLIXML";

/// What begins an error text in CLIXML.
pub const ERROR_OPEN: &'static str = r#"<S S="Error">"#;

/// What ends a text in CLIXML.
pub const ERROR_CLOSE: &'static str = "</S>";

/// A CLIXML text with its escapes resolved.
pub open spec fn unescaped(s: Seq<char>) -> Seq<char> {
    let s = replace(s, "_x000D__x000A_"@, "\n"@);
    let s = replace(s, "_x000A_"@, "\n"@);
    let s = replace(s, "&lt;"@, "<"@);
    let s = replace(s, "&gt;"@, ">"@);
    let s = replace(s, "&quot;"@, "\""@);
    let s = replace(s, "&apos;"@, "'"@);
    replace(s, "&amp;"@, "&"@)
}

/// The error texts of CLIXML output, one after another.
pub open spec fn error_texts(s: Seq<char>) -> Seq<char>
    decreases s.len(),
{
    match find(s, ERROR_OPEN@) {
        None => Seq::empty(),
        Some(i) => {
            let body = s.skip((i + ERROR_OPEN@.len()) as int);
            match find(body, ERROR_CLOSE@) {
                None => Seq::empty(),
                Some(j) => {
                    proof {
                        lemma_find_holds(s, ERROR_OPEN@);
                        lemma_find_holds(body, ERROR_CLOSE@);
                        reveal_strlit("</S>");
                    }
                    unescaped(body.take(j as int)) + error_texts(
                        body.skip((j + ERROR_CLOSE@.len()) as int),
                    )
                },
            }
        },
    }
}

/// Readable error output: without outer white space, and where it is CLIXML,
/// its error texts if they say anything.
pub open spec fn cleaned(stderr: Seq<char>) -> Seq<char> {
    let all = trim(stderr, CharClass::WhiteSpace);
    let inner = trim(error_texts(all), CharClass::WhiteSpace);
    if !starts_with(all, CLIXML_MARK@) || inner.len() == 0 {
        all
    } else {
        inner
    }
}

fn unescape(s: &[char]) -> (r: Vec<char>)
    ensures
        r@ == unescaped(s@),
{
    proof {
        reveal_strlit("_x000D__x000A_");
        reveal_strlit("_x000A_");
        reveal_strlit("&lt;");
        reveal_strlit("&gt;");
        reveal_strlit("&quot;");
        reveal_strlit("&apos;");
        reveal_strlit("&amp;");
    }
    let r = replace_str(s, "_x000D__x000A_", "\n");
    let r = replace_str(r.as_slice(), "_x000A_", "\n");
    let r = replace_str(r.as_slice(), "&lt;", "<");
    let r = replace_str(r.as_slice(), "&gt;", ">");
    let r = replace_str(r.as_slice(), "&quot;", "\"");
    let r = replace_str(r.as_slice(), "&apos;", "'");
    replace_str(r.as_slice(), "&amp;", "&")
}

fn replace_str(s: &[char], pattern: &str, with: &str) -> (r: Vec<char>)
    requires
        pattern@.len() > 0,
    ensures
        r@ == replace(s@, pattern@, with@),
{
    replace_chars(s, chars_of(pattern).as_slice(), chars_of(with).as_slice())
}

fn find_error_texts(s: &[char]) -> (r: Vec<char>)
    ensures
        r@ == error_texts(s@),
{
    let open = chars_of(ERROR_OPEN);
    let close = chars_of(ERROR_CLOSE);
    let mut r: Vec<char> = Vec::new();
    let mut at: usize = 0;
    assert(s@.skip(0) =~= s@);
    assert(r@ + error_texts(s@) =~= error_texts(s@));
    loop
        invariant
            at <= s@.len(),
            open@ == ERROR_OPEN@,
            close@ == ERROR_CLOSE@,
            error_texts(s@) == r@ + error_texts(s@.skip(at as int)),
        decreases s@.len() - at,
    {
        let rest = slice_subrange(s, at, s.len());
        assert(rest@ =~= s@.skip(at as int));
        let begin: usize = match find_chars(rest, open.as_slice()) {
            Some(i) => i,
            None => {
                assert(r@ + Seq::<char>::empty() =~= r@);
                return r;
            },
        };
        proof {
            lemma_find_holds(rest@, open@);
        }
        let body = slice_subrange(rest, begin + open.len(), rest.len());
        assert(body@ =~= rest@.skip(begin + open@.len()));
        let end: usize = match find_chars(body, close.as_slice()) {
            Some(j) => j,
            None => {
                assert(r@ + Seq::<char>::empty() =~= r@);
                return r;
            },
        };
        proof {
            lemma_find_holds(body@, close@);
            reveal_strlit("</S>");
        }
        let inner = slice_subrange(body, 0, end);
        assert(inner@ =~= body@.take(end as int));
        let text = unescape(inner);
        let ghost before = r@;
        append_chars(&mut r, text.as_slice());
        let ghost start = at as int;
        at = at + begin + open.len() + end + close.len();
        proof {
            assert(body@.skip(end + close@.len()) =~= s@.skip(at as int));
            assert(error_texts(s@.skip(start)) == text@ + error_texts(s@.skip(at as int)));
            assert(before + (text@ + error_texts(s@.skip(at as int))) =~= r@ + error_texts(
                s@.skip(at as int),
            ));
        }
    }
}

/// Turns PowerShell's standard error into a readable message, unwrapping CLIXML
/// if it slipped through (for example from a parse error outside the try
/// block).
pub fn clean_powershell_error(stderr: &str) -> (r: String)
    ensures
        r@ == cleaned(stderr@),
{
    let given = chars_of(stderr);
    let all = trim_chars(given.as_slice(), CharClass::WhiteSpace);
    if !starts_with_chars(all, chars_of(CLIXML_MARK).as_slice()) {
        return string_of(all);
    }
    let joined = find_error_texts(all);
    let inner = trim_chars(joined.as_slice(), CharClass::WhiteSpace);
    if inner.len() == 0 {
        string_of(all)
    } else {
        string_of(inner)
    }
}

/// The error of `String::from_utf8`.
#[verifier::external_type_specification]
#[verifier::external_body]
pub struct ExFromUtf8Error(std::string::FromUtf8Error);

/// `String::from_utf8` takes exactly the valid UTF-8 and gives the text that it
/// encodes.
pub assume_specification[ String::from_utf8 ](vec: Vec<u8>) -> (r: Result<
    String,
    std::string::FromUtf8Error,
>)
    ensures
        r is Ok <==> valid_utf8(vec@),
        r matches Ok(text) ==> text@ == decode_utf8(vec@),
;

/// The text that bytes stand for when what is not UTF-8 is replaced.
pub uninterp spec fn lossy_text(bytes: Seq<u8>) -> Seq<char>;

/// `String::from_utf8_lossy`: the text of the bytes, with U+FFFD in place of
/// what is not UTF-8. Of valid UTF-8 it is the text that is encoded.
#[verifier::external_body]
fn from_utf8_lossy(bytes: &[u8]) -> (r: String)
    ensures
        r@ == lossy_text(bytes@),
        valid_utf8(bytes@) ==> r@ == decode_utf8(bytes@),
{
    String::from_utf8_lossy(bytes).into_owned()
}

/// Why a script gave no output.
#[derive(Debug)]
pub enum PowerShellError {
    /// PowerShell ended with a failure, and this says so and why.
    Failed(String),
    /// The output is not UTF-8.
    NotUtf8(std::string::FromUtf8Error),
}

/// What is made of a finished PowerShell process whose standard error is
/// decoded already.
pub fn powershell_result(success: bool, stdout: Vec<u8>, stderr: &str) -> (r: Result<
    String,
    PowerShellError,
>)
    ensures
        r is Ok <==> success && valid_utf8(stdout@),
        r matches Ok(text) ==> text@ == trim(decode_utf8(stdout@), CharClass::WhiteSpace),
        !success ==> (r matches Err(PowerShellError::Failed(message)) && message@
            == "Windows PowerShell failed: "@ + cleaned(stderr@)),
        success && !valid_utf8(stdout@) ==> r matches Err(PowerShellError::NotUtf8(_)),
{
    if !success {
        let message = clean_powershell_error(stderr);
        return Err(
            PowerShellError::Failed(
                "Windows PowerShell failed: ".to_owned().concat(message.as_str()),
            ),
        );
    }
    match String::from_utf8(stdout) {
        Ok(text) => {
            let all = chars_of(text.as_str());
            Ok(string_of(trim_chars(all.as_slice(), CharClass::WhiteSpace)))
        },
        Err(error) => Err(PowerShellError::NotUtf8(error)),
    }
}

/// What is made of a finished PowerShell process.
pub fn powershell_output(success: bool, stdout: Vec<u8>, stderr: Vec<u8>) -> (r: Result<
    String,
    PowerShellError,
>)
    ensures
        r is Ok <==> success && valid_utf8(stdout@),
        r matches Ok(text) ==> text@ == trim(decode_utf8(stdout@), CharClass::WhiteSpace),
        !success ==> (r matches Err(PowerShellError::Failed(message)) && message@
            == "Windows PowerShell failed: "@ + cleaned(lossy_text(stderr@))),
        !success && valid_utf8(stderr@) ==> (r matches Err(PowerShellError::Failed(message))
            && message@ == "Windows PowerShell failed: "@ + cleaned(decode_utf8(stderr@))),
        success && !valid_utf8(stdout@) ==> r matches Err(PowerShellError::NotUtf8(_)),
{
    let message = if success {
        String::new()
    } else {
        from_utf8_lossy(stderr.as_slice())
    };
    powershell_result(success, stdout, message.as_str())
}

} // verus!
