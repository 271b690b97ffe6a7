use asr_policy_manager::json::{document_elements, parse_json_array, JsonDocument, JsonListError};
use asr_policy_manager::powershell::{
    add_exclusions_script, add_script_text, clean_powershell_error, load_events_script,
    load_exclusions_script, powershell_arguments, powershell_input, powershell_output,
    powershell_result, PowerShellError, POWERSHELL,
};

fn paths(list: &[&str]) -> Vec<String> {
    list.iter().map(|path| path.to_string()).collect()
}

#[test]
fn events_are_read_from_the_operational_log() {
    assert_eq!(
        load_events_script(),
        r#"
$items = @(Get-WinEvent -FilterHashtable @{ LogName = 'Microsoft-Windows-Windows Defender/Operational'; Id = 1121 } -MaxEvents 100 -ErrorAction SilentlyContinue | ForEach-Object {
    [xml] $xml = $_.ToXml()
    $fields = @{}
    foreach ($field in @($xml.Event.EventData.Data)) { $fields[$field.Name] = [string] $field.InnerText }
    [pscustomobject]@{
        time = $_.TimeCreated.ToUniversalTime().ToString('o')
        path = $fields['Path']
        process = $fields['Process Name']
        rule = $fields['ID']
    }
})
$items | ConvertTo-Json -Compress
"#
    );
}

#[test]
fn exclusions_are_read_from_preferences_and_policy() {
    assert_eq!(
        load_exclusions_script(),
        r#"
$policyKey = 'HKLM:\SOFTWARE\Policies\Microsoft\Windows Defender\Windows Defender Exploit Guard\ASR'
$listKey = "$policyKey\ASROnlyExclusions"
$local = try { @((Get-MpPreference).AttackSurfaceReductionOnlyExclusions) } catch { @() }
$policy = try { if (Test-Path -LiteralPath $listKey) { @((Get-Item -LiteralPath $listKey).Property) } else { @() } } catch { @() }
$policyEnabled = try { (Get-ItemProperty -LiteralPath $policyKey -ErrorAction Stop).ExploitGuard_ASR_ASROnlyExclusions -eq 1 } catch { $false }
[pscustomobject]@{ local = $local; policy = $policy; policy_enabled = $policyEnabled } | ConvertTo-Json -Compress
"#
    );
}

#[test]
fn paths_are_added_as_base64_lines() {
    let wanted = |encoded: &str, flag: &str| {
        format!(
            r#"
$text = [Text.Encoding]::UTF8.GetString([Convert]::FromBase64String('{encoded}'))
[string[]] $paths = @($text -split "`n" | ForEach-Object {{ $_.Trim() }} | Where-Object {{ $_ }})
if ({flag}) {{
    $listKey = 'HKLM:\SOFTWARE\Policies\Microsoft\Windows Defender\Windows Defender Exploit Guard\ASR\ASROnlyExclusions'
    if (-not (Test-Path -LiteralPath $listKey)) {{ New-Item -Path $listKey -Force | Out-Null }}
    foreach ($path in $paths) {{
        New-ItemProperty -LiteralPath $listKey -Name $path -Value '0' -PropertyType String -Force | Out-Null
    }}
}}
Add-MpPreference -AttackSurfaceReductionOnlyExclusions $paths
"#
        )
    };
    // "C:\a" is QzpcYQ==, "C:\a\nC:\b" with a line feed is QzpcYQpDOlxi.
    assert_eq!(
        add_exclusions_script(&paths(&["C:\\a"]), false),
        Some(wanted("QzpcYQ==", "$false"))
    );
    assert_eq!(
        add_exclusions_script(&paths(&["C:\\a", "C:\\b"]), true),
        Some(wanted("QzpcYQpDOlxi", "$true"))
    );
    assert_eq!(add_script_text("QUJD", true), wanted("QUJD", "$true"));
    assert_eq!(
        add_exclusions_script(&paths(&["C:\\é"]), false),
        Some(wanted("Qzpcw6k=", "$false"))
    );
}

#[test]
fn every_length_is_padded() {
    for (text, encoded) in [
        ("", ""),
        ("f", "Zg=="),
        ("fo", "Zm8="),
        ("foo", "Zm9v"),
        ("foob", "Zm9vYg=="),
        ("fooba", "Zm9vYmE="),
        ("foobar", "Zm9vYmFy"),
        ("~~~?>", "fn5+Pz4="),
        ("ÿÿ", "w7/Dvw=="),
    ] {
        assert_eq!(
            add_exclusions_script(&paths(&[text]), true),
            Some(add_script_text(encoded, true))
        );
    }
}

#[test]
fn adding_nothing_needs_no_script() {
    assert_eq!(add_exclusions_script(&Vec::new(), true), None);
    assert_eq!(add_exclusions_script(&Vec::new(), false), None);
}

#[test]
fn different_paths_give_different_scripts() {
    let scripts: Vec<Option<String>> = [&["a", "b"][..], &["a"], &["b", "a"], &["ab"], &["a", "", "b"]]
        .iter()
        .map(|list| add_exclusions_script(&paths(list), false))
        .collect();
    for i in 0..scripts.len() {
        for j in 0..i {
            assert_ne!(scripts[i], scripts[j]);
        }
    }
}

#[test]
fn scripts_are_sent_inside_a_try_block() {
    assert_eq!(
        powershell_input("Get-Date"),
        "\n$ErrorActionPreference = 'Stop'\n$ProgressPreference = 'SilentlyContinue'\ntry {\nGet-Date\n} catch {\n    [Console]::Error.WriteLine($_.Exception.Message)\n    exit 1\n}\n\n\n"
    );
}

#[test]
fn plain_errors_are_only_trimmed() {
    assert_eq!(clean_powershell_error("  Access denied.\r\n"), "Access denied.");
    assert_eq!(clean_powershell_error(""), "");
    assert_eq!(clean_powershell_error("x #< CLIXML"), "x #< CLIXML");
}

#[test]
fn clixml_errors_are_unwrapped() {
    let text = "#< CLIXML\r\n<Objs><S S=\"Error\">Cannot find &lt;x&gt; &amp;amp; &quot;y&quot; &apos;z&apos;_x000D__x000A_</S><S S=\"Warning\">w</S><S S=\"Error\">At line 1_x000A_</S></Objs>";
    assert_eq!(
        clean_powershell_error(text),
        "Cannot find <x> &amp; \"y\" 'z'\nAt line 1"
    );
}

#[test]
fn clixml_without_errors_stays_as_it_is() {
    for text in [
        "#< CLIXML",
        "#< CLIXML <S S=\"Error\">never closed",
        "#< CLIXML <S S=\"Error\">_x000A_ </S>",
        "#< CLIXML <S S=\"Warning\">w</S>",
    ] {
        assert_eq!(clean_powershell_error(text), text);
    }
}

#[test]
fn output_is_trimmed_text() {
    match powershell_output(true, b" [1, \"\xc3\xa9\"] \r\n".to_vec(), b"ignored".to_vec()) {
        Ok(text) => assert_eq!(text, "[1, \"é\"]"),
        Err(error) => panic!("{error:?}"),
    }
}

#[test]
fn failures_carry_the_cleaned_message() {
    match powershell_output(false, b"ignored".to_vec(), b" bad \xff byte\n".to_vec()) {
        Err(PowerShellError::Failed(message)) => {
            assert_eq!(message, "Windows PowerShell failed: bad \u{fffd} byte");
        }
        other => panic!("{other:?}"),
    }
    match powershell_result(false, Vec::new(), " denied ") {
        Err(PowerShellError::Failed(message)) => {
            assert_eq!(message, "Windows PowerShell failed: denied");
        }
        other => panic!("{other:?}"),
    }
}

#[test]
fn output_that_is_not_utf8_is_an_error() {
    match powershell_result(true, b"ok \xff".to_vec(), "") {
        Err(PowerShellError::NotUtf8(error)) => assert_eq!(error.utf8_error().valid_up_to(), 3),
        other => panic!("{other:?}"),
    }
}

fn list(json: &str) -> Vec<String> {
    match parse_json_array(json) {
        Ok(elements) => elements,
        Err(error) => panic!("{error:?}"),
    }
}

#[test]
fn json_lists_give_their_elements() {
    assert_eq!(list("[ {\"time\" : \"t\"}, \"x\", null ]"), ["{\"time\":\"t\"}", "\"x\"", "null"]);
    assert!(list("[]").is_empty());
}

#[test]
fn a_lone_json_value_is_a_list_of_one() {
    assert_eq!(list("{\"time\" : \"t\", \"path\" : null}"), ["{\"path\":null,\"time\":\"t\"}"]);
    assert_eq!(list(" true "), ["true"]);
    assert!(list(" null ").is_empty());
}

#[test]
fn text_that_is_not_json_is_an_error() {
    for text in ["", "[", "{]", "[1] 2", "Get-WinEvent"] {
        match parse_json_array(text) {
            Err(JsonListError::NotJson(_)) => {}
            other => panic!("{other:?}"),
        }
    }
}

#[test]
fn documents_give_their_elements() {
    assert!(document_elements(JsonDocument::Null).is_empty());
    assert_eq!(document_elements(JsonDocument::Array(paths(&["1", "2"]))), ["1", "2"]);
    assert_eq!(document_elements(JsonDocument::Other("{}".to_owned())), ["{}"]);
}

#[test]
fn quotes_in_paths_do_not_end_the_literal() {
    let script = add_exclusions_script(&paths(&["C:\\it's 'here'\\x"]), false).unwrap();
    let plain = add_exclusions_script(&paths(&["C:\\x"]), false).unwrap();
    let quotes = |text: &str| text.chars().filter(|c| *c == '\'').count();
    assert_eq!(quotes(&script), quotes(&plain));
    assert!(!script.contains("it's"));
}

#[test]
fn the_command_line_is_plain() {
    assert_eq!(POWERSHELL, "powershell.exe");
    assert_eq!(powershell_arguments(), ["-NoProfile", "-NonInteractive", "-Command", "-"]);
}
