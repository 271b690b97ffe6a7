use asr_policy_manager::elevation::{
    is_elevated, quote_arg, relaunch_elevated, relaunch_outcome, relaunch_parameters,
    token_is_elevated, was_relaunched, RelaunchError,
};

fn args(list: &[&str]) -> Vec<String> {
    list.iter().map(|arg| arg.to_string()).collect()
}

#[test]
fn without_uac_every_process_counts_as_elevated() {
    assert!(is_elevated());
    assert_eq!(relaunch_elevated(), Err(RelaunchError::Unsupported));
    assert_eq!(RelaunchError::Unsupported.message(), "elevation is only supported on Windows");
}

#[test]
fn a_token_has_to_be_readable_and_elevated() {
    assert!(token_is_elevated(1, 1, 1));
    assert!(token_is_elevated(-1, 7, 2));
    assert!(!token_is_elevated(0, 1, 1));
    assert!(!token_is_elevated(1, 0, 1));
    assert!(!token_is_elevated(1, 1, 0));
}

#[test]
fn codes_up_to_32_are_errors() {
    for code in 0..=32 {
        let wanted = if code == 5 { RelaunchError::Declined } else { RelaunchError::Failed(code) };
        assert_eq!(relaunch_outcome(code), Err(wanted));
    }
    assert_eq!(relaunch_outcome(33), Ok(()));
    assert_eq!(relaunch_outcome(usize::MAX), Ok(()));
    assert_eq!(RelaunchError::Declined.message(), "the UAC prompt was declined");
    assert_eq!(RelaunchError::Failed(2).message(), "ShellExecuteW failed with code 2");
}

#[test]
fn arguments_are_quoted_where_needed() {
    assert_eq!(quote_arg("plain".to_owned()), "plain");
    assert_eq!(quote_arg("".to_owned()), "\"\"");
    assert_eq!(quote_arg("two words".to_owned()), "\"two words\"");
    assert_eq!(quote_arg("tab\there".to_owned()), "\"tab\there\"");
    assert_eq!(quote_arg("say \"hi\"".to_owned()), "\"say \\\"hi\\\"\"");
    assert_eq!(quote_arg("back\\slash".to_owned()), "back\\slash");
    assert_eq!(quote_arg("a b\\".to_owned()), "\"a b\\\\\"");
    assert_eq!(quote_arg("a\\\"b".to_owned()), "\"a\\\\\\\"b\"");
    assert_eq!(quote_arg("a b\\c".to_owned()), "\"a b\\c\"");
}

#[test]
fn the_copy_gets_the_arguments_and_the_marker() {
    assert_eq!(relaunch_parameters(&args(&["asr.exe"])), "--elevated");
    assert_eq!(relaunch_parameters(&args(&[])), "--elevated");
    assert_eq!(
        relaunch_parameters(&args(&["asr.exe", "-v", "a b", "--elevated", "x"])),
        "-v \"a b\" x --elevated"
    );
}

#[test]
fn the_copy_knows_that_it_is_one() {
    assert!(!was_relaunched(&args(&[])));
    assert!(!was_relaunched(&args(&["--elevated"])));
    assert!(!was_relaunched(&args(&["asr.exe", "--Elevated"])));
    assert!(was_relaunched(&args(&["asr.exe", "-v", "--elevated"])));
}

#[test]
fn starting_the_copy_again_hands_on_the_same_arguments() {
    let first = relaunch_parameters(&args(&["asr.exe", "-v", "x"]));
    assert_eq!(first, "-v x --elevated");
    assert_eq!(relaunch_parameters(&args(&["asr.exe", "-v", "x", "--elevated"])), first);
}

/// Splits a command line as Windows does.
fn split(line: &str) -> Vec<String> {
    let chars: Vec<char> = line.chars().collect();
    let (mut list, mut current, mut quotes, mut i) = (Vec::new(), None::<String>, false, 0);
    while i < chars.len() {
        if !quotes && (chars[i] == ' ' || chars[i] == '\t') {
            list.extend(current.take());
            i += 1;
            continue;
        }
        let arg = current.get_or_insert_with(String::new);
        let run = chars[i..].iter().take_while(|c| **c == '\\').count();
        i += run;
        if chars.get(i) != Some(&'"') {
            arg.push_str(&"\\".repeat(run));
            if run == 0 {
                arg.push(chars[i]);
                i += 1;
            }
            continue;
        }
        arg.push_str(&"\\".repeat(run / 2));
        i += 1;
        if run % 2 == 1 {
            arg.push('"');
        } else if quotes && chars.get(i) == Some(&'"') {
            arg.push('"');
            i += 1;
        } else {
            quotes = !quotes;
        }
    }
    list.extend(current);
    list
}

#[test]
fn windows_splits_the_line_back_into_the_arguments() {
    let mut texts = vec![String::new()];
    let mut from = 0;
    for _ in 0..6 {
        let to = texts.len();
        for i in from..to {
            for c in ['a', ' ', '\t', '"', '\\'] {
                texts.push(format!("{}{c}", texts[i]));
            }
        }
        from = to;
    }
    for pair in texts.chunks(2) {
        let mut given = vec!["asr.exe".to_owned()];
        given.extend(pair.iter().cloned());
        let mut wanted = pair.to_vec();
        wanted.push("--elevated".to_owned());
        assert_eq!(split(&relaunch_parameters(&given)), wanted);
    }
}
