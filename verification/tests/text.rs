use asr_policy_manager::text::{
    append_chars, chars_of, decimal_text, find_chars, join_text, less_chars, lower_chars,
    replace_chars, same_chars, starts_with_chars, string_of, trim_chars, trim_end_chars,
    trim_start_chars, CharClass,
};

/// Every text over `alphabet` of at most `longest` characters.
fn all_texts(alphabet: &[char], longest: usize) -> Vec<String> {
    let mut all = vec![String::new()];
    let mut from = 0;
    for _ in 0..longest {
        let to = all.len();
        for i in from..to {
            for c in alphabet {
                let mut longer = all[i].clone();
                longer.push(*c);
                all.push(longer);
            }
        }
        from = to;
    }
    all
}

#[test]
fn white_space_is_what_char_calls_white_space() {
    for n in 0..=0x10ffff_u32 {
        if let Some(c) = char::from_u32(n) {
            assert_eq!(CharClass::WhiteSpace.contains(c), c.is_whitespace(), "{:x}", n);
        }
    }
}

#[test]
fn other_classes_hold_their_characters() {
    for n in 0..=0x10ffff_u32 {
        if let Some(c) = char::from_u32(n) {
            assert_eq!(CharClass::Quote.contains(c), c == '"');
            assert_eq!(CharClass::Backslash.contains(c), c == '\\');
            assert_eq!(CharClass::Separator.contains(c), c == '\\' || c == '/');
        }
    }
}

#[test]
fn characters_and_texts_convert_back() {
    for text in ["", "C:\\a", "déjà 😀\u{0}"] {
        let chars = chars_of(text);
        assert_eq!(chars, text.chars().collect::<Vec<char>>());
        assert_eq!(string_of(&chars), text);
    }
}

#[test]
fn trimming_agrees_with_str() {
    for text in all_texts(&[' ', '\u{2003}', 'x', '"', '\\'], 5) {
        let chars = chars_of(&text);
        assert_eq!(string_of(trim_chars(&chars, CharClass::WhiteSpace)), text.trim());
        assert_eq!(string_of(trim_chars(&chars, CharClass::Quote)), text.trim_matches('"'));
        assert_eq!(
            string_of(trim_start_chars(&chars, CharClass::Quote)),
            text.trim_start_matches('"')
        );
        assert_eq!(
            string_of(trim_end_chars(&chars, CharClass::Backslash)),
            text.trim_end_matches('\\')
        );
    }
}

#[test]
fn lower_case_agrees_with_str() {
    let text: String = (0..0x3000_u32).filter_map(char::from_u32).collect();
    assert_eq!(string_of(&lower_chars(&chars_of(&text))), text.to_ascii_lowercase());
    assert_eq!(string_of(&lower_chars(&chars_of("ÀBC"))), "Àbc");
}

#[test]
fn comparing_agrees_with_str() {
    let texts = all_texts(&['a', 'b', 'é', '😀'], 3);
    for left in &texts {
        let l = chars_of(left);
        for right in &texts {
            let r = chars_of(right);
            assert_eq!(same_chars(&l, &r), left == right);
            assert_eq!(less_chars(&l, &r), left < right);
            assert_eq!(starts_with_chars(&l, &r), left.starts_with(right.as_str()));
        }
    }
}

#[test]
fn finding_and_replacing_agree_with_str() {
    let patterns = all_texts(&['a', 'b'], 3);
    for text in all_texts(&['a', 'b', 'é'], 6) {
        let chars = chars_of(&text);
        for pattern in &patterns {
            let wanted = chars_of(pattern);
            let found = find_chars(&chars, &wanted);
            let bytes = found.map(|n| chars[..n].iter().collect::<String>().len());
            assert_eq!(bytes, text.find(pattern.as_str()));
            if !pattern.is_empty() {
                let changed = replace_chars(&chars, &wanted, &['<', 'a']);
                assert_eq!(string_of(&changed), text.replace(pattern.as_str(), "<a"));
            }
        }
    }
}

#[test]
fn appending_keeps_both_parts() {
    let mut chars = chars_of("C:");
    append_chars(&mut chars, &['\\', 'x']);
    assert_eq!(string_of(&chars), "C:\\x");
}

#[test]
fn decimals_agree_with_display() {
    for n in [0, 1, 9, 10, 11, 99, 100, 1121, 65535, usize::MAX - 1, usize::MAX] {
        assert_eq!(decimal_text(n), n.to_string());
    }
}

#[test]
fn joining_agrees_with_slices() {
    let lists: [&[&str]; 5] = [&[], &["a"], &["a", "b"], &["", ""], &["x y", "", "z"]];
    for list in lists {
        let owned: Vec<String> = list.iter().map(|part| part.to_string()).collect();
        assert_eq!(join_text(&owned, "\n"), owned.join("\n"));
        assert_eq!(join_text(&owned, ", "), owned.join(", "));
    }
}
