use asr_policy_manager::paths::{
    covered_prefix_len, covering_entry, exclusion_target, matching_exclusion, max_scope,
    normalize_path,
};

#[test]
fn scope_walks_up_but_never_reaches_drive_root() {
    let path = r"C:\Users\me\Tools\grove\grove.exe";
    assert_eq!(max_scope(path), 4);
    assert_eq!(exclusion_target(path, 0), path);
    assert_eq!(exclusion_target(path, 1), r"C:\Users\me\Tools\grove\");
    assert_eq!(exclusion_target(path, 4), r"C:\Users\");
}

#[test]
fn short_paths_cannot_widen() {
    assert_eq!(max_scope(r"C:\Scripts\grove.exe"), 1);
    assert_eq!(exclusion_target(r"C:\Scripts\grove.exe", 1), r"C:\Scripts\");
    assert_eq!(max_scope(r"C:\grove.exe"), 0);
}

#[test]
fn unc_paths_keep_server_and_share() {
    let path = r"\\server\share\apps\tool.exe";
    assert_eq!(max_scope(path), 1);
    assert_eq!(exclusion_target(path, 1), r"\\server\share\apps\");
}

#[test]
fn covering_folder_is_found_and_mapped_back_onto_the_path() {
    let path = r"C:\Users\JURIKR~1\AppData\Local\Programs\grove\grove.exe";
    let exclusions = vec![
        normalize_path(r"C:\Other\"),
        normalize_path(r"C:\Users\JURIKR~1\AppData\Local\Programs\grove\"),
    ];
    let entry = matching_exclusion(path, &exclusions).expect("folder should cover the file");
    let at = covered_prefix_len(path, &entry).expect("prefix should map onto path");
    assert_eq!(&path[..at], r"C:\Users\JURIKR~1\AppData\Local\Programs\grove\");
    assert_eq!(&path[at..], "grove.exe");
}

#[test]
fn exact_file_exclusion_has_no_folder_prefix() {
    let path = r"C:\Tools\x.exe";
    let exclusions = vec![normalize_path(path)];
    let entry = matching_exclusion(path, &exclusions).unwrap();
    assert_eq!(covered_prefix_len(path, &entry), None);
    assert_eq!(matching_exclusion(r"C:\Tools\y.exe", &exclusions), None);
}

#[test]
fn folder_targets_end_with_backslash_and_files_do_not() {
    let path = r"C:\Tools\x.exe";
    assert!(!exclusion_target(path, 0).ends_with('\\'));
    assert!(exclusion_target(path, 1).ends_with('\\'));
}

/// Every text over `alphabet` of at most `longest` characters.
fn all_paths(alphabet: &[char], longest: usize) -> Vec<String> {
    let mut all = vec![String::new()];
    let mut from = 0;
    for _ in 0..longest {
        let to = all.len();
        for i in from..to {
            for c in alphabet {
                let mut longer = all[i].clone();
                longer.push(*c);
                all.push(longer);
            }
        }
        from = to;
    }
    all
}

#[test]
fn normalizing_agrees_with_str() {
    for path in all_paths(&['C', 'é', '\\', '/', '"', ' '], 6) {
        assert_eq!(
            normalize_path(&path),
            path.trim().trim_matches('"').trim_end_matches('\\').to_ascii_lowercase()
        );
    }
}

#[test]
fn components_are_counted_as_str_splits() {
    for path in all_paths(&['c', '\\', '/', 'é'], 8) {
        let parts = path.split(['\\', '/']).filter(|part| !part.is_empty()).count();
        let unc = path.chars().take(2).filter(|c| *c == '\\' || *c == '/').count() == 2;
        let reserved = if unc { 3 } else { 2 };
        assert_eq!(max_scope(&path), parts.saturating_sub(reserved));
    }
}

#[test]
fn targets_are_cut_at_separators() {
    for path in all_paths(&['c', '\\', '/', 'é'], 6) {
        for scope in 0..5 {
            let mut wanted = path.clone();
            if scope > 0 {
                let trimmed = path.trim_end_matches(['\\', '/']);
                let mut end = trimmed.len();
                for _ in 0..scope {
                    match trimmed[..end].rfind(['\\', '/']) {
                        Some(index) if index > 0 => {
                            let folder = trimmed[..index].trim_end_matches(['\\', '/']);
                            end = if folder.is_empty() { index } else { folder.len() };
                        }
                        _ => break,
                    }
                }
                wanted = trimmed[..end].to_owned() + "\\";
            }
            assert_eq!(exclusion_target(&path, scope), wanted);
        }
    }
}

#[test]
fn covering_looks_at_whole_components() {
    let paths = all_paths(&['c', '\\', '/', 'é'], 5);
    let entries: Vec<String> = all_paths(&['c', '\\', 'é'], 3);
    for path in &paths {
        let normal = normalize_path(path);
        let wanted = entries
            .iter()
            .filter(|entry| !entry.is_empty())
            .filter(|entry| {
                normal == **entry
                    || normal.starts_with(&format!("{entry}\\"))
                    || normal.starts_with(&format!("{entry}/"))
            })
            .max_by_key(|entry| entry.len())
            .cloned();
        assert_eq!(matching_exclusion(path, &entries), wanted);
    }
}

#[test]
fn covered_prefix_is_the_entry_and_a_separator() {
    let entries = all_paths(&['c', 'é', '\\', '/'], 3);
    for path in all_paths(&['C', 'é', '\\', '/', '"', ' '], 5) {
        let normal = normalize_path(&path);
        let inner = path.trim();
        let lead = path.len() - path.trim_start().len();
        for entry in &entries {
            let len = lead + entry.len() + 1;
            let below = normal.starts_with(&format!("{entry}\\"))
                || normal.starts_with(&format!("{entry}/"));
            let mapped = below && normal.len() == inner.len() && len < path.len();
            assert_eq!(covered_prefix_len(&path, entry), mapped.then_some(len));
            if mapped {
                let part = path[..len].trim_start().to_ascii_lowercase();
                assert_eq!(part.trim_end_matches(['\\', '/']), entry.trim_end_matches(['\\', '/']));
                assert!(path[..len].ends_with(['\\', '/']));
            }
        }
    }
}

#[test]
fn a_prefix_that_is_not_there_is_not_mapped_back() {
    assert_eq!(covered_prefix_len(r"C:\Tools\x.exe", r"d:\other"), None);
    assert_eq!(covered_prefix_len(r"C:\Tools\x.exe", r"c:\too"), None);
    assert_eq!(covered_prefix_len(r"C:\Tools\x.exe", r"c:\tools"), Some(9));
    assert_eq!(covered_prefix_len(r" C:\a\b.exe", r"c:\a"), Some(6));
    assert_eq!(covered_prefix_len("\"C:\\a\\b.exe\"", r"c:\a"), None);
}

#[test]
fn scopes_count_components() {
    let count = |path: &str| path.split(['\\', '/']).filter(|part| !part.is_empty()).count();
    for path in all_paths(&['c', '\\', '/'], 10) {
        for scope in 0..=max_scope(&path) {
            assert_eq!(count(&exclusion_target(&path, scope)), count(&path) - scope);
        }
    }
    assert_eq!(exclusion_target(r"C:\a\b\\x.exe", 1), r"C:\a\b\");
    assert_eq!(exclusion_target(r"C:\a\b\\x.exe", 2), r"C:\a\");
    assert_eq!(exclusion_target(r"\\server", 1), r"\\");
}

#[test]
fn unc_paths_with_slashes_keep_server_and_share() {
    assert_eq!(max_scope("//server/share/tool.exe"), 0);
    assert_eq!(max_scope("//server/share/apps/tool.exe"), 1);
    assert_eq!(exclusion_target("//server/share/apps/tool.exe", 1), "//server/share/apps\\");
}

#[test]
fn long_unc_paths_keep_server_and_share() {
    for path in [
        r"\\?\UNC\server\share\x.exe",
        r"\\?\unc\server\share\x.exe",
        "//?/UNC/server/share/x.exe",
        r"\\.\UNC\server\share\x.exe",
    ] {
        assert_eq!(max_scope(path), 0);
    }
    let path = r"\\?\UNC\server\share\apps\tool.exe";
    assert_eq!(max_scope(path), 1);
    assert_eq!(exclusion_target(path, 1), r"\\?\UNC\server\share\apps\");
    assert_eq!(max_scope(r"\\?\UNC\server"), 0);
    // A drive in the long form, and a server of that name.
    assert_eq!(max_scope(r"\\?\C:\Tools\x.exe"), 1);
    assert_eq!(max_scope(r"\\UNC\share\apps\x.exe"), 1);
    assert_eq!(max_scope(r"\\?\UNCLE\a\b\x.exe"), 2);
}

fn entry_of(path: &str, entries: &[&str]) -> Option<String> {
    let list = entries.iter().map(|entry| entry.to_string()).collect();
    covering_entry(path, &list)
}

#[test]
fn only_entries_with_a_backslash_are_folders() {
    let path = r"C:\Tools\grove\x.exe";
    assert_eq!(entry_of(path, &[r"C:\Tools"]), None);
    assert_eq!(entry_of(path, &[r"C:\Tools\"]), Some(r"c:\tools".to_owned()));
    assert_eq!(entry_of(path, &[" \"c:\\TOOLS\\\" "]), Some(r"c:\tools".to_owned()));
    assert_eq!(entry_of(path, &[r"C:\Tools\GROVE\x.exe"]), Some(r"c:\tools\grove\x.exe".to_owned()));
    assert_eq!(
        entry_of(path, &[r"C:\Tools\", r"C:\Tools\grove", r"C:\", ""]),
        Some(r"c:\tools".to_owned())
    );
    assert_eq!(entry_of("\"", &["\"", "\\"]), None);
    assert_eq!(entry_of(path, &[]), None);
}

#[test]
fn longest_entry_wins_and_similar_names_do_not_cover() {
    let path = r"C:\Tools\grove\x.exe";
    let exclusions: Vec<String> =
        [r"C:\", r"C:\Tools\grove\", r"C:\Tools", r"C:\Tools\gro", ""].iter().map(|e| normalize_path(e)).collect();
    assert_eq!(matching_exclusion(path, &exclusions), Some(r"c:\tools\grove".to_owned()));
    assert_eq!(matching_exclusion(r"D:\Tools\x.exe", &exclusions), None);
    assert_eq!(matching_exclusion(path, &[]), None);
}

#[test]
fn quotes_and_case_do_not_matter() {
    assert_eq!(normalize_path(" \"C:\\Program Files\\App\\\" "), r"c:\program files\app");
    let exclusions = vec![normalize_path(r"c:\TOOLS\")];
    assert_eq!(
        matching_exclusion(r"C:\Tools\x.exe", &exclusions),
        matching_exclusion(r"c:\tools\X.EXE", &exclusions)
    );
}

#[test]
fn wider_targets_contain_narrower_ones() {
    let path = r"C:\Users\me\Tools\grove\grove.exe";
    for scope in 1..max_scope(path) {
        let wide = exclusion_target(path, scope + 1);
        assert!(exclusion_target(path, scope).starts_with(&wide));
        assert!(path.starts_with(&wide));
    }
}

#[test]
fn a_target_in_force_covers_its_path() {
    for path in all_paths(&['c', '\\', '/', '"'], 8) {
        for scope in 0..=max_scope(&path) {
            let covered = entry_of(&path, &[&exclusion_target(&path, scope)]).is_some();
            assert_eq!(covered, !normalize_path(&path).is_empty());
        }
    }
    let path = r"C:\Users\me\Tools\grove.exe";
    for scope in 0..=max_scope(path) {
        let target = exclusion_target(path, scope);
        assert_eq!(entry_of(path, &[&target]), Some(normalize_path(&target)));
    }
}

#[test]
fn drive_root_is_never_a_target() {
    for path in [r"C:\a.exe", r"C:\a\b.exe", r"C:\a\b\c.exe", r"C:\\a\\b.exe"] {
        for scope in 0..=max_scope(path) {
            assert_ne!(exclusion_target(path, scope), r"C:\");
            assert_ne!(exclusion_target(path, scope), r"C:");
        }
    }
    // A folder cut at a slash ends in a backslash and covers its path all the same.
    assert_eq!(exclusion_target("C:/a/b.exe", 1), "C:/a\\");
    assert_eq!(
        matching_exclusion("C:/a/b.exe", &[normalize_path("C:/a\\")]),
        Some("c:/a".to_owned())
    );
}
