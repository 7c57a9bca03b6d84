use fdedup::args::{build_excludes, str_eq, verbosity_from_counts, DedupAction};
use fdedup::collect::{check_dir_entry, collect_files, EntryMap, FileObs, SearchState};
use fdedup::dedup::{find_group_leader_index, plan_group, render_link_line, render_remove_line};
use fdedup::digest::{algo_from_str, fn_file_hash, HashAlgo};
use fdedup::errors::DedupError;
use fdedup::fs_entry::{FSEntry, Heuristic};
use fdedup::relpath::split_path;
use fdedup::report::{render_path_line, render_report, u64_to_string};

#[test]
fn test_action_from_str() {
    assert!(matches!(
        DedupAction::from_str("hardlink"),
        Ok(DedupAction::Hardlink)
    ));
    assert!(matches!(
        DedupAction::from_str("symlink"),
        Ok(DedupAction::Symlink)
    ));
    assert!(matches!(DedupAction::from_str("print"), Ok(DedupAction::Print)));
    match DedupAction::from_str("copy") {
        Err(m) => assert_eq!(m, "Cannot parse dedup action: copy".to_string()),
        Ok(_) => panic!("an unknown action must be refused"),
    }
}

#[test]
fn test_algo_from_str() {
    assert!(matches!(algo_from_str("md5"), Ok(HashAlgo::Md5)));
    assert!(matches!(algo_from_str("sha1"), Ok(HashAlgo::Sha1)));
    assert!(matches!(algo_from_str("sha256"), Ok(HashAlgo::Sha256)));
    assert!(matches!(algo_from_str("sha512"), Ok(HashAlgo::Sha512)));
    match algo_from_str("crc32") {
        Err(DedupError::Config(m)) => {
            assert_eq!(m, "Cannot parse algorithm: crc32".to_string())
        }
        _ => panic!("an unknown algorithm must be refused"),
    }
}

#[test]
fn test_verbosity_levels() {
    assert_eq!(verbosity_from_counts(2, 0), "trace");
    assert_eq!(verbosity_from_counts(5, 1), "trace");
    assert_eq!(verbosity_from_counts(1, 0), "debug");
    assert_eq!(verbosity_from_counts(0, 0), "info");
    assert_eq!(verbosity_from_counts(0, 1), "warn");
    assert_eq!(verbosity_from_counts(0, 2), "error");
    assert_eq!(verbosity_from_counts(1, 4), "error");
}

#[test]
fn test_str_eq_distinguishes() {
    assert!(str_eq("abc", "abc"));
    assert!(!str_eq("abc", "abd"));
    assert!(!str_eq("abc", "ab"));
}

#[test]
fn test_build_excludes_defaults() {
    let user = vec!["*.tmp".to_string()];
    let with_defaults = build_excludes(false, user.clone());
    assert_eq!(
        with_defaults,
        vec![".git".to_string(), ".svn".to_string(), "*.tmp".to_string()]
    );
    let without = build_excludes(true, user.clone());
    assert_eq!(without, user);
}

#[test]
fn test_digest_matches_outside_implementation() {
    let data: Vec<u8> = b"crypto-hash".to_vec();
    match fn_file_hash(&data, HashAlgo::Sha256).unwrap() {
        Heuristic::Hash(h) => {
            assert_eq!(h, crypto_hash::digest(crypto_hash::Algorithm::SHA256, &data));
            assert_eq!(h.len(), 32);
        }
        _ => panic!("the hash heuristic must carry a digest"),
    }
}

#[test]
fn test_digest_md5_of_empty_input() {
    let data: Vec<u8> = Vec::new();
    match fn_file_hash(&data, HashAlgo::Md5).unwrap() {
        Heuristic::Hash(h) => {
            let expected: Vec<u8> = vec![
                0xd4, 0x1d, 0x8c, 0xd9, 0x8f, 0x00, 0xb2, 0x04, 0xe9, 0x80, 0x09, 0x98, 0xec,
                0xf8, 0x42, 0x7e,
            ];
            assert_eq!(h, expected);
        }
        _ => panic!("the hash heuristic must carry a digest"),
    }
}

fn state_with(
    inc: Vec<String>,
    ex: Vec<String>,
    min: Option<u64>,
    max: Option<u64>,
) -> SearchState {
    SearchState::new(None, true, false, &inc, &ex, min, max, 0).unwrap()
}

#[test]
fn test_filters_size_bounds() {
    let st = state_with(Vec::new(), Vec::new(), Some(128), Some(512));
    assert!(!st.passes_filters(&"/r/f".to_string(), true, 127));
    assert!(st.passes_filters(&"/r/f".to_string(), true, 128));
    assert!(st.passes_filters(&"/r/f".to_string(), true, 511));
    assert!(!st.passes_filters(&"/r/f".to_string(), true, 512));
    // directories are not size-checked
    assert!(st.passes_filters(&"/r/d".to_string(), false, 0));
}

#[test]
fn test_filters_exclude_by_basename() {
    let st = state_with(Vec::new(), vec![".git".to_string()], None, None);
    assert!(!st.passes_filters(&"/repo/.git".to_string(), false, 0));
    assert!(st.passes_filters(&"/repo/src".to_string(), false, 0));
}

#[test]
fn test_filters_include_overrides_exclude_and_size() {
    let st = state_with(
        vec!["*.keep".to_string()],
        vec!["*.keep".to_string()],
        Some(1000),
        None,
    );
    // the include wins over the identical exclude and over the size bound
    assert!(st.passes_filters(&"/r/a.keep".to_string(), true, 1));
    assert!(!st.passes_filters(&"/r/a.drop".to_string(), true, 1));
}

#[test]
fn test_filters_bad_pattern_is_refused() {
    let r = SearchState::new(
        None,
        true,
        false,
        &vec!["a[".to_string()],
        &Vec::new(),
        None,
        None,
        0,
    );
    assert!(matches!(r, Err(DedupError::FilterCompile(_))));
}

#[test]
fn test_check_dir_entry_rejects_symlinks_and_foreign_devices() {
    let mut st = state_with(Vec::new(), Vec::new(), None, None);
    assert!(!check_dir_entry(&st, &"/r/link".to_string(), true, 1, true, 10));
    st.dev = Some(1);
    assert!(check_dir_entry(&st, &"/r/f".to_string(), false, 1, true, 10));
    assert!(!check_dir_entry(&st, &"/mnt/f".to_string(), false, 2, true, 10));
}

#[test]
fn test_entry_map_coalesces_aliases() {
    let mut map = EntryMap::new();
    let st = state_with(Vec::new(), Vec::new(), None, None);
    collect_files(
        vec![
            FileObs {
                path: "/r/a".to_string(),
                dev: 1,
                inode: 5,
                size: 10,
                is_symlink: false,
            },
            FileObs {
                path: "/r/b".to_string(),
                dev: 1,
                inode: 5,
                size: 10,
                is_symlink: false,
            },
            // the same path again changes nothing
            FileObs {
                path: "/r/b".to_string(),
                dev: 1,
                inode: 5,
                size: 10,
                is_symlink: false,
            },
            FileObs {
                path: "/r/c".to_string(),
                dev: 2,
                inode: 5,
                size: 20,
                is_symlink: false,
            },
        ],
        &mut map,
        &st,
    );
    let entries = map.into_entries();
    assert_eq!(entries.len(), 2);
    assert_eq!(entries[0].paths, vec!["/r/a".to_string(), "/r/b".to_string()]);
    assert_eq!(entries[0].size, 10);
    assert_eq!(entries[1].paths, vec!["/r/c".to_string()]);
}

#[test]
fn test_collect_keeps_first_priority_for_aliases() {
    let mut map = EntryMap::new();
    let st_a = SearchState::new(None, true, false, &Vec::new(), &Vec::new(), None, None, 0)
        .unwrap();
    let st_b = SearchState::new(None, true, false, &Vec::new(), &Vec::new(), None, None, 1)
        .unwrap();
    collect_files(
        vec![FileObs {
            path: "/a/f".to_string(),
            dev: 1,
            inode: 9,
            size: 10,
            is_symlink: false,
        }],
        &mut map,
        &st_a,
    );
    collect_files(
        vec![FileObs {
            path: "/b/f".to_string(),
            dev: 1,
            inode: 9,
            size: 10,
            is_symlink: false,
        }],
        &mut map,
        &st_b,
    );
    let entries = map.into_entries();
    assert_eq!(entries.len(), 1);
    assert_eq!(entries[0].priority, 0);
    assert_eq!(entries[0].paths.len(), 2);
}

fn entry_with_paths(inode: u64, priority: u32, paths: &[&str]) -> FSEntry {
    let mut e = FSEntry::new(1, inode, 100, priority, paths[0].to_string());
    for p in paths.iter().skip(1) {
        e.add_path(p.to_string());
    }
    e
}

#[test]
fn test_leader_prefers_low_priority_then_many_paths() {
    let group = vec![
        entry_with_paths(1, 2, &["/a"]),
        entry_with_paths(2, 0, &["/b"]),
        entry_with_paths(3, 0, &["/c", "/c2"]),
        entry_with_paths(4, 1, &["/d", "/d2", "/d3"]),
    ];
    // smallest priority wins; among those the most aliases
    assert_eq!(find_group_leader_index(&group), 2);
}

#[test]
fn test_leader_tie_takes_last() {
    let group = vec![
        entry_with_paths(1, 0, &["/a", "/a2"]),
        entry_with_paths(2, 0, &["/b", "/b2"]),
    ];
    assert_eq!(find_group_leader_index(&group), 1);
}

#[test]
fn test_plan_group_hardlink_rewrites_all_aliases() {
    let group = vec![
        entry_with_paths(1, 0, &["/r/keep"]),
        entry_with_paths(2, 1, &["/r/dup1", "/r/dup2"]),
    ];
    let plan = plan_group(&group, DedupAction::Hardlink);
    assert_eq!(plan.leader_index, 0);
    assert_eq!(plan.leader_path, "/r/keep".to_string());
    assert_eq!(plan.steps.len(), 2);
    assert_eq!(plan.steps[0].remove_path, "/r/dup1".to_string());
    assert_eq!(plan.steps[0].target, "/r/keep".to_string());
    assert_eq!(plan.steps[1].remove_path, "/r/dup2".to_string());
    assert_eq!(plan.steps[1].target, "/r/keep".to_string());
}

#[test]
fn test_plan_group_symlink_targets_resolve_to_leader() {
    let group = vec![
        entry_with_paths(1, 0, &["/data/media/keep"]),
        entry_with_paths(2, 1, &["/backup/old/dup"]),
    ];
    let plan = plan_group(&group, DedupAction::Symlink);
    assert_eq!(plan.steps.len(), 1);
    assert_eq!(plan.steps[0].target, "../../data/media/keep".to_string());
    // resolving the target against the link's directory reaches the leader
    let mut resolved = split_path(&plan.steps[0].remove_path);
    resolved.pop();
    for comp in split_path(&plan.steps[0].target) {
        if comp == ".." {
            resolved.pop();
        } else {
            resolved.push(comp);
        }
    }
    assert_eq!(resolved, split_path(&plan.leader_path));
}

#[test]
fn test_dry_run_lines() {
    assert_eq!(
        render_remove_line(&"/r/x".to_string()),
        "  rm '/r/x'".to_string()
    );
    assert_eq!(
        render_link_line(true, &"/r/keep".to_string(), &"/r/x".to_string()),
        "  ln '/r/keep' '/r/x'".to_string()
    );
    assert_eq!(
        render_link_line(false, &"../keep".to_string(), &"/r/x".to_string()),
        "  ln -s '../keep' '/r/x'".to_string()
    );
}

#[test]
fn test_u64_to_string_values() {
    assert_eq!(u64_to_string(0), "0".to_string());
    assert_eq!(u64_to_string(7), "7".to_string());
    assert_eq!(u64_to_string(12345), "12345".to_string());
    assert_eq!(
        u64_to_string(18446744073709551615),
        "18446744073709551615".to_string()
    );
}

#[test]
fn test_path_line_escapes_newlines() {
    assert_eq!(
        render_path_line(&"/plain".to_string()),
        "    /plain".to_string()
    );
    assert_eq!(
        render_path_line(&"a\nb".to_string()),
        "    \\\"a\\nb\"".to_string()
    );
    assert_eq!(
        render_path_line(&"a\\n\nz".to_string()),
        "    \\\"a\\\\n\\nz\"".to_string()
    );
}

#[test]
fn test_render_report_exact() {
    let mut e1 = FSEntry::new(1, 2, 5, 0, "/r/a".to_string());
    e1.add_path("/r/b".to_string());
    let e2 = FSEntry::new(1, 3, 5, 0, "/r/c".to_string());
    let groups = vec![vec![e1, e2]];
    let expected = "Identical Files. Size: 5\n  1 2\n    /r/a\n    /r/b\n  1 3\n    /r/c\n";
    assert_eq!(render_report(&groups), expected.to_string());
}

#[test]
fn test_dedup_stats_counts() {
    let mut e1 = FSEntry::new(1, 1, 100, 0, "/r/a".to_string());
    e1.add_path("/r/a2".to_string());
    let e2 = FSEntry::new(1, 2, 100, 0, "/r/b".to_string());
    let e3 = FSEntry::new(1, 3, 100, 0, "/r/c".to_string());
    let f1 = FSEntry::new(1, 4, 40, 0, "/r/d".to_string());
    let f2 = FSEntry::new(1, 5, 40, 0, "/r/e".to_string());
    let groups = vec![vec![e1, e2, e3], vec![f1, f2]];
    let (n_files, n_inodes, saved) = fdedup::dedup_stats(&groups);
    // two redundant single-path inodes in the first group, one in the second
    assert_eq!(n_files, 3);
    assert_eq!(n_inodes, 3);
    assert_eq!(saved, 2 * 100 + 40);
}

#[test]
fn test_simple_heuristics() {
    let e = FSEntry::new(3, 9, 77, 0, "/r/x".to_string());
    assert!(matches!(
        fdedup::heuristics::fn_file_size(&e),
        Ok(Heuristic::Size(77))
    ));
    assert!(matches!(
        fdedup::heuristics::fn_file_device(&e),
        Ok(Heuristic::Device(3))
    ));
}

#[test]
fn test_count_duplicates_empty() {
    let entries: Vec<FSEntry> = Vec::new();
    assert_eq!(
        fdedup::search::count_duplicate_entries_files(&entries, false),
        (0, 0)
    );
}
