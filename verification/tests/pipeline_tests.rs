use std::collections::HashMap;

use fdedup::args::{Args, DedupAction};
use fdedup::collect::{collect_files, EntryMap, FileObs, SearchState};
use fdedup::digest::{fn_file_hash, HashAlgo};
use fdedup::errors::DedupError;
use fdedup::eval::remove_unique_entries_by_heuristic_fn;
use fdedup::fs_entry::{FSEntry, Heuristic};
use fdedup::search::group_by_heuristic;

const N_READ: usize = 200;
const ALGO: HashAlgo = HashAlgo::Sha512;

type Contents = HashMap<(u64, u64), Vec<u8>>;

fn obs(path: &str, dev: u64, inode: u64, size: u64) -> FileObs {
    FileObs {
        path: path.to_string(),
        dev,
        inode,
        size,
        is_symlink: false,
    }
}

fn plain_state() -> SearchState {
    SearchState::new(None, true, false, &Vec::new(), &Vec::new(), None, None, 0).unwrap()
}

/// A synthetic tree: each tuple is one regular file observation plus its
/// contents; hardlinked aliases repeat a `(dev, inode)` pair.
fn collect(observations: Vec<FileObs>) -> Vec<FSEntry> {
    let mut map = EntryMap::new();
    let state = plain_state();
    collect_files(observations, &mut map, &state);
    map.into_entries()
}

fn random_contents(size: usize, rng: &mut fastrand::Rng) -> Vec<u8> {
    let mut v = Vec::with_capacity(size);
    for _ in 0..size {
        v.push(rng.u8(..));
    }
    v
}

fn find_duplicates(
    entries: Vec<FSEntry>,
    contents: &Contents,
    cmp_dev: bool,
    n_read: usize,
    algo: HashAlgo,
) -> Result<Vec<Vec<FSEntry>>, DedupError> {
    let mut result = entries;
    if n_read > 0 {
        let head = |e: &FSEntry| -> Result<Heuristic, DedupError> {
            let c = contents.get(&(e.dev, e.inode)).unwrap();
            let n = n_read.min(c.len());
            Ok(Heuristic::Bytes(c[..n].to_vec()))
        };
        result = remove_unique_entries_by_heuristic_fn(result, cmp_dev, true, head)?;
        let tail = |e: &FSEntry| -> Result<Heuristic, DedupError> {
            let c = contents.get(&(e.dev, e.inode)).unwrap();
            let start = c.len().saturating_sub(n_read);
            Ok(Heuristic::Bytes(c[start..].to_vec()))
        };
        result = remove_unique_entries_by_heuristic_fn(result, cmp_dev, true, tail)?;
    }
    let hash = |e: &FSEntry| -> Result<Heuristic, DedupError> {
        let c = contents.get(&(e.dev, e.inode)).unwrap();
        fn_file_hash(c, algo)
    };
    result = remove_unique_entries_by_heuristic_fn(result, cmp_dev, true, hash)?;
    Ok(group_by_heuristic(result, cmp_dev))
}

#[test]
fn test_duplicate_search_simple() {
    let mut rng = fastrand::Rng::new();
    let mut contents: Contents = HashMap::new();
    contents.insert((1, 10), random_contents(128, &mut rng));
    let entries = collect(vec![obs("/root/dir1/test1", 1, 10, 128)]);

    let test_duplicates = find_duplicates(entries, &contents, false, N_READ, ALGO).unwrap();

    let null_duplicates: Vec<Vec<FSEntry>> = Vec::new();
    assert_eq!(test_duplicates, null_duplicates);
}

#[test]
fn test_duplicate_search_basic_no_copies() {
    let mut rng = fastrand::Rng::new();
    let mut contents: Contents = HashMap::new();
    let sizes = [128u64, 128, 512, 512];
    let mut observations = Vec::new();
    for (i, size) in sizes.iter().enumerate() {
        let inode = 10 + i as u64;
        let mut c = random_contents(*size as usize, &mut rng);
        // make the equal-size contents certainly distinct
        c[0] = i as u8;
        contents.insert((1, inode), c);
        observations.push(obs(&format!("/root/dir{}/test{}", i, i), 1, inode, *size));
    }
    let entries = collect(observations);

    let test_duplicates = find_duplicates(entries, &contents, false, N_READ, ALGO).unwrap();

    let null_duplicates: Vec<Vec<FSEntry>> = Vec::new();
    assert_eq!(test_duplicates, null_duplicates);
}

#[test]
fn test_duplicate_search_with_hardlinks_no_copies() {
    let mut rng = fastrand::Rng::new();
    let mut contents: Contents = HashMap::new();
    let sizes = [128u64, 128, 512, 512];
    let mut observations = Vec::new();
    for (i, size) in sizes.iter().enumerate() {
        let inode = 10 + i as u64;
        let mut c = random_contents(*size as usize, &mut rng);
        c[0] = i as u8;
        contents.insert((1, inode), c);
        observations.push(obs(&format!("/root/dir{}/test{}", i, i), 1, inode, *size));
        // a hardlinked alias of the same inode
        observations.push(obs(&format!("/root/dir{}/link{}", i, i), 1, inode, *size));
    }
    let entries = collect(observations);
    assert_eq!(entries.len(), 4);
    for e in entries.iter() {
        assert_eq!(e.paths.len(), 2);
    }

    let test_duplicates = find_duplicates(entries, &contents, false, N_READ, ALGO).unwrap();

    let null_duplicates: Vec<Vec<FSEntry>> = Vec::new();
    assert_eq!(test_duplicates, null_duplicates);
}

#[test]
fn test_duplicate_search_with_copies_groups_by_content() {
    let mut rng = fastrand::Rng::new();
    let mut contents: Contents = HashMap::new();
    let shared_small = random_contents(128, &mut rng);
    let shared_large = random_contents(512, &mut rng);
    contents.insert((1, 10), shared_small.clone());
    contents.insert((1, 11), shared_small.clone());
    contents.insert((1, 12), shared_large.clone());
    contents.insert((1, 13), shared_large.clone());
    contents.insert((1, 14), random_contents(128, &mut rng));
    let entries = collect(vec![
        obs("/r/a", 1, 10, 128),
        obs("/r/a_copy", 1, 11, 128),
        obs("/r/b", 1, 12, 512),
        obs("/r/b_copy", 1, 13, 512),
        obs("/r/lone", 1, 14, 128),
    ]);

    let groups = find_duplicates(entries, &contents, false, N_READ, ALGO).unwrap();

    assert_eq!(groups.len(), 2);
    assert_eq!(groups[0].len(), 2);
    assert_eq!(groups[1].len(), 2);
    assert_eq!(groups[0][0].size, 128);
    assert_eq!(groups[1][0].size, 512);
}

fn default_args(action: DedupAction) -> Args {
    Args {
        paths: vec!["/r".to_string()],
        action,
        result_path: Some("/tmp/out".to_string()),
        includes: Vec::new(),
        excludes: Vec::new(),
        abort_on_error: true,
        show_progress: false,
        verbosity: "info".to_string(),
        one_file_system: false,
        hash: "sha512".to_string(),
        n_read: N_READ,
        min_file_size: None,
        max_file_size: None,
        dry_run: false,
    }
}

fn run_with(
    args: &Args,
    entries: Vec<FSEntry>,
    contents: &Contents,
) -> Result<fdedup::RunOutput, DedupError> {
    let n_read = args.n_read;
    let head = move |e: &FSEntry| -> Result<Heuristic, DedupError> {
        let c = contents.get(&(e.dev, e.inode)).unwrap();
        let n = n_read.min(c.len());
        Ok(Heuristic::Bytes(c[..n].to_vec()))
    };
    let tail = move |e: &FSEntry| -> Result<Heuristic, DedupError> {
        let c = contents.get(&(e.dev, e.inode)).unwrap();
        let start = c.len().saturating_sub(n_read);
        Ok(Heuristic::Bytes(c[start..].to_vec()))
    };
    let hash = move |e: &FSEntry| -> Result<Heuristic, DedupError> {
        let c = contents.get(&(e.dev, e.inode)).unwrap();
        fn_file_hash(c, ALGO)
    };
    fdedup::run(args, entries, head, tail, hash)
}

#[test]
fn test_run_empty_roots_zero_everything() {
    let contents: Contents = HashMap::new();
    let out = run_with(&default_args(DedupAction::Print), Vec::new(), &contents).unwrap();
    assert_eq!(out.groups.len(), 0);
    assert_eq!(out.plans.len(), 0);
}

#[test]
fn test_run_single_file_zero_groups() {
    let mut contents: Contents = HashMap::new();
    contents.insert((1, 10), vec![7u8; 200]);
    let entries = collect(vec![obs("/r/one", 1, 10, 200)]);
    let out = run_with(&default_args(DedupAction::Print), entries, &contents).unwrap();
    assert_eq!(out.groups.len(), 0);
}

#[test]
fn test_run_hardlinked_aliases_zero_groups() {
    let mut contents: Contents = HashMap::new();
    contents.insert((1, 10), vec![7u8; 200]);
    let entries = collect(vec![obs("/r/one", 1, 10, 200), obs("/r/alias", 1, 10, 200)]);
    assert_eq!(entries.len(), 1);
    assert_eq!(entries[0].paths.len(), 2);
    let out = run_with(&default_args(DedupAction::Print), entries, &contents).unwrap();
    assert_eq!(out.groups.len(), 0);
}

#[test]
fn test_run_print_without_output_is_refused() {
    let contents: Contents = HashMap::new();
    let mut args = default_args(DedupAction::Print);
    args.result_path = None;
    let r = run_with(&args, Vec::new(), &contents);
    match r {
        Err(DedupError::Config(m)) => {
            assert_eq!(m, "No output file specified for action 'print'".to_string())
        }
        _ => panic!("a print action without an output file must be refused"),
    }
}

#[test]
fn test_run_nread_zero_skips_probes_hash_still_runs() {
    let mut contents: Contents = HashMap::new();
    contents.insert((1, 10), vec![1u8; 64]);
    contents.insert((1, 11), vec![2u8; 64]);
    let entries = collect(vec![obs("/r/a", 1, 10, 64), obs("/r/b", 1, 11, 64)]);
    let mut args = default_args(DedupAction::Print);
    args.n_read = 0;
    let head = |_e: &FSEntry| -> Result<Heuristic, DedupError> {
        panic!("the head probe must not run when nread is zero")
    };
    let tail = |_e: &FSEntry| -> Result<Heuristic, DedupError> {
        panic!("the tail probe must not run when nread is zero")
    };
    let hash = |e: &FSEntry| -> Result<Heuristic, DedupError> {
        fn_file_hash(contents.get(&(e.dev, e.inode)).unwrap(), ALGO)
    };
    // the two files share a size but not contents: the hash stage must
    // still run and tell them apart
    let out = fdedup::run(&args, entries, head, tail, hash).unwrap();
    assert_eq!(out.groups.len(), 0);
}

#[test]
fn test_run_groups_sorted_by_size_and_planned() {
    let mut contents: Contents = HashMap::new();
    contents.insert((1, 10), vec![9u8; 512]);
    contents.insert((1, 11), vec![9u8; 512]);
    contents.insert((1, 12), vec![3u8; 128]);
    contents.insert((1, 13), vec![3u8; 128]);
    let entries = collect(vec![
        obs("/r/big", 1, 10, 512),
        obs("/r/big_copy", 1, 11, 512),
        obs("/r/small", 1, 12, 128),
        obs("/r/small_copy", 1, 13, 128),
    ]);
    let out = run_with(&default_args(DedupAction::Hardlink), entries, &contents).unwrap();
    assert_eq!(out.groups.len(), 2);
    assert_eq!(out.groups[0][0].size, 128);
    assert_eq!(out.groups[1][0].size, 512);
    assert_eq!(out.plans.len(), 2);
    // every plan removes exactly the non-leader path and links it back to
    // the leader
    for (g, plan) in out.groups.iter().zip(out.plans.iter()) {
        assert_eq!(plan.steps.len(), 1);
        assert_eq!(plan.leader_path, g[plan.leader_index].paths[0]);
        assert_ne!(plan.steps[0].remove_path, plan.leader_path);
        assert_eq!(plan.steps[0].target, plan.leader_path);
    }
}

#[test]
fn test_sloppy_mode_skips_failing_entries() {
    let mut a = FSEntry::new(1, 10, 64, 0, "/r/a".to_string());
    a.hvalue = Heuristic::Size(64);
    let mut b = FSEntry::new(1, 11, 64, 0, "/r/b".to_string());
    b.hvalue = Heuristic::Size(64);
    let failing = |e: &FSEntry| -> Result<Heuristic, DedupError> {
        if e.inode == 10 {
            Err(DedupError::Io("unreadable".to_string()))
        } else {
            Ok(Heuristic::Size(64))
        }
    };
    // sloppy: the failing entry keeps its previous value and stays in play
    let sloppy = remove_unique_entries_by_heuristic_fn(
        vec![
            FSEntry::new(1, 10, 64, 0, "/r/a".to_string()),
            FSEntry::new(1, 11, 64, 0, "/r/b".to_string()),
        ],
        false,
        false,
        failing,
    );
    match sloppy {
        Ok(v) => assert_eq!(v.len(), 0),
        Err(_) => panic!("sloppy evaluation must not abort"),
    }
    let sloppy_kept = remove_unique_entries_by_heuristic_fn(vec![a, b], false, false, failing);
    match sloppy_kept {
        // both carried Size(64) already, so both survive
        Ok(v) => assert_eq!(v.len(), 2),
        Err(_) => panic!("sloppy evaluation must not abort"),
    }
    // strict: the failure aborts the batch
    let strict = remove_unique_entries_by_heuristic_fn(
        vec![
            FSEntry::new(1, 10, 64, 0, "/r/a".to_string()),
            FSEntry::new(1, 11, 64, 0, "/r/b".to_string()),
        ],
        false,
        true,
        failing,
    );
    assert!(strict.is_err());
}
