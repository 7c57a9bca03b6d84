use fdedup::fs_entry::{FSEntry, Heuristic, INode};
use fdedup::search::{
    compare_entries, count_duplicate_entries_files, group_by_heuristic,
    remove_unique_entries_by_heuristic,
};

fn init_test_entry(inode: INode, size: u64, hvalue: Heuristic) -> FSEntry {
    let mut result = FSEntry::new(0, inode, size, 0, "path".to_string());
    result.hvalue = hvalue;

    result
}

#[test]
pub fn test_remove_unique_entries_single_collapse() {
    let entry = init_test_entry(0, 0, Heuristic::Null);

    let test_entries = remove_unique_entries_by_heuristic(vec![entry], false);
    let null_entries: Vec<FSEntry> = Vec::new();

    assert_eq!(test_entries, null_entries);
}

#[test]
pub fn test_remove_unique_entries_no_unique() {
    let entries = vec![
        init_test_entry(0, 0, Heuristic::Null),
        init_test_entry(1, 0, Heuristic::Null),
        init_test_entry(2, 0, Heuristic::Null),
    ];

    let null_entries = vec![
        init_test_entry(0, 0, Heuristic::Null),
        init_test_entry(1, 0, Heuristic::Null),
        init_test_entry(2, 0, Heuristic::Null),
    ];
    let test_entries = remove_unique_entries_by_heuristic(entries, false);

    assert_eq!(test_entries, null_entries);
}

#[test]
pub fn test_remove_unique_entries_by_size() {
    let entries = vec![
        init_test_entry(0, 0, Heuristic::Null),
        init_test_entry(1, 2, Heuristic::Null),
        init_test_entry(2, 1, Heuristic::Null),
        init_test_entry(3, 2, Heuristic::Null),
        init_test_entry(4, 0, Heuristic::Null),
    ];

    let null_entries = vec![
        init_test_entry(0, 0, Heuristic::Null),
        init_test_entry(4, 0, Heuristic::Null),
        init_test_entry(1, 2, Heuristic::Null),
        init_test_entry(3, 2, Heuristic::Null),
    ];

    let test_entries = remove_unique_entries_by_heuristic(entries, false);

    assert_eq!(test_entries, null_entries);
}

#[test]
pub fn test_remove_unique_entries_by_hvalue() {
    let entries = vec![
        init_test_entry(0, 0, Heuristic::Size(1)),
        init_test_entry(1, 0, Heuristic::Size(0)),
        init_test_entry(2, 0, Heuristic::Size(2)),
        init_test_entry(3, 0, Heuristic::Size(1)),
        init_test_entry(4, 0, Heuristic::Size(1)),
    ];

    let null_entries = vec![
        init_test_entry(0, 0, Heuristic::Size(1)),
        init_test_entry(3, 0, Heuristic::Size(1)),
        init_test_entry(4, 0, Heuristic::Size(1)),
    ];

    let test_entries = remove_unique_entries_by_heuristic(entries, false);

    assert_eq!(test_entries, null_entries);
}

#[test]
pub fn test_group_entries_by_size() {
    let entries = vec![
        init_test_entry(0, 0, Heuristic::Null),
        init_test_entry(1, 2, Heuristic::Null),
        init_test_entry(2, 1, Heuristic::Null),
        init_test_entry(3, 2, Heuristic::Null),
        init_test_entry(4, 0, Heuristic::Null),
        init_test_entry(5, 5, Heuristic::Null),
    ];

    let null_entries = vec![
        vec![
            init_test_entry(0, 0, Heuristic::Null),
            init_test_entry(4, 0, Heuristic::Null),
        ],
        vec![init_test_entry(2, 1, Heuristic::Null)],
        vec![
            init_test_entry(1, 2, Heuristic::Null),
            init_test_entry(3, 2, Heuristic::Null),
        ],
        vec![init_test_entry(5, 5, Heuristic::Null)],
    ];

    let test_entries = group_by_heuristic(entries, false);

    assert_eq!(test_entries, null_entries);
}

#[test]
pub fn test_group_entries_by_hvalue() {
    let entries = vec![
        init_test_entry(0, 0, Heuristic::Size(0)),
        init_test_entry(1, 0, Heuristic::Size(2)),
        init_test_entry(2, 0, Heuristic::Size(1)),
        init_test_entry(3, 0, Heuristic::Size(2)),
        init_test_entry(4, 0, Heuristic::Size(0)),
        init_test_entry(5, 0, Heuristic::Size(5)),
    ];

    let null_entries = vec![
        vec![
            init_test_entry(0, 0, Heuristic::Size(0)),
            init_test_entry(4, 0, Heuristic::Size(0)),
        ],
        vec![init_test_entry(2, 0, Heuristic::Size(1))],
        vec![
            init_test_entry(1, 0, Heuristic::Size(2)),
            init_test_entry(3, 0, Heuristic::Size(2)),
        ],
        vec![init_test_entry(5, 0, Heuristic::Size(5))],
    ];

    let test_entries = group_by_heuristic(entries, false);

    assert_eq!(test_entries, null_entries);
}

#[test]
pub fn test_count_duplicates() {
    let mut entries = vec![
        init_test_entry(0, 0, Heuristic::Null),
        init_test_entry(1, 2, Heuristic::Null),
        init_test_entry(2, 1, Heuristic::Null),
        init_test_entry(3, 2, Heuristic::Null),
        init_test_entry(4, 0, Heuristic::Null),
        init_test_entry(5, 5, Heuristic::Null),
    ];

    entries.sort_by(|a, b| compare_entries(a, b, false));

    let null_counts = (2, 2);
    let test_counts = count_duplicate_entries_files(&entries, false);

    assert_eq!(test_counts, null_counts);
}

#[test]
fn test_remove_unique_is_idempotent_on_values() {
    let entries = vec![
        init_test_entry(0, 7, Heuristic::Null),
        init_test_entry(1, 7, Heuristic::Null),
        init_test_entry(2, 3, Heuristic::Null),
        init_test_entry(3, 7, Heuristic::Null),
    ];
    let once = remove_unique_entries_by_heuristic(entries, false);
    let again = remove_unique_entries_by_heuristic(clone_entries(&once), false);
    assert_eq!(once, again);
}

fn clone_entries(v: &Vec<FSEntry>) -> Vec<FSEntry> {
    v.iter()
        .map(|e| {
            let mut c = FSEntry::new(e.dev, e.inode, e.size, e.priority, e.paths[0].clone());
            for p in e.paths.iter().skip(1) {
                c.add_path(p.clone());
            }
            c.hvalue = e.hvalue.clone();
            c
        })
        .collect()
}

#[test]
fn test_group_partition_covers_input() {
    let entries = vec![
        init_test_entry(0, 2, Heuristic::Null),
        init_test_entry(1, 1, Heuristic::Null),
        init_test_entry(2, 2, Heuristic::Null),
    ];
    let groups = group_by_heuristic(clone_entries(&entries), false);
    let total: usize = groups.iter().map(|g| g.len()).sum();
    assert_eq!(total, entries.len());
    for g in groups.iter() {
        assert!(!g.is_empty());
        for e in g.iter() {
            assert_eq!(e.size, g[0].size);
        }
    }
    for (i, g1) in groups.iter().enumerate() {
        for (j, g2) in groups.iter().enumerate() {
            if i != j {
                assert_ne!(g1[0].size, g2[0].size);
            }
        }
    }
}

#[test]
fn test_refinement_survivors_are_subset() {
    let entries = vec![
        init_test_entry(0, 7, Heuristic::Null),
        init_test_entry(1, 7, Heuristic::Null),
        init_test_entry(2, 3, Heuristic::Null),
    ];
    let survivors = remove_unique_entries_by_heuristic(clone_entries(&entries), false);
    assert_eq!(survivors.len(), 2);
    for s in survivors.iter() {
        assert!(entries.iter().any(|e| e.inode == s.inode));
    }
}
