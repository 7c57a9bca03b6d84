use fdedup::relpath::{calculate_relative_path, join_path, split_path};

#[test]
fn test_calculate_relative_path_basic() {
    assert_eq!(calculate_relative_path("/a", "/b"), "a".to_string());
}

#[test]
fn test_calculate_relative_path_basic_up_tree() {
    assert_eq!(calculate_relative_path("/a", "/b/c"), "../a".to_string());
}

#[test]
fn test_calculate_relative_path_basic_down_tree() {
    assert_eq!(calculate_relative_path("/a/b", "/c"), "a/b".to_string());
}

#[test]
fn test_calculate_relative_path_basic_fork() {
    assert_eq!(
        calculate_relative_path("/a/b/c", "/a/d/c"),
        "../b/c".to_string()
    );
}

#[test]
fn test_calculate_relative_path_basic_no_prefix_slash() {
    assert_eq!(calculate_relative_path("a", "b"), "a".to_string());
}

#[test]
fn test_calculate_relative_path_basic_self_reference() {
    assert_eq!(calculate_relative_path("a/b/c", "a/b/c"), "c".to_string());
}

#[test]
fn test_calculate_relative_path_fork() {
    assert_eq!(
        calculate_relative_path("/a1/a2/a3/a4/a5/a6/a7/c", "/a1/a2/a3/b1/a5/a6/a7/c"),
        "../../../../a4/a5/a6/a7/c".to_string()
    );
}

#[test]
fn test_calculate_relative_path_trailing_slash() {
    assert_eq!(calculate_relative_path("/a/", "/b/"), "a".to_string());
}

#[test]
fn test_split_path_drops_empty_chunks() {
    let comps = split_path("//a///b/c/");
    let expected: Vec<String> = vec!["a".to_string(), "b".to_string(), "c".to_string()];
    assert_eq!(comps, expected);
}

#[test]
fn test_join_path_round_trip() {
    let comps = vec!["a".to_string(), "bb".to_string(), "c".to_string()];
    let joined = join_path(&comps);
    assert_eq!(joined, "a/bb/c".to_string());
    assert_eq!(split_path(&joined), comps);
}

#[test]
fn test_symlink_target_resolves_to_source() {
    // resolving the computed route from the destination's directory must
    // land on the source, once `..` steps are applied
    let src = "/data/media/song.mp3";
    let dst = "/backup/copies/song.mp3";
    let rel = calculate_relative_path(src, dst);
    assert_eq!(rel, "../../data/media/song.mp3".to_string());
    let mut resolved: Vec<String> = split_path(dst);
    resolved.pop();
    for comp in split_path(&rel) {
        if comp == ".." {
            resolved.pop();
        } else {
            resolved.push(comp);
        }
    }
    assert_eq!(resolved, split_path(src));
}
