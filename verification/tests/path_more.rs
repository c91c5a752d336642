use mochios_files::path::{
    extension_exec, file_name_exec, is_absolute_exec, is_child_of_exec, join_exec,
    normalize_path, same_path_exec,
};

#[test]
fn paths_compare_by_components() {
    assert!(same_path_exec(b"/a//b/", b"/a/b"));
    assert!(same_path_exec(b"/a/./b", b"/a/b"));
    assert!(!same_path_exec(b"/a/../b", b"/b"));
    assert!(is_child_of_exec(b"/w/file", b"/w"));
    assert!(is_child_of_exec(b"/w/file", b"/w/"));
    assert!(!is_child_of_exec(b"/w/sub/file", b"/w"));
    assert!(!is_child_of_exec(b"/", b"/"));
    assert!(is_absolute_exec(b"/x"));
    assert!(!is_absolute_exec(b"x"));
}

#[test]
fn names_and_extensions() {
    assert_eq!(file_name_exec(b"/w/report.tar.gz"), Some(b"report.tar.gz".to_vec()));
    assert_eq!(file_name_exec(b"/"), None);
    assert_eq!(file_name_exec(b"/w/.."), None);
    assert_eq!(extension_exec(b"/w/report.tar.gz"), Some(b"gz".to_vec()));
    assert_eq!(extension_exec(b"/w/.bashrc"), None);
    assert_eq!(extension_exec(b"/w/name."), Some(Vec::new()));
    assert_eq!(join_exec(b"/w", b"a"), b"/w/a".to_vec());
    assert_eq!(join_exec(b"/w/", b"a"), b"/w/a".to_vec());
    assert_eq!(join_exec(b"/w", b"/abs"), b"/abs".to_vec());
    assert_eq!(join_exec(b"", b"a"), b"a".to_vec());
}

#[test]
fn normalized_paths_are_absolute() {
    assert_eq!(normalize_path(b"relative/x"), b"/relative/x".to_vec());
    assert_eq!(normalize_path(b""), b"/".to_vec());
    assert_eq!(normalize_path(b"/a/b/../.."), b"/".to_vec());
    assert_eq!(normalize_path(b"/a//b/./c/"), b"/a/b/c".to_vec());
}

#[test]
fn normalizing_twice_changes_nothing() {
    for path in [&b"/a/../b/./c//"[..], b"x/y/..", b"/../..", b"", b"./a", b"/a/b/c"] {
        let once = normalize_path(path);
        assert_eq!(normalize_path(&once), once);
    }
}
