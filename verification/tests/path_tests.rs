use tetron_vfs::path::{join_path, normalize_path};

#[test]
fn normalize_drops_dot_and_resolves_dotdot() {
    assert_eq!(normalize_path("a/./b/../c"), "a/c");
}

#[test]
fn normalize_strips_leading_and_trailing_slashes() {
    assert_eq!(normalize_path("/a/b/"), "a/b");
}

#[test]
fn normalize_empty_is_root() {
    assert_eq!(normalize_path(""), "");
}

#[test]
fn normalize_dotdot_at_root_is_noop() {
    assert_eq!(normalize_path(".."), "");
    assert_eq!(normalize_path("../a"), "a");
    assert_eq!(normalize_path("a/b/../../.."), "");
}

#[test]
fn normalize_collapses_repeated_slashes() {
    assert_eq!(normalize_path("a//b"), "a/b");
    assert_eq!(normalize_path("."), "");
    assert_eq!(normalize_path("//"), "");
}

#[test]
fn normalize_is_idempotent_on_samples() {
    let samples = [
        "a/./b/../c",
        "/a/b/",
        "",
        "..",
        "a//b",
        "x/y/z",
        "./../x/./",
        "a/b/c/../..",
    ];
    for p in samples {
        let once = normalize_path(p);
        let twice = normalize_path(&once);
        assert_eq!(twice, once);
    }
}

#[test]
fn join_with_empty_sides() {
    assert_eq!(join_path("", "a/b"), "a/b");
    assert_eq!(join_path("a", ""), "a");
}

#[test]
fn join_inserts_single_slash() {
    assert_eq!(join_path("a", "b/c"), "a/b/c");
    assert_eq!(join_path("dir", "file"), "dir/file");
}
