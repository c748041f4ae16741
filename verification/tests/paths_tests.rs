use ts_garbage_collector::diff_paths::diff_path;
use ts_garbage_collector::paths::{normalize, path_join, resolve_import};

#[test]
fn normalize_collapses_dotdot() {
    assert_eq!(normalize("a/b/../c"), String::from("a/c"));
    assert_eq!(normalize("a/c"), String::from("a/c"));
}

#[test]
fn normalize_edge_cases() {
    assert_eq!(normalize(""), String::from("."));
    assert_eq!(normalize("."), String::from("."));
    assert_eq!(normalize("/"), String::from("/"));
    assert_eq!(normalize("/a/../.."), String::from("/"));
    assert_eq!(normalize("a/"), String::from("a"));
    assert_eq!(normalize("a//b"), String::from("a/b"));
    assert_eq!(normalize("./foo"), String::from("foo"));
    assert_eq!(normalize("../foo"), String::from("../foo"));
    assert_eq!(normalize("../../x"), String::from("../../x"));
    assert_eq!(normalize("/p/pages/../foo/bar"), String::from("/p/foo/bar"));
}

#[test]
fn normalize_is_idempotent_on_samples() {
    for sample in [
        "a/b/../c",
        "",
        "/a/../..",
        "a//b/./c/..",
        "../x/./y",
        "/p/src/pages/index.astro",
    ] {
        let once = normalize(sample);
        let twice = normalize(once.as_str());
        assert_eq!(once, twice);
    }
}

#[test]
fn resolve_against_importer_directory() {
    assert_eq!(
        resolve_import("/p/pages/index.ext", "../foo/bar"),
        String::from("/p/foo/bar")
    );
    assert_eq!(
        resolve_import("/path/to/test.ts", "./somewhere"),
        String::from("/path/to/somewhere")
    );
    assert_eq!(resolve_import("test.ts", "./somewhere"), String::from("somewhere"));
    assert_eq!(resolve_import("/a/b.ts", "/abs/c.ts"), String::from("/abs/c.ts"));
}

#[test]
fn join_appends_one_separator() {
    assert_eq!(path_join("/p", "dist"), String::from("/p/dist"));
    assert_eq!(path_join("/p/src", "env.d.ts"), String::from("/p/src/env.d.ts"));
}

#[test]
fn diff_path_same_directory_routes_through_dot() {
    assert_eq!(
        diff_path("/a/b/c.ts", "/a/b/d.ts"),
        Some(String::from("./c.ts"))
    );
}

#[test]
fn diff_path_climbs_out_of_base() {
    assert_eq!(diff_path("/a/b", "/c/d"), Some(String::from("../../a/b")));
    assert_eq!(
        diff_path("/x/one/two.ts", "/x/other/deep/file.ts"),
        Some(String::from("../../../one/two.ts"))
    );
}

#[test]
fn diff_path_prefix_cases() {
    assert_eq!(diff_path("/a/b/c", "/a/b"), Some(String::from("c")));
    assert_eq!(diff_path("/a/b", "/a/b"), Some(String::from("")));
    assert_eq!(diff_path("/a", "/a/b/c"), Some(String::from("../..")));
}

#[test]
fn diff_path_mixed_rootedness_is_none() {
    assert_eq!(diff_path("/a/b", "a/b"), None);
    assert_eq!(diff_path("a/b", "/a/b"), None);
}

#[test]
fn diff_path_base_climbing_is_none() {
    assert_eq!(diff_path("x/y", "../z"), None);
}
