use mizeria::paths::is_absolute_path;
use mizeria::paths::last_component_of;
use mizeria::paths::path_join;
use mizeria::paths::path_starts_with;

#[test]
fn absolute_path_forms() {
    assert!(is_absolute_path("/"));
    assert!(is_absolute_path("/home/user"));
    assert!(is_absolute_path("C:\\dir"));
    assert!(is_absolute_path("C:/dir"));
    assert!(is_absolute_path("\\\\server\\share"));
    assert!(is_absolute_path("\\\\?\\C:\\dir"));
    assert!(!is_absolute_path("relative/path"));
    assert!(!is_absolute_path("C:dir"));
    assert!(!is_absolute_path(""));
}

#[test]
fn ancestor_test_respects_segment_boundaries() {
    assert!(path_starts_with("/a/b", "/a"));
    assert!(path_starts_with("/a/b/c", "/a/b"));
    assert!(path_starts_with("/a", "/a"));
    assert!(path_starts_with("/a/b", "/"));
    assert!(!path_starts_with("/ab", "/a"));
    assert!(!path_starts_with("/a", "/a/b"));
    assert!(path_starts_with("C:\\x\\y", "C:\\x"));
}

#[test]
fn join_uses_the_base_path_style() {
    assert_eq!(path_join("/backup", "snap").as_str(), "/backup/snap");
    assert_eq!(path_join("/backup/", "snap").as_str(), "/backup/snap");
    assert_eq!(path_join("C:\\backup", "snap").as_str(), "C:\\backup\\snap");
    assert_eq!(path_join("", "snap").as_str(), "snap");
    assert_eq!(path_join("/backup", "").as_str(), "/backup");
}

#[test]
fn last_component_follows_the_final_separator() {
    assert_eq!(last_component_of("/backup/2021-07-15_18.34").as_str(), "2021-07-15_18.34");
    assert_eq!(last_component_of("name").as_str(), "name");
    assert_eq!(last_component_of("/backup/").as_str(), "");
    assert_eq!(last_component_of("C:\\b\\snap").as_str(), "snap");
}
