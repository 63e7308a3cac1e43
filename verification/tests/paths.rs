use architext_viewer::paths::{format_location, is_repo_relative_path, shorten_absolute_path};

#[test]
fn repo_relative_paths_are_recognised() {
    assert!(is_repo_relative_path("crates/roboticus-agent/src/loop.rs"));
    assert!(is_repo_relative_path("main.go"));
    assert!(is_repo_relative_path("a/b/c.rs"));
}

#[test]
fn absolute_and_home_paths_are_rejected() {
    assert!(!is_repo_relative_path("/Users/jmachen/Library/Caches/go-build/81/8162abc-d"));
    assert!(!is_repo_relative_path("~/Library/Caches/go-build/x"));
    assert!(!is_repo_relative_path("C:\\Users\\jon\\AppData\\x.go"));
    assert!(!is_repo_relative_path("C:/Users/jon/x.go"));
}

#[test]
fn format_location_renders_relative_paths_unchanged() {
    assert_eq!(format_location("main.go", 7), "main.go:7");
    assert_eq!(
        format_location("crates/roboticus-agent/src/loop.rs", 23),
        "crates/roboticus-agent/src/loop.rs:23"
    );
}

#[test]
fn format_location_marks_absolute_paths_as_not_a_repository_file() {
    let loc = format_location("/Users/jmachen/Library/Caches/go-build/81/8162abc-d", 42);
    assert!(loc.contains(":42"));
    assert!(loc.to_lowercase().contains("not a repository file"));
    assert!(!loc.starts_with("/Users/jmachen"), "must not render the raw absolute path: {loc}");
    assert!(loc.contains("8162abc-d"), "should keep enough context to be meaningful: {loc}");
    assert_eq!(
        loc,
        ".../81/8162abc-d:42 — not a repository file (absolute path outside the repo)"
    );
}

#[test]
fn shorten_absolute_path_keeps_last_two_segments() {
    assert_eq!(
        shorten_absolute_path("/Users/jmachen/Library/Caches/go-build/81/8162abc-d"),
        ".../81/8162abc-d"
    );
    assert_eq!(shorten_absolute_path("/tmp"), "/tmp");
}

#[test]
fn shorten_splits_on_both_separators_and_skips_empty_segments() {
    assert_eq!(shorten_absolute_path("C:\\Users\\jon\\AppData\\x.go"), ".../AppData/x.go");
    assert_eq!(shorten_absolute_path("//a//b//"), "//a//b//");
    assert_eq!(shorten_absolute_path("/a//b/c/"), ".../b/c");
}

#[test]
fn line_numbers_render_in_plain_decimal() {
    assert_eq!(format_location("x.go", 0), "x.go:0");
    assert_eq!(format_location("x.go", 4294967295), "x.go:4294967295");
    assert_eq!(format_location("~/x.go", 10), "~/x.go:10 — not a repository file (absolute path outside the repo)");
}
