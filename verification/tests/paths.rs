use yassg::path::can_concat_path;
use yassg::path::concat_path;
use yassg::path::resolve_path;

fn strings(parts: &[&str]) -> Vec<String> {
    parts.iter().map(|part| part.to_string()).collect()
}

#[test]
fn resolve_path_keeps_plain_components() {
    assert_eq!(resolve_path("a/b/c"), Some(strings(&["a", "b", "c"])));
}

#[test]
fn resolve_path_drops_leading_slashes() {
    assert_eq!(resolve_path("//a/b"), Some(strings(&["a", "b"])));
}

#[test]
fn resolve_path_skips_current_directory_and_empty_pieces() {
    assert_eq!(resolve_path("a/./b//c/"), Some(strings(&["a", "b", "c"])));
}

#[test]
fn resolve_path_steps_back_on_parent() {
    assert_eq!(resolve_path("a/b/../c"), Some(strings(&["a", "c"])));
}

#[test]
fn resolve_path_of_empty_path_has_no_component() {
    assert_eq!(resolve_path(""), Some(strings(&[])));
}

#[test]
fn resolve_path_fails_when_parent_leaves_the_root() {
    assert_eq!(resolve_path("a/../.."), None);
    assert_eq!(resolve_path(".."), None);
}

#[test]
fn concat_path_appends_relative_path() {
    assert_eq!(concat_path("a/b", "c"), Some("a/b/c".to_string()));
}

#[test]
fn concat_path_takes_absolute_right_side_alone() {
    assert_eq!(concat_path("a/b", "/c/d"), Some("c/d".to_string()));
}

#[test]
fn concat_path_resolves_parent_and_current() {
    assert_eq!(concat_path("a/b", "../c/./d"), Some("a/c/d".to_string()));
}

#[test]
fn concat_path_keeps_empty_pieces() {
    assert_eq!(concat_path("a", "b//c"), Some("a/b//c".to_string()));
    assert_eq!(concat_path("", ""), Some("".to_string()));
}

#[test]
fn concat_path_fails_when_parent_leaves_the_root() {
    assert_eq!(concat_path("a", "../.."), None);
}

#[test]
fn concat_path_may_start_or_end_with_a_slash() {
    assert_eq!(concat_path("a", "..//b"), Some("/b".to_string()));
    assert_eq!(concat_path("a", "b/"), Some("a/b/".to_string()));
}

#[test]
fn can_concat_path_tells_which_paths_resolve_to_nothing() {
    assert!(can_concat_path("a/b", "c"));
    assert!(can_concat_path("", ""));
    assert!(can_concat_path("a", "../.."));
    assert!(!can_concat_path("a", ".."));
    assert!(!can_concat_path("", "."));
    assert!(!can_concat_path("x", "/./a/.."));
}
