use envrc::scope::bytes_eq;
use envrc::scope::contains_path;
use envrc::scope::copy_bytes;
use envrc::scope::find_envrc;
use envrc::scope::in_scope;
use envrc::scope::parent_dir;
use envrc::scope::rc_candidate;

fn p(s: &str) -> Vec<u8> {
    s.as_bytes().to_vec()
}

#[test]
fn parent_of_nested_rc() {
    assert_eq!(parent_dir(&p("/a/b/.envrc")), p("/a/b"));
}

#[test]
fn parent_of_top_level() {
    assert_eq!(parent_dir(&p("/x")), p("/"));
}

#[test]
fn parent_of_root() {
    assert_eq!(parent_dir(&p("/")), p("/"));
}

#[test]
fn scope_contains_its_own_directory() {
    assert!(in_scope(&p("/a/b/.envrc"), &p("/a/b")));
}

#[test]
fn scope_contains_descendants() {
    assert!(in_scope(&p("/a/b/.envrc"), &p("/a/b/c")));
    assert!(in_scope(&p("/a/b/.envrc"), &p("/a/b/c/d/e")));
}

#[test]
fn scope_excludes_ancestors_and_unrelated() {
    assert!(!in_scope(&p("/a/b/.envrc"), &p("/a")));
    assert!(!in_scope(&p("/a/b/.envrc"), &p("/z/b")));
}

#[test]
fn scope_excludes_sibling_with_string_prefix() {
    assert!(!in_scope(&p("/a/b/.envrc"), &p("/a/bc")));
    assert!(!in_scope(&p("/a/b/.envrc"), &p("/a/bc/d")));
}

#[test]
fn root_scope_contains_everything() {
    assert!(in_scope(&p("/.envrc"), &p("/")));
    assert!(in_scope(&p("/.envrc"), &p("/anything/at/all")));
}

#[test]
fn candidate_joins_with_separator() {
    assert_eq!(rc_candidate(&p("/w")), p("/w/.envrc"));
}

#[test]
fn candidate_at_root_adds_no_second_slash() {
    assert_eq!(rc_candidate(&p("/")), p("/.envrc"));
}

#[test]
fn locate_prefers_the_nearest_rc() {
    let existing = vec![p("/a/.envrc"), p("/a/b/.envrc")];
    assert_eq!(find_envrc(&p("/a/b/c"), &existing), Some(p("/a/b/.envrc")));
}

#[test]
fn locate_walks_up_to_an_ancestor() {
    let existing = vec![p("/a/.envrc")];
    assert_eq!(find_envrc(&p("/a/b/c"), &existing), Some(p("/a/.envrc")));
}

#[test]
fn locate_includes_the_start_directory() {
    let existing = vec![p("/a/b/c/.envrc")];
    assert_eq!(find_envrc(&p("/a/b/c"), &existing), Some(p("/a/b/c/.envrc")));
}

#[test]
fn locate_reaches_the_root() {
    let existing = vec![p("/.envrc")];
    assert_eq!(find_envrc(&p("/a/b"), &existing), Some(p("/.envrc")));
}

#[test]
fn locate_finds_nothing_without_rc() {
    let existing: Vec<Vec<u8>> = Vec::new();
    assert_eq!(find_envrc(&p("/a/b"), &existing), None);
}

#[test]
fn byte_helpers_behave() {
    assert!(bytes_eq(&p("/a"), &p("/a")));
    assert!(!bytes_eq(&p("/a"), &p("/b")));
    assert!(!bytes_eq(&p("/a"), &p("/ab")));
    assert_eq!(copy_bytes(&p("/a/b")), p("/a/b"));
    let list = vec![p("/a"), p("/b")];
    assert!(contains_path(&list, &p("/b")));
    assert!(!contains_path(&list, &p("/c")));
}
