use rustyshell::path::{components, ends_with, join, walk, AbsPath};
use rustyshell::text::split_str;

fn abs(parts: &[&str]) -> AbsPath {
    AbsPath { parts: parts.iter().map(|s| s.to_string()).collect() }
}

#[test]
fn components_drop_empty_and_dot_pieces() {
    assert_eq!(components("a/./b//c/"), vec!["a", "b", "c"]);
    assert_eq!(components("/x/../y"), vec!["x", "..", "y"]);
    assert_eq!(components(""), Vec::<String>::new());
    assert_eq!(components("."), Vec::<String>::new());
}

#[test]
fn join_relative_appends() {
    let p = join(&abs(&["home", "u"]), "set1");
    assert_eq!(p.parts, vec!["home", "u", "set1"]);
    let p = join(&abs(&["home", "u"]), "set1__TEMP");
    assert_eq!(p.parts, vec!["home", "u", "set1__TEMP"]);
    let p = join(&abs(&["home"]), "./a/b");
    assert_eq!(p.parts, vec!["home", "a", "b"]);
}

#[test]
fn join_absolute_replaces() {
    let p = join(&abs(&["home", "u"]), "/tmp/x");
    assert_eq!(p.parts, vec!["tmp", "x"]);
}

#[test]
fn walk_goes_down_and_up() {
    let base = abs(&["r", "g"]);
    let p = walk(&base, &split_str("sub/../x", '/'));
    assert_eq!(p.parts, vec!["r", "g", "x"]);
    let p = walk(&base, &split_str("x/..", '/'));
    assert_eq!(p.parts, base.parts);
    let p = walk(&abs(&[]), &split_str("../..", '/'));
    assert!(p.parts.is_empty());
    let p = walk(&base, &split_str("./a//b/", '/'));
    assert_eq!(p.parts, vec!["r", "g", "a", "b"]);
}

#[test]
fn walk_in_steps_matches_walk_at_once() {
    let base = abs(&["r", "g"]);
    let once = walk(&base, &split_str("a/../b/c", '/'));
    let first = walk(&base, &split_str("a/..", '/'));
    let second = walk(&first, &split_str("b/c", '/'));
    assert_eq!(once.parts, second.parts);
}

#[test]
fn ends_with_compares_components() {
    let cwd = abs(&["home", "u", "set1", "dir"]);
    assert!(ends_with(&cwd, "dir"));
    assert!(ends_with(&cwd, "set1/dir"));
    assert!(ends_with(&cwd, "set1//dir/"));
    assert!(!ends_with(&cwd, "ir"));
    assert!(ends_with(&cwd, ""));
    assert!(!ends_with(&cwd, "./dir"));
    assert!(!ends_with(&cwd, "."));
    assert!(ends_with(&cwd, "/home/u/set1/dir"));
    assert!(!ends_with(&cwd, "/u/set1/dir"));
}

#[test]
fn ends_with_agrees_with_std() {
    let cwd = abs(&["home", "u", "set1", "dir"]);
    let real = std::path::Path::new("/home/u/set1/dir");
    for child in ["dir", "set1/dir", "./dir", ".", "", "/home/u/set1/dir", "u", "x/dir", "dir/"].iter() {
        assert_eq!(ends_with(&cwd, child), real.ends_with(child), "child {:?}", child);
    }
}

#[test]
fn same_as_and_prefix() {
    let a = abs(&["r"]);
    let b = abs(&["r", "g"]);
    assert!(a.is_prefix(&b));
    assert!(!b.is_prefix(&a));
    assert!(b.is_prefix(&b));
    assert!(b.same_as(&b.duplicate()));
    assert!(!a.same_as(&b));
    assert!(AbsPath::root().is_prefix(&a));
}
