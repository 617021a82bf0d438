//! Path components, compared as `std::path` compares them.

use oci2squashfs::paths::{bytes_start_with, components, normal_component_bytes, same_path};

fn comps(p: &str) -> Vec<Vec<u8>> {
    components(p.as_bytes())
}

fn owned(v: &[&str]) -> Vec<Vec<u8>> {
    v.iter().map(|s| s.as_bytes().to_vec()).collect()
}

#[test]
fn components_of_relative_path() {
    assert_eq!(comps("usr/share/foo"), owned(&["usr", "share", "foo"]));
}

#[test]
fn components_keep_root() {
    assert_eq!(comps("/foo"), owned(&["/", "foo"]));
    assert_eq!(comps("///foo"), owned(&["/", "foo"]));
}

#[test]
fn components_keep_leading_cur_dir_only() {
    assert_eq!(comps("./foo"), owned(&[".", "foo"]));
    assert_eq!(comps(".//foo"), owned(&[".", "foo"]));
    assert_eq!(comps("././foo"), owned(&[".", "foo"]));
    assert_eq!(comps("a/./b/."), owned(&["a", "b"]));
    assert_eq!(comps("."), owned(&["."]));
    assert_eq!(comps("./"), owned(&["."]));
}

#[test]
fn components_keep_parent_dir() {
    assert_eq!(comps("a/../b"), owned(&["a", "..", "b"]));
    assert_eq!(comps(".."), owned(&[".."]));
}

#[test]
fn components_of_empty_and_root() {
    assert_eq!(comps(""), owned(&[]));
    assert_eq!(comps("/"), owned(&["/"]));
}

#[test]
fn same_path_ignores_repeated_and_trailing_separators() {
    assert!(same_path(b"a/b", b"a//b/"));
    assert!(same_path(b"a/./b", b"a/b"));
}

#[test]
fn same_path_distinguishes_root_and_cur_dir() {
    assert!(!same_path(b"./a", b"a"));
    assert!(!same_path(b"/a", b"a"));
    assert!(!same_path(b"a/b", b"a/c"));
}

#[test]
fn normal_components_drop_root_cur_and_parent() {
    assert_eq!(normal_component_bytes(b"/../a/./b/"), owned(&["a", "b"]));
    assert_eq!(normal_component_bytes(b"./"), owned(&[]));
}

#[test]
fn byte_prefix() {
    assert!(bytes_start_with(b"GNU.sparse.size", b"GNU.sparse."));
    assert!(!bytes_start_with(b"GNU.sparse", b"GNU.sparse."));
    assert!(bytes_start_with(b"abc", b""));
}
