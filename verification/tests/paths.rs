//! Paths as they are written.

use tomte::paths::{
    components_behind, components_of, extension_of, file_name_of, first_components, is_same_path,
    join, parent_dir, strip_base,
};

#[test]
fn a_parent_is_a_part_of_the_path_as_it_is_written() {
    assert_eq!(parent_dir("/a//b/c").as_deref(), Some("/a//b"));
    assert_eq!(parent_dir("/a/./b/").as_deref(), Some("/a"));
    assert_eq!(parent_dir("/a").as_deref(), Some("/"));
    assert_eq!(parent_dir("a").as_deref(), Some(""));
    assert_eq!(parent_dir("./a").as_deref(), Some("."));
    assert_eq!(parent_dir("/"), None);
    assert_eq!(parent_dir(""), None);
}

#[test]
fn what_lies_below_a_directory_is_a_part_of_the_path_as_it_is_written() {
    assert_eq!(
        strip_base("/home/u//.config//zed/x", "/home/u").as_deref(),
        Some(".config//zed/x")
    );
    assert_eq!(strip_base("/home/u", "/home/u/").as_deref(), Some(""));
    assert_eq!(strip_base("/home/user", "/home/u"), None);
    assert_eq!(strip_base("home/u", "/home"), None);
}

#[test]
fn the_parts_of_a_path_have_its_components() {
    let p = "/a//b/./c/";
    let all = components_of(p);
    assert_eq!(all, vec!["/", "a", "b", "c"]);
    for n in 0..=all.len() {
        assert_eq!(components_of(&first_components(p, n)), all[..n].to_vec());
        assert_eq!(components_of(&components_behind(p, n)), all[n..].to_vec());
    }
}

#[test]
fn names_and_extensions_are_those_of_the_last_component() {
    assert_eq!(file_name_of("/a/b.tmpl/").as_deref(), Some("b.tmpl"));
    assert_eq!(file_name_of("/a/.."), None);
    assert_eq!(extension_of("/a/b.tmpl").as_deref(), Some("tmpl"));
    assert_eq!(extension_of("/a/.rc"), None);
    assert!(is_same_path("/a//b/", "/a/b"));
    assert!(!is_same_path("/a/b", "a/b"));
    assert_eq!(join("/a", "b"), "/a/b");
    assert_eq!(join("/a/", "b"), "/a/b");
    assert_eq!(join("/a", "/b"), "/b");
}
