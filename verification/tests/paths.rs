//! Paths, taken apart and put together.

use fio_ext4::error::Error;
use fio_ext4::volume::paths::{
    after_prefix, depth_of, directories_along, join, lies_below, place, relative_to, split_last,
    split_path, tidied, trim_end,
};

fn split(path: &str) -> (String, String) {
    split_path(path).unwrap()
}

fn pair(a: &str, b: &str) -> (String, String) {
    (a.to_string(), b.to_string())
}

#[test]
fn paths_split_into_parent_and_name() {
    assert_eq!(split("/etc/hostname"), pair("/etc", "hostname"));
    assert_eq!(split("/etc"), pair("/", "etc"));
    assert_eq!(split("etc"), pair("/", "etc"));
    assert_eq!(split("a/b"), pair("a", "b"));
    assert_eq!(split("/a/b///"), pair("/a", "b"));
    assert_eq!(split("//a"), pair("/", "a"));
    assert_eq!(split("/ä/ö"), pair("/ä", "ö"));
}

#[test]
fn a_path_without_a_name_is_refused() {
    for path in ["/", "", "///"] {
        match split_path(path) {
            Err(Error::InvalidPath(m)) => assert_eq!(m, path),
            other => panic!("{other:?}"),
        }
    }
}

#[test]
fn joining_never_doubles_the_separator() {
    assert_eq!(join("/", "etc"), "/etc");
    assert_eq!(join("/etc", "passwd"), "/etc/passwd");
    assert_eq!(join("", "etc"), "/etc");
}

#[test]
fn splitting_undoes_joining() {
    for dir in ["/", "/a", "/a/b", "rel"] {
        assert_eq!(split(&join(dir, "name")), pair(dir, "name"));
    }
}

#[test]
fn every_directory_along_a_path_comes_after_its_parent() {
    assert_eq!(directories_along("/a/b/c"), ["/a", "/a/b", "/a/b/c"]);
    assert_eq!(directories_along("a//b/"), ["/a", "/a/b"]);
    assert!(directories_along("///").is_empty());
    assert!(directories_along("").is_empty());
}

#[test]
fn archive_paths_land_under_the_base() {
    assert_eq!(place("", "etc/passwd"), "/etc/passwd");
    assert_eq!(place("srv/root", "etc"), "/srv/root/etc");
    assert_eq!(split_last("etc/passwd"), pair("etc", "passwd"));
    assert_eq!(split_last("etc"), pair("", "etc"));
    assert_eq!(split_last("a/b/"), pair("a/b", ""));
}

#[test]
fn names_in_archives_are_relative() {
    assert_eq!(relative_to("", "/etc/passwd"), "etc/passwd");
    assert_eq!(relative_to("/srv", "/srv/a/b"), "a/b");
    assert_eq!(relative_to("", "//x"), "x");
    assert_eq!(trim_end("/srv//"), "/srv");
    assert_eq!(trim_end("/"), "");
}

#[test]
fn separators_and_prefixes_are_counted_and_cut() {
    assert_eq!(depth_of("/a/b/c"), 3);
    assert_eq!(depth_of("plain"), 0);
    assert_eq!(after_prefix(".wh.name", ".wh."), Some("name".to_string()));
    assert_eq!(after_prefix(".wh", ".wh."), None);
    assert_eq!(after_prefix("", ""), Some(String::new()));
}

#[test]
fn places_have_the_components_of_what_they_are_made_of() {
    assert_eq!(
        directories_along(&place("var//lib", "./a/b/")),
        ["/var", "/var/lib", "/var/lib/.", "/var/lib/./a", "/var/lib/./a/b"]
    );
    assert_eq!(directories_along(&place("", "a")), ["/a"]);
}

#[test]
fn spelled_out_paths_tell_places_apart() {
    let spelled = |path: &str| tidied(path).into_iter().collect::<String>();
    assert_eq!(spelled("a//b/"), "/a/b");
    assert_eq!(spelled(&spelled("a//b/")), "/a/b");
    assert_eq!(spelled("//"), "");
    assert!(lies_below(&tidied("/a/b/c"), &tidied("a/b/")));
    assert!(!lies_below(&tidied("/a/bc"), &tidied("/a/b")));
    assert!(!lies_below(&tidied("/a/b"), &tidied("/a/b")));
    assert!(lies_below(&tidied("/a"), &tidied("/")));
}
