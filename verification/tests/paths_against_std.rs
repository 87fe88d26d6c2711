use std::path::Path;

use knot::paths::directory_of;
use knot::paths::file_name;
use knot::paths::has_directory;

const PATHS: [&str; 24] = ["", "/", "//", ".", "..", "./", "a", "/a", "//a", "./a", "../a", "a/", "a/b",
                           "a//b", "a/./b", "a/../b", "a/b/", "a/b/.", "/a/b/..", "./a/b", "x/.hidden",
                           "src/deep/f.rs", "/repo/.git/index", "a/b/c/"];

#[test]
fn the_file_name_is_the_one_std_reads() {
    for p in PATHS {
        let std_name = Path::new(p).file_name().map(|n| n.to_str().unwrap());
        assert_eq!(file_name(p), std_name, "{p:?}");
    }
}

#[test]
fn the_directory_is_the_parent_std_reads() {
    for p in PATHS {
        let std_parent = Path::new(p).parent()
                                     .filter(|d| !d.as_os_str().is_empty())
                                     .map(|d| d.to_str().unwrap());
        assert_eq!(directory_of(p), std_parent, "{p:?}");
        assert_eq!(has_directory(p), std_parent.is_some(), "{p:?}");
    }
}
