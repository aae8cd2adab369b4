use postflight::order::Place;
use postflight::path::{compare_paths, file_name_of, join_path, parent_of, strip_base};
use postflight::path_set::PathSet;
use std::cmp::Ordering;
use std::path::Path;

const PATHS: [&str; 28] = [
    "", "/", "//", ".", "..", "./", "../", "a", "a/", "a//", "/a", "//a", "a/b", "a//b", "a/./b",
    "./a", "././a", "a/.", "a/..", "/a/../b", "/home/user/project", "/home/user/project/src/x.rs",
    "/home//user/./project/src/", ".hidden/file", "a.b/c", "ä/ö", "a b/c", "...",
];

fn text(path: &Path) -> String {
    path.to_str().unwrap().to_string()
}

#[test]
fn parents_are_those_of_the_standard_library() {
    for path in PATHS {
        let expected = Path::new(path).parent().map(text);
        assert_eq!(parent_of(path), expected, "{path:?}");
    }
}

#[test]
fn file_names_are_those_of_the_standard_library() {
    for path in PATHS {
        let expected = Path::new(path).file_name().map(|name| name.to_str().unwrap().to_string());
        assert_eq!(file_name_of(path), expected, "{path:?}");
    }
}

#[test]
fn joined_paths_are_those_of_the_standard_library() {
    for dir in PATHS {
        for name in PATHS {
            assert_eq!(join_path(dir, name), text(&Path::new(dir).join(name)), "{dir:?} {name:?}");
        }
    }
}

#[test]
fn remainders_are_those_of_the_standard_library() {
    for path in PATHS {
        for base in PATHS {
            let expected = Path::new(path).strip_prefix(base).ok().map(text);
            assert_eq!(strip_base(path, base), expected, "{path:?} {base:?}");
        }
    }
}

#[test]
fn the_order_of_paths_is_that_of_the_standard_library() {
    for a in PATHS {
        for b in PATHS {
            let expected = match Path::new(a).cmp(Path::new(b)) {
                Ordering::Less => Place::Before,
                Ordering::Equal => Place::Same,
                Ordering::Greater => Place::After,
            };
            assert!(compare_paths(a, b) == expected, "{a:?} {b:?}");
        }
    }
}

#[test]
fn a_set_of_paths_holds_each_path_once_in_order() {
    let mut set = PathSet::new();
    assert!(set.insert("b/c".to_string()));
    assert!(set.insert("a".to_string()));
    assert!(!set.insert("b//c/".to_string()));
    assert!(set.insert("b".to_string()));
    assert_eq!(set.to_list(), vec!["a", "b", "b/c"]);
}
