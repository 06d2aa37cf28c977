use std::path::Path;

use bevy_sfz::path::{file_stem, is_relative, join, normalized, parent};

const PATHS: [&str; 34] = [
    "", ".", "..", "/", "//", "/.", "/..", "./", "../", "a", "a/", "/a", "//a", "a/b", "a//b",
    "a/./b", "./a", "././a", "a/.", "a/..", "a/b/", "/a/b", "/a/b/../c.sfz", "a.sfz", "x/.hidden",
    "x/.hidden.sfz", "x/two.dots.sfz", "x/trailing.", "...", "/./a", "a/b/c/d.wav",
    "sp ace/f\u{fc}r.sfz", "\u{266a}/\u{266b}.sfz", "a/.b./c",
];

#[test]
fn parent_agrees_with_std() {
    for path in PATHS {
        let expected = Path::new(path).parent().map(|p| p.to_str().unwrap().to_string());
        assert_eq!(parent(path), expected, "{path:?}");
    }
}

#[test]
fn file_stem_agrees_with_std() {
    for path in PATHS {
        let expected = Path::new(path).file_stem().map(|p| p.to_str().unwrap().to_string());
        assert_eq!(file_stem(path), expected, "{path:?}");
    }
}

#[test]
fn is_relative_agrees_with_std() {
    for path in PATHS {
        assert_eq!(is_relative(path), Path::new(path).is_relative(), "{path:?}");
    }
}

#[test]
fn join_agrees_with_std() {
    for base in PATHS {
        for path in PATHS {
            let expected = Path::new(base).join(path);
            assert_eq!(join(base, path), expected.to_str().unwrap(), "{base:?} {path:?}");
        }
    }
}

#[test]
fn normal_forms_agree_when_std_paths_do() {
    for a in PATHS {
        for b in PATHS {
            let same = Path::new(a) == Path::new(b);
            assert_eq!(normalized(a) == normalized(b), same, "{a:?} {b:?}");
        }
    }
}

#[test]
fn normal_form_names_the_same_path() {
    for path in PATHS {
        let normal = normalized(path);
        assert_eq!(Path::new(&normal), Path::new(path));
        assert_eq!(normalized(&normal), normal);
    }
}

#[test]
fn normal_form_values() {
    assert_eq!(normalized("a//b/./c/"), "a/b/c");
    assert_eq!(normalized("./a"), "./a");
    assert_eq!(normalized("//a/./"), "/a");
    assert_eq!(normalized(""), "");
    assert_eq!(normalized("/"), "/");
}

#[test]
fn parent_and_stem_values() {
    assert_eq!(parent("sfz/piano//grand.sfz"), Some("sfz/piano".to_string()));
    assert_eq!(parent("grand.sfz"), Some(String::new()));
    assert_eq!(parent("/"), None);
    assert_eq!(file_stem("sfz/grand.v2.sfz"), Some("grand.v2".to_string()));
    assert_eq!(file_stem("sfz/.."), None);
}
