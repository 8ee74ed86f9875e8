use makegen::filename_utils::{has_extension, is_hidden, strip_extension};
use std::path::Path;

fn std_has_extension(path: &str, ext: &str) -> bool {
    Path::new(path)
        .extension()
        .map(|e| e.to_str().unwrap_or("") == ext)
        .unwrap_or(false)
}

#[test]
fn strip_extension_cuts_at_the_first_dot() {
    assert_eq!(strip_extension("main.c"), "main");
    assert_eq!(strip_extension("src/util.test.cpp"), "src/util");
    assert_eq!(strip_extension("Makefile"), "Makefile");
    assert_eq!(strip_extension(".hidden"), "");
    assert_eq!(strip_extension(""), "");
    assert_eq!(strip_extension("dir.d/file"), "dir");
    assert_eq!(strip_extension("h\u{e9}llo.c"), "h\u{e9}llo");
}

#[test]
fn has_extension_agrees_with_the_standard_library() {
    let paths = [
        "", ".", "..", "/", "a", "a.c", "a.cpp", "a.", ".c", "..c", "a.b.c", "dir/a.c", "dir.c/a",
        "dir.c/", "dir.c/.", "dir.c/..", "a.c/", "a.c//", "a.c/./", "./a.c", "../a.c", "/a.c",
        "a/.c", "a/..c", "a/b.c.", "...", "a.c/..", "x/./y.c/.", "c", ".c.c", "a..c",
        "h\u{e9}.c", "a.\u{e9}",
    ];
    let exts = ["c", "cpp", "", ".c", "h", "\u{e9}", "c."];
    for p in paths.iter() {
        for e in exts.iter() {
            assert_eq!(has_extension(p, e), std_has_extension(p, e), "{:?} {:?}", p, e);
        }
    }
}

#[test]
fn has_extension_names_the_last_component() {
    assert!(has_extension("src/main.c", "c"));
    assert!(!has_extension("src/main.c", "cpp"));
    assert!(!has_extension("src.c/main", "c"));
    assert!(has_extension("a.b.cpp", "cpp"));
    assert!(!has_extension(".c", "c"));
    assert!(has_extension("a.", ""));
}

#[test]
fn is_hidden_looks_at_the_first_character() {
    assert!(is_hidden(".git"));
    assert!(is_hidden("."));
    assert!(!is_hidden("src"));
    assert!(!is_hidden(""));
    assert!(!is_hidden("a.b"));
}
