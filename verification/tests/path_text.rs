use oxyromon::path::{extension_of, file_name_of, join_path, with_extension_of};
use oxyromon::text::{chars_of, first_line_of, lex_less, str_contains};
use std::path::{Path, PathBuf};

const SAMPLES: &[&str] = &[
    "",
    "/",
    ".",
    "..",
    "a",
    "a.b",
    "a.b.c",
    ".bashrc",
    "..x",
    "a.",
    "foo.txt/.",
    "foo.txt/.//",
    "foo.txt/..",
    "dir/sub/game.zip",
    "dir/sub/game.zip/",
    "/abs/path/Game (USA).chd",
    "./x.iso",
    "a//b.wbfs",
    "a/./b.cso",
    "weird/.hidden.tar.gz",
];

fn std_file_name(p: &str) -> Option<String> {
    Path::new(p).file_name().map(|n| n.to_str().unwrap().to_string())
}

fn std_extension(p: &str) -> Option<String> {
    Path::new(p).extension().map(|n| n.to_str().unwrap().to_string())
}

#[test]
fn file_name_agrees_with_std() {
    for p in SAMPLES {
        assert_eq!(file_name_of(p), std_file_name(p), "file name of {:?}", p);
    }
}

#[test]
fn extension_agrees_with_std() {
    for p in SAMPLES {
        assert_eq!(extension_of(p), std_extension(p), "extension of {:?}", p);
    }
}

#[test]
fn join_agrees_with_std() {
    let dirs = ["", "/", "roms", "roms/", "/roms/System"];
    let names = ["", "game.zip", "/abs.zip", "sub/game.iso", "Game (USA, Europe).7z"];
    for d in dirs {
        for n in names {
            let expected = Path::new(d).join(n).to_str().unwrap().to_string();
            assert_eq!(join_path(d, n), expected, "join of {:?} and {:?}", d, n);
        }
    }
}

#[test]
fn with_extension_agrees_with_std() {
    for p in SAMPLES {
        for e in ["", "iso", "wbfs", "tar.gz"] {
            let mut expected = PathBuf::from(p);
            expected.set_extension(e);
            assert_eq!(
                with_extension_of(p, e),
                expected.to_str().unwrap().to_string(),
                "{:?} with extension {:?}",
                p,
                e
            );
        }
    }
}

#[test]
fn file_name_examples() {
    assert_eq!(file_name_of("roms/Game.zip"), Some("Game.zip".to_string()));
    assert_eq!(file_name_of("roms/"), Some("roms".to_string()));
    assert_eq!(file_name_of("a/.."), None);
    assert_eq!(extension_of(".bashrc"), None);
    assert_eq!(extension_of("a.tar.gz"), Some("gz".to_string()));
    assert_eq!(with_extension_of("dir/game.wbfs", "iso"), "dir/game.iso");
    assert_eq!(with_extension_of("dir/game", "iso"), "dir/game.iso");
    assert_eq!(join_path("roms", "System"), "roms/System");
}

#[test]
fn contains_examples() {
    assert!(str_contains("USA, Europe", "Europe"));
    assert!(str_contains("USA", ""));
    assert!(!str_contains("USA", "Japan"));
    assert!(!str_contains("", "USA"));
    assert!(str_contains("Japan", "Japan"));
    assert!(!str_contains("Jap", "Japan"));
}

#[test]
fn first_line_examples() {
    assert_eq!(first_line_of(""), None);
    assert_eq!(first_line_of("one\ntwo"), Some("one".to_string()));
    assert_eq!(first_line_of("one\r\ntwo"), Some("one".to_string()));
    assert_eq!(first_line_of("one\r"), Some("one\r".to_string()));
    assert_eq!(first_line_of("\nsecond"), Some("".to_string()));
    for s in ["", "a", "a\nb", "a\r\nb", "\r\n", "x\r", "\n\n"] {
        assert_eq!(first_line_of(s), s.lines().next().map(|l| l.to_string()), "first line of {:?}", s);
    }
}

#[test]
fn lex_order_examples() {
    let a = chars_of("abc");
    let b = chars_of("abd");
    let c = chars_of("ab");
    assert!(lex_less(&a, &b));
    assert!(!lex_less(&b, &a));
    assert!(lex_less(&c, &a));
    assert!(!lex_less(&a, &a));
    for (x, y) in [("a", "b"), ("B", "a"), ("é", "z"), ("zz", "z"), ("", "a")] {
        assert_eq!(lex_less(&chars_of(x), &chars_of(y)), x < y, "{:?} < {:?}", x, y);
    }
}

#[test]
fn joined_plain_names_are_file_names() {
    for d in ["", "/", "roms", "roms/", "a/b/."] {
        for n in ["game.zip", "x", ".hidden", "..."] {
            assert_eq!(file_name_of(&join_path(d, n)), Some(n.to_string()));
        }
    }
}

#[test]
fn new_extension_is_the_extension() {
    for p in ["a", "a.b", ".bashrc", "dir/file.tar.gz", "foo.txt/.", "x/y/"] {
        for e in ["iso", "wbfs", "z"] {
            assert_eq!(extension_of(&with_extension_of(p, e)), Some(e.to_string()), "{:?} {:?}", p, e);
        }
    }
}
