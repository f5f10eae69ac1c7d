use cs2_dumper::paths::{comes_before, join, name_of_path, Style};
use std::path::Path;

/// Paths of every shape, as far as Unix is concerned.
const UNIX: [&str; 20] = [
    "",
    "/",
    "//",
    ".",
    "..",
    "./a",
    "a",
    "a/",
    "a/.",
    "a/./b",
    "a//b",
    "a/..",
    "/a",
    "/a/b",
    "/a-b",
    "/a/B",
    "C:\\a\\b",
    "C:a",
    ".a",
    "...",
];

/// On Unix the standard library can be asked.
#[test]
fn unix_paths_are_read_as_the_system_does() {
    if std::path::MAIN_SEPARATOR != '/' {
        return;
    }
    for a in UNIX {
        let name = Path::new(a).file_name().map(|name| name.to_string_lossy().into_owned());
        assert_eq!(name_of_path(Style::Unix, a), name.unwrap_or_default(), "{a}");
        for b in UNIX {
            let whole = Path::new(a).join(b).to_string_lossy().into_owned();
            assert_eq!(join(Style::Unix, a, b), whole, "{a} and {b}");
            assert_eq!(
                comes_before(Style::Unix, a, b),
                Path::new(a) < Path::new(b),
                "{a} before {b}"
            );
        }
    }
}

#[test]
fn the_name_stands_behind_the_prefix() {
    let name = |path: &str| name_of_path(Style::Windows, path);
    assert_eq!(name(r"C:\Games\CSGO"), "CSGO");
    assert_eq!(name(r"C:\Games/CSGO\.\"), "CSGO");
    assert_eq!(name("C:foo"), "foo");
    assert_eq!(name("1:"), "1:");
    assert_eq!(name("1:foo"), "1:foo");
    assert_eq!(name("C:"), "");
    assert_eq!(name(r"C:\"), "");
    assert_eq!(name(r"C:\a\.."), "");
    assert_eq!(name("."), "");
    assert_eq!(name(r"\\server\share"), "");
    assert_eq!(name(r"\\server\share\games"), "games");
    assert_eq!(name(r"\\server"), "server");
    assert_eq!(name("//server/share/games"), "games");
    assert_eq!(name(r"\\.\COM42"), "");
    assert_eq!(name(r"\\.\COM42\x"), "x");
    assert_eq!(name(r"\\?\C:\Games\a/b"), "a/b");
    assert_eq!(name(r"\\?\C:"), "");
    assert_eq!(name(r"\\?\C:\Games\."), "");
    assert_eq!(name(r"\\?\UNC\server\share"), "");
    assert_eq!(name(r"\\?\UNC\server\share\x"), "x");
    assert_eq!(name(r"\\?\volume\x"), "x");
}

fn same(a: &str, b: &str) -> bool {
    !comes_before(Style::Windows, a, b) && !comes_before(Style::Windows, b, a)
}

#[test]
fn windows_paths_are_ordered_by_their_components() {
    assert!(same(r"C:\a\b", "c:/a//b/"));
    assert!(same(r"C:\a\.\b", r"C:\a\b"));
    assert!(same(r"\\server\share\", r"\\server\share"));
    assert!(!same(r"C:\a", r"C:\A"));
    assert!(!same(r"C:\a", "C:a"));
    assert!(!same(r".\a", "a"));
    assert!(same(r"C:.\a", r"C:./a/."));
    let ascending = [
        r"\\?\volume\x",
        r"\\?\UNC\server\share",
        r"\\?\C:\a",
        r"\\.\COM42",
        r"\\server\share",
        r"\\server\share\a",
        r"\\server\z",
        "C:",
        r"C:\",
        r"C:\a",
        r"C:\a\b",
        r"C:\a-b",
        "C:a",
        r"d:\a",
        r"\a",
        ".",
        r".\a",
        "..",
        "1:",
        "a",
    ];
    for (i, a) in ascending.iter().enumerate() {
        for (j, b) in ascending.iter().enumerate() {
            assert_eq!(comes_before(Style::Windows, a, b), i < j, "{a} before {b}");
        }
    }
}

#[test]
fn windows_paths_are_joined() {
    let joined = |path: &str, part: &str| join(Style::Windows, path, part);
    assert_eq!(joined(r"C:\a", "b"), r"C:\a\b");
    assert_eq!(joined("C:/a", "b"), r"C:/a\b");
    assert_eq!(joined(r"C:\", "b"), r"C:\b");
    assert_eq!(joined("C:", "b"), "C:b");
    assert_eq!(joined("1:", "b"), r"1:\b");
    assert_eq!(joined("", "b"), "b");
    assert_eq!(joined("a", ""), r"a\");
    assert_eq!(joined(r"C:\a", r"D:\b"), r"D:\b");
    assert_eq!(joined(r"C:\a", "D:b"), "D:b");
    assert_eq!(joined(r"C:\a", r"\b"), r"C:\b");
    assert_eq!(joined(r"\\server\share\a", "/b"), r"\\server\share/b");
    assert_eq!(joined(r"\\server\share", "b"), r"\\server\share\b");
    assert_eq!(joined(r"\\?\C:\a", r"b/.\..\c"), r"\\?\C:\a\c");
    assert_eq!(joined(r"\\?\C:", "b"), r"\\?\C:\b");
    assert_eq!(joined(r"\\?\C:\a", r"\b"), r"\\?\C:\b");
    assert_eq!(joined(r"\\?\C:\a", ""), r"\\?\C:\a\");
}
