//! Paths as texts, held against what the standard library makes of them.

use std::path::Path;

use atp::host::Host;
use atp::path;
use atp::path::Place;

const SAMPLES: [&str; 24] = [
    "", "/", "//", ".", "..", "./", "./a", "a", "a/", "a/b", "a//b", "a/./b", "a/../b", "/a",
    "/a/", "/a/b.c", "/a/b.c/", "a.b.c", ".hidden", "a/.hidden", "a/..", "/..", "a\\b", "x.",
];

fn text(path: &Path) -> String {
    path.to_string_lossy().into_owned()
}

#[test]
fn parts_of_a_path_are_those_of_the_standard_library() {
    for sample in SAMPLES {
        let real = Path::new(sample);
        assert_eq!(path::parent_of(Host::Wsl, sample), real.parent().map(text), "{sample:?}");
        assert_eq!(
            path::file_name_of(Host::Wsl, sample),
            real.file_name().map(|name| name.to_string_lossy().into_owned()),
            "{sample:?}"
        );
        assert_eq!(
            path::file_stem_of(Host::Wsl, sample),
            real.file_stem().map(|name| name.to_string_lossy().into_owned()),
            "{sample:?}"
        );
        assert_eq!(
            path::extension_of(Host::Wsl, sample),
            real.extension().map(|name| name.to_string_lossy().into_owned()),
            "{sample:?}"
        );
        assert_eq!(path::is_absolute(Host::Wsl, sample), real.is_absolute(), "{sample:?}");
        let above: Vec<String> = real.ancestors().map(text).collect();
        assert_eq!(path::ancestors_of(Host::Wsl, sample), above, "{sample:?}");
    }
}

#[test]
fn joining_and_shortening_are_those_of_the_standard_library() {
    for base in SAMPLES {
        for rest in SAMPLES {
            let real = Path::new(base).join(rest);
            assert_eq!(path::join(Host::Wsl, base, rest), text(&real), "{base:?} {rest:?}");
            let shown = match Path::new(rest).strip_prefix(base) {
                Ok(below) if !below.as_os_str().is_empty() => text(below),
                _ => rest.to_string(),
            };
            assert_eq!(path::below_of(Host::Wsl, rest, base), shown, "{base:?} {rest:?}");
        }
    }
}

#[test]
fn sorting_is_that_of_the_standard_library() {
    let mut real: Vec<&Path> = SAMPLES.iter().map(Path::new).collect();
    real.sort();
    let expected: Vec<String> = real.into_iter().map(text).collect();
    let given: Vec<String> = SAMPLES.iter().map(|sample| sample.to_string()).collect();
    assert_eq!(path::sort_paths(Host::Wsl, given), expected);
}

#[test]
fn windows_paths_have_drives_and_shares() {
    let host = Host::Windows;
    assert!(path::is_absolute(host, "C:\\a"));
    assert!(path::is_absolute(host, "c:/a"));
    assert!(path::is_absolute(host, "\\\\server\\share"));
    assert!(!path::is_absolute(host, "C:a"));
    assert!(!path::is_absolute(host, "\\a"));
    assert!(!path::is_absolute(host, "a\\b"));
    assert_eq!(path::join(host, "C:\\a", "b"), "C:\\a\\b");
    assert_eq!(path::join(host, "C:\\a\\", "b"), "C:\\a\\b");
    assert_eq!(path::join(host, "C:\\a", "D:\\b"), "D:\\b");
    assert_eq!(path::join(host, "C:\\a", "\\b"), "C:\\b");
    assert_eq!(path::join(host, "\\\\server\\share\\a", "\\b"), "\\\\server\\share\\b");
    assert_eq!(path::parent_of(host, "C:\\a"), Some("C:\\".into()));
    assert_eq!(path::parent_of(host, "C:\\"), None);
    assert_eq!(path::directory_of(host, "C:\\"), ".");
    assert_eq!(path::file_name_of(host, "C:\\a\\b.c"), Some("b.c".into()));
    assert_eq!(path::below_of(host, "c:\\a\\b\\c", "C:/a"), "b\\c");
}

#[test]
fn windows_paths_may_be_taken_as_they_are_written() {
    let host = Host::Windows;
    for path in ["\\\\?\\C:\\x", "\\\\?\\UNC\\server\\share", "\\\\?\\name", "\\\\.\\COM1"] {
        assert!(path::is_absolute(host, path), "{path}");
    }
    assert_eq!(path::parent_of(host, "\\\\?\\C:\\x"), Some("\\\\?\\C:\\".into()));
    assert_eq!(path::parent_of(host, "\\\\?\\C:\\"), None);
    assert_eq!(
        path::parent_of(host, "\\\\?\\UNC\\server\\share\\a\\b"),
        Some("\\\\?\\UNC\\server\\share\\a".into())
    );
    assert_eq!(path::parent_of(host, "\\\\?\\UNC\\server\\share"), None);
    assert_eq!(path::parent_of(host, "\\\\.\\COM1"), None);
    // A slash is part of a name, and a dot is a part.
    assert_eq!(path::file_name_of(host, "\\\\?\\C:\\a/b.c"), Some("a/b.c".into()));
    assert_eq!(path::parent_of(host, "\\\\?\\C:\\a\\.\\b"), Some("\\\\?\\C:\\a\\.".into()));
    // Written with slashes it is a share.
    assert_eq!(path::parent_of(host, "//?/C:/x"), Some("//?/C:/".into()));
    assert_eq!(path::below_of(host, "\\\\?\\C:\\a\\b", "\\\\?\\c:\\a"), "b");
    assert_eq!(path::below_of(host, "\\\\?\\C:\\a", "C:\\"), "\\\\?\\C:\\a");
}

#[test]
fn dots_are_resolved_behind_a_path_that_is_taken_as_written() {
    let join = |base, rest| path::join(Host::Windows, base, rest);
    assert_eq!(join("\\\\?\\C:\\a", "b"), "\\\\?\\C:\\a\\b");
    assert_eq!(join("\\\\?\\C:\\a\\", "./b/c"), "\\\\?\\C:\\a\\b\\c");
    assert_eq!(join("\\\\?\\C:\\a", "b/../../c"), "\\\\?\\C:\\c");
    assert_eq!(join("\\\\?\\C:\\", "../c"), "\\\\?\\C:\\c");
    assert_eq!(join("\\\\?\\C:\\a", "\\d"), "\\\\?\\C:\\d");
    assert_eq!(join("\\\\?\\C:\\a", ""), "\\\\?\\C:\\a\\");
    assert_eq!(join("\\\\?\\C:\\a", "D:\\b"), "D:\\b");
    assert_eq!(join("\\\\.\\COM1", "x"), "\\\\.\\COM1\\x");
    assert_eq!(join("C:\\a", "\\\\?\\D:\\b"), "\\\\?\\D:\\b");
}

#[test]
fn what_is_taken_from_an_absolute_directory_is_absolute() {
    for (host, base) in [
        (Host::Wsl, "/work"),
        (Host::Windows, "C:\\work"),
        (Host::Windows, "\\\\server\\share"),
        (Host::Windows, "\\\\server\\share\\a\\"),
        (Host::Windows, "\\\\?\\C:\\work"),
        (Host::Windows, "\\\\?\\UNC\\server"),
        (Host::Windows, "\\\\.\\"),
    ] {
        for rest in ["a", "", "./a", "../a", "\\a"] {
            assert!(path::is_absolute(host, &path::join(host, base, rest)), "{base} {rest}");
        }
    }
    // The current directory of another drive is not.
    assert!(!path::is_absolute(Host::Windows, &path::join(Host::Windows, "C:\\work", "D:a")));
}

#[test]
fn the_first_place_with_a_file_counts() {
    let place = |path: &str, present: bool| Place { path: path.into(), present };
    assert_eq!(
        path::first_present(&vec![place("a", false), place("b", true), place("c", true)]),
        Some("b".into())
    );
    assert_eq!(path::first_present(&vec![place("a", false)]), None);
}
