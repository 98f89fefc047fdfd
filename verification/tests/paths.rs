use stadhouder::layout::Platform;
use stadhouder::paths::{folder_of, lead_to};

fn unix(path: &str) -> Option<String> {
    folder_of(Platform::Unix, path)
}

fn windows(path: &str) -> Option<String> {
    folder_of(Platform::Windows, path)
}

#[test]
fn a_path_is_in_the_folder_before_its_last_part() {
    for (path, folder) in [
        ("/home/u/www", "/home/u"),
        ("/home/u/www/", "/home/u"),
        ("/home//u///www//", "/home//u"),
        ("/home/u/./www/.", "/home/u"),
        ("/www", "/"),
        ("//www", "/"),
        ("www", ""),
        ("a/www", "a"),
        ("./www", "."),
        (".", ""),
        ("..", ""),
        ("../..", ".."),
        ("/..", "/"),
        (r"/a\b/c:", r"/a\b"),
    ] {
        assert_eq!(unix(path).as_deref(), Some(folder), "{path}");
    }
    for path in ["", "/", "//", "/.", "/./"] {
        assert_eq!(unix(path), None, "{path}");
    }
}

#[test]
fn the_machine_agrees_on_folders() {
    for path in [
        "", "/", "//", "///", ".", "..", "./", "/.", "/..", "a", "a/", "a//", "a/.", "a/./", "./a",
        "./a/b", ".//a", "././a", "a/b", "a//b", "a/./b", "a/../b", "/a", "//a", "/a/", "/a/b",
        "/a//b/./c//", "a/.b", "a/b.", ".a", ".a/b", "...", "a/...", "/./a", "/.a/.", "a/././b/./.",
    ] {
        let known = std::path::Path::new(path).parent().map(|p| p.to_str().unwrap().to_string());
        assert_eq!(unix(path), known, "{path}");
    }
}

#[test]
fn drives_and_shares_are_in_no_folder() {
    for (path, folder) in [
        (r"C:\site\www", r"C:\site"),
        (r"C:/site\www/", r"C:/site"),
        (r"C:\www", r"C:\"),
        ("C:www", "C:"),
        ("C:.", "C:"),
        (r"\www", r"\"),
        (r"site\www", "site"),
        (r"\\server\share\www", r"\\server\share\"),
        (r"\\server\share\a\www", r"\\server\share\a"),
        (r"\\?\C:\site\www", r"\\?\C:\site"),
        (r"\\?\C:\www", r"\\?\C:\"),
        (r"\\?\C:\a\.", r"\\?\C:\a"),
        (r"\\?\UNC\server\share\www", r"\\?\UNC\server\share\"),
        (r"\\.\dev\www", r"\\.\dev\"),
    ] {
        assert_eq!(windows(path).as_deref(), Some(folder), "{path}");
    }
    for path in [
        "", r"\", "C:", r"C:\", r"\\server\share", r"\\server\share\", r"\\?\C:\", r"\\?\C:",
        r"\\?\UNC\server\share", r"\\.\dev",
    ] {
        assert_eq!(windows(path), None, "{path}");
    }
}

#[test]
fn absolute_paths_lead_where_they_say() {
    assert_eq!(lead_to(Platform::Unix, "/a", "b/../c"), "/a/b/../c");
    assert_eq!(lead_to(Platform::Unix, "/a", "/b"), "/b");
    assert_eq!(lead_to(Platform::Unix, "/a/", ""), "/a/");
    assert_eq!(lead_to(Platform::Unix, "/a", r"C:\b"), r"/a/C:\b");
    let from = |path| lead_to(Platform::Windows, r"C:\a", path);
    assert_eq!(from(r"b/..\c"), r"C:\a\b/..\c");
    assert_eq!(from(r"D:\b"), r"D:\b");
    assert_eq!(from("D:b"), "D:b");
    assert_eq!(from(r"\b"), r"C:\b");
    assert_eq!(from(r"\\server\share\b"), r"\\server\share\b");
    assert_eq!(from(r"\\server"), r"C:\\server");
}

#[test]
fn the_machine_agrees_on_where_paths_lead() {
    for dir in ["", "/", "/a", "/a/", "a", ".", "a/../b"] {
        for path in ["", "b", "/b", "./b", "../b", "b/", r"C:\b", r"\\s\t"] {
            let known = std::path::Path::new(dir).join(path);
            assert_eq!(lead_to(Platform::Unix, dir, path), known.to_str().unwrap());
        }
    }
}

#[test]
fn verbatim_paths_have_their_dots_followed() {
    let from = |path| lead_to(Platform::Windows, r"\\?\C:\a\b", path);
    assert_eq!(from("c"), r"\\?\C:\a\b\c");
    assert_eq!(from(r"c\..\d/e"), r"\\?\C:\a\b\d\e");
    assert_eq!(from("./c//d"), r"\\?\C:\a\b\c\d");
    assert_eq!(from("../../../c"), r"\\?\C:\c");
    assert_eq!(from(r"\c"), r"\\?\C:\c");
    assert_eq!(from(""), r"\\?\C:\a\b\");
    let share = |path| lead_to(Platform::Windows, r"\\?\UNC\server\share\a", path);
    assert_eq!(share("../../../c"), r"\\?\UNC\server\share\c");
}
