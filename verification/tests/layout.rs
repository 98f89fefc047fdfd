use stadhouder::layout::{home_dir, join_path, stadhouder_dir, underscore_uuid, Platform};

#[test]
fn home_is_where_the_web_root_is() {
    assert_eq!(home_dir(Platform::Unix, Some("/home/alice/public_html")).unwrap(), "/home/alice");
    assert_eq!(home_dir(Platform::Unix, Some("/public_html")).unwrap(), "/");
    let dir = |root| stadhouder_dir(Platform::Unix, Some(root)).unwrap();
    assert_eq!(dir("/home/alice/public_html"), "/home/alice/stadhouder");
    assert_eq!(dir("/home/alice/public_html/"), "/home/alice/stadhouder");
    assert_eq!(dir("/public_html"), "/stadhouder");
    assert_eq!(dir("site/public_html"), "site/stadhouder");
    assert_eq!(dir("public_html"), "stadhouder");
    let root = Some("/home/alice/public_html");
    assert_eq!(stadhouder_dir(Platform::Windows, root).unwrap(), "/home/alice\\stadhouder");
    let dir = |root| stadhouder_dir(Platform::Windows, Some(root)).unwrap();
    assert_eq!(dir(r"\\?\C:\site\files"), r"\\?\C:\site\stadhouder");
    assert_eq!(dir(r"\\?\C:\files"), r"\\?\C:\stadhouder");
    assert_eq!(dir(r"C:\site\files\"), r"C:\site\stadhouder");
    assert_eq!(dir("C:/site/files"), r"C:/site\stadhouder");
}

#[test]
fn a_web_root_must_be_set_and_be_somewhere() {
    assert_eq!(home_dir(Platform::Unix, None).unwrap_err(), "DOCUMENT_ROOT env var not set");
    assert_eq!(
        home_dir(Platform::Unix, Some("")).unwrap_err(),
        "could not determine parent of DOCUMENT_ROOT ''"
    );
    assert_eq!(
        home_dir(Platform::Unix, Some("/")).unwrap_err(),
        "could not determine parent of DOCUMENT_ROOT '/'"
    );
    assert!(stadhouder_dir(Platform::Unix, Some("/")).is_err());
    assert_eq!(
        home_dir(Platform::Windows, Some(r"C:\")).unwrap_err(),
        r"could not determine parent of DOCUMENT_ROOT 'C:\'"
    );
    assert_eq!(stadhouder_dir(Platform::Unix, None).unwrap_err(), "DOCUMENT_ROOT env var not set");
}

#[test]
fn paths_are_joined_with_one_separator() {
    assert_eq!(join_path(Platform::Unix, "/a", "b"), "/a/b");
    assert_eq!(join_path(Platform::Unix, "/a/", "b"), "/a/b");
    assert_eq!(join_path(Platform::Unix, "", "b"), "b");
    assert_eq!(join_path(Platform::Unix, "a\\", "b"), "a\\/b");
    let windows = |dir| join_path(Platform::Windows, dir, "b");
    assert_eq!(windows(r"\\?\C:\files"), r"\\?\C:\files\b");
    assert_eq!(windows(r"C:\"), r"C:\b");
    assert_eq!(windows("C:/x/"), "C:/x/b");
    assert_eq!(windows("C:"), "C:b");
    assert_eq!(windows("1:"), r"1:\b");
    assert_eq!(windows(r"\\?\C:\x/"), r"\\?\C:\x/\b");
    assert_eq!(windows(""), "b");
}

#[test]
fn dashes_become_underscores() {
    assert_eq!(underscore_uuid("a-b-c"), "a_b_c");
    assert_eq!(underscore_uuid("plain"), "plain");
}
