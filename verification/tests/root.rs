use anchr_core::root::{FilePath, FilePathError, RootName, RootNameError, MAX_ROOT_NAME_BYTES};
use anchr_core::marker::RelPath;

#[test]
fn accepts_the_documented_charset() {
    assert_eq!(
        RootName::parse("plugin-Code_2").unwrap().as_str(),
        "plugin-Code_2"
    );
}

#[test]
fn rejects_empty_dots_and_slashes() {
    assert_eq!(RootName::parse(""), Err(RootNameError::Empty));
    assert_eq!(
        RootName::parse("a.b"),
        Err(RootNameError::InvalidChar { ch: '.' })
    );
    assert_eq!(
        RootName::parse("a/b"),
        Err(RootNameError::InvalidChar { ch: '/' })
    );
}

#[test]
fn rejects_names_over_the_limit() {
    let long = "x".repeat(MAX_ROOT_NAME_BYTES + 1);
    assert_eq!(
        RootName::parse(&long),
        Err(RootNameError::TooLong { len: 65 })
    );
}

#[test]
fn root_names_accept_the_documented_charset() {
    assert_eq!(
        RootName::parse("plugin-Code_2").unwrap().as_str(),
        "plugin-Code_2"
    );
}

#[test]
fn root_names_reject_empty_dots_slashes_and_overlong() {
    assert_eq!(RootName::parse(""), Err(RootNameError::Empty));
    assert_eq!(
        RootName::parse("a.b"),
        Err(RootNameError::InvalidChar { ch: '.' })
    );
    assert_eq!(
        RootName::parse("a/b"),
        Err(RootNameError::InvalidChar { ch: '/' })
    );
    let long = "x".repeat(MAX_ROOT_NAME_BYTES + 1);
    assert_eq!(
        RootName::parse(&long),
        Err(RootNameError::TooLong { len: 65 })
    );
}

#[test]
fn root_names_count_bytes_not_characters() {
    let sixty_four = "é".repeat(32);
    assert!(matches!(
        RootName::parse(&sixty_four),
        Err(RootNameError::InvalidChar { ch: 'é' })
    ));
    let long = "é".repeat(33);
    assert_eq!(
        RootName::parse(&long),
        Err(RootNameError::TooLong { len: 66 })
    );
}

#[test]
fn file_paths_allow_any_relative_utf8_name() {
    let path = FilePath::new("docs/My Notes #1.md").unwrap();
    assert_eq!(path.as_str(), "docs/My Notes #1.md");
    assert_eq!(path.directory(), "docs");
    assert_eq!(FilePath::new("/abs"), Err(FilePathError::NotRelative));
    assert_eq!(FilePath::new("a/../b"), Err(FilePathError::NotRelative));
    assert_eq!(FilePath::new(""), Err(FilePathError::Empty));
}

#[test]
fn a_file_at_the_root_has_an_empty_directory() {
    assert_eq!(FilePath::new("README.md").unwrap().directory(), "");
    assert_eq!(FilePath::new("a/b/c.md").unwrap().directory(), "a/b");
}

#[test]
fn file_paths_use_forward_slashes_on_windows() {
    let path = FilePath::from_native("src\\lib.rs", '\\').unwrap();
    assert_eq!(path.as_str(), "src/lib.rs");
}

#[test]
fn a_forward_slash_platform_keeps_backslashes_in_names() {
    let path = FilePath::from_native("src\\lib.rs", '/').unwrap();
    assert_eq!(path.as_str(), "src\\lib.rs");
}

#[test]
fn a_rel_path_converts_to_a_file_path() {
    let rel = RelPath::parse("src/lib.rs").unwrap();
    assert_eq!(FilePath::from_rel(&rel).as_str(), "src/lib.rs");
}
