use anchr_core::marker::{PathError, RelPath};

fn ordinary() {
    let path = RelPath::parse("src/auth/provider.ts").unwrap();
    assert_eq!(path.extension(), Some("ts"));
    assert_eq!(path.parent().unwrap(), "src/auth");
    assert_eq!(path.file_name(), "provider.ts");
    assert_eq!(RelPath::parse("README").unwrap().parent(), None);
    assert_eq!(
        RelPath::parse("données/façade.md").unwrap().as_str(),
        "données/façade.md"
    );
}

fn malformed() {
    assert_eq!(RelPath::parse(""), Err(PathError::Empty));
    assert_eq!(RelPath::parse("/etc/passwd"), Err(PathError::Absolute));
    assert_eq!(RelPath::parse("a\\b"), Err(PathError::Backslash));
    assert_eq!(RelPath::parse("a//b"), Err(PathError::EmptySegment));
    assert_eq!(RelPath::parse("a/"), Err(PathError::EmptySegment));
    assert_eq!(RelPath::parse("./a"), Err(PathError::CurrentDirectory));
    assert_eq!(RelPath::parse("a/../b"), Err(PathError::ParentDirectory));
    assert_eq!(
        RelPath::parse("C:/x"),
        Err(PathError::ReservedChar { ch: ':' })
    );
    assert_eq!(
        RelPath::parse("a#b"),
        Err(PathError::ReservedChar { ch: '#' })
    );
    assert_eq!(
        RelPath::parse("a b"),
        Err(PathError::InvalidChar { ch: ' ' })
    );
    assert_eq!(
        RelPath::parse("a\tb"),
        Err(PathError::InvalidChar { ch: '\t' })
    );
}

fn anchored_forms() {
    let anchored =
        |dir: &str, written: &str| RelPath::anchored(dir, written).map(|p| p.as_str().to_owned());
    assert_eq!(
        anchored("docs/design", "./x.md"),
        Ok("docs/design/x.md".to_owned())
    );
    assert_eq!(
        anchored("docs/design", "../x.md"),
        Ok("docs/x.md".to_owned())
    );
    assert_eq!(anchored("docs/design", "../../x.md"), Ok("x.md".to_owned()));
    assert_eq!(anchored("docs/design", ".."), Ok("docs".to_owned()));
    assert_eq!(
        anchored("docs", "./sub/x.md"),
        Ok("docs/sub/x.md".to_owned())
    );
    assert_eq!(anchored("", "./x.md"), Ok("x.md".to_owned()));
    assert_eq!(anchored("docs", ".hidden"), Ok(".hidden".to_owned()));
    assert_eq!(anchored("docs", "..rc"), Ok("..rc".to_owned()));
    assert_eq!(
        RelPath::anchored("docs/design", "x.md"),
        RelPath::parse("x.md"),
        "a bare spelling stays root-relative wherever it is written"
    );

    assert_eq!(
        anchored("docs/design", "../../../x.md"),
        Err(PathError::EscapesRoot)
    );
    assert_eq!(anchored("", "../x.md"), Err(PathError::EscapesRoot));
    assert_eq!(anchored("", "."), Err(PathError::NamesRoot));
    assert_eq!(anchored("docs", ".."), Err(PathError::NamesRoot));
    assert_eq!(
        anchored("docs", "./a/./b"),
        Err(PathError::CurrentDirectory)
    );
    assert_eq!(anchored("docs", "./../x"), Err(PathError::ParentDirectory));
    assert_eq!(
        anchored("docs", "../a/../b"),
        Err(PathError::ParentDirectory)
    );
    assert_eq!(anchored("docs", "a/../b"), Err(PathError::ParentDirectory));
    assert_eq!(anchored("docs", "./a//b"), Err(PathError::EmptySegment));
    assert_eq!(
        anchored("docs", "./a b"),
        Err(PathError::InvalidChar { ch: ' ' })
    );
}

#[test]
fn path_accepts_ordinary_relative_paths() {
    ordinary();
}

#[test]
fn path_rejects_each_malformed_shape() {
    malformed();
}

#[test]
fn path_anchored_resolves_dot_forms_against_the_file_directory() {
    anchored_forms();
}

#[test]
fn path_tests_accepts_ordinary_relative_paths() {
    ordinary();
}

#[test]
fn path_tests_rejects_each_malformed_shape() {
    malformed();
}

#[test]
fn path_tests_anchored_resolves_dot_forms_against_the_file_directory() {
    anchored_forms();
}

#[test]
fn extensions_follow_the_last_dot_of_the_file_name() {
    assert_eq!(RelPath::parse(".hidden").unwrap().extension(), None);
    assert_eq!(RelPath::parse("a.tar.gz").unwrap().extension(), Some("gz"));
    assert_eq!(RelPath::parse("v1.2/README").unwrap().extension(), None);
    assert_eq!(RelPath::parse("a.").unwrap().extension(), Some(""));
}

#[test]
fn a_long_path_is_refused() {
    let long = "a".repeat(1025);
    assert_eq!(RelPath::parse(&long), Err(PathError::TooLong { len: 1025 }));
}
