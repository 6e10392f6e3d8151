use anchr_core::marker::{Alias, AliasError, MAX_ALIAS_BYTES};

fn accepts() {
    for name in ["Analyzer", "_private", "a1", "CONST", "UserAuth"] {
        assert_eq!(Alias::parse(name).unwrap().as_str(), name);
    }
}

fn rejects() {
    assert_eq!(Alias::parse(""), Err(AliasError::Empty));
    assert_eq!(
        Alias::parse("9lives"),
        Err(AliasError::InvalidStart { ch: '9' })
    );
    assert_eq!(
        Alias::parse("a-b"),
        Err(AliasError::InvalidChar { ch: '-' })
    );
    assert_eq!(
        Alias::parse("a/b"),
        Err(AliasError::InvalidChar { ch: '/' })
    );
    assert_eq!(
        Alias::parse("a.b"),
        Err(AliasError::InvalidChar { ch: '.' })
    );
    assert_eq!(
        Alias::parse("a b"),
        Err(AliasError::InvalidChar { ch: ' ' })
    );
    assert_eq!(
        Alias::parse("$el"),
        Err(AliasError::InvalidStart { ch: '$' })
    );
}

fn limit() {
    let longest = "a".repeat(MAX_ALIAS_BYTES);
    assert!(Alias::parse(&longest).is_ok());
    assert_eq!(
        Alias::parse(&format!("{longest}a")),
        Err(AliasError::TooLong {
            len: MAX_ALIAS_BYTES + 1
        })
    );
}

#[test]
fn alias_accepts_identifier_shaped_names() {
    accepts();
}

#[test]
fn alias_rejects_each_malformed_shape() {
    rejects();
}

#[test]
fn alias_enforces_the_length_limit() {
    limit();
}

#[test]
fn alias_tests_accepts_identifier_shaped_names() {
    accepts();
}

#[test]
fn alias_tests_rejects_each_malformed_shape() {
    rejects();
}

#[test]
fn alias_tests_enforces_the_length_limit() {
    limit();
}

#[test]
fn an_alias_reads_back_as_written() {
    assert_eq!(Alias::parse("Guide").unwrap().to_string(), "Guide");
}
