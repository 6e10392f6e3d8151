use anchr_core::marker::{SymbolError, SymbolName};

fn accepts() {
    for name in ["validateToken", "_private", "$el", "snake_case_2", "CONST"] {
        assert_eq!(SymbolName::parse(name).unwrap().as_str(), name);
    }
}

fn qualified() {
    assert_eq!(
        SymbolName::parse("Foo::bar"),
        Err(SymbolError::Qualified { separator: "::" })
    );
    assert_eq!(
        SymbolName::parse("Class.method"),
        Err(SymbolError::Qualified { separator: "." })
    );
}

fn malformed() {
    assert_eq!(SymbolName::parse(""), Err(SymbolError::Empty));
    assert_eq!(
        SymbolName::parse("9lives"),
        Err(SymbolError::InvalidStart { ch: '9' })
    );
    assert_eq!(
        SymbolName::parse("a-b"),
        Err(SymbolError::InvalidChar { ch: '-' })
    );
    assert_eq!(
        SymbolName::parse("a b"),
        Err(SymbolError::InvalidChar { ch: ' ' })
    );
}

#[test]
fn symbol_accepts_identifier_shapes_across_the_core_languages() {
    accepts();
}

#[test]
fn symbol_rejects_qualified_names_with_a_pointer_to_the_rule() {
    qualified();
}

#[test]
fn symbol_rejects_each_malformed_shape() {
    malformed();
}

#[test]
fn tests_accepts_identifier_shapes_across_the_core_languages() {
    accepts();
}

#[test]
fn tests_rejects_qualified_names_with_a_pointer_to_the_rule() {
    qualified();
}

#[test]
fn tests_rejects_each_malformed_shape() {
    malformed();
}

#[test]
fn symbol_names_over_the_limit_are_too_long() {
    let long = "a".repeat(257);
    assert_eq!(SymbolName::parse(&long), Err(SymbolError::TooLong { len: 257 }));
}
