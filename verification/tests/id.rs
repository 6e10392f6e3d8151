use anchr_core::marker::{AnchorId, IdError, MAX_SEGMENT_BYTES};

#[test]
fn accepts_flat_and_hierarchical_ids() {
    assert_eq!(
        AnchorId::parse("ref-grammar").unwrap().as_str(),
        "ref-grammar"
    );
    let id = AnchorId::parse("auth/token-refresh.v2").unwrap();
    assert_eq!(id.last_segment(), "token-refresh.v2");
}

#[test]
fn id_tests_rejects_each_malformed_shape() {
    assert_eq!(AnchorId::parse(""), Err(IdError::Empty));
    assert_eq!(AnchorId::parse("a//b"), Err(IdError::EmptySegment));
    assert_eq!(AnchorId::parse("/a"), Err(IdError::EmptySegment));
    assert_eq!(AnchorId::parse("a/"), Err(IdError::EmptySegment));
    assert_eq!(
        AnchorId::parse("-a"),
        Err(IdError::InvalidSegmentStart { ch: '-' })
    );
    assert_eq!(
        AnchorId::parse(".a"),
        Err(IdError::InvalidSegmentStart { ch: '.' })
    );
    assert_eq!(
        AnchorId::parse("a b"),
        Err(IdError::InvalidChar { ch: ' ' })
    );
    assert_eq!(
        AnchorId::parse("a:b"),
        Err(IdError::InvalidChar { ch: ':' })
    );
    assert_eq!(
        AnchorId::parse("é"),
        Err(IdError::InvalidSegmentStart { ch: 'é' })
    );
}

#[test]
fn enforces_length_limits() {
    let long_segment = "a".repeat(MAX_SEGMENT_BYTES + 1);
    assert!(matches!(
        AnchorId::parse(&long_segment),
        Err(IdError::SegmentTooLong { .. })
    ));
    let long_id = vec!["a".repeat(MAX_SEGMENT_BYTES); 5].join("/");
    assert!(matches!(
        AnchorId::parse(&long_id),
        Err(IdError::TooLong { .. })
    ));
}

#[test]
fn an_overlong_segment_is_named_in_the_error() {
    let long_segment = "b".repeat(MAX_SEGMENT_BYTES + 1);
    let id = format!("a/{long_segment}/c");
    assert_eq!(
        AnchorId::parse(&id),
        Err(IdError::SegmentTooLong {
            segment: long_segment
        })
    );
    assert_eq!(AnchorId::parse("flat").unwrap().last_segment(), "flat");
}
