use anchr_core::marker::{
    lex, parse_target, Alias, AnchorId, DeclaredAlias, LexError, MalformedReason, Marker,
    MarkerKind, MarkerPayload, TargetError,
};
use anchr_core::root::FilePath;
use anchr_core::span::ByteSpan;
use anchr_core::text::{RegionKind, TextRegion};

fn marker(payload: MarkerPayload) -> Marker {
    Marker {
        payload,
        span: ByteSpan::new(0, 1),
        body_span: ByteSpan::new(0, 1),
        region: RegionKind::Prose,
    }
}

fn declared(alias: &str, start: usize, end: usize) -> DeclaredAlias {
    DeclaredAlias {
        alias: Alias::parse(alias).unwrap(),
        span: ByteSpan::new(start, end),
    }
}

#[test]
fn every_payload_reports_its_kind() {
    let cases = [
        (
            marker(MarkerPayload::Anchor {
                id: AnchorId::parse("x").unwrap(),
            }),
            MarkerKind::Anchor,
        ),
        (
            marker(MarkerPayload::Ref {
                target: parse_target("a.md", None).unwrap().target,
                id_span: None,
                alias: None,
            }),
            MarkerKind::Ref,
        ),
        (
            marker(MarkerPayload::Use {
                alias: Alias::parse("Flow").unwrap(),
            }),
            MarkerKind::Use,
        ),
        (
            marker(MarkerPayload::NoRef { items: Vec::new() }),
            MarkerKind::NoRef,
        ),
    ];
    for (marker, expected) in cases {
        assert_eq!(marker.kind(), expected);
    }
}

#[test]
fn each_kind_displays_as_the_syntax_the_author_typed() {
    assert_eq!(MarkerKind::Anchor.to_string(), "@anchor");
    assert_eq!(MarkerKind::Ref.to_string(), "@ref");
    assert_eq!(MarkerKind::Use.to_string(), "@[...]");
    assert_eq!(MarkerKind::NoRef.to_string(), "@noref");
}

#[test]
fn shifting_a_declared_alias_moves_its_span_and_leaves_the_name() {
    let shifted = declared("Flow", 4, 8).shifted_by(10);
    assert_eq!(shifted.alias.as_str(), "Flow");
    assert_eq!(shifted.span, ByteSpan::new(14, 18));
}

#[test]
fn shifting_by_zero_changes_nothing_and_shifts_compose() {
    let original = declared("Flow", 4, 8);
    assert_eq!(original.clone().shifted_by(0), original);
    assert_eq!(
        original.clone().shifted_by(3).shifted_by(4),
        original.shifted_by(7)
    );
}

fn whole(text: &str) -> Vec<TextRegion> {
    vec![TextRegion {
        span: ByteSpan::new(0, text.len()),
        kind: RegionKind::Prose,
    }]
}

fn written_in() -> FilePath {
    FilePath::new("docs/guide.md").unwrap()
}

#[test]
fn lexing_finds_each_kind_with_file_spans() {
    let text = "See @anchor[intro] and @ref[#intro] or @[Flow] @noref[a.md, b/]";
    let lexed = lex(text, &whole(text), &written_in()).unwrap();
    assert!(lexed.malformed.is_empty());
    let kinds: Vec<MarkerKind> = lexed.markers.iter().map(|m| m.kind()).collect();
    assert_eq!(
        kinds,
        vec![
            MarkerKind::Anchor,
            MarkerKind::Ref,
            MarkerKind::Use,
            MarkerKind::NoRef
        ]
    );
    let first = &lexed.markers[0];
    assert_eq!(first.span, ByteSpan::new(4, 18));
    assert_eq!(first.body_span, ByteSpan::new(12, 17));
    match &lexed.markers[1].payload {
        MarkerPayload::Ref { id_span, .. } => assert_eq!(*id_span, Some(ByteSpan::new(29, 34))),
        other => panic!("{other:?}"),
    }
    match &lexed.markers[3].payload {
        MarkerPayload::NoRef { items } => {
            let spans: Vec<ByteSpan> = items.iter().map(|item| item.span).collect();
            assert_eq!(spans, vec![ByteSpan::new(54, 58), ByteSpan::new(60, 62)]);
        }
        other => panic!("{other:?}"),
    }
}

#[test]
fn an_unclosed_opener_is_malformed_and_does_not_swallow_the_next_marker() {
    let text = "@ref[a.md and @anchor[x]";
    let lexed = lex(text, &whole(text), &written_in()).unwrap();
    assert_eq!(lexed.malformed.len(), 1);
    assert_eq!(lexed.malformed[0].kind, MarkerKind::Ref);
    assert_eq!(lexed.malformed[0].reason, MalformedReason::Unclosed);
    assert_eq!(lexed.malformed[0].span, ByteSpan::new(0, 5));
    assert_eq!(lexed.markers.len(), 1);
    assert_eq!(lexed.markers[0].kind(), MarkerKind::Anchor);
}

#[test]
fn a_line_break_leaves_the_marker_unclosed() {
    let text = "@anchor[x\n]";
    let lexed = lex(text, &whole(text), &written_in()).unwrap();
    assert_eq!(lexed.malformed.len(), 1);
    assert_eq!(lexed.malformed[0].reason, MalformedReason::Unclosed);
    assert!(lexed.markers.is_empty());
}

#[test]
fn glued_and_escaped_markers_are_not_markers() {
    let text = "me@ref[x.md] é@ref[x.md] _@ref[x.md] \\@ref[x.md] (@ref[x.md])";
    let lexed = lex(text, &whole(text), &written_in()).unwrap();
    assert_eq!(lexed.markers.len(), 1);
    assert!(lexed.malformed.is_empty());
}

#[test]
fn bodies_that_do_not_parse_are_malformed() {
    let text = "@anchor[] @anchor[a b] @ref[#] @[9x] @noref[a,,b] @refx[y]";
    let lexed = lex(text, &whole(text), &written_in()).unwrap();
    assert!(lexed.markers.is_empty());
    let reasons: Vec<&MalformedReason> = lexed.malformed.iter().map(|m| &m.reason).collect();
    assert_eq!(reasons.len(), 5);
    assert_eq!(reasons[0], &MalformedReason::EmptyBody);
    assert!(matches!(reasons[1], MalformedReason::InvalidAnchorId { .. }));
    assert!(matches!(
        reasons[2],
        MalformedReason::InvalidTarget {
            reason: TargetError::Id(_),
            ..
        }
    ));
    assert!(matches!(reasons[3], MalformedReason::InvalidAlias { .. }));
    assert!(matches!(reasons[4], MalformedReason::InvalidNoRef { .. }));
}

#[test]
fn only_regions_are_examined_and_spans_stay_file_relative() {
    let text = "@anchor[a] skipped @anchor[b]";
    let regions = vec![TextRegion {
        span: ByteSpan::new(19, text.len()),
        kind: RegionKind::Comment,
    }];
    let lexed = lex(text, &regions, &written_in()).unwrap();
    assert_eq!(lexed.markers.len(), 1);
    assert_eq!(lexed.markers[0].span, ByteSpan::new(19, 29));
    assert_eq!(lexed.markers[0].region, RegionKind::Comment);
}

#[test]
fn a_region_off_a_character_boundary_is_refused() {
    let text = "é @anchor[a]";
    let regions = vec![TextRegion {
        span: ByteSpan::new(1, text.len()),
        kind: RegionKind::Prose,
    }];
    assert_eq!(
        lex(text, &regions, &written_in()),
        Err(LexError::RegionNotOnCharBoundary {
            span: ByteSpan::new(1, text.len())
        })
    );
}

#[test]
fn relative_targets_are_anchored_to_the_written_file() {
    let text = "@ref[./x.md]";
    let lexed = lex(text, &whole(text), &written_in()).unwrap();
    match &lexed.markers[0].payload {
        MarkerPayload::Ref { target, .. } => {
            assert_eq!(target.path().unwrap().as_str(), "docs/x.md")
        }
        other => panic!("{other:?}"),
    }
}
