use anchr_core::edit::{apply_edits, TextEdit};
use anchr_core::span::ByteSpan;

fn rename_edits() -> Vec<TextEdit> {
    vec![
        TextEdit {
            span: ByteSpan::new(8, 10),
            expected: "ab".into(),
            replacement: "longer-name".into(),
        },
        TextEdit {
            span: ByteSpan::new(18, 20),
            expected: "ab".into(),
            replacement: "longer-name".into(),
        },
    ]
}

fn check_in_order_with_length_changes() {
    let source = "@anchor[ab] @ref[#ab] tail";
    let edits = rename_edits();
    assert_eq!(
        apply_edits(source, &edits).unwrap(),
        "@anchor[longer-name] @ref[#longer-name] tail"
    );
}

fn check_mismatch_or_overlap() {
    let source = "@anchor[ab]";
    let stale = vec![TextEdit {
        span: ByteSpan::new(8, 10),
        expected: "zz".into(),
        replacement: "x".into(),
    }];
    assert_eq!(apply_edits(source, &stale), None);
    let overlapping = vec![
        TextEdit {
            span: ByteSpan::new(0, 5),
            expected: "@anch".into(),
            replacement: "".into(),
        },
        TextEdit {
            span: ByteSpan::new(3, 6),
            expected: "cho".into(),
            replacement: "".into(),
        },
    ];
    assert_eq!(apply_edits(source, &overlapping), None);
}

#[test]
fn edit_edits_apply_in_order_with_length_changes() {
    check_in_order_with_length_changes();
}

#[test]
fn tests_edits_apply_in_order_with_length_changes() {
    check_in_order_with_length_changes();
}

#[test]
fn edit_a_mismatch_or_overlap_refuses_the_whole_file() {
    check_mismatch_or_overlap();
}

#[test]
fn tests_a_mismatch_or_overlap_refuses_the_whole_file() {
    check_mismatch_or_overlap();
}

#[test]
fn no_edits_leave_the_text_as_it_was() {
    assert_eq!(apply_edits("héllo wörld", &[]).unwrap(), "héllo wörld");
}

#[test]
fn a_span_off_a_character_boundary_is_refused() {
    let edits = vec![TextEdit {
        span: ByteSpan::new(1, 2),
        expected: "é".into(),
        replacement: "e".into(),
    }];
    assert_eq!(apply_edits("héllo", &edits), None);
    let edits = vec![TextEdit {
        span: ByteSpan::new(1, 3),
        expected: "é".into(),
        replacement: "e".into(),
    }];
    assert_eq!(apply_edits("héllo", &edits).unwrap(), "hello");
}

#[test]
fn a_span_past_the_end_is_refused() {
    let edits = vec![TextEdit {
        span: ByteSpan::new(3, 9),
        expected: "lo".into(),
        replacement: "".into(),
    }];
    assert_eq!(apply_edits("hello", &edits), None);
}
