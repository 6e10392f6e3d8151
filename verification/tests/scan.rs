use anchr_core::marker::lex;
use anchr_core::root::FilePath;
use anchr_core::scan::{
    keep_for_mode, note_extension, record_extension, size_verdict, sort_scan_output, ScanMode, ScanOutput, SkipReason,
    SkippedFile, WalkProblem,
};
use anchr_core::span::{ByteSpan, LineIndex};
use anchr_core::text::{FileScan, RegionKind, TextRegion};

fn scan(path: &str, source: &str) -> FileScan {
    let regions = vec![TextRegion { span: ByteSpan::new(0, source.len()), kind: RegionKind::Whole }];
    let lexed = lex(source, &regions, &FilePath::new(path).unwrap()).unwrap();
    FileScan { markers: lexed.markers, malformed: lexed.malformed, line_index: LineIndex::new(source).unwrap() }
}

#[test]
fn anchors_only_mode_drops_references_and_malformed_markers() {
    let full = keep_for_mode(scan("a.md", "@anchor[a] @ref[#b] @ref["), ScanMode::Full);
    assert_eq!(full.markers.len(), 2);
    assert_eq!(full.malformed.len(), 1);

    let anchors_only = keep_for_mode(scan("a.md", "@anchor[a] @ref[#b] @ref["), ScanMode::AnchorsOnly);
    assert_eq!(anchors_only.markers.len(), 1);
    assert!(anchors_only.malformed.is_empty());
}

#[test]
fn oversized_files_are_skipped_with_their_size_and_the_limit() {
    assert!(matches!(size_verdict(17, 16), Some(SkipReason::TooLarge { bytes: 17, limit: 16 })));
    assert_eq!(size_verdict(16, 16), None);
    assert_eq!(
        size_verdict(17, 16).unwrap().message(),
        "file is 17 bytes, over the 16-byte limit (`scan.max-file-bytes`)"
    );
    assert_eq!(SkipReason::NotUtf8.message(), "file is not valid UTF-8");
    assert_eq!(
        SkipReason::Unreadable { message: "denied".to_owned() }.message(),
        "could not read file: denied"
    );
}

#[test]
fn anchors_keep_their_order_in_anchors_only_mode() {
    let kept = keep_for_mode(
        scan("a.md", "@ref[#x] @anchor[first] @[A] @anchor[second] @noref[foo]"),
        ScanMode::AnchorsOnly,
    );
    let starts: Vec<usize> = kept.markers.iter().map(|m| m.span.start).collect();
    assert_eq!(starts, vec![9, 29]);
}

#[test]
fn extensions_are_lowered_kept_once_and_in_order() {
    let mut extensions: Vec<String> = Vec::new();
    note_extension(&mut extensions, "RS");
    note_extension(&mut extensions, "md");
    note_extension(&mut extensions, "rs");
    note_extension(&mut extensions, "Json");
    assert_eq!(extensions, vec!["json".to_owned(), "md".to_owned(), "rs".to_owned()]);
}

#[test]
fn a_path_contributes_the_extension_of_its_file_name() {
    let mut extensions: Vec<String> = Vec::new();
    record_extension(&mut extensions, &FilePath::new("docs/Guide.MD").unwrap());
    record_extension(&mut extensions, &FilePath::new("src/lib.rs").unwrap());
    record_extension(&mut extensions, &FilePath::new("Makefile").unwrap());
    record_extension(&mut extensions, &FilePath::new("config/.gitignore").unwrap());
    record_extension(&mut extensions, &FilePath::new("a.tar.GZ").unwrap());
    assert_eq!(extensions, vec!["gz".to_owned(), "md".to_owned(), "rs".to_owned()]);
}

#[test]
fn scan_output_is_ordered_by_path_component_by_component() {
    let skipped = |path: &str| SkippedFile { path: FilePath::new(path).unwrap(), reason: SkipReason::NotUtf8 };
    let problem = |path: Option<&str>, message: &str| WalkProblem { path: path.map(|p| p.to_owned()), message: message.to_owned() };
    let output = ScanOutput {
        files: Vec::new(),
        skipped: vec![skipped("a.b"), skipped("a/b"), skipped("a")],
        problems: vec![problem(Some("x"), "b"), problem(None, "z"), problem(Some("x"), "a")],
        extensions: vec!["md".to_owned()],
    };
    let sorted = sort_scan_output(output);
    let paths: Vec<&str> = sorted.skipped.iter().map(|s| s.path.as_str()).collect();
    // Components compare first: `a` < `a/b` < `a.b`, as std orders paths.
    assert_eq!(paths, vec!["a", "a/b", "a.b"]);
    let problems: Vec<(Option<&str>, &str)> =
        sorted.problems.iter().map(|p| (p.path.as_deref(), p.message.as_str())).collect();
    assert_eq!(problems, vec![(None, "z"), (Some("x"), "a"), (Some("x"), "b")]);
    assert_eq!(sorted.extensions, vec!["md".to_owned()]);
}
