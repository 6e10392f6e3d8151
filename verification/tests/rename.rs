use anchr_core::edit::apply_edits;
use anchr_core::index::Index;
use anchr_core::marker::{lex, Alias, AnchorId};
use anchr_core::rename::{plan_alias_rename, plan_rename, AliasRenameError, RenameError, RenamePlan};
use anchr_core::root::{FilePath, RootName};
use anchr_core::span::{ByteSpan, LineIndex};
use anchr_core::text::{FileScan, RegionKind, TextRegion};

fn file(path: &str) -> FilePath {
    FilePath::new(path).unwrap()
}

fn id(raw: &str) -> AnchorId {
    AnchorId::parse(raw).unwrap()
}

fn alias(raw: &str) -> Alias {
    Alias::parse(raw).unwrap()
}

fn region(start: usize, end: usize, kind: RegionKind) -> TextRegion {
    TextRegion { span: ByteSpan::new(start, end), kind }
}

/// Scans `source` in the given regions only.
fn scan_in(path: &str, source: &str, regions: Vec<TextRegion>) -> FileScan {
    let lexed = lex(source, &regions, &file(path)).unwrap();
    FileScan {
        markers: lexed.markers,
        malformed: lexed.malformed,
        line_index: LineIndex::new(source).unwrap(),
    }
}

/// An index of `files` under the root `repo`, each file read whole.
fn index_with(files: &[(&str, &str)]) -> Index {
    let mut index = Index::new(RootName::parse("repo").unwrap());
    for (path, source) in files {
        let whole = vec![region(0, source.len(), RegionKind::Whole)];
        index.update_file(file(path), scan_in(path, source, whole));
    }
    index
}

/// Applies the plan's edits for `path` to `source`, or returns `source` when it has none.
fn rewrite(plan: &RenamePlan, path: &str, source: &str) -> String {
    for (file_path, edits) in plan.edits() {
        if file_path.as_str() == path {
            return apply_edits(source, edits).unwrap();
        }
    }
    source.to_string()
}

#[test]
fn an_alias_rename_stays_in_its_file_and_covers_every_declaration_and_use() {
    let a = "@anchor[x]\n@ref[#x as O] @[O] @[O] @ref[#x as O] @ref[#x as Other]\n";
    let index = index_with(&[("a.md", a), ("b.md", "@ref[#x as O] @[O]\n")]);
    let path = file("a.md");

    let plan = plan_alias_rename(&index, &path, &alias("O"), &alias("Old")).unwrap();
    assert_eq!((plan.declaration_sites, plan.use_sites), (2, 2));
    let rewritten = apply_edits(a, &plan.edits).unwrap();
    assert_eq!(
        rewritten,
        "@anchor[x]\n@ref[#x as Old] @[Old] @[Old] @ref[#x as Old] @ref[#x as Other]\n"
    );

    assert!(matches!(
        plan_alias_rename(&index, &path, &alias("O"), &alias("Other")),
        Err(AliasRenameError::TargetExists { .. })
    ));
    assert!(matches!(
        plan_alias_rename(&index, &path, &alias("Nope"), &alias("X")),
        Err(AliasRenameError::Unknown { .. })
    ));
    assert!(matches!(
        plan_alias_rename(&index, &path, &alias("O"), &alias("O")),
        Err(AliasRenameError::SameAlias)
    ));
}

#[test]
fn an_aliased_declaration_is_rewritten_and_its_uses_are_left_alone() {
    let a = "@anchor[old]\n@ref[#old as O] @[O] @[O]\n";
    let index = index_with(&[("a.md", a)]);
    let plan = plan_rename(&index, &id("old"), &id("new")).unwrap();
    assert_eq!((plan.anchor_sites(), plan.ref_sites()), (1, 1));
    assert_eq!(rewrite(&plan, "a.md", a), "@anchor[new]\n@ref[#new as O] @[O] @[O]\n");
}

#[test]
fn a_rename_rewrites_only_id_bytes_across_prose_and_comments() {
    let doc = "# Flow @anchor[auth/flow]\n\nSee @ref[#auth/flow] and @ref[repo:#auth/flow].\n\n```\n@ref[#auth/flow] stays: it is an example\n```\n";
    let code = "// @ref[#auth/flow] and `@ref[#auth/flow]` (example)\nfn f() {}\n";
    let other = "@ref[#unrelated] @anchor[unrelated] @ref[plugin:#auth/flow]\n";

    // The fenced block is code, not prose; the code span in the comment is an example.
    let fence = doc.find("```").unwrap();
    let tick = code.find('`').unwrap();
    let tick_end = tick + 1 + code[tick + 1..].find('`').unwrap() + 1;
    let line_end = code.find('\n').unwrap();

    let mut index = Index::new(RootName::parse("repo").unwrap());
    index.update_file(
        file("docs/a.md"),
        scan_in("docs/a.md", doc, vec![region(0, fence, RegionKind::Prose)]),
    );
    index.update_file(
        file("src/x.rs"),
        scan_in(
            "src/x.rs",
            code,
            vec![
                region(0, tick, RegionKind::Comment),
                region(tick_end, line_end, RegionKind::Comment),
            ],
        ),
    );
    index.update_file(
        file("docs/other.md"),
        scan_in("docs/other.md", other, vec![region(0, other.len(), RegionKind::Prose)]),
    );

    let plan = plan_rename(&index, &id("auth/flow"), &id("auth/token-refresh")).unwrap();
    assert_eq!(plan.anchor_sites(), 1);
    assert_eq!(plan.ref_sites(), 3);
    assert_eq!(plan.edit_count(), 4);
    assert_eq!(
        plan.files().iter().map(|p| p.as_str().to_string()).collect::<Vec<_>>(),
        vec!["docs/a.md", "src/x.rs"]
    );

    assert_eq!(
        rewrite(&plan, "docs/a.md", doc),
        "# Flow @anchor[auth/token-refresh]\n\nSee @ref[#auth/token-refresh] and @ref[repo:#auth/token-refresh].\n\n```\n@ref[#auth/flow] stays: it is an example\n```\n"
    );
    assert_eq!(
        rewrite(&plan, "src/x.rs", code),
        "// @ref[#auth/token-refresh] and `@ref[#auth/flow]` (example)\nfn f() {}\n"
    );
    assert!(rewrite(&plan, "docs/other.md", other).contains("plugin:#auth/flow"));
}

#[test]
fn planning_rejects_unknown_existing_and_identical_ids() {
    let index = index_with(&[("a.md", "@anchor[a] @anchor[b]")]);
    assert!(matches!(
        plan_rename(&index, &id("zzz"), &id("q")),
        Err(RenameError::UnknownAnchor(_))
    ));
    assert!(matches!(
        plan_rename(&index, &id("a"), &id("b")),
        Err(RenameError::TargetExists(_))
    ));
    assert!(matches!(plan_rename(&index, &id("a"), &id("a")), Err(RenameError::SameId)));
}

#[test]
fn applying_refuses_a_file_that_changed_since_the_scan() {
    let index = index_with(&[("a.md", "@anchor[old] @ref[#old]")]);
    let plan = plan_rename(&index, &id("old"), &id("new")).unwrap();
    let (_, edits) = &plan.edits()[0];
    assert_eq!(apply_edits("moved @anchor[old] @ref[#old]", edits), None);
    assert_eq!(
        apply_edits("@anchor[old] @ref[#old]", edits).unwrap(),
        "@anchor[new] @ref[#new]"
    );
}

#[test]
fn a_rename_plan_lists_each_file_once_in_path_order() {
    let index = index_with(&[
        ("b.md", "@ref[#x] @ref[#x]"),
        ("a.md", "@ref[#x] @anchor[x]"),
        ("c.md", "@ref[#y]"),
    ]);
    let plan = plan_rename(&index, &id("x"), &id("z")).unwrap();
    let files: Vec<&str> = plan.files().iter().map(|p| p.as_str()).collect();
    assert_eq!(files, vec!["a.md", "b.md"]);
    for (_, edits) in plan.edits() {
        assert!(edits.windows(2).all(|w| w[0].span.start < w[1].span.start));
        assert!(edits.iter().all(|e| e.expected == "x" && e.replacement == "z"));
    }
    assert_eq!(plan.edit_count(), plan.anchor_sites() + plan.ref_sites());
}
