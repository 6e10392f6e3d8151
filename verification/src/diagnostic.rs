//! Findings grouped by cause. Deleting an anchor with twelve live references is one
//! diagnostic with twelve locations, not twelve diagnostics.
use vstd::prelude::*;

use crate::chars::{decimal, decimal_text, less_path, less_text, path_less, push_text, same_text, text_less};
use crate::config::UnverifiedPolicy;
use crate::index::{less_site, site_less, Site, SiteView};
use crate::order::{sort_items, sorted, views, Ordered};
use crate::marker::{reason_message, Alias, AnchorId, MalformedReason, MarkerKind, ReasonView};
use crate::resolve::{opt_text, Unresolved, UnresolvedView, Unverified, UnverifiedView};
use crate::root::{FilePath, RootName};
use crate::scan::{skip_message, SkipReason, SkipView};
use crate::span::LineCol;

verus! {

#[derive(Debug, Clone, Copy, PartialEq, Eq, Structural, Hash, PartialOrd, Ord)]
pub enum Severity {
    Error,
    Unverified,
}

/// The cause of a finding. Never contains a location, so it doubles as the grouping key.
#[derive(Debug, PartialEq, Eq, Hash)]
pub enum DiagnosticKind {
    Unresolved(Unresolved),
    DuplicateAnchor { root: RootName, id: AnchorId },
    /// `@[alias]` in a file that never declares it. Keyed by file, because the file is the scope.
    AliasUndeclared { root: RootName, path: FilePath, alias: Alias },
    AliasDuplicate { root: RootName, path: FilePath, alias: Alias },
    Malformed { kind: MarkerKind, reason: MalformedReason },
    Unverified(Unverified),
    /// A duplicate anchor in an external root: real, but not fixable from here.
    ExternalDuplicate { root: RootName, id: AnchorId },
    FileSkipped { root: RootName, reason: SkipReason },
    WalkProblem { root: RootName, message: String },
}

/// `DiagnosticKind` with its names taken as text.
pub enum KindView {
    Unresolved(UnresolvedView),
    DuplicateAnchor { root: Seq<char>, id: Seq<char> },
    AliasUndeclared { root: Seq<char>, path: Seq<char>, alias: Seq<char> },
    AliasDuplicate { root: Seq<char>, path: Seq<char>, alias: Seq<char> },
    Malformed { kind: MarkerKind, reason: ReasonView },
    Unverified(UnverifiedView),
    ExternalDuplicate { root: Seq<char>, id: Seq<char> },
    FileSkipped { root: Seq<char>, reason: SkipView },
    WalkProblem { root: Seq<char>, message: Seq<char> },
}

impl View for DiagnosticKind {
    type V = KindView;

    open spec fn view(&self) -> KindView {
        match self {
            DiagnosticKind::Unresolved(u) => KindView::Unresolved(u@),
            DiagnosticKind::DuplicateAnchor { root, id } => KindView::DuplicateAnchor { root: root@, id: id@ },
            DiagnosticKind::AliasUndeclared { root, path, alias } => KindView::AliasUndeclared {
                root: root@,
                path: path@,
                alias: alias@,
            },
            DiagnosticKind::AliasDuplicate { root, path, alias } => KindView::AliasDuplicate {
                root: root@,
                path: path@,
                alias: alias@,
            },
            DiagnosticKind::Malformed { kind, reason } => KindView::Malformed { kind: *kind, reason: reason@ },
            DiagnosticKind::Unverified(u) => KindView::Unverified(u@),
            DiagnosticKind::ExternalDuplicate { root, id } => KindView::ExternalDuplicate {
                root: root@,
                id: id@,
            },
            DiagnosticKind::FileSkipped { root, reason } => KindView::FileSkipped {
                root: root@,
                reason: reason@,
            },
            DiagnosticKind::WalkProblem { root, message } => KindView::WalkProblem {
                root: root@,
                message: message@,
            },
        }
    }
}

/// The severity a finding of kind `k` has before any policy applies.
pub open spec fn base_severity_of(k: KindView) -> Severity {
    match k {
        KindView::Unresolved(_) | KindView::DuplicateAnchor { .. } | KindView::AliasUndeclared { .. }
        | KindView::AliasDuplicate { .. } | KindView::Malformed { .. } => Severity::Error,
        KindView::Unverified(_) | KindView::ExternalDuplicate { .. } | KindView::FileSkipped { .. }
        | KindView::WalkProblem { .. } => Severity::Unverified,
    }
}

/// Broken markup in the repository (a reference that does not resolve, an anchor declared twice,
/// an alias used undeclared or declared twice in one file, a malformed marker) is an error
/// whatever the policy for unverified findings. Every other finding is unverified at base, and
/// an error only under the policy that makes unverified findings errors.
pub proof fn lemma_broken_markup_is_an_error(k: KindView, policy: UnverifiedPolicy)
    ensures
        (k is Unresolved || k is DuplicateAnchor || k is AliasUndeclared || k is AliasDuplicate || k is Malformed)
            ==> base_severity_of(k) == Severity::Error && promoted(base_severity_of(k), policy) == Severity::Error,
        !(k is Unresolved || k is DuplicateAnchor || k is AliasUndeclared || k is AliasDuplicate || k is Malformed)
            ==> base_severity_of(k) == Severity::Unverified && (promoted(base_severity_of(k), policy)
            == Severity::Error <==> policy == UnverifiedPolicy::Error),
{
}

/// For unverified findings and a few others, what would make them checkable or fixed.
pub open spec fn kind_hint(k: KindView) -> Option<Seq<char>> {
    match k {
        KindView::Unverified(UnverifiedView::RootAbsent { name, declared_dir }) => Some("root `"@ + name + "` is declared at "@ + declared_dir + "; create it, or fix `[roots] "@ + name + "` in anchr.toml"@),
        KindView::Unverified(UnverifiedView::NoGrammar { extension: Some(ext), .. }) => Some("no bundled grammar for `."@ + ext + "`; symbol references into these files cannot be checked"@),
        KindView::Unverified(UnverifiedView::NoGrammar { extension: None, .. }) => Some("the file has no extension, so no grammar can be chosen"@),
        KindView::Unverified(UnverifiedView::ParseErrors { language, .. }) => Some("the `"@ + language + "` grammar could not parse the whole file; the declaration may sit inside a syntax error or use syntax newer than the bundled grammar"@),
        KindView::Unverified(UnverifiedView::ParseTimeout { .. }) => Some("raise `scan.parse-budget-ms` in anchr.toml"@),
        KindView::Unverified(UnverifiedView::TargetTooLarge { .. }) => Some("raise `scan.max-file-bytes` in anchr.toml; anchors in skipped files are not indexed"@),
        KindView::FileSkipped { reason: SkipView::TooLarge { .. }, .. } => Some("raise `scan.max-file-bytes` in anchr.toml; anchors in skipped files are not indexed"@),
        KindView::FileSkipped { reason: SkipView::NotUtf8, .. } => Some("anchors in skipped files are not indexed"@),
        KindView::FileSkipped { reason: SkipView::Analyze { .. }, .. } => Some("anchors in skipped files are not indexed"@),
        KindView::ExternalDuplicate { root, .. } => Some("fix the duplicate in root `"@ + root + "`; references to it still resolve"@),
        KindView::AliasUndeclared { alias, .. } => Some("declare it once in this file: `@ref[target as "@ + alias + "]`"@),
        _ => None,
    }
}

/// The one-line message a finding of kind `k` is reported with.
pub open spec fn kind_message(k: KindView) -> Seq<char> {
    match k {
        KindView::Unresolved(UnresolvedView::PathMissing { root, path }) => "missing path `"@ + path + "` in root `"@ + root + "`"@,
        KindView::Unresolved(UnresolvedView::PathNotDirectory { root, path }) => "`"@ + path + "` in root `"@ + root + "` is not a directory"@,
        KindView::Unresolved(UnresolvedView::PathNotFile { root, path }) => "`"@ + path + "` in root `"@ + root + "` is a directory, not a file"@,
        KindView::Unresolved(UnresolvedView::PathEscapesRoot { root, path }) => "`"@ + path + "` resolves outside root `"@ + root + "`; not read"@,
        KindView::Unresolved(UnresolvedView::SymbolMissing { root, path, name }) => "no declaration named `"@ + name + "` in `"@ + path + "` (root `"@ + root + "`)"@,
        KindView::Unresolved(UnresolvedView::AnchorMissing { root, id }) => "unknown anchor id `"@ + id + "` in root `"@ + root + "`"@,
        KindView::Unresolved(UnresolvedView::RootUndeclared { name }) => "undeclared root `"@ + name + "`"@,
        KindView::DuplicateAnchor { root, id } => "anchor id `"@ + id + "` is declared more than once in root `"@ + root + "`"@,
        KindView::AliasUndeclared { root, path, alias } => "alias `"@ + alias + "` is not declared in `"@ + path + "` (root `"@ + root + "`)"@,
        KindView::AliasDuplicate { root, path, alias } => "alias `"@ + alias + "` is declared more than once in `"@ + path + "` (root `"@ + root + "`)"@,
        KindView::Malformed { kind, reason } => "malformed "@ + kind.syntax() + ": "@ + reason_message(reason),
        KindView::Unverified(UnverifiedView::RootAbsent { name, .. }) => "root `"@ + name + "` is not present; references into it were not checked"@,
        KindView::Unverified(UnverifiedView::NoGrammar { path, .. }) => "no grammar for `"@ + path + "`; symbol references into it were not checked"@,
        KindView::Unverified(UnverifiedView::ParseErrors { path, .. }) => "`"@ + path + "` has parse errors; missing symbols in it could not be confirmed"@,
        KindView::Unverified(UnverifiedView::ParseTimeout { path, .. }) => "parsing `"@ + path + "` timed out"@,
        KindView::Unverified(UnverifiedView::SymbolTableTruncated { path, .. }) => "`"@ + path + "` has too many declarations to index"@,
        KindView::Unverified(UnverifiedView::TargetTooLarge { path, bytes, limit, .. }) => "`"@ + path + "` is "@ + decimal(bytes as nat) + " bytes, over the "@ + decimal(limit as nat) + "-byte limit; not read"@,
        KindView::Unverified(UnverifiedView::TargetNotUtf8 { path, .. }) => "`"@ + path + "` is not UTF-8; not read"@,
        KindView::Unverified(UnverifiedView::TargetUnreadable { path, message, .. }) => "`"@ + path + "` could not be read: "@ + message,
        KindView::Unverified(UnverifiedView::AnalyzeFailed { path, message, .. }) => "`"@ + path + "` could not be analyzed: "@ + message,
        KindView::ExternalDuplicate { root, id } => "anchor id `"@ + id + "` is declared more than once in external root `"@ + root + "`"@,
        KindView::FileSkipped { reason, .. } => "file not checked: "@ + skip_message(reason),
        KindView::WalkProblem { message, .. } => "could not walk: "@ + message,
    }
}

impl DiagnosticKind {
    /// Intrinsic severity; `--strict` promotes unverified findings at report time.
    pub fn base_severity(&self) -> (s: Severity)
        ensures
            s == base_severity_of(self@),
    {
        match self {
            DiagnosticKind::Unresolved(_) | DiagnosticKind::DuplicateAnchor { .. }
            | DiagnosticKind::AliasUndeclared { .. } | DiagnosticKind::AliasDuplicate { .. }
            | DiagnosticKind::Malformed { .. } => Severity::Error,
            DiagnosticKind::Unverified(_) | DiagnosticKind::ExternalDuplicate { .. }
            | DiagnosticKind::FileSkipped { .. } | DiagnosticKind::WalkProblem { .. } => Severity::Unverified,
        }
    }

    /// For unverified findings and a few others, what would make them checkable or fixed.
    pub fn hint(&self) -> (h: Option<String>)
        ensures
            opt_text(h) == kind_hint(self@),
    {
        match self {
            DiagnosticKind::Unverified(Unverified::RootAbsent { name, declared_dir }) => {
                let mut s = "root `".to_owned();
                push_text(&mut s, name.as_str());
                push_text(&mut s, "` is declared at ");
                push_text(&mut s, declared_dir.as_str());
                push_text(&mut s, "; create it, or fix `[roots] ");
                push_text(&mut s, name.as_str());
                push_text(&mut s, "` in anchr.toml");
                Some(s)
            },
            DiagnosticKind::Unverified(Unverified::NoGrammar { extension: Some(ext), .. }) => {
                let mut s = "no bundled grammar for `.".to_owned();
                push_text(&mut s, ext.as_str());
                push_text(&mut s, "`; symbol references into these files cannot be checked");
                Some(s)
            },
            DiagnosticKind::Unverified(Unverified::NoGrammar { extension: None, .. }) => {
                Some("the file has no extension, so no grammar can be chosen".to_owned())
            },
            DiagnosticKind::Unverified(Unverified::ParseErrors { language, .. }) => {
                let mut s = "the `".to_owned();
                push_text(&mut s, language.as_str());
                push_text(&mut s, "` grammar could not parse the whole file; the declaration may sit inside a syntax error or use syntax newer than the bundled grammar");
                Some(s)
            },
            DiagnosticKind::Unverified(Unverified::ParseTimeout { .. }) => {
                Some("raise `scan.parse-budget-ms` in anchr.toml".to_owned())
            },
            DiagnosticKind::Unverified(Unverified::TargetTooLarge { .. }) => {
                Some("raise `scan.max-file-bytes` in anchr.toml; anchors in skipped files are not indexed".to_owned())
            },
            DiagnosticKind::FileSkipped { reason: SkipReason::TooLarge { .. }, .. } => {
                Some("raise `scan.max-file-bytes` in anchr.toml; anchors in skipped files are not indexed".to_owned())
            },
            DiagnosticKind::FileSkipped { reason: SkipReason::NotUtf8, .. } => {
                Some("anchors in skipped files are not indexed".to_owned())
            },
            DiagnosticKind::FileSkipped { reason: SkipReason::Analyze { .. }, .. } => {
                Some("anchors in skipped files are not indexed".to_owned())
            },
            DiagnosticKind::ExternalDuplicate { root, .. } => {
                let mut s = "fix the duplicate in root `".to_owned();
                push_text(&mut s, root.as_str());
                push_text(&mut s, "`; references to it still resolve");
                Some(s)
            },
            DiagnosticKind::AliasUndeclared { alias, .. } => {
                let mut s = "declare it once in this file: `@ref[target as ".to_owned();
                push_text(&mut s, alias.as_str());
                push_text(&mut s, "]`");
                Some(s)
            },
            _ => None,
        }
    }

    /// The one-line message this finding is reported with.
    pub fn to_string(&self) -> (s: String)
        ensures
            s@ == kind_message(self@),
    {
        match self {
            DiagnosticKind::Unresolved(Unresolved::PathMissing { root, path }) => {
                let mut s = "missing path `".to_owned();
                push_text(&mut s, path.as_str());
                push_text(&mut s, "` in root `");
                push_text(&mut s, root.as_str());
                push_text(&mut s, "`");
                s
            },
            DiagnosticKind::Unresolved(Unresolved::PathNotDirectory { root, path }) => {
                let mut s = "`".to_owned();
                push_text(&mut s, path.as_str());
                push_text(&mut s, "` in root `");
                push_text(&mut s, root.as_str());
                push_text(&mut s, "` is not a directory");
                s
            },
            DiagnosticKind::Unresolved(Unresolved::PathNotFile { root, path }) => {
                let mut s = "`".to_owned();
                push_text(&mut s, path.as_str());
                push_text(&mut s, "` in root `");
                push_text(&mut s, root.as_str());
                push_text(&mut s, "` is a directory, not a file");
                s
            },
            DiagnosticKind::Unresolved(Unresolved::PathEscapesRoot { root, path }) => {
                let mut s = "`".to_owned();
                push_text(&mut s, path.as_str());
                push_text(&mut s, "` resolves outside root `");
                push_text(&mut s, root.as_str());
                push_text(&mut s, "`; not read");
                s
            },
            DiagnosticKind::Unresolved(Unresolved::SymbolMissing { root, path, name }) => {
                let mut s = "no declaration named `".to_owned();
                push_text(&mut s, name.as_str());
                push_text(&mut s, "` in `");
                push_text(&mut s, path.as_str());
                push_text(&mut s, "` (root `");
                push_text(&mut s, root.as_str());
                push_text(&mut s, "`)");
                s
            },
            DiagnosticKind::Unresolved(Unresolved::AnchorMissing { root, id }) => {
                let mut s = "unknown anchor id `".to_owned();
                push_text(&mut s, id.as_str());
                push_text(&mut s, "` in root `");
                push_text(&mut s, root.as_str());
                push_text(&mut s, "`");
                s
            },
            DiagnosticKind::Unresolved(Unresolved::RootUndeclared { name }) => {
                let mut s = "undeclared root `".to_owned();
                push_text(&mut s, name.as_str());
                push_text(&mut s, "`");
                s
            },
            DiagnosticKind::DuplicateAnchor { root, id } => {
                let mut s = "anchor id `".to_owned();
                push_text(&mut s, id.as_str());
                push_text(&mut s, "` is declared more than once in root `");
                push_text(&mut s, root.as_str());
                push_text(&mut s, "`");
                s
            },
            DiagnosticKind::AliasUndeclared { root, path, alias } => {
                let mut s = "alias `".to_owned();
                push_text(&mut s, alias.as_str());
                push_text(&mut s, "` is not declared in `");
                push_text(&mut s, path.as_str());
                push_text(&mut s, "` (root `");
                push_text(&mut s, root.as_str());
                push_text(&mut s, "`)");
                s
            },
            DiagnosticKind::AliasDuplicate { root, path, alias } => {
                let mut s = "alias `".to_owned();
                push_text(&mut s, alias.as_str());
                push_text(&mut s, "` is declared more than once in `");
                push_text(&mut s, path.as_str());
                push_text(&mut s, "` (root `");
                push_text(&mut s, root.as_str());
                push_text(&mut s, "`)");
                s
            },
            DiagnosticKind::Malformed { kind, reason } => {
                let mut s = "malformed ".to_owned();
                push_text(&mut s, &kind.to_string());
                push_text(&mut s, ": ");
                push_text(&mut s, &reason.message());
                s
            },
            DiagnosticKind::Unverified(Unverified::RootAbsent { name, .. }) => {
                let mut s = "root `".to_owned();
                push_text(&mut s, name.as_str());
                push_text(&mut s, "` is not present; references into it were not checked");
                s
            },
            DiagnosticKind::Unverified(Unverified::NoGrammar { path, .. }) => {
                let mut s = "no grammar for `".to_owned();
                push_text(&mut s, path.as_str());
                push_text(&mut s, "`; symbol references into it were not checked");
                s
            },
            DiagnosticKind::Unverified(Unverified::ParseErrors { path, .. }) => {
                let mut s = "`".to_owned();
                push_text(&mut s, path.as_str());
                push_text(&mut s, "` has parse errors; missing symbols in it could not be confirmed");
                s
            },
            DiagnosticKind::Unverified(Unverified::ParseTimeout { path, .. }) => {
                let mut s = "parsing `".to_owned();
                push_text(&mut s, path.as_str());
                push_text(&mut s, "` timed out");
                s
            },
            DiagnosticKind::Unverified(Unverified::SymbolTableTruncated { path, .. }) => {
                let mut s = "`".to_owned();
                push_text(&mut s, path.as_str());
                push_text(&mut s, "` has too many declarations to index");
                s
            },
            DiagnosticKind::Unverified(Unverified::TargetTooLarge { path, bytes, limit, .. }) => {
                let mut s = "`".to_owned();
                push_text(&mut s, path.as_str());
                push_text(&mut s, "` is ");
                push_text(&mut s, &decimal_text(*bytes));
                push_text(&mut s, " bytes, over the ");
                push_text(&mut s, &decimal_text(*limit));
                push_text(&mut s, "-byte limit; not read");
                s
            },
            DiagnosticKind::Unverified(Unverified::TargetNotUtf8 { path, .. }) => {
                let mut s = "`".to_owned();
                push_text(&mut s, path.as_str());
                push_text(&mut s, "` is not UTF-8; not read");
                s
            },
            DiagnosticKind::Unverified(Unverified::TargetUnreadable { path, message, .. }) => {
                let mut s = "`".to_owned();
                push_text(&mut s, path.as_str());
                push_text(&mut s, "` could not be read: ");
                push_text(&mut s, message.as_str());
                s
            },
            DiagnosticKind::Unverified(Unverified::AnalyzeFailed { path, message, .. }) => {
                let mut s = "`".to_owned();
                push_text(&mut s, path.as_str());
                push_text(&mut s, "` could not be analyzed: ");
                push_text(&mut s, message.as_str());
                s
            },
            DiagnosticKind::ExternalDuplicate { root, id } => {
                let mut s = "anchor id `".to_owned();
                push_text(&mut s, id.as_str());
                push_text(&mut s, "` is declared more than once in external root `");
                push_text(&mut s, root.as_str());
                push_text(&mut s, "`");
                s
            },
            DiagnosticKind::FileSkipped { reason, .. } => {
                let mut s = "file not checked: ".to_owned();
                push_text(&mut s, &reason.message());
                s
            },
            DiagnosticKind::WalkProblem { message, .. } => {
                let mut s = "could not walk: ".to_owned();
                push_text(&mut s, message.as_str());
                s
            },
        }
    }

    /// Whether the two kinds are the same cause.
    pub fn same_as(&self, other: &DiagnosticKind) -> (b: bool)
        ensures
            b == (self@ == other@),
    {
        match (self, other) {
            (DiagnosticKind::Unresolved(a), DiagnosticKind::Unresolved(b)) => a.same_as(b),
            (
                DiagnosticKind::DuplicateAnchor { root: r1, id: i1 },
                DiagnosticKind::DuplicateAnchor { root: r2, id: i2 },
            ) => r1.same(r2) && i1.same(i2),
            (
                DiagnosticKind::AliasUndeclared { root: r1, path: p1, alias: a1 },
                DiagnosticKind::AliasUndeclared { root: r2, path: p2, alias: a2 },
            ) => r1.same(r2) && p1.same(p2) && a1.same(a2),
            (
                DiagnosticKind::AliasDuplicate { root: r1, path: p1, alias: a1 },
                DiagnosticKind::AliasDuplicate { root: r2, path: p2, alias: a2 },
            ) => r1.same(r2) && p1.same(p2) && a1.same(a2),
            (
                DiagnosticKind::Malformed { kind: k1, reason: m1 },
                DiagnosticKind::Malformed { kind: k2, reason: m2 },
            ) => *k1 == *k2 && m1.same_as(m2),
            (DiagnosticKind::Unverified(a), DiagnosticKind::Unverified(b)) => a.same_as(b),
            (
                DiagnosticKind::ExternalDuplicate { root: r1, id: i1 },
                DiagnosticKind::ExternalDuplicate { root: r2, id: i2 },
            ) => r1.same(r2) && i1.same(i2),
            (
                DiagnosticKind::FileSkipped { root: r1, reason: s1 },
                DiagnosticKind::FileSkipped { root: r2, reason: s2 },
            ) => r1.same(r2) && s1.same_as(s2),
            (
                DiagnosticKind::WalkProblem { root: r1, message: m1 },
                DiagnosticKind::WalkProblem { root: r2, message: m2 },
            ) => r1.same(r2) && same_text(m1.as_str(), m2.as_str()),
            _ => false,
        }
    }
}

impl Clone for DiagnosticKind {
    fn clone(&self) -> (r: Self)
        ensures
            r@ == self@,
    {
        match self {
            DiagnosticKind::Unresolved(u) => DiagnosticKind::Unresolved(u.clone()),
            DiagnosticKind::DuplicateAnchor { root, id } => DiagnosticKind::DuplicateAnchor {
                root: root.clone(),
                id: id.clone(),
            },
            DiagnosticKind::AliasUndeclared { root, path, alias } => DiagnosticKind::AliasUndeclared {
                root: root.clone(),
                path: path.clone(),
                alias: alias.clone(),
            },
            DiagnosticKind::AliasDuplicate { root, path, alias } => DiagnosticKind::AliasDuplicate {
                root: root.clone(),
                path: path.clone(),
                alias: alias.clone(),
            },
            DiagnosticKind::Malformed { kind, reason } => DiagnosticKind::Malformed {
                kind: *kind,
                reason: reason.clone(),
            },
            DiagnosticKind::Unverified(u) => DiagnosticKind::Unverified(u.clone()),
            DiagnosticKind::ExternalDuplicate { root, id } => DiagnosticKind::ExternalDuplicate {
                root: root.clone(),
                id: id.clone(),
            },
            DiagnosticKind::FileSkipped { root, reason } => DiagnosticKind::FileSkipped {
                root: root.clone(),
                reason: reason.clone(),
            },
            DiagnosticKind::WalkProblem { root, message } => DiagnosticKind::WalkProblem {
                root: root.clone(),
                message: message.clone(),
            },
        }
    }
}

/// A marker site with its line and column resolved.
#[derive(Debug, PartialEq, Eq, Hash, PartialOrd, Ord)]
pub struct LocatedSite {
    pub site: Site,
    pub line_col: LineCol,
}

pub struct LocatedView {
    pub site: SiteView,
    pub line_col: LineCol,
}

impl View for LocatedSite {
    type V = LocatedView;

    open spec fn view(&self) -> LocatedView {
        LocatedView { site: self.site@, line_col: self.line_col }
    }
}

impl Clone for LocatedSite {
    fn clone(&self) -> (r: Self)
        ensures
            r@ == self@,
    {
        LocatedSite { site: self.site.clone(), line_col: self.line_col }
    }
}

/// A file a finding is about, as a whole.
#[derive(Debug, PartialEq, Eq, Hash, PartialOrd, Ord)]
pub struct FileLocation {
    pub root: RootName,
    pub path: FilePath,
}

impl View for FileLocation {
    type V = (Seq<char>, Seq<char>);

    open spec fn view(&self) -> (Seq<char>, Seq<char>) {
        (self.root@, self.path@)
    }
}

impl Clone for FileLocation {
    fn clone(&self) -> (r: Self)
        ensures
            r@ == self@,
    {
        FileLocation { root: self.root.clone(), path: self.path.clone() }
    }
}

/// Where a finding was made: at marker sites, at whole files, or at whole roots.
#[derive(Debug, PartialEq, Eq)]
pub enum Locations {
    Sites(Vec<LocatedSite>),
    Files(Vec<FileLocation>),
    Roots(Vec<RootName>),
}

pub enum LocationsView {
    Sites(Seq<LocatedView>),
    Files(Seq<(Seq<char>, Seq<char>)>),
    Roots(Seq<Seq<char>>),
}

impl View for Locations {
    type V = LocationsView;

    open spec fn view(&self) -> LocationsView {
        match self {
            Locations::Sites(v) => LocationsView::Sites(v@.map_values(|s: LocatedSite| s@)),
            Locations::Files(v) => LocationsView::Files(v@.map_values(|f: FileLocation| f@)),
            Locations::Roots(v) => LocationsView::Roots(v@.map_values(|r: RootName| r@)),
        }
    }
}

/// How many locations there are.
pub open spec fn locations_len(l: LocationsView) -> nat {
    match l {
        LocationsView::Sites(v) => v.len(),
        LocationsView::Files(v) => v.len(),
        LocationsView::Roots(v) => v.len(),
    }
}

impl Locations {
    pub fn len(&self) -> (n: usize)
        ensures
            n == locations_len(self@),
    {
        match self {
            Locations::Sites(sites) => sites.len(),
            Locations::Files(files) => files.len(),
            Locations::Roots(roots) => roots.len(),
        }
    }

    pub fn is_empty(&self) -> (b: bool)
        ensures
            b == (locations_len(self@) == 0),
    {
        self.len() == 0
    }
}

/// One finding: a cause, how severe it is, where it was made, and what may help.
#[derive(Debug, PartialEq, Eq)]
pub struct Diagnostic {
    pub kind: DiagnosticKind,
    pub severity: Severity,
    pub locations: Locations,
    pub suggestion: Option<String>,
    /// Context that does not change the cause, such as how many alias uses a broken
    /// declaration carries.
    pub notes: Vec<String>,
}

pub struct DiagView {
    pub kind: KindView,
    pub severity: Severity,
    pub locations: LocationsView,
    pub suggestion: Option<Seq<char>>,
    pub notes: Seq<Seq<char>>,
}

/// Texts taken by value.
pub open spec fn texts(v: Seq<String>) -> Seq<Seq<char>> {
    v.map_values(|s: String| s@)
}

impl View for Diagnostic {
    type V = DiagView;

    open spec fn view(&self) -> DiagView {
        DiagView {
            kind: self.kind@,
            severity: self.severity,
            locations: self.locations@,
            suggestion: opt_text(self.suggestion),
            notes: texts(self.notes@),
        }
    }
}

/// The counts a check reports beside its findings.
#[derive(Debug, Clone, Copy, PartialEq, Eq, Structural)]
pub struct Summary {
    pub roots_scanned: usize,
    pub files_scanned: usize,
    pub anchors: usize,
    pub refs_checked: usize,
    pub refs_resolved: usize,
    /// `@[Alias]` sites bound to a declaration in their file; unbound ones are errors.
    pub alias_uses: usize,
    pub errors: usize,
    pub unverified: usize,
}

impl Default for Summary {
    fn default() -> (r: Self)
        ensures
            r == (Summary {
                roots_scanned: 0,
                files_scanned: 0,
                anchors: 0,
                refs_checked: 0,
                refs_resolved: 0,
                alias_uses: 0,
                errors: 0,
                unverified: 0,
            }),
    {
        Summary {
            roots_scanned: 0,
            files_scanned: 0,
            anchors: 0,
            refs_checked: 0,
            refs_resolved: 0,
            alias_uses: 0,
            errors: 0,
            unverified: 0,
        }
    }
}

/// Everything a check found, ready to render.
#[derive(Debug, PartialEq, Eq)]
pub struct Report {
    pub diagnostics: Vec<Diagnostic>,
    pub summary: Summary,
    pub policy: UnverifiedPolicy,
    /// Directory of every present root, by root name, so renderers can read source for
    /// snippets.
    pub root_dirs: Vec<(RootName, String)>,
}

impl Report {
    pub fn has_errors(&self) -> (b: bool)
        ensures
            b == (self.summary.errors > 0),
    {
        self.summary.errors > 0
    }
}

/// The first position in `s` whose key is `k`, or the length of `s` when there is none.
pub open spec fn first_with<A>(s: Seq<A>, key: spec_fn(A) -> KindView, k: KindView) -> int
    decreases s.len(),
{
    if s.len() == 0 {
        0
    } else if key(s[0]) == k {
        0
    } else {
        1 + first_with(s.drop_first(), key, k)
    }
}

/// `first_with` is the first position whose key is `k`.
proof fn lemma_first_with<A>(s: Seq<A>, key: spec_fn(A) -> KindView, k: KindView, i: int)
    requires
        0 <= i <= s.len(),
        forall|j: int| 0 <= j < i ==> key(#[trigger] s[j]) != k,
        i == s.len() || key(s[i]) == k,
    ensures
        first_with(s, key, k) == i,
    decreases s.len(),
{
    if s.len() > 0 && i > 0 {
        assert forall|j: int| 0 <= j < i - 1 implies key(#[trigger] s.drop_first()[j]) != k by {
            assert(s.drop_first()[j] == s[j + 1]);
        }
        if i < s.len() {
            assert(s.drop_first()[i - 1] == s[i]);
        }
        lemma_first_with(s.drop_first(), key, k, i - 1);
        assert(key(s[0]) != k);
    }
}

/// A group of locations collected for one cause.
pub type GroupView = (KindView, Seq<LocatedView>, Seq<(Seq<char>, Seq<char>)>, Seq<Seq<char>>);

pub open spec fn group_key() -> spec_fn(GroupView) -> KindView {
    |g: GroupView| g.0
}

pub open spec fn suggestion_key() -> spec_fn((KindView, Seq<char>)) -> KindView {
    |e: (KindView, Seq<char>)| e.0
}

pub open spec fn note_key() -> spec_fn((KindView, Seq<Seq<char>>)) -> KindView {
    |e: (KindView, Seq<Seq<char>>)| e.0
}

/// The groups after one more site for `k`: appended to its group, or to a new group at the end.
pub open spec fn with_site(groups: Seq<GroupView>, k: KindView, s: LocatedView) -> Seq<GroupView> {
    let i = first_with(groups, group_key(), k);
    if i < groups.len() {
        groups.update(i, (groups[i].0, groups[i].1.push(s), groups[i].2, groups[i].3))
    } else {
        groups.push((k, seq![s], Seq::empty(), Seq::empty()))
    }
}

pub open spec fn with_file(groups: Seq<GroupView>, k: KindView, f: (Seq<char>, Seq<char>)) -> Seq<
    GroupView,
> {
    let i = first_with(groups, group_key(), k);
    if i < groups.len() {
        groups.update(i, (groups[i].0, groups[i].1, groups[i].2.push(f), groups[i].3))
    } else {
        groups.push((k, Seq::empty(), seq![f], Seq::empty()))
    }
}

pub open spec fn with_root(groups: Seq<GroupView>, k: KindView, r: Seq<char>) -> Seq<GroupView> {
    let i = first_with(groups, group_key(), k);
    if i < groups.len() {
        groups.update(i, (groups[i].0, groups[i].1, groups[i].2, groups[i].3.push(r)))
    } else {
        groups.push((k, Seq::empty(), Seq::empty(), seq![r]))
    }
}

/// The first suggestion offered for a cause is kept.
pub open spec fn with_suggestion(
    suggestions: Seq<(KindView, Seq<char>)>,
    k: KindView,
    s: Option<Seq<char>>,
) -> Seq<(KindView, Seq<char>)> {
    match s {
        Some(t) => if first_with(suggestions, suggestion_key(), k) < suggestions.len() {
            suggestions
        } else {
            suggestions.push((k, t))
        },
        None => suggestions,
    }
}

/// A note is kept once per cause, in the order first given.
pub open spec fn with_note(notes: Seq<(KindView, Seq<Seq<char>>)>, k: KindView, n: Seq<char>) -> Seq<
    (KindView, Seq<Seq<char>>),
> {
    let i = first_with(notes, note_key(), k);
    if i < notes.len() {
        if notes[i].1.contains(n) {
            notes
        } else {
            notes.update(i, (notes[i].0, notes[i].1.push(n)))
        }
    } else {
        notes.push((k, seq![n]))
    }
}

struct Group {
    kind: DiagnosticKind,
    sites: Vec<LocatedSite>,
    files: Vec<FileLocation>,
    roots: Vec<RootName>,
}

impl View for Group {
    type V = GroupView;

    closed spec fn view(&self) -> GroupView {
        (
            self.kind@,
            self.sites@.map_values(|s: LocatedSite| s@),
            self.files@.map_values(|f: FileLocation| f@),
            self.roots@.map_values(|r: RootName| r@),
        )
    }
}

/// Accumulates findings and groups them by cause, in the order causes are first seen.
pub struct ReportBuilder {
    groups: Vec<Group>,
    suggestions: Vec<(DiagnosticKind, String)>,
    notes: Vec<(DiagnosticKind, Vec<String>)>,
}

pub struct BuilderView {
    pub groups: Seq<GroupView>,
    pub suggestions: Seq<(KindView, Seq<char>)>,
    pub notes: Seq<(KindView, Seq<Seq<char>>)>,
}

impl View for ReportBuilder {
    type V = BuilderView;

    closed spec fn view(&self) -> BuilderView {
        BuilderView {
            groups: self.groups@.map_values(|g: Group| g@),
            suggestions: self.suggestions@.map_values(|e: (DiagnosticKind, String)| (e.0@, e.1@)),
            notes: self.notes@.map_values(|e: (DiagnosticKind, Vec<String>)| (e.0@, texts(e.1@))),
        }
    }
}

impl Default for ReportBuilder {
    fn default() -> (r: Self)
        ensures
            r@.groups.len() == 0,
            r@.suggestions.len() == 0,
            r@.notes.len() == 0,
    {
        let r = ReportBuilder { groups: Vec::new(), suggestions: Vec::new(), notes: Vec::new() };
        assert(r@.groups =~= Seq::<GroupView>::empty());
        r
    }
}

impl ReportBuilder {
    /// Where the group for `kind` is, or the number of groups when there is none yet.
    fn group_of(&self, kind: &DiagnosticKind) -> (i: usize)
        ensures
            i == first_with(self@.groups, group_key(), kind@),
            i <= self@.groups.len(),
    {
        let ghost gs = self@.groups;
        let mut i: usize = 0;
        while i < self.groups.len() && !self.groups[i].kind.same_as(kind)
            invariant
                i <= self.groups@.len(),
                gs == self@.groups,
                forall|j: int| 0 <= j < i ==> (#[trigger] gs[j]).0 != kind@,
            decreases self.groups.len() - i,
        {
            assert(gs[i as int] == self.groups@[i as int]@);
            i += 1;
        }
        proof {
            if i < self.groups.len() {
                assert(gs[i as int] == self.groups@[i as int]@);
            }
            assert forall|j: int| 0 <= j < i implies group_key()(#[trigger] gs[j]) != kind@ by {}
            lemma_first_with(gs, group_key(), kind@, i as int);
        }
        i
    }

    pub fn site(&mut self, kind: DiagnosticKind, site: LocatedSite)
        ensures
            final(self)@.groups == with_site(old(self)@.groups, kind@, site@),
            final(self)@.suggestions == old(self)@.suggestions,
            final(self)@.notes == old(self)@.notes,
    {
        let i = self.group_of(&kind);
        let ghost gs = self@.groups;
        let ghost sv = site@;
        if i < self.groups.len() {
            let mut g = self.groups.remove(i);
            let ghost before = g@;
            g.sites.push(site);
            assert(g@.1 =~= before.1.push(sv));
            self.groups.insert(i, g);
            assert(self@.groups =~= gs.update(i as int, (gs[i as int].0, gs[i as int].1.push(sv), gs[i as int].2, gs[i as int].3)));
        } else {
            let ghost kv = kind@;
            let mut sites: Vec<LocatedSite> = Vec::new();
            sites.push(site);
            let g = Group { kind, sites, files: Vec::new(), roots: Vec::new() };
            assert(g@ =~= (kv, seq![sv], Seq::<(Seq<char>, Seq<char>)>::empty(), Seq::<Seq<char>>::empty()));
            self.groups.push(g);
            assert(self@.groups =~= gs.push(g@));
        }
    }

    pub fn file(&mut self, kind: DiagnosticKind, location: FileLocation)
        ensures
            final(self)@.groups == with_file(old(self)@.groups, kind@, location@),
            final(self)@.suggestions == old(self)@.suggestions,
            final(self)@.notes == old(self)@.notes,
    {
        let i = self.group_of(&kind);
        let ghost gs = self@.groups;
        let ghost fv = location@;
        if i < self.groups.len() {
            let mut g = self.groups.remove(i);
            let ghost before = g@;
            g.files.push(location);
            assert(g@.2 =~= before.2.push(fv));
            self.groups.insert(i, g);
            assert(self@.groups =~= gs.update(i as int, (gs[i as int].0, gs[i as int].1, gs[i as int].2.push(fv), gs[i as int].3)));
        } else {
            let ghost kv = kind@;
            let mut files: Vec<FileLocation> = Vec::new();
            files.push(location);
            let g = Group { kind, sites: Vec::new(), files, roots: Vec::new() };
            assert(g@ =~= (kv, Seq::<LocatedView>::empty(), seq![fv], Seq::<Seq<char>>::empty()));
            self.groups.push(g);
            assert(self@.groups =~= gs.push(g@));
        }
    }

    pub fn root(&mut self, kind: DiagnosticKind, root: RootName)
        ensures
            final(self)@.groups == with_root(old(self)@.groups, kind@, root@),
            final(self)@.suggestions == old(self)@.suggestions,
            final(self)@.notes == old(self)@.notes,
    {
        let i = self.group_of(&kind);
        let ghost gs = self@.groups;
        let ghost rv = root@;
        if i < self.groups.len() {
            let mut g = self.groups.remove(i);
            let ghost before = g@;
            g.roots.push(root);
            assert(g@.3 =~= before.3.push(rv));
            self.groups.insert(i, g);
            assert(self@.groups =~= gs.update(i as int, (gs[i as int].0, gs[i as int].1, gs[i as int].2, gs[i as int].3.push(rv))));
        } else {
            let ghost kv = kind@;
            let mut roots: Vec<RootName> = Vec::new();
            roots.push(root);
            let g = Group { kind, sites: Vec::new(), files: Vec::new(), roots };
            assert(g@ =~= (kv, Seq::<LocatedView>::empty(), Seq::<(Seq<char>, Seq<char>)>::empty(), seq![rv]));
            self.groups.push(g);
            assert(self@.groups =~= gs.push(g@));
        }
    }

    /// The first suggestion offered for a cause is kept; later ones for the same cause agree.
    pub fn suggestion(&mut self, kind: &DiagnosticKind, suggestion: Option<String>)
        ensures
            final(self)@.suggestions == with_suggestion(old(self)@.suggestions, kind@, opt_text(suggestion)),
            final(self)@.groups == old(self)@.groups,
            final(self)@.notes == old(self)@.notes,
    {
        if let Some(text) = suggestion {
            let ghost ss = self@.suggestions;
            let mut i: usize = 0;
            while i < self.suggestions.len() && !self.suggestions[i].0.same_as(kind)
                invariant
                    i <= self.suggestions@.len(),
                    ss == self@.suggestions,
                    forall|j: int| 0 <= j < i ==> (#[trigger] ss[j]).0 != kind@,
                decreases self.suggestions.len() - i,
            {
                assert(ss[i as int] == (self.suggestions@[i as int].0@, self.suggestions@[i as int].1@));
                i += 1;
            }
            proof {
                if i < self.suggestions.len() {
                    assert(ss[i as int] == (self.suggestions@[i as int].0@, self.suggestions@[i as int].1@));
                }
                assert forall|j: int| 0 <= j < i implies suggestion_key()(#[trigger] ss[j]) != kind@ by {}
                lemma_first_with(ss, suggestion_key(), kind@, i as int);
            }
            if i == self.suggestions.len() {
                let ghost tv = text@;
                self.suggestions.push((kind.clone(), text));
                assert(self@.suggestions =~= ss.push((kind@, tv)));
            }
        }
    }

    /// Adds a note to a cause, once.
    pub fn note(&mut self, kind: &DiagnosticKind, note: String)
        ensures
            final(self)@.notes == with_note(old(self)@.notes, kind@, note@),
            final(self)@.groups == old(self)@.groups,
            final(self)@.suggestions == old(self)@.suggestions,
    {
        let ghost ns = self@.notes;
        let ghost nv = note@;
        let mut i: usize = 0;
        while i < self.notes.len() && !self.notes[i].0.same_as(kind)
            invariant
                i <= self.notes@.len(),
                ns == self@.notes,
                forall|j: int| 0 <= j < i ==> (#[trigger] ns[j]).0 != kind@,
            decreases self.notes.len() - i,
        {
            assert(ns[i as int] == (self.notes@[i as int].0@, texts(self.notes@[i as int].1@)));
            i += 1;
        }
        proof {
            if i < self.notes.len() {
                assert(ns[i as int] == (self.notes@[i as int].0@, texts(self.notes@[i as int].1@)));
            }
            assert forall|j: int| 0 <= j < i implies note_key()(#[trigger] ns[j]) != kind@ by {}
            lemma_first_with(ns, note_key(), kind@, i as int);
        }
        if i < self.notes.len() {
            let (k, mut list) = self.notes.remove(i);
            let ghost lv = texts(list@);
            let present = contains_text(&list, &note);
            if !present {
                list.push(note);
                assert(texts(list@) =~= lv.push(nv));
            }
            self.notes.insert(i, (k, list));
            if present {
                assert(self@.notes =~= ns);
            } else {
                assert(self@.notes =~= ns.update(i as int, (ns[i as int].0, ns[i as int].1.push(nv))));
            }
        } else {
            let mut list: Vec<String> = Vec::new();
            list.push(note);
            assert(texts(list@) =~= seq![nv]);
            self.notes.push((kind.clone(), list));
            assert(self@.notes =~= ns.push((kind@, seq![nv])));
        }
    }
}

/// Whether `list` holds `t`.
fn contains_text(list: &Vec<String>, t: &String) -> (b: bool)
    ensures
        b == texts(list@).contains(t@),
{
    let mut i: usize = 0;
    while i < list.len()
        invariant
            i <= list@.len(),
            forall|j: int| 0 <= j < i ==> (#[trigger] texts(list@)[j]) != t@,
        decreases list.len() - i,
    {
        if same_text(list[i].as_str(), t.as_str()) {
            assert(texts(list@)[i as int] == t@);
            return true;
        }
        i += 1;
    }
    false
}

impl Ordered for LocatedSite {
    /// By site, then by line and column.
    open spec fn before(a: LocatedView, b: LocatedView) -> bool {
        site_less(a.site, b.site) || (a.site == b.site && (a.line_col.line < b.line_col.line || (
        a.line_col.line == b.line_col.line && a.line_col.col < b.line_col.col)))
    }

    fn less(&self, other: &Self) -> (b: bool) {
        if less_site(&self.site, &other.site) {
            true
        } else if less_site(&other.site, &self.site) {
            proof {
                crate::index::lemma_site_less_asymmetric(self.site@, other.site@);
            }
            false
        } else {
            proof {
                crate::index::lemma_site_less_total(self.site@, other.site@);
            }
            self.line_col.line < other.line_col.line || (self.line_col.line == other.line_col.line
                && self.line_col.col < other.line_col.col)
        }
    }
}


impl Ordered for FileLocation {
    /// By root, then by path.
    open spec fn before(a: (Seq<char>, Seq<char>), b: (Seq<char>, Seq<char>)) -> bool {
        text_less(a.0, b.0) || (a.0 == b.0 && path_less(a.1, b.1))
    }

    fn less(&self, other: &Self) -> (b: bool) {
        less_text(self.root.as_str(), other.root.as_str()) || (self.root.same(&other.root)
            && less_path(self.path.as_str(), other.path.as_str()))
    }
}

impl Ordered for RootName {
    open spec fn before(a: Seq<char>, b: Seq<char>) -> bool {
        text_less(a, b)
    }

    fn less(&self, other: &Self) -> (b: bool) {
        less_text(self.as_str(), other.as_str())
    }
}

/// Errors before unverified findings.
pub open spec fn severity_rank(s: Severity) -> int {
    match s {
        Severity::Error => 0,
        Severity::Unverified => 1,
    }
}

impl Ordered for Diagnostic {
    /// Errors first, then causes with more locations, then by message.
    open spec fn before(a: DiagView, b: DiagView) -> bool {
        severity_rank(a.severity) < severity_rank(b.severity) || (a.severity == b.severity && (
        locations_len(a.locations) > locations_len(b.locations) || (locations_len(a.locations)
            == locations_len(b.locations) && text_less(kind_message(a.kind), kind_message(b.kind)))))
    }

    fn less(&self, other: &Self) -> (b: bool) {
        let a = match self.severity {
            Severity::Error => 0u8,
            Severity::Unverified => 1u8,
        };
        let b = match other.severity {
            Severity::Error => 0u8,
            Severity::Unverified => 1u8,
        };
        if a != b {
            return a < b;
        }
        let m = self.locations.len();
        let n = other.locations.len();
        if m != n {
            return m > n;
        }
        less_text(self.kind.to_string().as_str(), other.kind.to_string().as_str())
    }
}

/// `s` under `policy`: `--strict` turns unverified findings into errors.
pub open spec fn promoted(s: Severity, policy: UnverifiedPolicy) -> Severity {
    if s == Severity::Unverified && policy == UnverifiedPolicy::Error {
        Severity::Error
    } else {
        s
    }
}

/// The first suggestion given for `k`.
pub open spec fn suggestion_for(suggestions: Seq<(KindView, Seq<char>)>, k: KindView) -> Option<Seq<char>> {
    let i = first_with(suggestions, suggestion_key(), k);
    if i < suggestions.len() {
        Some(suggestions[i].1)
    } else {
        None
    }
}

/// The notes given for `k`.
pub open spec fn notes_for(notes: Seq<(KindView, Seq<Seq<char>>)>, k: KindView) -> Seq<Seq<char>> {
    let i = first_with(notes, note_key(), k);
    if i < notes.len() {
        notes[i].1
    } else {
        Seq::empty()
    }
}

/// The diagnostic a group becomes: its sites sorted if it has any, else its files, else its
/// roots.
pub open spec fn diagnostic_of(g: GroupView, b: BuilderView, policy: UnverifiedPolicy) -> DiagView {
    DiagView {
        kind: g.0,
        severity: promoted(base_severity_of(g.0), policy),
        locations: if g.1.len() > 0 {
            LocationsView::Sites(sorted::<LocatedSite>(g.1))
        } else if g.2.len() > 0 {
            LocationsView::Files(sorted::<FileLocation>(g.2))
        } else {
            LocationsView::Roots(sorted::<RootName>(g.3))
        },
        suggestion: suggestion_for(b.suggestions, g.0),
        notes: notes_for(b.notes, g.0),
    }
}

/// The findings a builder holds, as a report lists them.
pub open spec fn report_of(b: BuilderView, policy: UnverifiedPolicy) -> Seq<DiagView> {
    sorted::<Diagnostic>(b.groups.map_values(|g: GroupView| diagnostic_of(g, b, policy)))
}

/// How many of `diags` have severity `s`.
pub open spec fn count_severity(diags: Seq<DiagView>, s: Severity) -> nat
    decreases diags.len(),
{
    if diags.len() == 0 {
        0
    } else {
        count_severity(diags.drop_last(), s) + if diags.last().severity == s {
            1nat
        } else {
            0nat
        }
    }
}

/// A copy of a list of texts.
pub(crate) fn clone_texts(v: &Vec<String>) -> (r: Vec<String>)
    ensures
        texts(r@) == texts(v@),
{
    let mut r: Vec<String> = Vec::new();
    let mut i: usize = 0;
    while i < v.len()
        invariant
            i <= v@.len(),
            texts(r@) == texts(v@).take(i as int),
        decreases v.len() - i,
    {
        let ghost before = texts(r@);
        r.push(v[i].clone());
        assert(texts(r@) =~= before.push(v@[i as int]@));
        assert(texts(v@).take(i + 1) =~= texts(v@).take(i as int).push(v@[i as int]@));
        i += 1;
    }
    assert(texts(v@).take(i as int) =~= texts(v@));
    r
}

impl ReportBuilder {
    /// The suggestion recorded for `kind`, if any.
    fn suggestion_text(&self, kind: &DiagnosticKind) -> (r: Option<String>)
        ensures
            opt_text(r) == suggestion_for(self@.suggestions, kind@),
    {
        let ghost ss = self@.suggestions;
        let mut i: usize = 0;
        while i < self.suggestions.len() && !self.suggestions[i].0.same_as(kind)
            invariant
                i <= self.suggestions@.len(),
                ss == self@.suggestions,
                forall|j: int| 0 <= j < i ==> (#[trigger] ss[j]).0 != kind@,
            decreases self.suggestions.len() - i,
        {
            assert(ss[i as int] == (self.suggestions@[i as int].0@, self.suggestions@[i as int].1@));
            i += 1;
        }
        proof {
            if i < self.suggestions.len() {
                assert(ss[i as int] == (self.suggestions@[i as int].0@, self.suggestions@[i as int].1@));
            }
            assert forall|j: int| 0 <= j < i implies suggestion_key()(#[trigger] ss[j]) != kind@ by {}
            lemma_first_with(ss, suggestion_key(), kind@, i as int);
        }
        if i < self.suggestions.len() {
            Some(self.suggestions[i].1.clone())
        } else {
            None
        }
    }

    /// The notes recorded for `kind`.
    fn notes_list(&self, kind: &DiagnosticKind) -> (r: Vec<String>)
        ensures
            texts(r@) == notes_for(self@.notes, kind@),
    {
        let ghost ns = self@.notes;
        let mut i: usize = 0;
        while i < self.notes.len() && !self.notes[i].0.same_as(kind)
            invariant
                i <= self.notes@.len(),
                ns == self@.notes,
                forall|j: int| 0 <= j < i ==> (#[trigger] ns[j]).0 != kind@,
            decreases self.notes.len() - i,
        {
            assert(ns[i as int] == (self.notes@[i as int].0@, texts(self.notes@[i as int].1@)));
            i += 1;
        }
        proof {
            if i < self.notes.len() {
                assert(ns[i as int] == (self.notes@[i as int].0@, texts(self.notes@[i as int].1@)));
            }
            assert forall|j: int| 0 <= j < i implies note_key()(#[trigger] ns[j]) != kind@ by {}
            lemma_first_with(ns, note_key(), kind@, i as int);
        }
        if i < self.notes.len() {
            clone_texts(&self.notes[i].1)
        } else {
            let r: Vec<String> = Vec::new();
            assert(texts(r@) =~= Seq::<Seq<char>>::empty());
            r
        }
    }

    /// Groups every cause into one diagnostic, applies the policy, and orders the report:
    /// errors first, then causes with more locations, then by message.
    pub fn finish(self, policy: UnverifiedPolicy, summary: Summary, root_dirs: Vec<(RootName, String)>) -> (r: Report)
        ensures
            views(r.diagnostics@) == report_of(self@, policy),
            r.summary == (Summary {
                errors: count_severity(report_of(self@, policy), Severity::Error) as usize,
                unverified: count_severity(report_of(self@, policy), Severity::Unverified) as usize,
                ..summary
            }),
            r.policy == policy,
            r.root_dirs == root_dirs,
    {
        let ghost b = self@;
        let ghost all = b.groups.map_values(|g: GroupView| diagnostic_of(g, b, policy));
        let mut diagnostics: Vec<Diagnostic> = Vec::new();
        let mut k: usize = 0;
        while k < self.groups.len()
            invariant
                k <= self.groups@.len(),
                b == self@,
                all == b.groups.map_values(|g: GroupView| diagnostic_of(g, b, policy)),
                views(diagnostics@) == all.take(k as int),
            decreases self.groups.len() - k,
        {
            let g = &self.groups[k];
            assert(b.groups[k as int] == g@);
            let suggestion = self.suggestion_text(&g.kind);
            let notes = self.notes_list(&g.kind);
            let locations = if g.sites.len() > 0 {
                Locations::Sites(sort_items(clone_located(&g.sites)))
            } else if g.files.len() > 0 {
                Locations::Files(sort_items(clone_files(&g.files)))
            } else {
                Locations::Roots(sort_items(clone_roots(&g.roots)))
            };
            let base = g.kind.base_severity();
            let severity = match (base, policy) {
                (Severity::Unverified, UnverifiedPolicy::Error) => Severity::Error,
                (s, _) => s,
            };
            let d = Diagnostic { kind: g.kind.clone(), severity, locations, suggestion, notes };
            assert(d@ == all[k as int]);
            let ghost before = views(diagnostics@);
            diagnostics.push(d);
            assert(views(diagnostics@) =~= before.push(all[k as int]));
            assert(all.take(k + 1) =~= all.take(k as int).push(all[k as int]));
            k += 1;
        }
        assert(all.take(k as int) =~= all);
        let diagnostics = sort_items(diagnostics);
        let ghost ds = views(diagnostics@);
        let mut errors: usize = 0;
        let mut unverified: usize = 0;
        let mut i: usize = 0;
        while i < diagnostics.len()
            invariant
                i <= diagnostics@.len(),
                ds == views(diagnostics@),
                errors == count_severity(ds.take(i as int), Severity::Error),
                unverified == count_severity(ds.take(i as int), Severity::Unverified),
                errors + unverified <= i,
            decreases diagnostics.len() - i,
        {
            assert(ds.take(i + 1).drop_last() =~= ds.take(i as int));
            assert(ds[i as int] == diagnostics@[i as int]@);
            match diagnostics[i].severity {
                Severity::Error => errors += 1,
                Severity::Unverified => unverified += 1,
            }
            i += 1;
        }
        assert(ds.take(i as int) =~= ds);
        Report {
            diagnostics,
            summary: Summary { errors, unverified, ..summary },
            policy,
            root_dirs,
        }
    }
}

fn clone_located(v: &Vec<LocatedSite>) -> (r: Vec<LocatedSite>)
    ensures
        views(r@) == views(v@),
{
    let mut r: Vec<LocatedSite> = Vec::new();
    let mut i: usize = 0;
    while i < v.len()
        invariant
            i <= v@.len(),
            views(r@) == views(v@).take(i as int),
        decreases v.len() - i,
    {
        let ghost before = views(r@);
        r.push(v[i].clone());
        assert(views(r@) =~= before.push(v@[i as int]@));
        assert(views(v@).take(i + 1) =~= views(v@).take(i as int).push(v@[i as int]@));
        i += 1;
    }
    assert(views(v@).take(i as int) =~= views(v@));
    r
}

fn clone_files(v: &Vec<FileLocation>) -> (r: Vec<FileLocation>)
    ensures
        views(r@) == views(v@),
{
    let mut r: Vec<FileLocation> = Vec::new();
    let mut i: usize = 0;
    while i < v.len()
        invariant
            i <= v@.len(),
            views(r@) == views(v@).take(i as int),
        decreases v.len() - i,
    {
        let ghost before = views(r@);
        r.push(v[i].clone());
        assert(views(r@) =~= before.push(v@[i as int]@));
        assert(views(v@).take(i + 1) =~= views(v@).take(i as int).push(v@[i as int]@));
        i += 1;
    }
    assert(views(v@).take(i as int) =~= views(v@));
    r
}

fn clone_roots(v: &Vec<RootName>) -> (r: Vec<RootName>)
    ensures
        views(r@) == views(v@),
{
    let mut r: Vec<RootName> = Vec::new();
    let mut i: usize = 0;
    while i < v.len()
        invariant
            i <= v@.len(),
            views(r@) == views(v@).take(i as int),
        decreases v.len() - i,
    {
        let ghost before = views(r@);
        r.push(v[i].clone());
        assert(views(r@) =~= before.push(v@[i as int]@));
        assert(views(v@).take(i + 1) =~= views(v@).take(i as int).push(v@[i as int]@));
        i += 1;
    }
    assert(views(v@).take(i as int) =~= views(v@));
    r
}

/// No cause has two groups.
pub open spec fn one_group_per_cause(groups: Seq<GroupView>) -> bool {
    forall|i: int, j: int| 0 <= i < j < groups.len() ==> (#[trigger] groups[i]).0 != (#[trigger] groups[j]).0
}

/// When no position holds `k`, `first_with` is the length.
proof fn lemma_first_with_absent<A>(s: Seq<A>, key: spec_fn(A) -> KindView, k: KindView)
    ensures
        0 <= first_with(s, key, k) <= s.len(),
        first_with(s, key, k) < s.len() ==> key(s[first_with(s, key, k)]) == k,
        first_with(s, key, k) == s.len() ==> forall|j: int| 0 <= j < s.len() ==> key(#[trigger] s[j]) != k,
    decreases s.len(),
{
    if s.len() > 0 && key(s[0]) != k {
        lemma_first_with_absent(s.drop_first(), key, k);
        assert forall|j: int| 0 <= j < s.len() && first_with(s, key, k) == s.len() implies key(
            #[trigger] s[j],
        ) != k by {
            if j > 0 {
                assert(s[j] == s.drop_first()[j - 1]);
            }
        }
        if first_with(s, key, k) < s.len() {
            assert(s[first_with(s, key, k)] == s.drop_first()[first_with(s.drop_first(), key, k)]);
        }
    }
}

/// A finding recorded for a cause that already has a group joins that group; otherwise it opens
/// the one group of its cause. Either way every cause keeps exactly one group, and the new
/// location is the last of its cause's group.
pub proof fn lemma_sites_group_by_cause(groups: Seq<GroupView>, k: KindView, s: LocatedView)
    requires
        one_group_per_cause(groups),
    ensures
        one_group_per_cause(with_site(groups, k, s)),
        exists|i: int|
            0 <= i < with_site(groups, k, s).len() && (#[trigger] with_site(groups, k, s)[i]).0 == k
                && with_site(groups, k, s)[i].1.last() == s,
        with_site(groups, k, s).len() == groups.len() + if (exists|i: int|
            0 <= i < groups.len() && (#[trigger] groups[i]).0 == k) {
            0int
        } else {
            1int
        },
{
    lemma_first_with_absent(groups, group_key(), k);
    let i = first_with(groups, group_key(), k);
    let r = with_site(groups, k, s);
    if i < groups.len() {
        assert(r[i].0 == k && r[i].1.last() == s);
        assert forall|a: int, b: int| 0 <= a < b < r.len() implies (#[trigger] r[a]).0 != (#[trigger] r[b]).0 by {
            assert(r[a].0 == groups[a].0 && r[b].0 == groups[b].0);
        }
    } else {
        assert(r[groups.len() as int].0 == k);
        assert(r[groups.len() as int].1.last() == s);
        assert forall|a: int, b: int| 0 <= a < b < r.len() implies (#[trigger] r[a]).0 != (#[trigger] r[b]).0 by {
            if b == groups.len() {
                assert(group_key()(groups[a]) != k);
            }
        }
        assert(!(exists|j: int| 0 <= j < groups.len() && (#[trigger] groups[j]).0 == k)) by {
            assert forall|j: int| 0 <= j < groups.len() implies (#[trigger] groups[j]).0 != k by {
                assert(group_key()(groups[j]) != k);
            }
        }
    }
}

/// Every finding is either an error or unverified, so the two counts cover the report.
pub proof fn lemma_counts_cover(diags: Seq<DiagView>)
    ensures
        count_severity(diags, Severity::Error) + count_severity(diags, Severity::Unverified) == diags.len(),
    decreases diags.len(),
{
    if diags.len() > 0 {
        lemma_counts_cover(diags.drop_last());
    }
}

/// How many of `diags` are unverified is how many of any reordering of them are.
proof fn lemma_count_by_multiset(diags: Seq<DiagView>)
    ensures
        count_severity(diags, Severity::Unverified) == diags.filter(
            |d: DiagView| d.severity == Severity::Unverified,
        ).len(),
    decreases diags.len(),
{
    reveal(Seq::filter);
    if diags.len() > 0 {
        lemma_count_by_multiset(diags.drop_last());
    }
}

/// A report holds one diagnostic per cause the builder grouped, and under the strict policy
/// none of them is left unverified.
pub proof fn lemma_report_shape(b: BuilderView, policy: UnverifiedPolicy)
    ensures
        report_of(b, policy).len() == b.groups.len(),
        count_severity(report_of(b, policy), Severity::Error) + count_severity(
            report_of(b, policy),
            Severity::Unverified,
        ) == b.groups.len(),
        policy == UnverifiedPolicy::Error ==> count_severity(report_of(b, policy), Severity::Unverified) == 0,
{
    let all = b.groups.map_values(|g: GroupView| diagnostic_of(g, b, policy));
    crate::order::lemma_sorted_permutes::<Diagnostic>(all);
    lemma_counts_cover(report_of(b, policy));
    if policy == UnverifiedPolicy::Error {
        let r = report_of(b, policy);
        lemma_count_by_multiset(r);
        let unverified = |d: DiagView| d.severity == Severity::Unverified;
        assert forall|i: int| 0 <= i < r.len() implies !unverified(#[trigger] r[i]) by {
            assert(r.to_multiset().count(r[i]) > 0) by {
                broadcast use vstd::seq_lib::group_to_multiset_ensures;
                assert(r.contains(r[i]));
            }
            assert(all.to_multiset().count(r[i]) > 0);
            broadcast use vstd::seq_lib::group_to_multiset_ensures;
            assert(all.contains(r[i]));
            let j = choose|j: int| 0 <= j < all.len() && all[j] == r[i];
            assert(all[j].severity == promoted(base_severity_of(b.groups[j].0), policy));
        }
        r.lemma_all_neg_filter_empty(unverified);
    }
}

/// The suggestions after offering each of `offers` in turn, a cause with a text or none.
pub open spec fn after_offers(
    suggestions: Seq<(KindView, Seq<char>)>,
    offers: Seq<(KindView, Option<Seq<char>>)>,
) -> Seq<(KindView, Seq<char>)>
    decreases offers.len(),
{
    if offers.len() == 0 {
        suggestions
    } else {
        after_offers(with_suggestion(suggestions, offers[0].0, offers[0].1), offers.drop_first())
    }
}

/// One more offer leaves a cause's suggestion as it was, once it has one.
proof fn lemma_offer_keeps(
    suggestions: Seq<(KindView, Seq<char>)>,
    k: KindView,
    other: KindView,
    offered: Option<Seq<char>>,
)
    requires
        suggestion_for(suggestions, k) is Some,
    ensures
        suggestion_for(with_suggestion(suggestions, other, offered), k) == suggestion_for(suggestions, k),
{
    lemma_first_with_absent(suggestions, suggestion_key(), k);
    let i = first_with(suggestions, suggestion_key(), k);
    let after = with_suggestion(suggestions, other, offered);
    if after != suggestions {
        assert forall|j: int| 0 <= j < i implies suggestion_key()(#[trigger] after[j]) != k by {
            assert(after[j] == suggestions[j]);
            assert(suggestion_key()(suggestions[j]) != k) by {
                lemma_first_with_absent(suggestions, suggestion_key(), k);
                if suggestion_key()(suggestions[j]) == k {
                    lemma_first_with_prefix_absent(suggestions, k, j);
                }
            }
        }
        assert(after[i] == suggestions[i]);
        lemma_first_with(after, suggestion_key(), k, i);
    }
}

/// Before the first position with key `k`, no position has it.
proof fn lemma_first_with_prefix_absent(suggestions: Seq<(KindView, Seq<char>)>, k: KindView, j: int)
    requires
        0 <= j < first_with(suggestions, suggestion_key(), k),
        first_with(suggestions, suggestion_key(), k) <= suggestions.len(),
    ensures
        suggestion_key()(suggestions[j]) != k,
    decreases suggestions.len(),
{
    if j > 0 && suggestions.len() > 0 && suggestion_key()(suggestions[0]) != k {
        assert(suggestions[j] == suggestions.drop_first()[j - 1]);
        lemma_first_with_prefix_absent(suggestions.drop_first(), k, j - 1);
    }
}

/// Any number of further offers leave a cause's suggestion as it was, once it has one.
proof fn lemma_offers_keep(
    suggestions: Seq<(KindView, Seq<char>)>,
    k: KindView,
    offers: Seq<(KindView, Option<Seq<char>>)>,
)
    requires
        suggestion_for(suggestions, k) is Some,
    ensures
        suggestion_for(after_offers(suggestions, offers), k) == suggestion_for(suggestions, k),
    decreases offers.len(),
{
    if offers.len() > 0 {
        lemma_offer_keeps(suggestions, k, offers[0].0, offers[0].1);
        lemma_offers_keep(with_suggestion(suggestions, offers[0].0, offers[0].1), k, offers.drop_first());
    }
}

/// The first suggestion offered for a cause is the one reported: a later text or a later none,
/// for that cause or any other, never replaces it.
pub proof fn lemma_first_suggestion_kept(
    suggestions: Seq<(KindView, Seq<char>)>,
    k: KindView,
    first: Seq<char>,
    later: Seq<(KindView, Option<Seq<char>>)>,
)
    requires
        suggestion_for(suggestions, k) is None,
    ensures
        suggestion_for(after_offers(with_suggestion(suggestions, k, Some(first)), later), k) == Some(first),
{
    lemma_first_with_absent(suggestions, suggestion_key(), k);
    let after = with_suggestion(suggestions, k, Some(first));
    assert(after == suggestions.push((k, first)));
    assert forall|j: int| 0 <= j < suggestions.len() implies suggestion_key()(#[trigger] after[j]) != k by {
        assert(after[j] == suggestions[j]);
    }
    lemma_first_with(after, suggestion_key(), k, suggestions.len() as int);
    lemma_offers_keep(after, k, later);
}

} // verus!
