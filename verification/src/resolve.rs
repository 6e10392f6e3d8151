//! The three answers to "does this reference target exist?": yes, no, and "could not check",
//! where the third is never allowed to look like the first.
use vstd::prelude::*;

use crate::chars::{byte_len, push_text, same_text, str_byte_len};
use crate::index::ids_of;
use crate::marker::path::path_verdict;
use crate::order::{sort_items, sorted, views};
use crate::root::directory_of;
use crate::check::Workspace;
use crate::index::{all_anchors, sites_named, Index};
use crate::marker::target::TargetView;
use crate::marker::{AnchorId, PathExpectation, RefTarget, RelPath, SymbolName};
use crate::root::{FilePath, RootName};
use crate::suggest::{anchor_suggestion, id_texts, strs, suggest, suggest_anchor, suggestion};

verus! {

/// What a path names in the scanned tree.
#[derive(Debug, Clone, Copy, PartialEq, Eq, Structural)]
pub enum EntryKind {
    File,
    Directory,
}

/// The target does not exist. Always an error.
#[derive(Debug, PartialEq, Eq, Hash)]
pub enum Unresolved {
    PathMissing { root: RootName, path: RelPath },
    /// The target ended in `/` but names a file.
    PathNotDirectory { root: RootName, path: RelPath },
    /// A symbol target names a directory.
    PathNotFile { root: RootName, path: RelPath },
    /// The path exists but, through a symlink, lives outside the root; it is never read.
    PathEscapesRoot { root: RootName, path: RelPath },
    SymbolMissing { root: RootName, path: RelPath, name: SymbolName },
    AnchorMissing { root: RootName, id: AnchorId },
    /// The `root:` prefix names no declared root; a typo, not an absent root.
    RootUndeclared { name: RootName },
}

/// `Unresolved` with its names taken as text.
pub enum UnresolvedView {
    PathMissing { root: Seq<char>, path: Seq<char> },
    PathNotDirectory { root: Seq<char>, path: Seq<char> },
    PathNotFile { root: Seq<char>, path: Seq<char> },
    PathEscapesRoot { root: Seq<char>, path: Seq<char> },
    SymbolMissing { root: Seq<char>, path: Seq<char>, name: Seq<char> },
    AnchorMissing { root: Seq<char>, id: Seq<char> },
    RootUndeclared { name: Seq<char> },
}

impl View for Unresolved {
    type V = UnresolvedView;

    open spec fn view(&self) -> UnresolvedView {
        match self {
            Unresolved::PathMissing { root, path } => UnresolvedView::PathMissing {
                root: root@,
                path: path@,
            },
            Unresolved::PathNotDirectory { root, path } => UnresolvedView::PathNotDirectory {
                root: root@,
                path: path@,
            },
            Unresolved::PathNotFile { root, path } => UnresolvedView::PathNotFile {
                root: root@,
                path: path@,
            },
            Unresolved::PathEscapesRoot { root, path } => UnresolvedView::PathEscapesRoot {
                root: root@,
                path: path@,
            },
            Unresolved::SymbolMissing { root, path, name } => UnresolvedView::SymbolMissing {
                root: root@,
                path: path@,
                name: name@,
            },
            Unresolved::AnchorMissing { root, id } => UnresolvedView::AnchorMissing {
                root: root@,
                id: id@,
            },
            Unresolved::RootUndeclared { name } => UnresolvedView::RootUndeclared { name: name@ },
        }
    }
}

impl Unresolved {
    /// Whether the two findings name the same missing target.
    pub fn same_as(&self, other: &Unresolved) -> (b: bool)
        ensures
            b == (self@ == other@),
    {
        match (self, other) {
            (
                Unresolved::PathMissing { root: r1, path: p1 },
                Unresolved::PathMissing { root: r2, path: p2 },
            ) => r1.same(r2) && p1.same(p2),
            (
                Unresolved::PathNotDirectory { root: r1, path: p1 },
                Unresolved::PathNotDirectory { root: r2, path: p2 },
            ) => r1.same(r2) && p1.same(p2),
            (
                Unresolved::PathNotFile { root: r1, path: p1 },
                Unresolved::PathNotFile { root: r2, path: p2 },
            ) => r1.same(r2) && p1.same(p2),
            (
                Unresolved::PathEscapesRoot { root: r1, path: p1 },
                Unresolved::PathEscapesRoot { root: r2, path: p2 },
            ) => r1.same(r2) && p1.same(p2),
            (
                Unresolved::SymbolMissing { root: r1, path: p1, name: n1 },
                Unresolved::SymbolMissing { root: r2, path: p2, name: n2 },
            ) => r1.same(r2) && p1.same(p2) && n1.same(n2),
            (
                Unresolved::AnchorMissing { root: r1, id: i1 },
                Unresolved::AnchorMissing { root: r2, id: i2 },
            ) => r1.same(r2) && i1.same(i2),
            (Unresolved::RootUndeclared { name: n1 }, Unresolved::RootUndeclared { name: n2 }) => {
                n1.same(n2)
            },
            _ => false,
        }
    }
}

impl Clone for Unresolved {
    fn clone(&self) -> (r: Self)
        ensures
            r@ == self@,
    {
        match self {
            Unresolved::PathMissing { root, path } => Unresolved::PathMissing {
                root: root.clone(),
                path: path.clone(),
            },
            Unresolved::PathNotDirectory { root, path } => Unresolved::PathNotDirectory {
                root: root.clone(),
                path: path.clone(),
            },
            Unresolved::PathNotFile { root, path } => Unresolved::PathNotFile {
                root: root.clone(),
                path: path.clone(),
            },
            Unresolved::PathEscapesRoot { root, path } => Unresolved::PathEscapesRoot {
                root: root.clone(),
                path: path.clone(),
            },
            Unresolved::SymbolMissing { root, path, name } => Unresolved::SymbolMissing {
                root: root.clone(),
                path: path.clone(),
                name: name.clone(),
            },
            Unresolved::AnchorMissing { root, id } => Unresolved::AnchorMissing {
                root: root.clone(),
                id: id.clone(),
            },
            Unresolved::RootUndeclared { name } => Unresolved::RootUndeclared { name: name.clone() },
        }
    }
}

/// The target could not be checked. Reported, never silently passed.
#[derive(Debug, PartialEq, Eq, Hash)]
pub enum Unverified {
    RootAbsent { name: RootName, declared_dir: String },
    NoGrammar { root: RootName, path: RelPath, extension: Option<String> },
    /// The symbol was not found, but the parse tree has errors, so it may be hidden in one.
    ParseErrors { root: RootName, path: RelPath, language: String },
    ParseTimeout { root: RootName, path: RelPath },
    SymbolTableTruncated { root: RootName, path: RelPath },
    TargetTooLarge { root: RootName, path: RelPath, bytes: u64, limit: u64 },
    TargetNotUtf8 { root: RootName, path: RelPath },
    TargetUnreadable { root: RootName, path: RelPath, message: String },
    AnalyzeFailed { root: RootName, path: RelPath, message: String },
}

/// `Unverified` with its names taken as text.
pub enum UnverifiedView {
    RootAbsent { name: Seq<char>, declared_dir: Seq<char> },
    NoGrammar { root: Seq<char>, path: Seq<char>, extension: Option<Seq<char>> },
    ParseErrors { root: Seq<char>, path: Seq<char>, language: Seq<char> },
    ParseTimeout { root: Seq<char>, path: Seq<char> },
    SymbolTableTruncated { root: Seq<char>, path: Seq<char> },
    TargetTooLarge { root: Seq<char>, path: Seq<char>, bytes: u64, limit: u64 },
    TargetNotUtf8 { root: Seq<char>, path: Seq<char> },
    TargetUnreadable { root: Seq<char>, path: Seq<char>, message: Seq<char> },
    AnalyzeFailed { root: Seq<char>, path: Seq<char>, message: Seq<char> },
}

/// An optional text taken by value.
pub open spec fn opt_text(t: Option<String>) -> Option<Seq<char>> {
    match t {
        Some(s) => Some(s@),
        None => None,
    }
}

impl View for Unverified {
    type V = UnverifiedView;

    open spec fn view(&self) -> UnverifiedView {
        match self {
            Unverified::RootAbsent { name, declared_dir } => UnverifiedView::RootAbsent {
                name: name@,
                declared_dir: declared_dir@,
            },
            Unverified::NoGrammar { root, path, extension } => UnverifiedView::NoGrammar {
                root: root@,
                path: path@,
                extension: opt_text(*extension),
            },
            Unverified::ParseErrors { root, path, language } => UnverifiedView::ParseErrors {
                root: root@,
                path: path@,
                language: language@,
            },
            Unverified::ParseTimeout { root, path } => UnverifiedView::ParseTimeout {
                root: root@,
                path: path@,
            },
            Unverified::SymbolTableTruncated { root, path } => UnverifiedView::SymbolTableTruncated {
                root: root@,
                path: path@,
            },
            Unverified::TargetTooLarge { root, path, bytes, limit } => UnverifiedView::TargetTooLarge {
                root: root@,
                path: path@,
                bytes: *bytes,
                limit: *limit,
            },
            Unverified::TargetNotUtf8 { root, path } => UnverifiedView::TargetNotUtf8 {
                root: root@,
                path: path@,
            },
            Unverified::TargetUnreadable { root, path, message } => UnverifiedView::TargetUnreadable {
                root: root@,
                path: path@,
                message: message@,
            },
            Unverified::AnalyzeFailed { root, path, message } => UnverifiedView::AnalyzeFailed {
                root: root@,
                path: path@,
                message: message@,
            },
        }
    }
}

/// Whether two optional texts are equal.
pub fn same_opt_text(a: &Option<String>, b: &Option<String>) -> (r: bool)
    ensures
        r == (opt_text(*a) == opt_text(*b)),
{
    match (a, b) {
        (Some(x), Some(y)) => same_text(x.as_str(), y.as_str()),
        (None, None) => true,
        _ => false,
    }
}

/// A copy of an optional text.
pub fn clone_opt_text(a: &Option<String>) -> (r: Option<String>)
    ensures
        opt_text(r) == opt_text(*a),
{
    match a {
        Some(x) => Some(x.clone()),
        None => None,
    }
}

impl Unverified {
    /// Whether the two findings are the same unchecked target for the same reason.
    pub fn same_as(&self, other: &Unverified) -> (b: bool)
        ensures
            b == (self@ == other@),
    {
        match (self, other) {
            (
                Unverified::RootAbsent { name: n1, declared_dir: d1 },
                Unverified::RootAbsent { name: n2, declared_dir: d2 },
            ) => n1.same(n2) && same_text(d1.as_str(), d2.as_str()),
            (
                Unverified::NoGrammar { root: r1, path: p1, extension: e1 },
                Unverified::NoGrammar { root: r2, path: p2, extension: e2 },
            ) => r1.same(r2) && p1.same(p2) && same_opt_text(e1, e2),
            (
                Unverified::ParseErrors { root: r1, path: p1, language: l1 },
                Unverified::ParseErrors { root: r2, path: p2, language: l2 },
            ) => r1.same(r2) && p1.same(p2) && same_text(l1.as_str(), l2.as_str()),
            (
                Unverified::ParseTimeout { root: r1, path: p1 },
                Unverified::ParseTimeout { root: r2, path: p2 },
            ) => r1.same(r2) && p1.same(p2),
            (
                Unverified::SymbolTableTruncated { root: r1, path: p1 },
                Unverified::SymbolTableTruncated { root: r2, path: p2 },
            ) => r1.same(r2) && p1.same(p2),
            (
                Unverified::TargetTooLarge { root: r1, path: p1, bytes: b1, limit: l1 },
                Unverified::TargetTooLarge { root: r2, path: p2, bytes: b2, limit: l2 },
            ) => r1.same(r2) && p1.same(p2) && *b1 == *b2 && *l1 == *l2,
            (
                Unverified::TargetNotUtf8 { root: r1, path: p1 },
                Unverified::TargetNotUtf8 { root: r2, path: p2 },
            ) => r1.same(r2) && p1.same(p2),
            (
                Unverified::TargetUnreadable { root: r1, path: p1, message: m1 },
                Unverified::TargetUnreadable { root: r2, path: p2, message: m2 },
            ) => r1.same(r2) && p1.same(p2) && same_text(m1.as_str(), m2.as_str()),
            (
                Unverified::AnalyzeFailed { root: r1, path: p1, message: m1 },
                Unverified::AnalyzeFailed { root: r2, path: p2, message: m2 },
            ) => r1.same(r2) && p1.same(p2) && same_text(m1.as_str(), m2.as_str()),
            _ => false,
        }
    }
}

impl Clone for Unverified {
    fn clone(&self) -> (r: Self)
        ensures
            r@ == self@,
    {
        match self {
            Unverified::RootAbsent { name, declared_dir } => Unverified::RootAbsent {
                name: name.clone(),
                declared_dir: declared_dir.clone(),
            },
            Unverified::NoGrammar { root, path, extension } => Unverified::NoGrammar {
                root: root.clone(),
                path: path.clone(),
                extension: clone_opt_text(extension),
            },
            Unverified::ParseErrors { root, path, language } => Unverified::ParseErrors {
                root: root.clone(),
                path: path.clone(),
                language: language.clone(),
            },
            Unverified::ParseTimeout { root, path } => Unverified::ParseTimeout {
                root: root.clone(),
                path: path.clone(),
            },
            Unverified::SymbolTableTruncated { root, path } => Unverified::SymbolTableTruncated {
                root: root.clone(),
                path: path.clone(),
            },
            Unverified::TargetTooLarge { root, path, bytes, limit } => Unverified::TargetTooLarge {
                root: root.clone(),
                path: path.clone(),
                bytes: *bytes,
                limit: *limit,
            },
            Unverified::TargetNotUtf8 { root, path } => Unverified::TargetNotUtf8 {
                root: root.clone(),
                path: path.clone(),
            },
            Unverified::TargetUnreadable { root, path, message } => Unverified::TargetUnreadable {
                root: root.clone(),
                path: path.clone(),
                message: message.clone(),
            },
            Unverified::AnalyzeFailed { root, path, message } => Unverified::AnalyzeFailed {
                root: root.clone(),
                path: path.clone(),
                message: message.clone(),
            },
        }
    }
}

/// The answer for one reference target.
#[derive(Debug, Clone, PartialEq, Eq, Hash)]
pub enum Resolution {
    Resolved,
    Unresolved(Unresolved),
    Unverified(Unverified),
}

/// `Resolution` with its names taken as text.
pub enum ResolutionView {
    Resolved,
    Unresolved(UnresolvedView),
    Unverified(UnverifiedView),
}

impl View for Resolution {
    type V = ResolutionView;

    open spec fn view(&self) -> ResolutionView {
        match self {
            Resolution::Resolved => ResolutionView::Resolved,
            Resolution::Unresolved(u) => ResolutionView::Unresolved(u@),
            Resolution::Unverified(u) => ResolutionView::Unverified(u@),
        }
    }
}

/// What looking a path up in the scanned tree found: an entry of some kind, or the deepest
/// existing directory (root-relative, empty for the root) and the first name missing under it.
/// A symlink that leaves the root is looked up on disk by the caller.
#[derive(Debug, Clone, PartialEq, Eq)]
pub enum Located {
    Found { kind: EntryKind },
    Missing { parent: String, name: String },
}

pub enum LocatedView {
    Found { kind: EntryKind },
    Missing { parent: Seq<char>, name: Seq<char> },
}

impl View for Located {
    type V = LocatedView;

    open spec fn view(&self) -> LocatedView {
        match self {
            Located::Found { kind } => LocatedView::Found { kind: *kind },
            Located::Missing { parent, name } => LocatedView::Missing { parent: parent@, name: name@ },
        }
    }
}

/// What reading a target file's symbols gave: its table, or why it could not be had.
#[derive(Debug)]
pub enum SymbolLookup {
    Table { declares: bool, has_parse_errors: bool, language: String },
    Failed(Unverified),
}

pub enum SymbolLookupView {
    Table { declares: bool, has_parse_errors: bool, language: Seq<char> },
    Failed(UnverifiedView),
}

impl View for SymbolLookup {
    type V = SymbolLookupView;

    open spec fn view(&self) -> SymbolLookupView {
        match self {
            SymbolLookup::Table { declares, has_parse_errors, language } => SymbolLookupView::Table {
                declares: *declares,
                has_parse_errors: *has_parse_errors,
                language: language@,
            },
            SymbolLookup::Failed(u) => SymbolLookupView::Failed(u@),
        }
    }
}

/// Where the first external root named `name` stands in `external`, or its length.
pub open spec fn external_position(external: Seq<(RootName, Option<Index>, String)>, name: Seq<char>) -> int
    decreases external.len(),
{
    if external.len() == 0 {
        0
    } else if external[0].0@ == name {
        0
    } else {
        1 + external_position(external.drop_first(), name)
    }
}

/// Where a root name leads: the current root, a declared external root (present or absent),
/// or no declared root.
pub open spec fn chosen_index(ws: Workspace, name: Seq<char>) -> Option<Index> {
    let k = external_position(ws.external@, name);
    if name == ws.index@.0 {
        Some(ws.index)
    } else if k < ws.external@.len() {
        ws.external@[k].1
    } else {
        None
    }
}

/// Why no index answers for `name`: an absent root, or an undeclared one.
pub open spec fn missing_root(ws: Workspace, name: Seq<char>) -> ResolutionView {
    let k = external_position(ws.external@, name);
    if k < ws.external@.len() {
        ResolutionView::Unverified(UnverifiedView::RootAbsent { name, declared_dir: ws.external@[k].2@ })
    } else {
        ResolutionView::Unresolved(UnresolvedView::RootUndeclared { name })
    }
}

proof fn lemma_external_position(external: Seq<(RootName, Option<Index>, String)>, name: Seq<char>, i: int)
    requires
        0 <= i <= external.len(),
        forall|j: int| 0 <= j < i ==> (#[trigger] external[j]).0@ != name,
        i == external.len() || external[i].0@ == name,
    ensures
        external_position(external, name) == i,
    decreases external.len(),
{
    if external.len() > 0 && i > 0 {
        assert forall|j: int| 0 <= j < i - 1 implies (#[trigger] external.drop_first()[j]).0@ != name by {
            assert(external.drop_first()[j] == external[j + 1]);
        }
        if i < external.len() {
            assert(external.drop_first()[i - 1] == external[i]);
        }
        lemma_external_position(external.drop_first(), name, i - 1);
    }
}

/// The index a root name leads to in `ws`, or the answer for a reference into it when there is
/// none: an absent root is unverified, an undeclared one unresolved.
pub fn select_root<'a>(ws: &'a Workspace, name: &RootName) -> (r: Result<&'a Index, Resolution>)
    ensures
        match chosen_index(*ws, name@) {
            Some(index) => r matches Ok(i) && *i == index,
            None => r matches Err(res) && res@ == missing_root(*ws, name@),
        },
{
    if ws.index.root().same(name) {
        return Ok(&ws.index);
    }
    let mut i: usize = 0;
    while i < ws.external.len()
        invariant
            i <= ws.external@.len(),
            ws.index@.0 != name@,
            forall|j: int| 0 <= j < i ==> (#[trigger] ws.external@[j]).0@ != name@,
        decreases ws.external.len() - i,
    {
        if ws.external[i].0.same(name) {
            proof {
                lemma_external_position(ws.external@, name@, i as int);
            }
            return match &ws.external[i].1 {
                Some(index) => Ok(index),
                None => Err(
                    Resolution::Unverified(
                        Unverified::RootAbsent { name: name.clone(), declared_dir: ws.external[i].2.clone() },
                    ),
                ),
            };
        }
        i += 1;
    }
    proof {
        lemma_external_position(ws.external@, name@, i as int);
    }
    Err(Resolution::Unresolved(Unresolved::RootUndeclared { name: name.clone() }))
}

/// The answer for an anchor: resolved when the root declares it, else missing there.
pub open spec fn anchor_resolution(index: Index, id: Seq<char>) -> ResolutionView {
    if sites_named(all_anchors(index@.0, index@.1), id).len() == 0 {
        ResolutionView::Unresolved(UnresolvedView::AnchorMissing { root: index@.0, id })
    } else {
        ResolutionView::Resolved
    }
}

pub fn resolve_anchor(index: &Index, id: &AnchorId) -> (r: Resolution)
    ensures
        r@ == anchor_resolution(*index, id@),
{
    if index.anchor_sites(id).len() == 0 {
        Resolution::Unresolved(Unresolved::AnchorMissing { root: index.root().clone(), id: id.clone() })
    } else {
        Resolution::Resolved
    }
}

/// The answer for a path target, from what the tree holds there: missing, a file where a
/// directory was asked for, or resolved.
pub open spec fn path_resolution(root: Seq<char>, path: Seq<char>, expects: PathExpectation, located: LocatedView) -> ResolutionView {
    match located {
        LocatedView::Missing { .. } => ResolutionView::Unresolved(UnresolvedView::PathMissing { root, path }),
        LocatedView::Found { kind } => if expects == PathExpectation::Directory && kind == EntryKind::File {
            ResolutionView::Unresolved(UnresolvedView::PathNotDirectory { root, path })
        } else {
            ResolutionView::Resolved
        },
    }
}

pub fn resolve_path(root: &RootName, path: &RelPath, expects: PathExpectation, located: &Located) -> (r: Resolution)
    ensures
        r@ == path_resolution(root@, path@, expects, located@),
{
    match located {
        Located::Missing { .. } => Resolution::Unresolved(Unresolved::PathMissing { root: root.clone(), path: path.clone() }),
        Located::Found { kind } => match (expects, kind) {
            (PathExpectation::Directory, EntryKind::File) => Resolution::Unresolved(
                Unresolved::PathNotDirectory { root: root.clone(), path: path.clone() },
            ),
            _ => Resolution::Resolved,
        },
    }
}

/// The answer for a symbol target, from what the tree holds at its path, whether that file
/// stays inside the root, and what its symbol table says.
pub open spec fn symbol_resolution(
    root: Seq<char>,
    path: Seq<char>,
    name: Seq<char>,
    located: LocatedView,
    stays_within: bool,
    table: SymbolLookupView,
) -> ResolutionView {
    match located {
        LocatedView::Missing { .. } => ResolutionView::Unresolved(UnresolvedView::PathMissing { root, path }),
        LocatedView::Found { kind: EntryKind::Directory } => ResolutionView::Unresolved(
            UnresolvedView::PathNotFile { root, path },
        ),
        LocatedView::Found { kind: EntryKind::File } => if !stays_within {
            ResolutionView::Unresolved(UnresolvedView::PathEscapesRoot { root, path })
        } else {
            match table {
                SymbolLookupView::Failed(u) => ResolutionView::Unverified(u),
                SymbolLookupView::Table { declares, has_parse_errors, language } => if declares {
                    ResolutionView::Resolved
                } else if has_parse_errors {
                    ResolutionView::Unverified(UnverifiedView::ParseErrors { root, path, language })
                } else {
                    ResolutionView::Unresolved(UnresolvedView::SymbolMissing { root, path, name })
                },
            }
        },
    }
}

pub fn resolve_symbol(
    root: &RootName,
    path: &RelPath,
    name: &SymbolName,
    located: &Located,
    stays_within: bool,
    table: &SymbolLookup,
) -> (r: Resolution)
    ensures
        r@ == symbol_resolution(root@, path@, name@, located@, stays_within, table@),
{
    match located {
        Located::Missing { .. } => Resolution::Unresolved(Unresolved::PathMissing { root: root.clone(), path: path.clone() }),
        Located::Found { kind: EntryKind::Directory } => Resolution::Unresolved(
            Unresolved::PathNotFile { root: root.clone(), path: path.clone() },
        ),
        Located::Found { kind: EntryKind::File } => {
            if !stays_within {
                return Resolution::Unresolved(Unresolved::PathEscapesRoot { root: root.clone(), path: path.clone() });
            }
            match table {
                SymbolLookup::Failed(u) => Resolution::Unverified(u.clone()),
                SymbolLookup::Table { declares, has_parse_errors, language } => {
                    if *declares {
                        Resolution::Resolved
                    } else if *has_parse_errors {
                        Resolution::Unverified(
                            Unverified::ParseErrors { root: root.clone(), path: path.clone(), language: language.clone() },
                        )
                    } else {
                        Resolution::Unresolved(
                            Unresolved::SymbolMissing { root: root.clone(), path: path.clone(), name: name.clone() },
                        )
                    }
                },
            }
        },
    }
}

/// The root a target resolves in: the one it names, else the one it is written in.
pub open spec fn target_root(written_in: Seq<char>, target: TargetView) -> Seq<char> {
    match target.root() {
        Some(name) => name,
        None => written_in,
    }
}

/// The answer for `target`, written in the root `written_in`: its root chosen in `ws`, then
/// the anchor looked up in that root's index, or the path or symbol judged from the lookups
/// the caller made for the target's path.
pub open spec fn resolution_of(
    ws: Workspace,
    written_in: Seq<char>,
    target: TargetView,
    located: LocatedView,
    stays_within: bool,
    table: SymbolLookupView,
) -> ResolutionView {
    let root = target_root(written_in, target);
    match chosen_index(ws, root) {
        None => missing_root(ws, root),
        Some(index) => match target {
            TargetView::Anchor { id, .. } => anchor_resolution(index, id),
            TargetView::Path { path, expects, .. } => path_resolution(index@.0, path, expects, located),
            TargetView::Symbol { path, name, .. } => symbol_resolution(
                index@.0,
                path,
                name,
                located,
                stays_within,
                table,
            ),
        },
    }
}

pub fn resolve(
    ws: &Workspace,
    written_in: &RootName,
    target: &RefTarget,
    located: &Located,
    stays_within: bool,
    table: &SymbolLookup,
) -> (r: Resolution)
    ensures
        r@ == resolution_of(*ws, written_in@, target@, located@, stays_within, table@),
{
    let root_name = match target.root() {
        Some(name) => name,
        None => written_in,
    };
    let index = match select_root(ws, root_name) {
        Ok(index) => index,
        Err(resolution) => {
            return resolution;
        },
    };
    match target {
        RefTarget::Anchor { id, .. } => resolve_anchor(index, id),
        RefTarget::Path { path, expects, .. } => resolve_path(index.root(), path, *expects, located),
        RefTarget::Symbol { path, name, .. } => resolve_symbol(index.root(), path, name, located, stays_within, table),
    }
}

/// The names of every declared root: the current one and the external ones.
pub open spec fn root_names(ws: Workspace) -> Seq<Seq<char>> {
    seq![ws.index@.0] + ws.external@.map_values(|e: (RootName, Option<Index>, String)| e.0@)
}

/// The one suggestion for an unresolved target, given the lookup of its path, the names in the
/// deepest existing directory on that path, and the names the target file declares. Never a
/// claim that the suggestion is right.
pub open spec fn suggestion_of(
    ws: Workspace,
    u: UnresolvedView,
    located: LocatedView,
    siblings: Seq<Seq<char>>,
    symbols: Seq<Seq<char>>,
) -> Option<Seq<char>> {
    match u {
        UnresolvedView::AnchorMissing { root, id } => match chosen_index(ws, root) {
            Some(index) => anchor_suggestion(id, ids_of(all_anchors(index@.0, index@.1))),
            None => None,
        },
        UnresolvedView::SymbolMissing { name, .. } => suggestion(name, symbols, None),
        UnresolvedView::PathMissing { root, .. } => match (chosen_index(ws, root), located) {
            (Some(_), LocatedView::Missing { parent, name }) => match suggestion(name, siblings, None) {
                Some(c) => Some(
                    if parent.len() == 0 {
                        c
                    } else {
                        parent + "/"@ + c
                    },
                ),
                None => None,
            },
            _ => None,
        },
        UnresolvedView::RootUndeclared { name } => suggestion(name, sorted::<&str>(root_names(ws)), None),
        _ => None,
    }
}

pub fn suggest_for(
    ws: &Workspace,
    unresolved: &Unresolved,
    located: &Located,
    siblings: &Vec<&str>,
    symbols: &Vec<&str>,
) -> (r: Option<String>)
    ensures
        match suggestion_of(*ws, unresolved@, located@, strs(siblings@), strs(symbols@)) {
            Some(t) => r matches Some(s) && s@ == t,
            None => r is None,
        },
{
    match unresolved {
        Unresolved::AnchorMissing { root, id } => match select_root(ws, root) {
            Ok(index) => {
                let ids = index.anchor_ids();
                assert(id_texts(ids@) =~= ids@.map_values(|i: &AnchorId| i@));
                suggest_anchor(id, &ids)
            },
            Err(_) => None,
        },
        Unresolved::SymbolMissing { name, .. } => suggest(name.as_str(), symbols),
        Unresolved::PathMissing { root, .. } => match (select_root(ws, root), located) {
            (Ok(_), Located::Missing { parent, name }) => match suggest(name.as_str(), siblings) {
                Some(c) => {
                    if parent.as_str().is_empty() {
                        Some(c)
                    } else {
                        let mut out = String::new();
                        push_text(&mut out, parent.as_str());
                        push_text(&mut out, "/");
                        push_text(&mut out, c.as_str());
                        assert(out@ =~= parent@ + "/"@ + c@);
                        Some(out)
                    }
                },
                None => None,
            },
            _ => None,
        },
        Unresolved::RootUndeclared { name } => {
            let mut names: Vec<&str> = Vec::new();
            names.push(ws.index.root().as_str());
            let mut i: usize = 0;
            while i < ws.external.len()
                invariant
                    i <= ws.external@.len(),
                    views(names@) == root_names(*ws).take(i + 1),
                decreases ws.external.len() - i,
            {
                let ghost before = views(names@);
                names.push(ws.external[i].0.as_str());
                assert(views(names@) =~= before.push(ws.external@[i as int].0@));
                assert(root_names(*ws).take(i + 2) =~= root_names(*ws).take(i + 1).push(root_names(*ws)[i + 1]));
                i += 1;
            }
            assert(root_names(*ws).take(i + 1) =~= root_names(*ws));
            let ordered = sort_items(names);
            assert(strs(ordered@) =~= views(ordered@));
            suggest(name.as_str(), &ordered)
        },
        _ => None,
    }
}

/// Why a missing path may still be on this machine's disk: context for the reader, never a
/// fix. `on_disk` says whether the path is there and a directory, `pattern` is the
/// `[ignore] paths` line of its root that removes it.
pub open spec fn explanation_of(ws: Workspace, u: UnresolvedView, on_disk: Option<bool>, pattern: Option<Seq<char>>) -> Option<Seq<char>> {
    match (u, on_disk) {
        (UnresolvedView::PathMissing { root, path }, Some(is_dir)) => if chosen_index(ws, root) is Some {
            Some(
                match pattern {
                    Some(p) => "`"@ + path + "` exists on disk, but `[ignore] paths` pattern `"@ + p
                        + "` keeps it out of the scan; ignored paths cannot be referenced"@,
                    None => if is_dir {
                        "`"@ + path
                            + "` exists on disk, but the scan found no files beneath it (empty, or everything in it is ignored); such directories cannot be referenced"@
                    } else {
                        "`"@ + path
                            + "` exists on disk, but is ignored by `.gitignore`, so the scan never sees it; ignored files cannot be referenced"@
                    },
                },
            )
        } else {
            None
        },
        _ => None,
    }
}

pub fn explain(ws: &Workspace, unresolved: &Unresolved, on_disk: Option<bool>, pattern: &Option<String>) -> (r: Option<
    String,
>)
    ensures
        match explanation_of(*ws, unresolved@, on_disk, opt_text(*pattern)) {
            Some(t) => r matches Some(s) && s@ == t,
            None => r is None,
        },
{
    let (root, path) = match unresolved {
        Unresolved::PathMissing { root, path } => (root, path),
        _ => {
            return None;
        },
    };
    let is_dir = match on_disk {
        Some(is_dir) => is_dir,
        None => {
            return None;
        },
    };
    if select_root(ws, root).is_err() {
        return None;
    }
    let mut out = String::new();
    push_text(&mut out, "`");
    push_text(&mut out, path.as_str());
    match pattern {
        Some(p) => {
            push_text(&mut out, "` exists on disk, but `[ignore] paths` pattern `");
            push_text(&mut out, p.as_str());
            push_text(&mut out, "` keeps it out of the scan; ignored paths cannot be referenced");
            assert(out@ =~= "`"@ + path@ + "` exists on disk, but `[ignore] paths` pattern `"@ + p@
                + "` keeps it out of the scan; ignored paths cannot be referenced"@);
        },
        None => {
            if is_dir {
                push_text(
                    &mut out,
                    "` exists on disk, but the scan found no files beneath it (empty, or everything in it is ignored); such directories cannot be referenced",
                );
                assert(out@ =~= "`"@ + path@
                    + "` exists on disk, but the scan found no files beneath it (empty, or everything in it is ignored); such directories cannot be referenced"@);
            } else {
                push_text(
                    &mut out,
                    "` exists on disk, but is ignored by `.gitignore`, so the scan never sees it; ignored files cannot be referenced",
                );
                assert(out@ =~= "`"@ + path@
                    + "` exists on disk, but is ignored by `.gitignore`, so the scan never sees it; ignored files cannot be referenced"@);
            }
        },
    }
    Some(out)
}

/// The path a bare reference would name if it were read relative to the file that writes it:
/// `dir/path` for a file in `dir`, when that is a path at all.
pub open spec fn beside_of(written_in: Seq<char>, path: Seq<char>) -> Option<Seq<char>> {
    let dir = directory_of(written_in);
    let joined = dir + "/"@ + path;
    if dir.len() > 0 && path_verdict(joined, byte_len(joined) as usize) is None {
        Some(joined)
    } else {
        None
    }
}

pub fn beside(written_in: &FilePath, path: &RelPath) -> (r: Option<RelPath>)
    ensures
        match beside_of(written_in@, path@) {
            Some(p) => r matches Some(q) && q@ == p,
            None => r is None,
        },
{
    let dir = written_in.directory();
    if dir.is_empty() {
        return None;
    }
    let mut joined = String::new();
    push_text(&mut joined, dir);
    push_text(&mut joined, "/");
    push_text(&mut joined, path.as_str());
    assert(joined@ =~= directory_of(written_in@) + "/"@ + path@);
    let _n = str_byte_len(joined.as_str());
    match RelPath::parse(joined.as_str()) {
        Ok(p) => Some(p),
        Err(_) => None,
    }
}

/// When a missing bare path of the current root exists beside the file that wrote it, says so.
/// `located` is the lookup of `beside(written_in, path)`. Per site, never per cause: the same
/// name may be right next to one file and nowhere near another.
pub open spec fn relative_note_of(ws: Workspace, u: UnresolvedView, written_in: Seq<char>, located: LocatedView) -> Option<Seq<char>> {
    match u {
        UnresolvedView::PathMissing { root, path } => if root == ws.index@.0 {
            match (beside_of(written_in, path), located) {
                (Some(anchored), LocatedView::Found { .. }) => Some(
                    "in `"@ + written_in + "`, `./"@ + path + "` would resolve to `"@ + anchored + "`"@,
                ),
                _ => None,
            }
        } else {
            None
        },
        _ => None,
    }
}

pub fn relative_note(ws: &Workspace, unresolved: &Unresolved, written_in: &FilePath, located: &Located) -> (r: Option<
    String,
>)
    ensures
        match relative_note_of(*ws, unresolved@, written_in@, located@) {
            Some(t) => r matches Some(s) && s@ == t,
            None => r is None,
        },
{
    let (root, path) = match unresolved {
        Unresolved::PathMissing { root, path } => (root, path),
        _ => {
            return None;
        },
    };
    if !root.same(ws.index.root()) {
        return None;
    }
    let anchored = match beside(written_in, path) {
        Some(anchored) => anchored,
        None => {
            return None;
        },
    };
    match located {
        Located::Found { .. } => {
            let mut out = String::new();
            push_text(&mut out, "in `");
            push_text(&mut out, written_in.as_str());
            push_text(&mut out, "`, `./");
            push_text(&mut out, path.as_str());
            push_text(&mut out, "` would resolve to `");
            push_text(&mut out, anchored.as_str());
            push_text(&mut out, "`");
            assert(out@ =~= "in `"@ + written_in@ + "`, `./"@ + path@ + "` would resolve to `"@ + anchored@ + "`"@);
            Some(out)
        },
        Located::Missing { .. } => None,
    }
}

/// A reference into a declared root that is absent is never resolved and never an error: it
/// is unverified, whatever it names.
pub proof fn lemma_absent_root_is_unverified(
    ws: Workspace,
    written_in: Seq<char>,
    target: TargetView,
    located: LocatedView,
    stays_within: bool,
    table: SymbolLookupView,
)
    requires
        target_root(written_in, target) != ws.index@.0,
        external_position(ws.external@, target_root(written_in, target)) < ws.external@.len(),
        ws.external@[external_position(ws.external@, target_root(written_in, target))].1 is None,
    ensures
        resolution_of(ws, written_in, target, located, stays_within, table) is Unverified,
{
}

/// How a target file's text was analyzed for the names it declares.
#[derive(Debug, Clone)]
pub enum Analysis {
    /// The table was built: whether it declares the name, and whether the parse had errors.
    Table { declares: bool, has_parse_errors: bool },
    /// The parse ran out of its time budget.
    TimedOut,
    /// The table grew past its limit.
    Truncated,
    /// The analysis failed otherwise; its message.
    Failed(String),
}

pub enum AnalysisView {
    Table { declares: bool, has_parse_errors: bool },
    TimedOut,
    Truncated,
    Failed(Seq<char>),
}

impl View for Analysis {
    type V = AnalysisView;

    open spec fn view(&self) -> AnalysisView {
        match self {
            Analysis::Table { declares, has_parse_errors } => AnalysisView::Table {
                declares: *declares,
                has_parse_errors: *has_parse_errors,
            },
            Analysis::TimedOut => AnalysisView::TimedOut,
            Analysis::Truncated => AnalysisView::Truncated,
            Analysis::Failed(m) => AnalysisView::Failed(m@),
        }
    }
}

/// A result with its text taken by value.
pub open spec fn result_text<T>(r: Result<T, String>) -> Result<T, Seq<char>> {
    match r {
        Ok(v) => Ok(v),
        Err(e) => Err(e@),
    }
}

/// The extension of the file a path names, lowercased, as grammars are looked up by.
pub open spec fn lookup_extension(path: Seq<char>) -> Option<Seq<char>> {
    match crate::marker::path::extension_of(crate::marker::path::file_name_of(path)) {
        Some(e) => Some(crate::coverage::token::lower_text(e)),
        None => None,
    }
}

pub fn target_extension(path: &RelPath) -> (r: Option<String>)
    ensures
        opt_text(r) == lookup_extension(path@),
{
    match path.extension() {
        None => None,
        Some(e) => {
            let chars = crate::chars::to_chars(e);
            let mut lower = String::new();
            let mut i: usize = 0;
            while i < chars.len()
                invariant
                    i <= chars@.len(),
                    lower@ == crate::coverage::token::lower_text(chars@.take(i as int)),
                decreases chars.len() - i,
            {
                crate::chars::push_char(&mut lower, crate::chars::to_ascii_lower(chars[i]));
                assert(crate::coverage::token::lower_text(chars@.take(i + 1)) =~= crate::coverage::token::lower_text(
                    chars@.take(i as int),
                ).push(crate::chars::ascii_lower(chars@[i as int])));
                i += 1;
            }
            assert(chars@.take(i as int) =~= chars@);
            Some(lower)
        },
    }
}

/// What reading a target file for its symbols gives, in the order the reads are made: no
/// grammar for its extension, its size unreadable, over `limit`, its text unreadable, not
/// UTF-8, then what the analysis found. `grammar` is the language of the grammar found for
/// `lookup_extension(path)`; `size` the file's length or why it could not be had; `read` whether
/// the text is UTF-8, or why it could not be read.
pub open spec fn symbol_lookup_of(
    root: Seq<char>,
    path: Seq<char>,
    grammar: Option<Seq<char>>,
    size: Result<u64, Seq<char>>,
    limit: u64,
    read: Result<bool, Seq<char>>,
    analysis: AnalysisView,
) -> SymbolLookupView {
    match grammar {
        None => SymbolLookupView::Failed(UnverifiedView::NoGrammar { root, path, extension: lookup_extension(path) }),
        Some(language) => match size {
            Err(message) => SymbolLookupView::Failed(UnverifiedView::TargetUnreadable { root, path, message }),
            Ok(bytes) => if bytes > limit {
                SymbolLookupView::Failed(UnverifiedView::TargetTooLarge { root, path, bytes, limit })
            } else {
                match read {
                    Err(message) => SymbolLookupView::Failed(UnverifiedView::TargetUnreadable { root, path, message }),
                    Ok(false) => SymbolLookupView::Failed(UnverifiedView::TargetNotUtf8 { root, path }),
                    Ok(true) => match analysis {
                        AnalysisView::Table { declares, has_parse_errors } => SymbolLookupView::Table {
                            declares,
                            has_parse_errors,
                            language,
                        },
                        AnalysisView::TimedOut => SymbolLookupView::Failed(UnverifiedView::ParseTimeout { root, path }),
                        AnalysisView::Truncated => SymbolLookupView::Failed(
                            UnverifiedView::SymbolTableTruncated { root, path },
                        ),
                        AnalysisView::Failed(message) => SymbolLookupView::Failed(
                            UnverifiedView::AnalyzeFailed { root, path, message },
                        ),
                    },
                }
            },
        },
    }
}

pub fn symbol_lookup(
    root: &RootName,
    path: &RelPath,
    grammar: &Option<String>,
    size: &Result<u64, String>,
    limit: u64,
    read: &Result<bool, String>,
    analysis: &Analysis,
) -> (r: SymbolLookup)
    ensures
        r@ == symbol_lookup_of(root@, path@, opt_text(*grammar), result_text(*size), limit, result_text(*read), analysis@),
{
    let language = match grammar {
        None => {
            let extension = target_extension(path);
            return SymbolLookup::Failed(Unverified::NoGrammar { root: root.clone(), path: path.clone(), extension });
        },
        Some(language) => language,
    };
    let bytes = match size {
        Err(message) => {
            return SymbolLookup::Failed(
                Unverified::TargetUnreadable { root: root.clone(), path: path.clone(), message: message.clone() },
            );
        },
        Ok(bytes) => *bytes,
    };
    if bytes > limit {
        return SymbolLookup::Failed(Unverified::TargetTooLarge { root: root.clone(), path: path.clone(), bytes, limit });
    }
    match read {
        Err(message) => {
            return SymbolLookup::Failed(
                Unverified::TargetUnreadable { root: root.clone(), path: path.clone(), message: message.clone() },
            );
        },
        Ok(false) => {
            return SymbolLookup::Failed(Unverified::TargetNotUtf8 { root: root.clone(), path: path.clone() });
        },
        Ok(true) => {},
    }
    match analysis {
        Analysis::Table { declares, has_parse_errors } => SymbolLookup::Table {
            declares: *declares,
            has_parse_errors: *has_parse_errors,
            language: language.clone(),
        },
        Analysis::TimedOut => SymbolLookup::Failed(Unverified::ParseTimeout { root: root.clone(), path: path.clone() }),
        Analysis::Truncated => SymbolLookup::Failed(
            Unverified::SymbolTableTruncated { root: root.clone(), path: path.clone() },
        ),
        Analysis::Failed(message) => SymbolLookup::Failed(
            Unverified::AnalyzeFailed { root: root.clone(), path: path.clone(), message: message.clone() },
        ),
    }
}

} // verus!
