//! Renaming an anchor id: rewrite exactly the id bytes of every declaration and reference in
//! the current root. Renaming an alias: rewrite its declaration token and every use in the one
//! file that declares it. Conveniences, never load-bearing; `check` remains the guarantee.
use vstd::prelude::*;

use crate::chars::{less_path, path_less, to_chars};
use crate::edit::TextEdit;
use crate::index::{
    AnchorSiteView, FileView, Index, RefSiteView, all_anchor_sites, all_anchors, anchor_sites_view,
    backrefs_of, declarations, files_with, refs_view, sites_named, binding_of, over_markers,
    lemma_over_markers_step,
};
use crate::marker::lex::{MarkerSpec, markers_view};
use crate::marker::target::TargetView;
use crate::marker::{Alias, AnchorId, MarkerPayload, PayloadView, RefTarget};
use crate::root::FilePath;
use crate::span::ByteSpan;

verus! {

broadcast use vstd::string::group_string_axioms;

/// An edit with its span taken as integers and its texts by value.
pub type EditView = ((int, int), Seq<char>, Seq<char>);

pub open spec fn edit_view(edit: TextEdit) -> EditView {
    ((edit.span.start as int, edit.span.end as int), edit.expected@, edit.replacement@)
}

/// `edits`, sorted by start, with `e` inserted after the last edit that starts no later than it:
/// the order a stable sort by start gives.
pub open spec fn insert_by_start(edits: Seq<EditView>, e: EditView) -> Seq<EditView> {
    edits.insert(first_later(edits, e.0.0), e)
}

/// Where the run of edits starting after `start` at the end of `edits` begins.
pub open spec fn first_later(edits: Seq<EditView>, start: int) -> int
    decreases edits.len(),
{
    if edits.len() == 0 {
        0
    } else if edits.last().0.0 > start {
        first_later(edits.drop_last(), start)
    } else {
        edits.len() as int
    }
}

/// Index of the first group whose path does not come before `path`, or the length.
pub open spec fn lower_bound(groups: Seq<(Seq<char>, Seq<EditView>)>, path: Seq<char>) -> int
    decreases groups.len(),
{
    if groups.len() == 0 {
        0
    } else if path_less(groups.last().0, path) {
        groups.len() as int
    } else {
        lower_bound(groups.drop_last(), path)
    }
}

/// `groups`, kept in path order, with `e` added to the group of `path`.
pub open spec fn group_insert(groups: Seq<(Seq<char>, Seq<EditView>)>, path: Seq<char>, e: EditView) -> Seq<
    (Seq<char>, Seq<EditView>),
> {
    let i = lower_bound(groups, path);
    if 0 <= i < groups.len() && groups[i].0 == path {
        groups.update(i, (path, insert_by_start(groups[i].1, e)))
    } else {
        groups.insert(i, (path, seq![e]))
    }
}

/// The planned edits, grouped per file: files in path order, each file's edits in start order.
pub open spec fn grouped(planned: Seq<(Seq<char>, EditView)>) -> Seq<(Seq<char>, Seq<EditView>)>
    decreases planned.len(),
{
    if planned.len() == 0 {
        Seq::empty()
    } else {
        group_insert(grouped(planned.drop_last()), planned.last().0, planned.last().1)
    }
}

pub open spec fn groups_view(groups: Seq<(FilePath, Vec<TextEdit>)>) -> Seq<(Seq<char>, Seq<EditView>)> {
    groups.map_values(
        |g: (FilePath, Vec<TextEdit>)| (g.0@, g.1@.map_values(|e: TextEdit| edit_view(e))),
    )
}

/// Inserts `edit` into `edits` as `insert_by_start` does.
fn insert_edit(edits: &mut Vec<TextEdit>, edit: TextEdit)
    ensures
        final(edits)@.map_values(|e: TextEdit| edit_view(e)) == insert_by_start(
            old(edits)@.map_values(|e: TextEdit| edit_view(e)),
            edit_view(edit),
        ),
{
    let ghost ev = edits@.map_values(|e: TextEdit| edit_view(e));
    let start = edit.span.start;
    let mut i: usize = edits.len();
    proof {
        lemma_first_later_tail(ev, start as int, ev.len() as int);
    }
    while i > 0 && edits[i - 1].span.start > start
        invariant
            i <= edits@.len(),
            ev == edits@.map_values(|e: TextEdit| edit_view(e)),
            first_later(ev, start as int) == first_later(ev.take(i as int), start as int),
            forall|j: int| i <= j < ev.len() ==> (#[trigger] ev[j]).0.0 > start,
        decreases i,
    {
        assert(ev[i - 1].0.0 == edits@[i - 1].span.start);
        proof {
            lemma_first_later_step(ev, start as int, i as int);
        }
        i -= 1;
    }
    proof {
        if i > 0 {
            assert(ev[i - 1].0.0 == edits@[i - 1].span.start);
            assert(ev.take(i as int).last() == ev[i - 1]);
        }
    }
    let ghost old_view = ev;
    edits.insert(i, edit);
    assert(edits@.map_values(|e: TextEdit| edit_view(e)) =~= old_view.insert(i as int, edit_view(edit)));
}

/// Where `start` falls in a prefix of `edits` whose last edit starts after it.
proof fn lemma_first_later_step(edits: Seq<EditView>, start: int, i: int)
    requires
        0 < i <= edits.len(),
        edits[i - 1].0.0 > start,
        forall|j: int| i <= j < edits.len() ==> (#[trigger] edits[j]).0.0 > start,
    ensures
        first_later(edits.take(i), start) == first_later(edits.take(i - 1), start),
{
    let p = edits.take(i);
    assert(p.drop_last() =~= edits.take(i - 1));
    assert(p.last() == edits[i - 1]);
}

proof fn lemma_first_later_bounds(edits: Seq<EditView>, start: int)
    ensures
        0 <= first_later(edits, start) <= edits.len(),
    decreases edits.len(),
{
    if edits.len() > 0 {
        lemma_first_later_bounds(edits.drop_last(), start);
    }
}

proof fn lemma_first_later_tail(edits: Seq<EditView>, start: int, n: int)
    requires
        n == edits.len(),
    ensures
        first_later(edits, start) == first_later(edits.take(n), start),
{
    assert(edits.take(n) =~= edits);
}

/// Adds `edit` to the group of `path`, as `group_insert` does.
pub(crate) fn add_to_groups(groups: &mut Vec<(FilePath, Vec<TextEdit>)>, path: &FilePath, edit: TextEdit)
    ensures
        groups_view(final(groups)@) == group_insert(groups_view(old(groups)@), path@, edit_view(edit)),
{
    let ghost gv = groups_view(groups@);
    let mut i: usize = groups.len();
    assert(gv.take(i as int) =~= gv);
    while i > 0 && !less_path(groups[i - 1].0.as_str(), path.as_str())
        invariant
            i <= groups@.len(),
            gv == groups_view(groups@),
            lower_bound(gv, path@) == lower_bound(gv.take(i as int), path@),
        decreases i,
    {
        assert(gv[i - 1].0 == groups@[i - 1].0@);
        assert(gv.take(i as int).drop_last() =~= gv.take(i - 1));
        assert(gv.take(i as int).last() == gv[i - 1]);
        i -= 1;
    }
    if i > 0 {
        assert(gv[i - 1].0 == groups@[i - 1].0@);
        assert(gv.take(i as int).last() == gv[i - 1]);
    }
    assert(lower_bound(gv, path@) == i);
    if i < groups.len() && groups[i].0.same(path) {
        assert(gv[i as int].0 == groups@[i as int].0@);
        let (p, mut edits) = groups.remove(i);
        let ghost old_edits = edits@.map_values(|e: TextEdit| edit_view(e));
        assert(old_edits == gv[i as int].1);
        insert_edit(&mut edits, edit);
        groups.insert(i, (p, edits));
        assert(groups_view(groups@) =~= gv.update(
            i as int,
            (path@, insert_by_start(gv[i as int].1, edit_view(edit))),
        ));
    } else {
        let mut edits: Vec<TextEdit> = Vec::new();
        let ghost e = edit_view(edit);
        edits.push(edit);
        assert(edits@.map_values(|e: TextEdit| edit_view(e)) =~= seq![e]);
        groups.insert(i, (path.clone(), edits));
        assert(groups_view(groups@) =~= gv.insert(i as int, (path@, seq![e])));
    }
}

/// A planned anchor rename: the edits per file, files in path order, each present once with
/// its edits sorted by span start.
#[derive(Debug, PartialEq, Eq)]
pub struct RenamePlan {
    old: AnchorId,
    new: AnchorId,
    edits: Vec<(FilePath, Vec<TextEdit>)>,
    anchor_sites: usize,
    ref_sites: usize,
}

/// A rename plan as values: the old and new ids, the edits per file, and how many anchor and
/// reference sites they rewrite.
pub struct RenamePlanView {
    pub old_id: Seq<char>,
    pub new_id: Seq<char>,
    pub edits: Seq<(Seq<char>, Seq<EditView>)>,
    pub anchor_sites: usize,
    pub ref_sites: usize,
}

impl View for RenamePlan {
    type V = RenamePlanView;

    closed spec fn view(&self) -> RenamePlanView {
        RenamePlanView {
            old_id: self.old@,
            new_id: self.new@,
            edits: groups_view(self.edits@),
            anchor_sites: self.anchor_sites,
            ref_sites: self.ref_sites,
        }
    }
}

/// Total number of edits across the groups.
pub open spec fn total_edits(groups: Seq<(Seq<char>, Seq<EditView>)>) -> int
    decreases groups.len(),
{
    if groups.len() == 0 {
        0
    } else {
        total_edits(groups.drop_last()) + groups.last().1.len()
    }
}

impl RenamePlan {
    #[verifier::type_invariant]
    closed spec fn files_in_order(&self) -> bool {
        groups_sorted(groups_view(self.edits@))
    }

    /// The id renamed from.
    pub fn old_id(&self) -> (r: &AnchorId)
        ensures
            r@ == self@.old_id,
    {
        &self.old
    }

    /// The id renamed to.
    pub fn new_id(&self) -> (r: &AnchorId)
        ensures
            r@ == self@.new_id,
    {
        &self.new
    }

    /// The edits per file: files in strictly increasing path order, each with its edits, at
    /// least one, sorted by span start.
    pub fn edits(&self) -> (r: &Vec<(FilePath, Vec<TextEdit>)>)
        ensures
            groups_view(r@) == self@.edits,
            groups_sorted(self@.edits),
    {
        proof {
            use_type_invariant(self);
        }
        &self.edits
    }

    /// How many anchor declarations the plan rewrites.
    pub fn anchor_sites(&self) -> (n: usize)
        ensures
            n == self@.anchor_sites,
    {
        self.anchor_sites
    }

    /// How many references the plan rewrites.
    pub fn ref_sites(&self) -> (n: usize)
        ensures
            n == self@.ref_sites,
    {
        self.ref_sites
    }

    /// The files the plan edits, each once, in strictly increasing path order.
    pub fn files(&self) -> (r: Vec<&FilePath>)
        ensures
            r@.map_values(|p: &FilePath| p@) == self@.edits.map_values(|g: (Seq<char>, Seq<EditView>)| g.0),
            forall|i: int, j: int| 0 <= i < j < r@.len() ==> path_less(#[trigger] r@[i]@, #[trigger] r@[j]@),
    {
        proof {
            use_type_invariant(self);
        }
        let ghost gv = groups_view(self.edits@);
        let mut out: Vec<&FilePath> = Vec::new();
        let mut i: usize = 0;
        while i < self.edits.len()
            invariant
                i <= self.edits@.len(),
                gv == groups_view(self.edits@),
                out@.map_values(|p: &FilePath| p@) == gv.take(i as int).map_values(
                    |g: (Seq<char>, Seq<EditView>)| g.0,
                ),
            decreases self.edits.len() - i,
        {
            let ghost before = out@.map_values(|p: &FilePath| p@);
            out.push(&self.edits[i].0);
            assert(gv[i as int].0 == self.edits@[i as int].0@);
            assert(out@.map_values(|p: &FilePath| p@) =~= before.push(gv[i as int].0));
            assert(gv.take(i + 1).map_values(|g: (Seq<char>, Seq<EditView>)| g.0) =~= gv.take(
                i as int,
            ).map_values(|g: (Seq<char>, Seq<EditView>)| g.0).push(gv[i as int].0));
            i += 1;
        }
        assert(gv.take(i as int) =~= gv);
        assert forall|a: int, b: int| 0 <= a < b < out@.len() implies path_less(#[trigger] out@[a]@, #[trigger] out@[b]@) by {
            assert(out@[a]@ == out@.map_values(|p: &FilePath| p@)[a]);
            assert(out@[b]@ == out@.map_values(|p: &FilePath| p@)[b]);
        }
        out
    }

    /// How many edits the plan makes in all.
    pub fn edit_count(&self) -> (n: usize)
        requires
            total_edits(self@.edits) <= usize::MAX,
        ensures
            n == total_edits(self@.edits),
    {
        let ghost gv = groups_view(self.edits@);
        let mut n: usize = 0;
        let mut i: usize = 0;
        while i < self.edits.len()
            invariant
                i <= self.edits@.len(),
                gv == groups_view(self.edits@),
                total_edits(gv) <= usize::MAX,
                n == total_edits(gv.take(i as int)),
            decreases self.edits.len() - i,
        {
            assert(gv.take(i + 1).drop_last() =~= gv.take(i as int));
            assert(gv[i as int].1.len() == self.edits@[i as int].1@.len());
            proof {
                lemma_total_edits_prefix(gv, i + 1);
            }
            n = n + self.edits[i].1.len();
            i += 1;
        }
        assert(gv.take(i as int) =~= gv);
        n
    }
}

/// A prefix of the groups holds no more edits than all of them.
proof fn lemma_total_edits_prefix(groups: Seq<(Seq<char>, Seq<EditView>)>, i: int)
    requires
        0 <= i <= groups.len(),
    ensures
        total_edits(groups.take(i)) <= total_edits(groups),
        total_edits(groups.take(i)) >= 0,
    decreases groups.len() - i,
{
    lemma_total_edits_nonneg(groups.take(i));
    if i < groups.len() {
        lemma_total_edits_prefix(groups, i + 1);
        assert(groups.take(i + 1).drop_last() =~= groups.take(i));
    } else {
        assert(groups.take(i) =~= groups);
        lemma_total_edits_nonneg(groups);
    }
}

proof fn lemma_total_edits_nonneg(groups: Seq<(Seq<char>, Seq<EditView>)>)
    ensures
        total_edits(groups) >= 0,
    decreases groups.len(),
{
    if groups.len() > 0 {
        lemma_total_edits_nonneg(groups.drop_last());
    }
}

#[derive(Debug, Clone, PartialEq, Eq)]
pub enum RenameError {
    UnknownAnchor(AnchorId),
    TargetExists(AnchorId),
    SameId,
}

pub enum RenameFault {
    UnknownAnchor(Seq<char>),
    TargetExists(Seq<char>),
    SameId,
}

impl View for RenameError {
    type V = RenameFault;

    open spec fn view(&self) -> RenameFault {
        match self {
            RenameError::UnknownAnchor(id) => RenameFault::UnknownAnchor(id@),
            RenameError::TargetExists(id) => RenameFault::TargetExists(id@),
            RenameError::SameId => RenameFault::SameId,
        }
    }
}

/// The edit renaming each anchor named `old`, with the file it is in.
pub open spec fn anchor_edits(sites: Seq<AnchorSiteView>, old: Seq<char>, new: Seq<char>) -> Seq<
    (Seq<char>, EditView),
>
    decreases sites.len(),
{
    if sites.len() == 0 {
        Seq::empty()
    } else if sites.last().id == old {
        anchor_edits(sites.drop_last(), old, new).push(
            (sites.last().site.path, (sites.last().id_span, old, new)),
        )
    } else {
        anchor_edits(sites.drop_last(), old, new)
    }
}

/// The edit rewriting the id of each direct reference among `refs`. A use reaches the anchor
/// through its declaration, which is rewritten as a direct reference.
pub open spec fn ref_edits(refs: Seq<RefSiteView>, old: Seq<char>, new: Seq<char>) -> Seq<
    (Seq<char>, EditView),
>
    decreases refs.len(),
{
    if refs.len() == 0 {
        Seq::empty()
    } else {
        let before = ref_edits(refs.drop_last(), old, new);
        let r = refs.last();
        match (r.via, r.id_span) {
            (None, Some(span)) => before.push((r.site.path, (span, old, new))),
            _ => before,
        }
    }
}

/// The anchor `old` as a target in the root named `root`.
pub open spec fn anchor_target(root: Seq<char>, id: Seq<char>) -> TargetView {
    TargetView::Anchor { root: Some(root), id }
}

/// What `plan_rename` decides for renaming `old` to `new` in the index `index`: the grouped
/// edits and the numbers of anchor and reference sites, or why not.
pub open spec fn rename_verdict(index: (Seq<char>, Seq<FileView>), old: Seq<char>, new: Seq<char>) -> Result<
    (Seq<(Seq<char>, Seq<EditView>)>, int, int),
    RenameFault,
> {
    let (root, files) = index;
    if old == new {
        Err(RenameFault::SameId)
    } else if sites_named(all_anchors(root, files), old).len() == 0 {
        Err(RenameFault::UnknownAnchor(old))
    } else if sites_named(all_anchors(root, files), new).len() > 0 {
        Err(RenameFault::TargetExists(new))
    } else {
        let by_anchor = anchor_edits(all_anchor_sites(root, files), old, new);
        let by_ref = ref_edits(backrefs_of(root, files, anchor_target(root, old)), old, new);
        Ok((grouped(by_anchor + by_ref), by_anchor.len() as int, by_ref.len() as int))
    }
}

fn edit(span: ByteSpan, old: &AnchorId, new: &AnchorId) -> (e: TextEdit)
    ensures
        edit_view(e) == ((span.start as int, span.end as int), old@, new@),
{
    TextEdit { span, expected: old.as_str().to_owned(), replacement: new.as_str().to_owned() }
}

/// Plans a rename within the index's root. References from other roots to this anchor cannot be
/// seen from here and are not touched; checking those roots will report them.
pub fn plan_rename(index: &Index, old: &AnchorId, new: &AnchorId) -> (r: Result<RenamePlan, RenameError>)
    ensures
        match rename_verdict(index@, old@, new@) {
            Ok((groups, anchors, refs)) => r matches Ok(plan) && plan@.old_id == old@ && plan@.new_id == new@
                && plan@.edits == groups && plan@.anchor_sites == anchors && plan@.ref_sites == refs,
            Err(f) => r matches Err(e) && e@ == f,
        },
{
    let ghost root = index@.0;
    let ghost files = index@.1;
    if old.same(new) {
        return Err(RenameError::SameId);
    }
    if index.anchor_sites(old).len() == 0 {
        return Err(RenameError::UnknownAnchor(old.clone()));
    }
    if index.anchor_sites(new).len() > 0 {
        return Err(RenameError::TargetExists(new.clone()));
    }
    let mut groups: Vec<(FilePath, Vec<TextEdit>)> = Vec::new();
    let mut anchor_sites: usize = 0;
    let anchors = index.anchors();
    let ghost av = anchor_sites_view(anchors@);
    let mut i: usize = 0;
    assert(groups_view(groups@) =~= grouped(anchor_edits(av.take(0), old@, new@)));
    while i < anchors.len()
        invariant
            i <= anchors@.len(),
            av == anchor_sites_view(anchors@),
            groups_view(groups@) == grouped(anchor_edits(av.take(i as int), old@, new@)),
            anchor_sites == anchor_edits(av.take(i as int), old@, new@).len(),
            anchor_sites <= i,
        decreases anchors.len() - i,
    {
        assert(av.take(i + 1).drop_last() =~= av.take(i as int));
        assert(av.take(i + 1).last() == av[i as int]);
        assert(av[i as int] == anchors@[i as int]@);
        let a = &anchors[i];
        if a.id.same(old) {
            let ghost before = anchor_edits(av.take(i as int), old@, new@);
            add_to_groups(&mut groups, &a.site.path, edit(a.id_span, old, new));
            anchor_sites += 1;
            assert(anchor_edits(av.take(i + 1), old@, new@) == before.push(
                (a.site.path@, ((a.id_span.start as int, a.id_span.end as int), old@, new@)),
            ));
            assert(before.push(
                (a.site.path@, ((a.id_span.start as int, a.id_span.end as int), old@, new@)),
            ).drop_last() =~= before);
        }
        i += 1;
    }
    assert(av.take(i as int) =~= av);
    let ghost by_anchor = anchor_edits(av, old@, new@);
    let target = RefTarget::Anchor { root: Some(index.root().clone()), id: old.clone() };
    assert(target@ == anchor_target(root, old@));
    let refs = index.backrefs(&target);
    let ghost rv = refs_view(refs@);
    let mut ref_sites: usize = 0;
    let mut k: usize = 0;
    assert(by_anchor + ref_edits(rv.take(0), old@, new@) =~= by_anchor);
    while k < refs.len()
        invariant
            k <= refs@.len(),
            rv == refs_view(refs@),
            groups_view(groups@) == grouped(by_anchor + ref_edits(rv.take(k as int), old@, new@)),
            ref_sites == ref_edits(rv.take(k as int), old@, new@).len(),
            ref_sites <= k,
        decreases refs.len() - k,
    {
        assert(rv.take(k + 1).drop_last() =~= rv.take(k as int));
        assert(rv.take(k + 1).last() == rv[k as int]);
        assert(rv[k as int] == refs@[k as int]@);
        let reference = &refs[k];
        if reference.via.is_none() {
            match reference.id_span {
                Some(id_span) => {
                    let ghost before = by_anchor + ref_edits(rv.take(k as int), old@, new@);
                    let ghost x = (
                        reference.site.path@,
                        ((id_span.start as int, id_span.end as int), old@, new@),
                    );
                    add_to_groups(&mut groups, &reference.site.path, edit(id_span, old, new));
                    ref_sites += 1;
                    assert(by_anchor + ref_edits(rv.take(k + 1), old@, new@) =~= before.push(x));
                    assert(before.push(x).drop_last() =~= before);
                },
                None => {},
            }
        }
        k += 1;
    }
    assert(rv.take(k as int) =~= rv);
    proof {
        lemma_rename_plan_shape(index@, old@, new@);
    }
    Ok(RenamePlan { old: old.clone(), new: new.clone(), edits: groups, anchor_sites, ref_sites })
}

/// Edits renaming one file's alias: every declaration token for it and every `@[alias]`.
#[derive(Debug, Clone, PartialEq, Eq)]
pub struct AliasRenamePlan {
    pub path: FilePath,
    pub old: Alias,
    pub new: Alias,
    /// Sorted by span start.
    pub edits: Vec<TextEdit>,
    pub declaration_sites: usize,
    pub use_sites: usize,
}

#[derive(Debug, Clone, PartialEq, Eq)]
pub enum AliasRenameError {
    Unknown { path: FilePath, alias: Alias },
    TargetExists { path: FilePath, alias: Alias },
    SameAlias,
}

pub enum AliasRenameFault {
    Unknown { path: Seq<char>, alias: Seq<char> },
    TargetExists { path: Seq<char>, alias: Seq<char> },
    SameAlias,
}

impl View for AliasRenameError {
    type V = AliasRenameFault;

    open spec fn view(&self) -> AliasRenameFault {
        match self {
            AliasRenameError::Unknown { path, alias } => AliasRenameFault::Unknown {
                path: path@,
                alias: alias@,
            },
            AliasRenameError::TargetExists { path, alias } => AliasRenameFault::TargetExists {
                path: path@,
                alias: alias@,
            },
            AliasRenameError::SameAlias => AliasRenameFault::SameAlias,
        }
    }
}

/// The edit a marker needs when the alias `old` becomes `new`: its declaration token, or the
/// body of a use; `true` for a declaration.
pub open spec fn alias_edit(m: MarkerSpec, old: Seq<char>, new: Seq<char>) -> Option<(EditView, bool)> {
    match m.payload {
        PayloadView::Ref { alias: Some((name, span)), .. } => if name == old {
            Some(((span, old, new), true))
        } else {
            None
        },
        PayloadView::Use { alias } => if alias == old {
            Some(((m.body_span, old, new), false))
        } else {
            None
        },
        _ => None,
    }
}

/// `edits` stably sorted by start, as successive insertions.
pub open spec fn sorted_by_start(edits: Seq<EditView>) -> Seq<EditView>
    decreases edits.len(),
{
    if edits.len() == 0 {
        Seq::empty()
    } else {
        insert_by_start(sorted_by_start(edits.drop_last()), edits.last())
    }
}

/// How many of `found` are declarations (`true`) or uses (`false`).
pub open spec fn count_kind(found: Seq<(EditView, bool)>, declaration: bool) -> int
    decreases found.len(),
{
    if found.len() == 0 {
        0
    } else {
        count_kind(found.drop_last(), declaration) + if found.last().1 == declaration {
            1int
        } else {
            0int
        }
    }
}

/// What `plan_alias_rename` decides: the sorted edits and the numbers of declaration and use
/// sites, or why not.
pub open spec fn alias_rename_verdict(files: Seq<FileView>, path: Seq<char>, old: Seq<char>, new: Seq<char>) -> Result<
    (Seq<EditView>, int, int),
    AliasRenameFault,
> {
    if old == new {
        Err(AliasRenameFault::SameAlias)
    } else {
        match files_with(files, path) {
            None => Err(AliasRenameFault::Unknown { path, alias: old }),
            Some(f) => if binding_of(declarations(f.1), old) is None {
                Err(AliasRenameFault::Unknown { path, alias: old })
            } else if binding_of(declarations(f.1), new) is Some {
                Err(AliasRenameFault::TargetExists { path, alias: new })
            } else {
                let found = over_markers(f.1, |m: MarkerSpec| alias_edit(m, old, new));
                Ok(
                    (
                        sorted_by_start(found.map_values(|x: (EditView, bool)| x.0)),
                        count_kind(found, true),
                        count_kind(found, false),
                    ),
                )
            },
        }
    }
}

/// Plans an alias rename. Aliases are file-scoped, so the plan never leaves `path`; a duplicated
/// declaration is rewritten at every declaration site, since all of them spell the old name.
pub fn plan_alias_rename(index: &Index, path: &FilePath, old: &Alias, new: &Alias) -> (r: Result<
    AliasRenamePlan,
    AliasRenameError,
>)
    ensures
        match alias_rename_verdict(index@.1, path@, old@, new@) {
            Ok((edits, declarations, uses)) => r matches Ok(plan) && plan.path@ == path@
                && plan.old@ == old@ && plan.new@ == new@ && plan.edits@.map_values(
                |e: TextEdit| edit_view(e),
            ) == edits && plan.declaration_sites == declarations && plan.use_sites == uses,
            Err(f) => r matches Err(e) && e@ == f,
        },
{
    if old.same(new) {
        return Err(AliasRenameError::SameAlias);
    }
    let record = match index.file_record(path) {
        Some(record) => record,
        None => {
            return Err(AliasRenameError::Unknown { path: path.clone(), alias: old.clone() });
        },
    };
    if record.aliases.binding(old).is_none() {
        return Err(AliasRenameError::Unknown { path: path.clone(), alias: old.clone() });
    }
    if record.aliases.binding(new).is_some() {
        return Err(AliasRenameError::TargetExists { path: path.clone(), alias: new.clone() });
    }
    let ghost mv = markers_view(record.markers@);
    let ghost f = |m: MarkerSpec| alias_edit(m, old@, new@);
    let mut edits: Vec<TextEdit> = Vec::new();
    let mut declaration_sites: usize = 0;
    let mut use_sites: usize = 0;
    let mut j: usize = 0;
    assert(edits@.map_values(|e: TextEdit| edit_view(e)) =~= sorted_by_start(
        over_markers(mv.take(0), f).map_values(|x: (EditView, bool)| x.0),
    ));
    while j < record.markers.len()
        invariant
            j <= record.markers@.len(),
            mv == markers_view(record.markers@),
            f == (|m: MarkerSpec| alias_edit(m, old@, new@)),
            edits@.map_values(|e: TextEdit| edit_view(e)) == sorted_by_start(
                over_markers(mv.take(j as int), f).map_values(|x: (EditView, bool)| x.0),
            ),
            declaration_sites == count_kind(over_markers(mv.take(j as int), f), true),
            use_sites == count_kind(over_markers(mv.take(j as int), f), false),
            declaration_sites + use_sites <= j,
        decreases record.markers.len() - j,
    {
        proof {
            lemma_over_markers_step(mv, f, j as int);
        }
        let marker = &record.markers[j];
        assert(mv[j as int] == marker@);
        let ghost before = over_markers(mv.take(j as int), f);
        let found = match &marker.payload {
            MarkerPayload::Ref { alias: Some(declared), .. } => {
                if declared.alias.same(old) {
                    Some((declared.span, true))
                } else {
                    None
                }
            },
            MarkerPayload::Use { alias } => {
                if alias.same(old) {
                    Some((marker.body_span, false))
                } else {
                    None
                }
            },
            _ => None,
        };
        match found {
            Some((span, declaration)) => {
                let e = TextEdit {
                    span,
                    expected: old.as_str().to_owned(),
                    replacement: new.as_str().to_owned(),
                };
                let ghost x = (edit_view(e), declaration);
                assert(f(mv[j as int]) == Some(x));
                insert_edit(&mut edits, e);
                if declaration {
                    declaration_sites += 1;
                } else {
                    use_sites += 1;
                }
                assert(before.push(x).drop_last() =~= before);
                assert(before.push(x).map_values(|x: (EditView, bool)| x.0) =~= before.map_values(
                    |x: (EditView, bool)| x.0,
                ).push(x.0));
                assert(before.push(x).map_values(|x: (EditView, bool)| x.0).drop_last() =~= before.map_values(
                    |x: (EditView, bool)| x.0,
                ));
            },
            None => {
                assert(f(mv[j as int]) is None);
            },
        }
        j += 1;
    }
    assert(mv.take(j as int) =~= mv);
    Ok(
        AliasRenamePlan {
            path: path.clone(),
            old: old.clone(),
            new: new.clone(),
            edits,
            declaration_sites,
            use_sites,
        },
    )
}

/// Whether every edit of every group rewrites `old` to `new`.
pub open spec fn all_rewrite(groups: Seq<(Seq<char>, Seq<EditView>)>, old: Seq<char>, new: Seq<char>) -> bool {
    forall|i: int, j: int|
        0 <= i < groups.len() && 0 <= j < groups[i].1.len() ==> (#[trigger] groups[i].1[j]).1 == old
            && groups[i].1[j].2 == new
}

/// Whether the groups' paths strictly increase.
pub open spec fn paths_increase(groups: Seq<(Seq<char>, Seq<EditView>)>) -> bool {
    forall|i: int, j: int| 0 <= i < j < groups.len() ==> path_less(#[trigger] groups[i].0, #[trigger] groups[j].0)
}

/// Whether the edits' starts never decrease.
pub open spec fn starts_increase(edits: Seq<EditView>) -> bool {
    forall|i: int, j: int| 0 <= i <= j < edits.len() ==> (#[trigger] edits[i]).0.0 <= (#[trigger] edits[j]).0.0
}

/// Whether every group is non-empty with its edits in start order.
pub open spec fn groups_sorted(groups: Seq<(Seq<char>, Seq<EditView>)>) -> bool {
    &&& paths_increase(groups)
    &&& forall|i: int| 0 <= i < groups.len() ==> starts_increase(#[trigger] groups[i].1) && groups[i].1.len() > 0
}

/// In path-sorted groups, `lower_bound` is where `path` belongs: every earlier group comes
/// before it and no later one does.
proof fn lemma_lower_bound(groups: Seq<(Seq<char>, Seq<EditView>)>, path: Seq<char>)
    requires
        paths_increase(groups),
    ensures
        0 <= lower_bound(groups, path) <= groups.len(),
        forall|k: int| 0 <= k < lower_bound(groups, path) ==> path_less(#[trigger] groups[k].0, path),
        forall|k: int| lower_bound(groups, path) <= k < groups.len() ==> !path_less(#[trigger] groups[k].0, path),
    decreases groups.len(),
{
    if groups.len() > 0 {
        let init = groups.drop_last();
        assert(paths_increase(init)) by {
            assert forall|i: int, j: int| 0 <= i < j < init.len() implies path_less(
                #[trigger] init[i].0,
                #[trigger] init[j].0,
            ) by {
                assert(init[i] == groups[i] && init[j] == groups[j]);
            }
        }
        lemma_lower_bound(init, path);
        let n = groups.len() - 1;
        if path_less(groups.last().0, path) {
            assert forall|k: int| 0 <= k < groups.len() implies path_less(#[trigger] groups[k].0, path) by {
                if k < n {
                    assert(path_less(groups[k].0, groups[n].0));
                    crate::chars::lemma_path_less_transitive(groups[k].0, groups[n].0, path);
                }
            }
        } else {
            assert forall|k: int| lower_bound(groups, path) <= k < groups.len() implies !path_less(
                #[trigger] groups[k].0,
                path,
            ) by {
                if k < n {
                    assert(groups[k] == init[k]);
                }
            }
            assert forall|k: int| 0 <= k < lower_bound(groups, path) implies path_less(
                #[trigger] groups[k].0,
                path,
            ) by {
                assert(groups[k] == init[k]);
            }
        }
    }
}

proof fn lemma_first_later(edits: Seq<EditView>, start: int)
    requires
        starts_increase(edits),
    ensures
        0 <= first_later(edits, start) <= edits.len(),
        forall|k: int| 0 <= k < first_later(edits, start) ==> (#[trigger] edits[k]).0.0 <= start,
        forall|k: int| first_later(edits, start) <= k < edits.len() ==> (#[trigger] edits[k]).0.0 > start,
    decreases edits.len(),
{
    if edits.len() > 0 {
        let init = edits.drop_last();
        assert(starts_increase(init)) by {
            assert forall|i: int, j: int| 0 <= i <= j < init.len() implies (#[trigger] init[i]).0.0
                <= (#[trigger] init[j]).0.0 by {
                assert(init[i] == edits[i] && init[j] == edits[j]);
            }
        }
        lemma_first_later(init, start);
        let n = edits.len() - 1;
        if edits.last().0.0 > start {
            assert forall|k: int| first_later(edits, start) <= k < edits.len() implies (#[trigger] edits[k]).0.0
                > start by {
                if k < n {
                    assert(edits[k] == init[k]);
                }
            }
            assert forall|k: int| 0 <= k < first_later(edits, start) implies (#[trigger] edits[k]).0.0
                <= start by {
                assert(edits[k] == init[k]);
            }
        } else {
            assert forall|k: int| 0 <= k < edits.len() implies (#[trigger] edits[k]).0.0 <= start by {
                if k < n {
                    assert(edits[k].0.0 <= edits[n].0.0);
                }
            }
        }
    }
}

proof fn lemma_insert_by_start(edits: Seq<EditView>, e: EditView)
    requires
        starts_increase(edits),
    ensures
        starts_increase(insert_by_start(edits, e)),
        insert_by_start(edits, e).len() == edits.len() + 1,
        forall|k: int|
            0 <= k < insert_by_start(edits, e).len() ==> (#[trigger] insert_by_start(edits, e)[k] == e
                || edits.contains(insert_by_start(edits, e)[k])),
{
    lemma_first_later(edits, e.0.0);
    let p = first_later(edits, e.0.0);
    let r = insert_by_start(edits, e);
    assert forall|i: int, j: int| 0 <= i <= j < r.len() implies (#[trigger] r[i]).0.0 <= (#[trigger] r[j]).0.0 by {
        let oi = if i < p { i } else if i == p { -1 } else { i - 1 };
        let oj = if j < p { j } else if j == p { -1 } else { j - 1 };
        if oi >= 0 {
            assert(r[i] == edits[oi]);
        }
        if oj >= 0 {
            assert(r[j] == edits[oj]);
        }
    }
    assert forall|k: int| 0 <= k < r.len() implies (#[trigger] r[k] == e || edits.contains(r[k])) by {
        if k < p {
            assert(r[k] == edits[k]);
        } else if k > p {
            assert(r[k] == edits[k - 1]);
        }
    }
}

/// Adding an edit keeps the groups sorted, adds one edit, and keeps every edit a rewrite of
/// `old` to `new` when the added one is.
proof fn lemma_group_insert(groups: Seq<(Seq<char>, Seq<EditView>)>, path: Seq<char>, e: EditView, old: Seq<char>, new: Seq<char>)
    requires
        groups_sorted(groups),
        all_rewrite(groups, old, new),
        e.1 == old,
        e.2 == new,
    ensures
        groups_sorted(group_insert(groups, path, e)),
        all_rewrite(group_insert(groups, path, e), old, new),
        total_edits(group_insert(groups, path, e)) == total_edits(groups) + 1,
{
    lemma_lower_bound(groups, path);
    let i = lower_bound(groups, path);
    let r = group_insert(groups, path, e);
    if 0 <= i < groups.len() && groups[i].0 == path {
        lemma_insert_by_start(groups[i].1, e);
        let g = insert_by_start(groups[i].1, e);
        assert(r == groups.update(i, (path, g)));
        assert forall|a: int, b: int| 0 <= a < b < r.len() implies path_less(#[trigger] r[a].0, #[trigger] r[b].0) by {
            assert(r[a].0 == groups[a].0 && r[b].0 == groups[b].0);
        }
        assert forall|a: int| 0 <= a < r.len() implies starts_increase(#[trigger] r[a].1) && r[a].1.len() > 0 by {
            if a != i {
                assert(r[a] == groups[a]);
            }
        }
        assert forall|a: int, b: int| 0 <= a < r.len() && 0 <= b < r[a].1.len() implies (#[trigger] r[a].1[b]).1
            == old && r[a].1[b].2 == new by {
            if a != i {
                assert(r[a] == groups[a]);
            } else {
                if r[a].1[b] != e {
                    let x = r[a].1[b];
                    assert(groups[i].1.contains(x));
                    let c = choose|c: int| 0 <= c < groups[i].1.len() && groups[i].1[c] == x;
                    assert(groups[i].1[c].1 == old);
                }
            }
        }
        lemma_total_update(groups, i, (path, g));
    } else {
        if i < groups.len() {
            crate::chars::lemma_path_less_trichotomy(groups[i].0, path);
        }
        assert forall|a: int, b: int| 0 <= a < b < r.len() implies path_less(#[trigger] r[a].0, #[trigger] r[b].0) by {
            if a < i && b < i {
                assert(r[a] == groups[a] && r[b] == groups[b]);
            } else if a < i && b == i {
                assert(r[a] == groups[a]);
            } else if a < i {
                assert(r[a] == groups[a] && r[b] == groups[b - 1]);
                assert(path_less(groups[a].0, groups[b - 1].0));
            } else if a == i {
                assert(r[b] == groups[b - 1]);
                assert(!path_less(groups[b - 1].0, path));
                crate::chars::lemma_path_less_trichotomy(groups[b - 1].0, path);
                if b - 1 > i {
                    assert(path_less(groups[i].0, groups[b - 1].0));
                    if groups[b - 1].0 == path {
                        assert(path_less(groups[i].0, path));
                    }
                }
            } else {
                assert(r[a] == groups[a - 1] && r[b] == groups[b - 1]);
            }
        }
        assert forall|a: int| 0 <= a < r.len() implies starts_increase(#[trigger] r[a].1) && r[a].1.len() > 0 by {
            if a < i {
                assert(r[a] == groups[a]);
            } else if a > i {
                assert(r[a] == groups[a - 1]);
            }
        }
        assert forall|a: int, b: int| 0 <= a < r.len() && 0 <= b < r[a].1.len() implies (#[trigger] r[a].1[b]).1
            == old && r[a].1[b].2 == new by {
            if a < i {
                assert(r[a] == groups[a]);
            } else if a > i {
                assert(r[a] == groups[a - 1]);
            }
        }
        lemma_total_insert(groups, i, (path, seq![e]));
    }
}

proof fn lemma_total_update(groups: Seq<(Seq<char>, Seq<EditView>)>, i: int, g: (Seq<char>, Seq<EditView>))
    requires
        0 <= i < groups.len(),
    ensures
        total_edits(groups.update(i, g)) == total_edits(groups) - groups[i].1.len() + g.1.len(),
    decreases groups.len(),
{
    let n = groups.len() - 1;
    if i == n {
        assert(groups.update(i, g).drop_last() =~= groups.drop_last());
    } else {
        lemma_total_update(groups.drop_last(), i, g);
        assert(groups.update(i, g).drop_last() =~= groups.drop_last().update(i, g));
    }
}

proof fn lemma_total_insert(groups: Seq<(Seq<char>, Seq<EditView>)>, i: int, g: (Seq<char>, Seq<EditView>))
    requires
        0 <= i <= groups.len(),
    ensures
        total_edits(groups.insert(i, g)) == total_edits(groups) + g.1.len(),
    decreases groups.len(),
{
    if i == groups.len() {
        assert(groups.insert(i, g).drop_last() =~= groups);
    } else {
        lemma_total_insert(groups.drop_last(), i, g);
        assert(groups.insert(i, g).drop_last() =~= groups.drop_last().insert(i, g));
        assert(groups.insert(i, g).last() == groups.last());
    }
}

/// Grouping keeps the groups sorted, keeps every edit, and rewrites only `old` to `new`.
proof fn lemma_grouped(planned: Seq<(Seq<char>, EditView)>, old: Seq<char>, new: Seq<char>)
    requires
        forall|k: int| 0 <= k < planned.len() ==> (#[trigger] planned[k]).1.1 == old && planned[k].1.2 == new,
    ensures
        groups_sorted(grouped(planned)),
        all_rewrite(grouped(planned), old, new),
        total_edits(grouped(planned)) == planned.len(),
    decreases planned.len(),
{
    if planned.len() > 0 {
        let init = planned.drop_last();
        assert forall|k: int| 0 <= k < init.len() implies (#[trigger] init[k]).1.1 == old && init[k].1.2 == new by {
            assert(init[k] == planned[k]);
        }
        lemma_grouped(init, old, new);
        assert(planned.last() == planned[planned.len() - 1]);
        lemma_group_insert(grouped(init), planned.last().0, planned.last().1, old, new);
    }
}

proof fn lemma_anchor_edits_rewrite(sites: Seq<AnchorSiteView>, old: Seq<char>, new: Seq<char>)
    ensures
        forall|k: int|
            0 <= k < anchor_edits(sites, old, new).len() ==> (#[trigger] anchor_edits(sites, old, new)[k]).1.1
                == old && anchor_edits(sites, old, new)[k].1.2 == new,
    decreases sites.len(),
{
    if sites.len() > 0 {
        lemma_anchor_edits_rewrite(sites.drop_last(), old, new);
        let before = anchor_edits(sites.drop_last(), old, new);
        let now = anchor_edits(sites, old, new);
        assert forall|k: int| 0 <= k < now.len() implies (#[trigger] now[k]).1.1 == old && now[k].1.2
            == new by {
            if k < before.len() {
                assert(now[k] == before[k]);
            }
        }
    }
}

proof fn lemma_ref_edits_rewrite(refs: Seq<RefSiteView>, old: Seq<char>, new: Seq<char>)
    ensures
        forall|k: int|
            0 <= k < ref_edits(refs, old, new).len() ==> (#[trigger] ref_edits(refs, old, new)[k]).1.1 == old
                && ref_edits(refs, old, new)[k].1.2 == new,
    decreases refs.len(),
{
    if refs.len() > 0 {
        lemma_ref_edits_rewrite(refs.drop_last(), old, new);
        let before = ref_edits(refs.drop_last(), old, new);
        let now = ref_edits(refs, old, new);
        assert forall|k: int| 0 <= k < now.len() implies (#[trigger] now[k]).1.1 == old && now[k].1.2
            == new by {
            if k < before.len() {
                assert(now[k] == before[k]);
            }
        }
    }
}

/// A rename plan rewrites only id bytes: every edit replaces the old id with the new one, the
/// files come in path order with each file's edits in start order, and there is exactly one edit
/// per anchor and reference site.
pub proof fn lemma_rename_plan_shape(index: (Seq<char>, Seq<FileView>), old: Seq<char>, new: Seq<char>)
    requires
        rename_verdict(index, old, new) is Ok,
    ensures
        ({
            let (groups, anchors, refs) = rename_verdict(index, old, new)->Ok_0;
            &&& all_rewrite(groups, old, new)
            &&& groups_sorted(groups)
            &&& total_edits(groups) == anchors + refs
        }),
{
    let (root, files) = index;
    let by_anchor = anchor_edits(all_anchor_sites(root, files), old, new);
    let by_ref = ref_edits(backrefs_of(root, files, anchor_target(root, old)), old, new);
    lemma_anchor_edits_rewrite(all_anchor_sites(root, files), old, new);
    lemma_ref_edits_rewrite(backrefs_of(root, files, anchor_target(root, old)), old, new);
    let planned = by_anchor + by_ref;
    assert forall|k: int| 0 <= k < planned.len() implies (#[trigger] planned[k]).1.1 == old && planned[k].1.2
        == new by {
        if k < by_anchor.len() {
            assert(planned[k] == by_anchor[k]);
        } else {
            assert(planned[k] == by_ref[k - by_anchor.len()]);
        }
    }
    lemma_grouped(planned, old, new);
}

} // verus!
