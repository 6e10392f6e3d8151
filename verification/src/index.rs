//! Per-root index of markers. Derived, in memory, never authoritative: `grep '@anchor\[id\]'`
//! finds the same thing.
use vstd::prelude::*;

use crate::chars::{less_path, less_text, path_less, text_less};
use crate::marker::lex::{MalformedSpec, MarkerSpec, malformed_view, markers_view};
use crate::marker::target::TargetView;
use crate::marker::{Alias, AnchorId, MalformedMarker, Marker, MarkerPayload, PayloadView, RefTarget};
use crate::root::{FilePath, RootName};
use crate::span::{ByteSpan, LineIndex};
use crate::text::{FileScan, RegionKind};

verus! {

broadcast use vstd::string::group_string_axioms;

/// Where a marker sits: which root, which file, which bytes.
#[derive(Debug, PartialEq, Eq, Hash, PartialOrd, Ord)]
pub struct Site {
    pub root: RootName,
    pub path: FilePath,
    pub span: ByteSpan,
    pub region: RegionKind,
}

/// A site with its names taken as text.
pub struct SiteView {
    pub root: Seq<char>,
    pub path: Seq<char>,
    pub span: (int, int),
    pub region: RegionKind,
}

impl View for Site {
    type V = SiteView;

    open spec fn view(&self) -> SiteView {
        SiteView {
            root: self.root@,
            path: self.path@,
            span: (self.span.start as int, self.span.end as int),
            region: self.region,
        }
    }
}

impl Clone for Site {
    fn clone(&self) -> (r: Self)
        ensures
            r@ == self@,
    {
        Site { root: self.root.clone(), path: self.path.clone(), span: self.span, region: self.region }
    }
}

pub open spec fn site_of(root: Seq<char>, path: Seq<char>, span: (int, int), region: RegionKind) -> SiteView {
    SiteView { root, path, span, region }
}

fn site(root: &RootName, path: &FilePath, span: ByteSpan, region: RegionKind) -> (r: Site)
    ensures
        r@ == site_of(root@, path@, (span.start as int, span.end as int), region),
{
    Site { root: root.clone(), path: path.clone(), span, region }
}

/// `f` applied to every marker of `markers` that it keeps, in order.
pub open spec fn over_markers<T>(markers: Seq<MarkerSpec>, f: spec_fn(MarkerSpec) -> Option<T>) -> Seq<T>
    decreases markers.len(),
{
    if markers.len() == 0 {
        Seq::empty()
    } else {
        let before = over_markers(markers.drop_last(), f);
        match f(markers.last()) {
            Some(x) => before.push(x),
            None => before,
        }
    }
}

pub proof fn lemma_over_markers_step<T>(markers: Seq<MarkerSpec>, f: spec_fn(MarkerSpec) -> Option<T>, i: int)
    requires
        0 <= i < markers.len(),
    ensures
        over_markers(markers.take(i + 1), f) == match f(markers[i]) {
            Some(x) => over_markers(markers.take(i), f).push(x),
            None => over_markers(markers.take(i), f),
        },
{
    assert(markers.take(i + 1).drop_last() =~= markers.take(i));
    assert(markers.take(i + 1).last() == markers[i]);
}

/// What a binding records: the declared target, the whole declaring marker, and the alias token.
pub struct BindingView {
    pub target: TargetView,
    pub declaration: (int, int),
    pub alias_span: (int, int),
}

/// The declaration a marker makes with `target as Alias`, if any: the alias and its binding.
pub open spec fn declaration_of(marker: MarkerSpec) -> Option<(Seq<char>, BindingView)> {
    match marker.payload {
        PayloadView::Ref { target, alias: Some((name, alias_span)), .. } => Some(
            (name, BindingView { target, declaration: marker.span, alias_span }),
        ),
        _ => None,
    }
}

/// Every alias declaration of a file, in file order.
pub open spec fn declarations(markers: Seq<MarkerSpec>) -> Seq<(Seq<char>, BindingView)> {
    over_markers(markers, |m: MarkerSpec| declaration_of(m))
}

/// Index of the first declaration of `name`, or -1.
pub open spec fn first_declaration(decls: Seq<(Seq<char>, BindingView)>, name: Seq<char>) -> int
    decreases decls.len(),
{
    if decls.len() == 0 {
        -1
    } else {
        let before = first_declaration(decls.drop_last(), name);
        if before >= 0 {
            before
        } else if decls.last().0 == name {
            decls.len() - 1
        } else {
            -1
        }
    }
}

pub proof fn lemma_first_declaration(decls: Seq<(Seq<char>, BindingView)>, name: Seq<char>)
    ensures
        -1 <= first_declaration(decls, name) < decls.len(),
        first_declaration(decls, name) >= 0 ==> decls[first_declaration(decls, name)].0 == name,
        forall|j: int|
            0 <= j < decls.len() && (first_declaration(decls, name) == -1 || j < first_declaration(
                decls,
                name,
            )) ==> (#[trigger] decls[j]).0 != name,
    decreases decls.len(),
{
    if decls.len() > 0 {
        let init = decls.drop_last();
        lemma_first_declaration(init, name);
        assert forall|j: int|
            0 <= j < decls.len() && (first_declaration(decls, name) == -1 || j < first_declaration(
                decls,
                name,
            )) implies (#[trigger] decls[j]).0 != name by {
            if j < decls.len() - 1 {
                assert(decls[j] == init[j]);
            }
        }
    }
}

/// The binding of `name`: its first declaration wins.
pub open spec fn binding_of(decls: Seq<(Seq<char>, BindingView)>, name: Seq<char>) -> Option<BindingView> {
    let i = first_declaration(decls, name);
    if i >= 0 {
        Some(decls[i].1)
    } else {
        None
    }
}

/// The spans of every declaration of `name`, in file order.
pub open spec fn declaration_spans(decls: Seq<(Seq<char>, BindingView)>, name: Seq<char>) -> Seq<(int, int)>
    decreases decls.len(),
{
    if decls.len() == 0 {
        Seq::empty()
    } else {
        let before = declaration_spans(decls.drop_last(), name);
        if decls.last().0 == name {
            before.push(decls.last().1.declaration)
        } else {
            before
        }
    }
}

#[derive(Debug, Clone, PartialEq, Eq)]
pub struct AliasBinding {
    pub target: RefTarget,
    /// The whole declaring marker.
    pub declaration: ByteSpan,
    /// The alias token inside it, which an alias rename rewrites.
    pub alias_span: ByteSpan,
}

impl View for AliasBinding {
    type V = BindingView;

    open spec fn view(&self) -> BindingView {
        BindingView {
            target: self.target@,
            declaration: (self.declaration.start as int, self.declaration.end as int),
            alias_span: (self.alias_span.start as int, self.alias_span.end as int),
        }
    }
}

/// The aliases one file declares, built from that file's markers alone. The first declaration
/// of a name wins the binding; every later one is a duplicate.
#[derive(Debug)]
pub struct AliasTable {
    /// Every declaration, in file order.
    decls: Vec<(Alias, AliasBinding)>,
}

pub open spec fn decls_view(decls: Seq<(Alias, AliasBinding)>) -> Seq<(Seq<char>, BindingView)> {
    decls.map_values(|d: (Alias, AliasBinding)| (d.0@, d.1@))
}

impl View for AliasTable {
    type V = Seq<(Seq<char>, BindingView)>;

    closed spec fn view(&self) -> Seq<(Seq<char>, BindingView)> {
        decls_view(self.decls@)
    }
}

impl AliasTable {
    pub fn from_markers(markers: &Vec<Marker>) -> (table: Self)
        ensures
            table@ == declarations(markers_view(markers@)),
    {
        let ghost mv = markers_view(markers@);
        let mut decls: Vec<(Alias, AliasBinding)> = Vec::new();
        let mut i: usize = 0;
        while i < markers.len()
            invariant
                i <= markers@.len(),
                mv == markers_view(markers@),
                decls_view(decls@) == declarations(mv.take(i as int)),
            decreases markers.len() - i,
        {
            proof {
                lemma_over_markers_step(mv, |m: MarkerSpec| declaration_of(m), i as int);
            }
            let marker = &markers[i];
            assert(mv[i as int] == marker@);
            let ghost before = decls_view(decls@);
            match &marker.payload {
                MarkerPayload::Ref { target, alias: Some(declared), .. } => {
                    decls.push(
                        (
                            declared.alias.clone(),
                            AliasBinding {
                                target: target.clone(),
                                declaration: marker.span,
                                alias_span: declared.span,
                            },
                        ),
                    );
                    assert(decls_view(decls@) =~= before.push(decls_view(decls@).last()));
                },
                _ => {},
            }
            i += 1;
        }
        assert(mv.take(i as int) =~= mv);
        AliasTable { decls }
    }

    pub fn binding(&self, alias: &Alias) -> (r: Option<&AliasBinding>)
        ensures
            match binding_of(self@, alias@) {
                Some(b) => r matches Some(x) && x@ == b,
                None => r is None,
            },
    {
        let ghost dv = self@;
        proof {
            lemma_first_declaration(dv, alias@);
        }
        let mut i: usize = 0;
        while i < self.decls.len()
            invariant
                i <= self.decls@.len(),
                dv == decls_view(self.decls@),
                forall|j: int|
                    0 <= j < dv.len() && (first_declaration(dv, alias@) == -1 || j
                        < first_declaration(dv, alias@)) ==> (#[trigger] dv[j]).0 != alias@,
                -1 <= first_declaration(dv, alias@) < dv.len(),
                first_declaration(dv, alias@) >= 0 ==> dv[first_declaration(dv, alias@)].0
                    == alias@,
                forall|j: int| 0 <= j < i ==> (#[trigger] dv[j]).0 != alias@,
            decreases self.decls.len() - i,
        {
            assert(dv[i as int] == (self.decls@[i as int].0@, self.decls@[i as int].1@));
            if self.decls[i].0.same(alias) {
                assert(first_declaration(dv, alias@) == i);
                return Some(&self.decls[i].1);
            }
            i += 1;
        }
        None
    }
}

#[derive(Debug)]
pub struct FileRecord {
    pub markers: Vec<Marker>,
    pub malformed: Vec<MalformedMarker>,
    pub line_index: LineIndex,
    pub aliases: AliasTable,
}

/// A file as the index knows it: its path, markers and malformed markers.
pub type FileView = (Seq<char>, Seq<MarkerSpec>, Seq<MalformedSpec>);

pub open spec fn file_view(path: FilePath, record: FileRecord) -> FileView {
    (path@, markers_view(record.markers@), malformed_view(record.malformed@))
}

/// A record is consistent when its alias table was built from its own markers and its line
/// index can answer for every byte of the file.
pub open spec fn record_ok(record: FileRecord) -> bool {
    &&& record.aliases@ == declarations(markers_view(record.markers@))
    &&& record.line_index.text_len_ok()
}

/// `f` applied to every file, the results concatenated in order.
pub open spec fn over_files<T>(files: Seq<FileView>, f: spec_fn(FileView) -> Seq<T>) -> Seq<T>
    decreases files.len(),
{
    if files.len() == 0 {
        Seq::empty()
    } else {
        over_files(files.drop_last(), f) + f(files.last())
    }
}

pub proof fn lemma_over_files_step<T>(files: Seq<FileView>, f: spec_fn(FileView) -> Seq<T>, i: int)
    requires
        0 <= i < files.len(),
    ensures
        over_files(files.take(i + 1), f) == over_files(files.take(i), f) + f(files[i]),
{
    assert(files.take(i + 1).drop_last() =~= files.take(i));
    assert(files.take(i + 1).last() == files[i]);
}

/// The anchor a marker declares, with its site.
pub open spec fn anchor_entry(root: Seq<char>, path: Seq<char>, m: MarkerSpec) -> Option<
    (Seq<char>, SiteView),
> {
    match m.payload {
        PayloadView::Anchor { id } => Some((id, site_of(root, path, m.span, m.region))),
        _ => None,
    }
}

/// Every anchor a file declares, in file order.
pub open spec fn file_anchors(root: Seq<char>, file: FileView) -> Seq<(Seq<char>, SiteView)> {
    over_markers(file.1, |m: MarkerSpec| anchor_entry(root, file.0, m))
}

/// Every anchor of the root, file by file.
pub open spec fn all_anchors(root: Seq<char>, files: Seq<FileView>) -> Seq<(Seq<char>, SiteView)> {
    over_files(files, |f: FileView| file_anchors(root, f))
}

/// The sites of the anchors named `id`.
pub open spec fn sites_named(anchors: Seq<(Seq<char>, SiteView)>, id: Seq<char>) -> Seq<SiteView>
    decreases anchors.len(),
{
    if anchors.len() == 0 {
        Seq::empty()
    } else {
        let before = sites_named(anchors.drop_last(), id);
        if anchors.last().0 == id {
            before.push(anchors.last().1)
        } else {
            before
        }
    }
}

pub open spec fn anchors_view(anchors: Seq<(AnchorId, Site)>) -> Seq<(Seq<char>, SiteView)> {
    anchors.map_values(|a: (AnchorId, Site)| (a.0@, a.1@))
}

pub open spec fn files_view(files: Seq<(FilePath, FileRecord)>) -> Seq<FileView> {
    files.map_values(|f: (FilePath, FileRecord)| file_view(f.0, f.1))
}

/// Whether no path occurs twice.
pub open spec fn distinct_paths(files: Seq<FileView>) -> bool {
    forall|i: int, j: int| 0 <= i < j < files.len() ==> (#[trigger] files[i]).0 != (#[trigger] files[j]).0
}

/// `files` is the single owner of marker data; the anchor list is re-derived for a file on
/// every update so the two cannot drift.
#[derive(Debug)]
pub struct Index {
    root: RootName,
    files: Vec<(FilePath, FileRecord)>,
    anchors: Vec<(AnchorId, Site)>,
}

impl View for Index {
    /// The root's name and its files in the order they were indexed.
    type V = (Seq<char>, Seq<FileView>);

    closed spec fn view(&self) -> (Seq<char>, Seq<FileView>) {
        (self.root@, files_view(self.files@))
    }
}

impl Index {
    #[verifier::type_invariant]
    closed spec fn consistent(&self) -> bool {
        &&& distinct_paths(files_view(self.files@))
        &&& forall|i: int| 0 <= i < self.files@.len() ==> record_ok(#[trigger] self.files@[i].1)
        &&& anchors_view(self.anchors@) == all_anchors(self.root@, files_view(self.files@))
    }

    pub fn new(root: RootName) -> (index: Self)
        ensures
            index@.0 == root@,
            index@.1.len() == 0,
    {
        let files: Vec<(FilePath, FileRecord)> = Vec::new();
        let anchors: Vec<(AnchorId, Site)> = Vec::new();
        assert(files_view(files@) =~= Seq::<FileView>::empty());
        assert(anchors_view(anchors@) =~= Seq::<(Seq<char>, SiteView)>::empty());
        Index { root, files, anchors }
    }

    pub fn root(&self) -> (r: &RootName)
        ensures
            r@ == self@.0,
    {
        &self.root
    }

    pub fn file_count(&self) -> (n: usize)
        ensures
            n == self@.1.len(),
    {
        self.files.len()
    }

    pub fn anchor_count(&self) -> (n: usize)
        ensures
            n == all_anchors(self@.0, self@.1).len(),
    {
        proof {
            use_type_invariant(self);
        }
        self.anchors.len()
    }

    /// The sites of every anchor named `id`.
    pub fn anchor_sites(&self, id: &AnchorId) -> (r: Vec<Site>)
        ensures
            r@.map_values(|s: Site| s@) == sites_named(all_anchors(self@.0, self@.1), id@),
    {
        proof {
            use_type_invariant(self);
        }
        let ghost av = anchors_view(self.anchors@);
        let mut out: Vec<Site> = Vec::new();
        let mut i: usize = 0;
        while i < self.anchors.len()
            invariant
                i <= self.anchors@.len(),
                av == anchors_view(self.anchors@),
                out@.map_values(|s: Site| s@) == sites_named(av.take(i as int), id@),
            decreases self.anchors.len() - i,
        {
            let ghost before = out@.map_values(|s: Site| s@);
            assert(av.take(i + 1).drop_last() =~= av.take(i as int));
            assert(av.take(i + 1).last() == av[i as int]);
            assert(av[i as int] == (self.anchors@[i as int].0@, self.anchors@[i as int].1@));
            if self.anchors[i].0.same(id) {
                out.push(self.anchors[i].1.clone());
                assert(out@.map_values(|s: Site| s@) =~= before.push(self.anchors@[i as int].1@));
            }
            i += 1;
        }
        assert(av.take(i as int) =~= av);
        out
    }

    /// Index of the file at `path` in the index, if it is indexed.
    fn position(&self, path: &FilePath) -> (r: Option<usize>)
        ensures
            match r {
                Some(i) => i < self@.1.len() && self@.1[i as int].0 == path@,
                None => forall|i: int| 0 <= i < self@.1.len() ==> (#[trigger] self@.1[i]).0 != path@,
            },
    {
        let ghost fv = self@.1;
        let mut i: usize = 0;
        while i < self.files.len()
            invariant
                i <= self.files@.len(),
                fv == files_view(self.files@),
                forall|j: int| 0 <= j < i ==> (#[trigger] fv[j]).0 != path@,
            decreases self.files.len() - i,
        {
            assert(fv[i as int].0 == self.files@[i as int].0@);
            if self.files[i].0.same(path) {
                return Some(i);
            }
            i += 1;
        }
        None
    }

    pub fn file_record(&self, path: &FilePath) -> (r: Option<&FileRecord>)
        ensures
            match files_with(self@.1, path@) {
                Some(f) => r matches Some(record) && f == (
                    path@,
                    markers_view(record.markers@),
                    malformed_view(record.malformed@),
                ) && record_ok(*record),
                None => r is None,
            },
    {
        proof {
            use_type_invariant(self);
        }
        match self.position(path) {
            Some(i) => {
                proof {
                    lemma_files_with_at(self@.1, path@, i as int);
                }
                assert(self@.1[i as int] == file_view(self.files@[i as int].0, self.files@[i as int].1));
                Some(&self.files[i].1)
            },
            None => {
                proof {
                    lemma_files_with_absent(self@.1, path@);
                }
                None
            },
        }
    }

    /// The text each file's line index was built from, in file order.
    pub closed spec fn line_texts(&self) -> Seq<Seq<char>> {
        self.files@.map_values(|f: (FilePath, FileRecord)| f.1.line_index@)
    }

    /// The text the line index of the file at `path` was built from, if the file is indexed.
    pub closed spec fn line_text(&self, path: Seq<char>) -> Option<Seq<char>> {
        text_with(self@.1, self.line_texts(), path)
    }

    pub fn line_index(&self, path: &FilePath) -> (r: Option<&LineIndex>)
        ensures
            r is Some == files_with(self@.1, path@) is Some,
            r matches Some(index) ==> index.text_len_ok(),
            match self.line_text(path@) {
                Some(t) => r matches Some(index) && index@ == t,
                None => r is None,
            },
    {
        proof {
            use_type_invariant(self);
        }
        match self.position(path) {
            Some(i) => {
                proof {
                    lemma_files_with_at(self@.1, path@, i as int);
                    lemma_text_with_at(self@.1, self.line_texts(), path@, i as int);
                }
                assert(self@.1[i as int] == file_view(self.files@[i as int].0, self.files@[i as int].1));
                assert(record_ok(self.files@[i as int].1));
                Some(&self.files[i].1.line_index)
            },
            None => {
                proof {
                    lemma_files_with_absent(self@.1, path@);
                    lemma_text_with_absent(self@.1, self.line_texts(), path@);
                }
                None
            },
        }
    }

    /// The paths of every indexed file, in index order.
    pub fn file_paths(&self) -> (r: Vec<&FilePath>)
        ensures
            r@.map_values(|p: &FilePath| p@) == self@.1.map_values(|f: FileView| f.0),
    {
        let ghost fv = self@.1;
        let mut out: Vec<&FilePath> = Vec::new();
        let mut i: usize = 0;
        while i < self.files.len()
            invariant
                i <= self.files@.len(),
                fv == files_view(self.files@),
                out@.map_values(|p: &FilePath| p@) == fv.take(i as int).map_values(|f: FileView| f.0),
            decreases self.files.len() - i,
        {
            let ghost before = out@.map_values(|p: &FilePath| p@);
            out.push(&self.files[i].0);
            assert(fv[i as int].0 == self.files@[i as int].0@);
            assert(out@.map_values(|p: &FilePath| p@) =~= before.push(fv[i as int].0));
            assert(fv.take(i + 1).map_values(|f: FileView| f.0) =~= fv.take(i as int).map_values(
                |f: FileView| f.0,
            ).push(fv[i as int].0));
            assert(out@.map_values(|p: &FilePath| p@) =~= fv.take(i + 1).map_values(|f: FileView| f.0));
            i += 1;
        }
        assert(fv.take(i as int) =~= fv);
        out
    }
}

/// The files other than the one at `path`, in order.
pub open spec fn files_without(files: Seq<FileView>, path: Seq<char>) -> Seq<FileView>
    decreases files.len(),
{
    if files.len() == 0 {
        Seq::empty()
    } else if files.last().0 == path {
        files_without(files.drop_last(), path)
    } else {
        files_without(files.drop_last(), path).push(files.last())
    }
}

/// The anchors whose site is not in the file at `path`, in order.
pub open spec fn anchors_without(anchors: Seq<(Seq<char>, SiteView)>, path: Seq<char>) -> Seq<
    (Seq<char>, SiteView),
>
    decreases anchors.len(),
{
    if anchors.len() == 0 {
        Seq::empty()
    } else if anchors.last().1.path == path {
        anchors_without(anchors.drop_last(), path)
    } else {
        anchors_without(anchors.drop_last(), path).push(anchors.last())
    }
}

proof fn lemma_anchors_without_concat(
    a: Seq<(Seq<char>, SiteView)>,
    b: Seq<(Seq<char>, SiteView)>,
    path: Seq<char>,
)
    ensures
        anchors_without(a + b, path) == anchors_without(a, path) + anchors_without(b, path),
    decreases b.len(),
{
    if b.len() == 0 {
        assert(a + b =~= a);
        assert(anchors_without(a, path) + anchors_without(b, path) =~= anchors_without(a, path));
    } else {
        assert((a + b).drop_last() =~= a + b.drop_last());
        assert((a + b).last() == b.last());
        lemma_anchors_without_concat(a, b.drop_last(), path);
        if b.last().1.path == path {
        } else {
            assert(anchors_without(a, path) + anchors_without(b.drop_last(), path).push(b.last())
                =~= (anchors_without(a, path) + anchors_without(b.drop_last(), path)).push(
                b.last(),
            ));
        }
    }
}

/// Dropping the anchors of `path` from a file's anchors leaves all of them, or none when the file
/// is at `path`.
proof fn lemma_file_anchors_without(root: Seq<char>, markers: Seq<MarkerSpec>, fpath: Seq<char>, path: Seq<char>)
    ensures
        anchors_without(over_markers(markers, |m: MarkerSpec| anchor_entry(root, fpath, m)), path)
            == if fpath == path {
            Seq::<(Seq<char>, SiteView)>::empty()
        } else {
            over_markers(markers, |m: MarkerSpec| anchor_entry(root, fpath, m))
        },
    decreases markers.len(),
{
    if markers.len() > 0 {
        let f = |m: MarkerSpec| anchor_entry(root, fpath, m);
        lemma_file_anchors_without(root, markers.drop_last(), fpath, path);
        let before = over_markers(markers.drop_last(), f);
        match f(markers.last()) {
            Some(x) => {
                assert(before.push(x).drop_last() =~= before);
                assert(before.push(x).last() == x);
                assert(x.1.path == fpath);
            },
            None => {},
        }
    }
}

/// Removing a file's anchors from the whole list is the list of the other files' anchors.
proof fn lemma_all_anchors_without(root: Seq<char>, files: Seq<FileView>, path: Seq<char>)
    ensures
        anchors_without(all_anchors(root, files), path) == all_anchors(root, files_without(files, path)),
    decreases files.len(),
{
    if files.len() > 0 {
        let init = files.drop_last();
        let f = files.last();
        lemma_all_anchors_without(root, init, path);
        lemma_anchors_without_concat(all_anchors(root, init), file_anchors(root, f), path);
        lemma_file_anchors_without(root, f.1, f.0, path);
        if f.0 == path {
            assert(anchors_without(all_anchors(root, init), path) + Seq::<(Seq<char>, SiteView)>::empty()
                =~= anchors_without(all_anchors(root, init), path));
        } else {
            assert(files_without(files, path).drop_last() =~= files_without(init, path));
        }
    }
}

/// With distinct paths, the files other than `path`'s are the files with its one entry removed.
proof fn lemma_files_without_remove(files: Seq<FileView>, path: Seq<char>, pos: int)
    requires
        distinct_paths(files),
        0 <= pos < files.len(),
        files[pos].0 == path,
    ensures
        files_without(files, path) == files.remove(pos),
    decreases files.len(),
{
    let init = files.drop_last();
    if pos == files.len() - 1 {
        lemma_files_without_absent(init, path);
        assert(files.remove(pos) =~= init);
    } else {
        assert(distinct_paths(init)) by {
            assert forall|i: int, j: int| 0 <= i < j < init.len() implies (#[trigger] init[i]).0
                != (#[trigger] init[j]).0 by {
                assert(init[i] == files[i] && init[j] == files[j]);
            }
        }
        assert(init[pos] == files[pos]);
        lemma_files_without_remove(init, path, pos);
        assert(files[pos].0 != files.last().0);
        assert(files.remove(pos) =~= init.remove(pos).push(files.last()));
    }
}

/// Without a file at `path`, there is nothing to remove.
proof fn lemma_files_without_absent(files: Seq<FileView>, path: Seq<char>)
    requires
        forall|i: int| 0 <= i < files.len() ==> (#[trigger] files[i]).0 != path,
    ensures
        files_without(files, path) == files,
    decreases files.len(),
{
    if files.len() > 0 {
        let init = files.drop_last();
        assert forall|i: int| 0 <= i < init.len() implies (#[trigger] init[i]).0 != path by {
            assert(init[i] == files[i]);
        }
        lemma_files_without_absent(init, path);
        assert(files.last() == files[files.len() - 1]);
        assert(init.push(files.last()) =~= files);
    }
}

impl Index {
    /// Drops the file at `path` and every anchor it declared. A path that is not indexed leaves
    /// the index as it was.
    pub fn remove_file(&mut self, path: &FilePath)
        ensures
            final(self)@.0 == old(self)@.0,
            final(self)@.1 == files_without(old(self)@.1, path@),
    {
        proof {
            use_type_invariant(&*self);
        }
        let pos = match self.position(path) {
            Some(pos) => pos,
            None => {
                proof {
                    lemma_files_without_absent(self@.1, path@);
                }
                return;
            },
        };
        let mut taken = Index::new(self.root.clone());
        std::mem::swap(self, &mut taken);
        proof {
            use_type_invariant(&taken);
        }
        let Index { root, mut files, anchors } = taken;
        let ghost old_files = files_view(files@);
        let ghost old_anchors = anchors_view(anchors@);
        proof {
            lemma_files_without_remove(old_files, path@, pos as int);
            lemma_all_anchors_without(root@, old_files, path@);
        }
        let kept = anchors_outside(&anchors, path);
        let _ = files.remove(pos);
        assert(files_view(files@) =~= old_files.remove(pos as int));
        proof {
            assert forall|i: int| 0 <= i < files@.len() implies record_ok(#[trigger] files@[i].1) by {
                if i < pos {
                    assert(files@[i] == old(self).files@[i]);
                } else {
                    assert(files@[i] == old(self).files@[i + 1]);
                }
            }
            let fv = files_view(files@);
            assert forall|i: int, j: int| 0 <= i < j < fv.len() implies (#[trigger] fv[i]).0
                != (#[trigger] fv[j]).0 by {
                let oi = if i < pos { i } else { i + 1 };
                let oj = if j < pos { j } else { j + 1 };
                assert(fv[i] == old_files[oi]);
                assert(fv[j] == old_files[oj]);
            }
        }
        *self = Index { root, files, anchors: kept };
    }

    /// Indexes `scan` as the contents of `path`, replacing what the file held before.
    pub fn update_file(&mut self, path: FilePath, scan: FileScan)
        requires
            scan.line_index.text_len_ok(),
        ensures
            final(self)@.0 == old(self)@.0,
            final(self)@.1 == files_without(old(self)@.1, path@).push(
                (path@, markers_view(scan.markers@), malformed_view(scan.malformed@)),
            ),
    {
        self.remove_file(&path);
        proof {
            use_type_invariant(&*self);
            lemma_files_without_absent_after(old(self)@.1, path@);
        }
        let FileScan { markers, malformed, line_index } = scan;
        let aliases = AliasTable::from_markers(&markers);
        let mut taken = Index::new(self.root.clone());
        std::mem::swap(self, &mut taken);
        proof {
            use_type_invariant(&taken);
        }
        let Index { root, mut files, mut anchors } = taken;
        let ghost old_vec = files@;
        let ghost old_files = files_view(files@);
        let ghost old_anchors = anchors_view(anchors@);
        assert(forall|i: int| 0 <= i < old_vec.len() ==> record_ok(#[trigger] old_vec[i].1));
        append_anchors(&mut anchors, &root, &path, &markers);
        let record = FileRecord { markers, malformed, line_index, aliases };
        let ghost new_file = file_view(path, record);
        files.push((path, record));
        proof {
            assert(files_view(files@) =~= old_files.push(new_file));
            assert(files_view(files@).drop_last() =~= old_files);
            assert forall|i: int| 0 <= i < files@.len() implies record_ok(#[trigger] files@[i].1) by {
                if i < files@.len() - 1 {
                    assert(files@[i] == old_vec[i]);
                }
            }
            let fv = files_view(files@);
            assert forall|i: int, j: int| 0 <= i < j < fv.len() implies (#[trigger] fv[i]).0
                != (#[trigger] fv[j]).0 by {
                if j == fv.len() - 1 {
                    assert(fv[i] == old_files[i]);
                } else {
                    assert(fv[i] == old_files[i]);
                    assert(fv[j] == old_files[j]);
                }
            }
        }
        *self = Index { root, files, anchors };
    }
}

/// After removing `path`, no file is at `path`.
proof fn lemma_files_without_absent_after(files: Seq<FileView>, path: Seq<char>)
    ensures
        forall|i: int|
            0 <= i < files_without(files, path).len() ==> (#[trigger] files_without(files, path)[i]).0
                != path,
    decreases files.len(),
{
    if files.len() > 0 {
        lemma_files_without_absent_after(files.drop_last(), path);
        let before = files_without(files.drop_last(), path);
        if files.last().0 != path {
            assert forall|i: int| 0 <= i < before.push(files.last()).len() implies (#[trigger] before.push(
                files.last(),
            )[i]).0 != path by {
                if i < before.len() {
                    assert(before.push(files.last())[i] == before[i]);
                }
            }
        }
    }
}

/// The entries of `anchors` outside the file at `path`.
fn anchors_outside(anchors: &Vec<(AnchorId, Site)>, path: &FilePath) -> (r: Vec<(AnchorId, Site)>)
    ensures
        anchors_view(r@) == anchors_without(anchors_view(anchors@), path@),
{
    let ghost av = anchors_view(anchors@);
    let mut out: Vec<(AnchorId, Site)> = Vec::new();
    let mut i: usize = 0;
    while i < anchors.len()
        invariant
            i <= anchors@.len(),
            av == anchors_view(anchors@),
            anchors_view(out@) == anchors_without(av.take(i as int), path@),
        decreases anchors.len() - i,
    {
        assert(av.take(i + 1).drop_last() =~= av.take(i as int));
        assert(av.take(i + 1).last() == av[i as int]);
        assert(av[i as int] == (anchors@[i as int].0@, anchors@[i as int].1@));
        let ghost before = anchors_view(out@);
        if !anchors[i].1.path.same(path) {
            out.push((anchors[i].0.clone(), anchors[i].1.clone()));
            assert(anchors_view(out@) =~= before.push(av[i as int]));
        }
        i += 1;
    }
    assert(av.take(i as int) =~= av);
    out
}

/// Appends the anchors `markers` declare in the file at `path`.
fn append_anchors(anchors: &mut Vec<(AnchorId, Site)>, root: &RootName, path: &FilePath, markers: &Vec<Marker>)
    ensures
        anchors_view(final(anchors)@) == anchors_view(old(anchors)@) + over_markers(
            markers_view(markers@),
            |m: MarkerSpec| anchor_entry(root@, path@, m),
        ),
{
    let ghost mv = markers_view(markers@);
    let ghost f = |m: MarkerSpec| anchor_entry(root@, path@, m);
    let ghost start = anchors_view(anchors@);
    let mut i: usize = 0;
    assert(start + over_markers(mv.take(0), f) =~= start);
    while i < markers.len()
        invariant
            i <= markers@.len(),
            mv == markers_view(markers@),
            f == (|m: MarkerSpec| anchor_entry(root@, path@, m)),
            anchors_view(anchors@) == start + over_markers(mv.take(i as int), f),
        decreases markers.len() - i,
    {
        proof {
            lemma_over_markers_step(mv, f, i as int);
        }
        let marker = &markers[i];
        assert(mv[i as int] == marker@);
        let ghost before = anchors_view(anchors@);
        match &marker.payload {
            MarkerPayload::Anchor { id } => {
                anchors.push((id.clone(), site(root, path, marker.span, marker.region)));
                assert(anchors_view(anchors@) =~= before.push(anchors_view(anchors@).last()));
            },
            _ => {},
        }
        i += 1;
    }
    assert(mv.take(i as int) =~= mv);
}

/// A reference and where it was written.
#[derive(Debug, Clone, PartialEq, Eq)]
pub struct RefSite<'a> {
    pub target: &'a RefTarget,
    /// Bytes a rename of the referenced anchor rewrites, when the target is an anchor.
    pub id_span: Option<ByteSpan>,
    /// The alias this reference declares, when written `target as Alias`.
    pub declares: Option<&'a Alias>,
    /// Set when this site is an `@[Alias]` use reached through its declaration.
    pub via: Option<&'a Alias>,
    pub site: Site,
}

pub struct RefSiteView {
    pub target: TargetView,
    pub id_span: Option<(int, int)>,
    pub declares: Option<Seq<char>>,
    pub via: Option<Seq<char>>,
    pub site: SiteView,
}

pub open spec fn alias_name(alias: Option<&Alias>) -> Option<Seq<char>> {
    match alias {
        Some(a) => Some(a@),
        None => None,
    }
}

impl<'a> View for RefSite<'a> {
    type V = RefSiteView;

    open spec fn view(&self) -> RefSiteView {
        RefSiteView {
            target: self.target@,
            id_span: crate::marker::target::span_view(self.id_span),
            declares: alias_name(self.declares),
            via: alias_name(self.via),
            site: self.site@,
        }
    }
}

/// The reference a marker makes, if any.
pub open spec fn ref_entry(root: Seq<char>, path: Seq<char>, m: MarkerSpec) -> Option<RefSiteView> {
    match m.payload {
        PayloadView::Ref { target, id_span, alias } => Some(
            RefSiteView {
                target,
                id_span,
                declares: match alias {
                    Some((name, _)) => Some(name),
                    None => None,
                },
                via: None,
                site: site_of(root, path, m.span, m.region),
            },
        ),
        _ => None,
    }
}

/// Every direct reference of the root, file by file.
pub open spec fn all_refs(root: Seq<char>, files: Seq<FileView>) -> Seq<RefSiteView> {
    over_files(files, |f: FileView| over_markers(f.1, |m: MarkerSpec| ref_entry(root, f.0, m)))
}

/// An `@[Alias]` and, when its file declares the alias, what it is bound to.
#[derive(Debug, Clone, PartialEq, Eq)]
pub struct AliasUse<'a> {
    pub alias: &'a Alias,
    pub binding: Option<&'a AliasBinding>,
    pub site: Site,
}

pub struct AliasUseView {
    pub alias: Seq<char>,
    pub binding: Option<BindingView>,
    pub site: SiteView,
}

impl<'a> View for AliasUse<'a> {
    type V = AliasUseView;

    open spec fn view(&self) -> AliasUseView {
        AliasUseView {
            alias: self.alias@,
            binding: match self.binding {
                Some(b) => Some(b@),
                None => None,
            },
            site: self.site@,
        }
    }
}

/// The alias use a marker makes, bound through the declarations `decls` of its file.
pub open spec fn use_entry(root: Seq<char>, path: Seq<char>, decls: Seq<(Seq<char>, BindingView)>, m: MarkerSpec) -> Option<
    AliasUseView,
> {
    match m.payload {
        PayloadView::Use { alias } => Some(
            AliasUseView {
                alias,
                binding: binding_of(decls, alias),
                site: site_of(root, path, m.span, m.region),
            },
        ),
        _ => None,
    }
}

/// Every alias use of the root, file by file.
pub open spec fn all_uses(root: Seq<char>, files: Seq<FileView>) -> Seq<AliasUseView> {
    over_files(
        files,
        |f: FileView| over_markers(f.1, |m: MarkerSpec| use_entry(root, f.0, declarations(f.1), m)),
    )
}

/// An anchor declaration and where it was written.
#[derive(Debug, Clone, PartialEq, Eq)]
pub struct AnchorSite<'a> {
    pub id: &'a AnchorId,
    /// The bytes holding the id, which a rename rewrites.
    pub id_span: ByteSpan,
    pub site: Site,
}

pub struct AnchorSiteView {
    pub id: Seq<char>,
    pub id_span: (int, int),
    pub site: SiteView,
}

impl<'a> View for AnchorSite<'a> {
    type V = AnchorSiteView;

    open spec fn view(&self) -> AnchorSiteView {
        AnchorSiteView {
            id: self.id@,
            id_span: (self.id_span.start as int, self.id_span.end as int),
            site: self.site@,
        }
    }
}

/// The anchor a marker declares, with the span of its id.
pub open spec fn anchor_site_entry(root: Seq<char>, path: Seq<char>, m: MarkerSpec) -> Option<AnchorSiteView> {
    match m.payload {
        PayloadView::Anchor { id } => Some(
            AnchorSiteView { id, id_span: m.body_span, site: site_of(root, path, m.span, m.region) },
        ),
        _ => None,
    }
}

pub open spec fn all_anchor_sites(root: Seq<char>, files: Seq<FileView>) -> Seq<AnchorSiteView> {
    over_files(files, |f: FileView| over_markers(f.1, |m: MarkerSpec| anchor_site_entry(root, f.0, m)))
}

#[derive(Debug, Clone, PartialEq, Eq)]
pub struct MalformedSite<'a> {
    pub malformed: &'a MalformedMarker,
    pub site: Site,
}

pub struct MalformedSiteView {
    pub malformed: MalformedSpec,
    pub site: SiteView,
}

impl<'a> View for MalformedSite<'a> {
    type V = MalformedSiteView;

    open spec fn view(&self) -> MalformedSiteView {
        MalformedSiteView { malformed: self.malformed@, site: self.site@ }
    }
}

/// The malformed markers of a file with their sites.
pub open spec fn file_malformed(root: Seq<char>, path: Seq<char>, malformed: Seq<MalformedSpec>) -> Seq<MalformedSiteView> {
    malformed.map_values(
        |m: MalformedSpec| MalformedSiteView { malformed: m, site: site_of(root, path, m.span, m.region) },
    )
}

pub open spec fn all_malformed(root: Seq<char>, files: Seq<FileView>) -> Seq<MalformedSiteView> {
    over_files(files, |f: FileView| file_malformed(root, f.0, f.2))
}

pub open spec fn refs_view<'a>(refs: Seq<RefSite<'a>>) -> Seq<RefSiteView> {
    refs.map_values(|r: RefSite<'a>| r@)
}

pub open spec fn uses_view<'a>(uses: Seq<AliasUse<'a>>) -> Seq<AliasUseView> {
    uses.map_values(|u: AliasUse<'a>| u@)
}

pub open spec fn anchor_sites_view<'a>(sites: Seq<AnchorSite<'a>>) -> Seq<AnchorSiteView> {
    sites.map_values(|a: AnchorSite<'a>| a@)
}

pub open spec fn malformed_sites_view<'a>(sites: Seq<MalformedSite<'a>>) -> Seq<MalformedSiteView> {
    sites.map_values(|m: MalformedSite<'a>| m@)
}

/// Appends the references `markers` make in the file at `path`.
fn push_refs<'a>(out: &mut Vec<RefSite<'a>>, root: &RootName, path: &FilePath, markers: &'a Vec<Marker>)
    ensures
        refs_view(final(out)@) == refs_view(old(out)@) + over_markers(
            markers_view(markers@),
            |m: MarkerSpec| ref_entry(root@, path@, m),
        ),
{
    let ghost mv = markers_view(markers@);
    let ghost f = |m: MarkerSpec| ref_entry(root@, path@, m);
    let ghost start = refs_view(out@);
    let mut j: usize = 0;
    assert(start + over_markers(mv.take(0), f) =~= start);
    while j < markers.len()
        invariant
            j <= markers@.len(),
            mv == markers_view(markers@),
            f == (|m: MarkerSpec| ref_entry(root@, path@, m)),
            refs_view(out@) == start + over_markers(mv.take(j as int), f),
        decreases markers.len() - j,
    {
        proof {
            lemma_over_markers_step(mv, f, j as int);
        }
        let marker = &markers[j];
        assert(mv[j as int] == marker@);
        let ghost before = refs_view(out@);
        match &marker.payload {
            MarkerPayload::Ref { target, id_span, alias } => {
                let declares = match alias {
                    Some(declared) => Some(&declared.alias),
                    None => None,
                };
                out.push(
                    RefSite {
                        target,
                        id_span: *id_span,
                        declares,
                        via: None,
                        site: site(root, path, marker.span, marker.region),
                    },
                );
                assert(refs_view(out@) =~= before.push(refs_view(out@).last()));
            },
            _ => {},
        }
        j += 1;
    }
    assert(mv.take(j as int) =~= mv);
}

/// Appends the alias uses `markers` make in the file at `path`, bound through `table`.
fn push_uses<'a>(
    out: &mut Vec<AliasUse<'a>>,
    root: &RootName,
    path: &FilePath,
    markers: &'a Vec<Marker>,
    table: &'a AliasTable,
)
    requires
        table@ == declarations(markers_view(markers@)),
    ensures
        uses_view(final(out)@) == uses_view(old(out)@) + over_markers(
            markers_view(markers@),
            |m: MarkerSpec| use_entry(root@, path@, declarations(markers_view(markers@)), m),
        ),
{
    let ghost mv = markers_view(markers@);
    let ghost f = |m: MarkerSpec| use_entry(root@, path@, declarations(markers_view(markers@)), m);
    let ghost start = uses_view(out@);
    let mut j: usize = 0;
    assert(start + over_markers(mv.take(0), f) =~= start);
    while j < markers.len()
        invariant
            j <= markers@.len(),
            mv == markers_view(markers@),
            table@ == declarations(mv),
            f == (|m: MarkerSpec| use_entry(root@, path@, declarations(markers_view(markers@)), m)),
            uses_view(out@) == start + over_markers(mv.take(j as int), f),
        decreases markers.len() - j,
    {
        proof {
            lemma_over_markers_step(mv, f, j as int);
        }
        let marker = &markers[j];
        assert(mv[j as int] == marker@);
        let ghost before = uses_view(out@);
        match &marker.payload {
            MarkerPayload::Use { alias } => {
                let binding = table.binding(alias);
                out.push(
                    AliasUse { alias, binding, site: site(root, path, marker.span, marker.region) },
                );
                assert(uses_view(out@) =~= before.push(uses_view(out@).last()));
            },
            _ => {},
        }
        j += 1;
    }
    assert(mv.take(j as int) =~= mv);
}

/// Appends the anchors `markers` declare in the file at `path`, with their id spans.
fn push_anchor_sites<'a>(out: &mut Vec<AnchorSite<'a>>, root: &RootName, path: &FilePath, markers: &'a Vec<Marker>)
    ensures
        anchor_sites_view(final(out)@) == anchor_sites_view(old(out)@) + over_markers(
            markers_view(markers@),
            |m: MarkerSpec| anchor_site_entry(root@, path@, m),
        ),
{
    let ghost mv = markers_view(markers@);
    let ghost f = |m: MarkerSpec| anchor_site_entry(root@, path@, m);
    let ghost start = anchor_sites_view(out@);
    let mut j: usize = 0;
    assert(start + over_markers(mv.take(0), f) =~= start);
    while j < markers.len()
        invariant
            j <= markers@.len(),
            mv == markers_view(markers@),
            f == (|m: MarkerSpec| anchor_site_entry(root@, path@, m)),
            anchor_sites_view(out@) == start + over_markers(mv.take(j as int), f),
        decreases markers.len() - j,
    {
        proof {
            lemma_over_markers_step(mv, f, j as int);
        }
        let marker = &markers[j];
        assert(mv[j as int] == marker@);
        let ghost before = anchor_sites_view(out@);
        match &marker.payload {
            MarkerPayload::Anchor { id } => {
                out.push(
                    AnchorSite {
                        id,
                        id_span: marker.body_span,
                        site: site(root, path, marker.span, marker.region),
                    },
                );
                assert(anchor_sites_view(out@) =~= before.push(anchor_sites_view(out@).last()));
            },
            _ => {},
        }
        j += 1;
    }
    assert(mv.take(j as int) =~= mv);
}

impl Index {
    pub fn refs(&self) -> (r: Vec<RefSite<'_>>)
        ensures
            refs_view(r@) == all_refs(self@.0, self@.1),
    {
        let ghost fv = self@.1;
        let ghost root = self@.0;
        let ghost g = |f: FileView| over_markers(f.1, |m: MarkerSpec| ref_entry(root, f.0, m));
        let mut out: Vec<RefSite<'_>> = Vec::new();
        let mut i: usize = 0;
        assert(refs_view(out@) =~= over_files(fv.take(0), g));
        while i < self.files.len()
            invariant
                i <= self.files@.len(),
                fv == files_view(self.files@),
                root == self.root@,
                g == (|f: FileView| over_markers(f.1, |m: MarkerSpec| ref_entry(root, f.0, m))),
                refs_view(out@) == over_files(fv.take(i as int), g),
            decreases self.files.len() - i,
        {
            proof {
                lemma_over_files_step(fv, g, i as int);
            }
            assert(fv[i as int] == file_view(self.files@[i as int].0, self.files@[i as int].1));
            push_refs(&mut out, &self.root, &self.files[i].0, &self.files[i].1.markers);
            i += 1;
        }
        assert(fv.take(i as int) =~= fv);
        out
    }

    /// Every `@[Alias]` in this root, bound when its file declares the alias.
    pub fn alias_uses(&self) -> (r: Vec<AliasUse<'_>>)
        ensures
            uses_view(r@) == all_uses(self@.0, self@.1),
    {
        proof {
            use_type_invariant(self);
        }
        let ghost fv = self@.1;
        let ghost root = self@.0;
        let ghost g = |f: FileView|
            over_markers(f.1, |m: MarkerSpec| use_entry(root, f.0, declarations(f.1), m));
        let mut out: Vec<AliasUse<'_>> = Vec::new();
        let mut i: usize = 0;
        assert(uses_view(out@) =~= over_files(fv.take(0), g));
        while i < self.files.len()
            invariant
                i <= self.files@.len(),
                fv == files_view(self.files@),
                root == self.root@,
                forall|k: int| 0 <= k < self.files@.len() ==> record_ok(#[trigger] self.files@[k].1),
                g == (|f: FileView|
                    over_markers(f.1, |m: MarkerSpec| use_entry(root, f.0, declarations(f.1), m))),
                uses_view(out@) == over_files(fv.take(i as int), g),
            decreases self.files.len() - i,
        {
            proof {
                lemma_over_files_step(fv, g, i as int);
            }
            assert(fv[i as int] == file_view(self.files@[i as int].0, self.files@[i as int].1));
            assert(record_ok(self.files@[i as int].1));
            push_uses(
                &mut out,
                &self.root,
                &self.files[i].0,
                &self.files[i].1.markers,
                &self.files[i].1.aliases,
            );
            i += 1;
        }
        assert(fv.take(i as int) =~= fv);
        out
    }

    pub fn anchors(&self) -> (r: Vec<AnchorSite<'_>>)
        ensures
            anchor_sites_view(r@) == all_anchor_sites(self@.0, self@.1),
    {
        let ghost fv = self@.1;
        let ghost root = self@.0;
        let ghost g = |f: FileView| over_markers(f.1, |m: MarkerSpec| anchor_site_entry(root, f.0, m));
        let mut out: Vec<AnchorSite<'_>> = Vec::new();
        let mut i: usize = 0;
        assert(anchor_sites_view(out@) =~= over_files(fv.take(0), g));
        while i < self.files.len()
            invariant
                i <= self.files@.len(),
                fv == files_view(self.files@),
                root == self.root@,
                g == (|f: FileView| over_markers(f.1, |m: MarkerSpec| anchor_site_entry(root, f.0, m))),
                anchor_sites_view(out@) == over_files(fv.take(i as int), g),
            decreases self.files.len() - i,
        {
            proof {
                lemma_over_files_step(fv, g, i as int);
            }
            assert(fv[i as int] == file_view(self.files@[i as int].0, self.files@[i as int].1));
            push_anchor_sites(&mut out, &self.root, &self.files[i].0, &self.files[i].1.markers);
            i += 1;
        }
        assert(fv.take(i as int) =~= fv);
        out
    }

    pub fn malformed(&self) -> (r: Vec<MalformedSite<'_>>)
        ensures
            malformed_sites_view(r@) == all_malformed(self@.0, self@.1),
    {
        let ghost fv = self@.1;
        let ghost root = self@.0;
        let ghost g = |f: FileView| file_malformed(root, f.0, f.2);
        let mut out: Vec<MalformedSite<'_>> = Vec::new();
        let mut i: usize = 0;
        assert(malformed_sites_view(out@) =~= over_files(fv.take(0), g));
        while i < self.files.len()
            invariant
                i <= self.files@.len(),
                fv == files_view(self.files@),
                root == self.root@,
                g == (|f: FileView| file_malformed(root, f.0, f.2)),
                malformed_sites_view(out@) == over_files(fv.take(i as int), g),
            decreases self.files.len() - i,
        {
            proof {
                lemma_over_files_step(fv, g, i as int);
            }
            assert(fv[i as int] == file_view(self.files@[i as int].0, self.files@[i as int].1));
            let path = &self.files[i].0;
            let record = &self.files[i].1;
            let ghost start = malformed_sites_view(out@);
            let ghost mv = malformed_view(record.malformed@);
            let mut j: usize = 0;
            assert(start + file_malformed(root, path@, mv.take(0)) =~= start);
            while j < record.malformed.len()
                invariant
                    j <= record.malformed@.len(),
                    mv == malformed_view(record.malformed@),
                    root == self.root@,
                    malformed_sites_view(out@) == start + file_malformed(root, path@, mv.take(j as int)),
                decreases record.malformed.len() - j,
            {
                let m = &record.malformed[j];
                assert(mv[j as int] == m@);
                let ghost before = malformed_sites_view(out@);
                out.push(MalformedSite { malformed: m, site: site(&self.root, path, m.span, m.region) });
                assert(malformed_sites_view(out@) =~= before.push(malformed_sites_view(out@).last()));
                assert(file_malformed(root, path@, mv.take(j + 1)) =~= file_malformed(root, path@, mv.take(j as int)).push(
                    malformed_sites_view(out@).last(),
                ));
                j += 1;
            }
            assert(mv.take(j as int) =~= mv);
            i += 1;
        }
        assert(fv.take(i as int) =~= fv);
        out
    }
}

/// The direct references among `refs` whose target, with the root made explicit, is `wanted`.
pub open spec fn refs_to(refs: Seq<RefSiteView>, root: Seq<char>, wanted: TargetView) -> Seq<RefSiteView>
    decreases refs.len(),
{
    if refs.len() == 0 {
        Seq::empty()
    } else if refs.last().target.resolved_in(root) == wanted {
        refs_to(refs.drop_last(), root, wanted).push(refs.last())
    } else {
        refs_to(refs.drop_last(), root, wanted)
    }
}

/// The alias uses among `uses` bound to a declaration of `wanted`, as references reached
/// through that declaration.
pub open spec fn uses_to(uses: Seq<AliasUseView>, root: Seq<char>, wanted: TargetView) -> Seq<RefSiteView>
    decreases uses.len(),
{
    if uses.len() == 0 {
        Seq::empty()
    } else {
        let before = uses_to(uses.drop_last(), root, wanted);
        let u = uses.last();
        match u.binding {
            Some(b) => if b.target.resolved_in(root) == wanted {
                before.push(
                    RefSiteView {
                        target: b.target,
                        id_span: None,
                        declares: None,
                        via: Some(u.alias),
                        site: u.site,
                    },
                )
            } else {
                before
            },
            None => before,
        }
    }
}

/// Every reference to `target` in the root, treating a bare target and one prefixed with the
/// root's own name as the same thing: direct references first, then alias uses through their
/// declarations.
pub open spec fn backrefs_of(root: Seq<char>, files: Seq<FileView>, target: TargetView) -> Seq<RefSiteView> {
    refs_to(all_refs(root, files), root, target.resolved_in(root)) + uses_to(
        all_uses(root, files),
        root,
        target.resolved_in(root),
    )
}

/// How many `@[name]` uses `markers` hold.
pub open spec fn use_count(markers: Seq<MarkerSpec>, name: Seq<char>) -> nat {
    over_markers(
        markers,
        |m: MarkerSpec|
            match m.payload {
                PayloadView::Use { alias } => if alias == name {
                    Some(())
                } else {
                    None
                },
                _ => None,
            },
    ).len()
}

impl Index {
    /// Every reference to `target`, treating a bare target and one prefixed with this root's own
    /// name as the same thing. Alias uses count through their declaration.
    pub fn backrefs<'a>(&'a self, target: &RefTarget) -> (r: Vec<RefSite<'a>>)
        ensures
            refs_view(r@) == backrefs_of(self@.0, self@.1, target@),
    {
        let ghost root = self@.0;
        let wanted = target.resolved_in(&self.root);
        let refs = self.refs();
        let ghost rv = refs_view(refs@);
        let mut out: Vec<RefSite<'a>> = Vec::new();
        let mut i: usize = 0;
        while i < refs.len()
            invariant
                i <= refs@.len(),
                rv == refs_view(refs@),
                root == self.root@,
                wanted@ == target@.resolved_in(root),
                refs_view(out@) == refs_to(rv.take(i as int), root, wanted@),
            decreases refs.len() - i,
        {
            assert(rv.take(i + 1).drop_last() =~= rv.take(i as int));
            assert(rv.take(i + 1).last() == rv[i as int]);
            assert(rv[i as int] == refs@[i as int]@);
            let ghost before = refs_view(out@);
            if refs[i].target.resolved_in(&self.root).same(&wanted) {
                let r = &refs[i];
                out.push(
                    RefSite {
                        target: r.target,
                        id_span: r.id_span,
                        declares: r.declares,
                        via: r.via,
                        site: r.site.clone(),
                    },
                );
                assert(refs_view(out@) =~= before.push(rv[i as int]));
            }
            i += 1;
        }
        assert(rv.take(i as int) =~= rv);
        let ghost direct = refs_view(out@);
        let uses = self.alias_uses();
        let ghost uv = uses_view(uses@);
        let mut k: usize = 0;
        assert(direct + uses_to(uv.take(0), root, wanted@) =~= direct);
        while k < uses.len()
            invariant
                k <= uses@.len(),
                uv == uses_view(uses@),
                root == self.root@,
                wanted@ == target@.resolved_in(root),
                refs_view(out@) == direct + uses_to(uv.take(k as int), root, wanted@),
            decreases uses.len() - k,
        {
            assert(uv.take(k + 1).drop_last() =~= uv.take(k as int));
            assert(uv.take(k + 1).last() == uv[k as int]);
            assert(uv[k as int] == uses@[k as int]@);
            let use_site = &uses[k];
            let ghost before = refs_view(out@);
            match use_site.binding {
                Some(binding) => {
                    if binding.target.resolved_in(&self.root).same(&wanted) {
                        out.push(
                            RefSite {
                                target: &binding.target,
                                id_span: None,
                                declares: None,
                                via: Some(use_site.alias),
                                site: use_site.site.clone(),
                            },
                        );
                        assert(refs_view(out@) =~= before.push(refs_view(out@).last()));
                    }
                },
                None => {},
            }
            k += 1;
        }
        assert(uv.take(k as int) =~= uv);
        out
    }

    /// How many `@[alias]` uses the file at `path` holds.
    pub fn alias_use_count(&self, path: &FilePath, alias: &Alias) -> (n: usize)
        ensures
            n == match files_with(self@.1, path@) {
                Some(f) => use_count(f.1, alias@),
                None => 0,
            },
    {
        proof {
            use_type_invariant(self);
        }
        let pos = match self.position(path) {
            Some(pos) => pos,
            None => {
                proof {
                    lemma_files_with_absent(self@.1, path@);
                }
                return 0;
            },
        };
        proof {
            lemma_files_with_at(self@.1, path@, pos as int);
        }
        let markers = &self.files[pos].1.markers;
        assert(self@.1[pos as int].1 == markers_view(markers@));
        count_uses(markers, alias)
    }
}

/// The file at `path`, if one is indexed.
pub open spec fn files_with(files: Seq<FileView>, path: Seq<char>) -> Option<FileView>
    decreases files.len(),
{
    if files.len() == 0 {
        None
    } else if files.last().0 == path {
        Some(files.last())
    } else {
        files_with(files.drop_last(), path)
    }
}

proof fn lemma_files_with_absent(files: Seq<FileView>, path: Seq<char>)
    requires
        forall|i: int| 0 <= i < files.len() ==> (#[trigger] files[i]).0 != path,
    ensures
        files_with(files, path) is None,
    decreases files.len(),
{
    if files.len() > 0 {
        let init = files.drop_last();
        assert forall|i: int| 0 <= i < init.len() implies (#[trigger] init[i]).0 != path by {
            assert(init[i] == files[i]);
        }
        lemma_files_with_absent(init, path);
        assert(files.last() == files[files.len() - 1]);
    }
}

proof fn lemma_files_with_at(files: Seq<FileView>, path: Seq<char>, pos: int)
    requires
        distinct_paths(files),
        0 <= pos < files.len(),
        files[pos].0 == path,
    ensures
        files_with(files, path) == Some(files[pos]),
    decreases files.len(),
{
    let init = files.drop_last();
    if pos == files.len() - 1 {
    } else {
        assert(files.last() == files[files.len() - 1]);
        assert(files[files.len() - 1].0 != files[pos].0);
        assert(distinct_paths(init)) by {
            assert forall|i: int, j: int| 0 <= i < j < init.len() implies (#[trigger] init[i]).0
                != (#[trigger] init[j]).0 by {
                assert(init[i] == files[i] && init[j] == files[j]);
            }
        }
        assert(init[pos] == files[pos]);
        lemma_files_with_at(init, path, pos);
    }
}

/// The text paired with the file at `path`, the last one when paths repeat.
pub open spec fn text_with(files: Seq<FileView>, texts: Seq<Seq<char>>, path: Seq<char>) -> Option<Seq<char>>
    decreases files.len(),
{
    if files.len() == 0 || texts.len() != files.len() {
        None
    } else if files.last().0 == path {
        Some(texts.last())
    } else {
        text_with(files.drop_last(), texts.drop_last(), path)
    }
}

proof fn lemma_text_with_absent(files: Seq<FileView>, texts: Seq<Seq<char>>, path: Seq<char>)
    requires
        forall|i: int| 0 <= i < files.len() ==> (#[trigger] files[i]).0 != path,
    ensures
        text_with(files, texts, path) is None,
    decreases files.len(),
{
    if files.len() > 0 && texts.len() == files.len() {
        let init = files.drop_last();
        assert forall|i: int| 0 <= i < init.len() implies (#[trigger] init[i]).0 != path by {
            assert(init[i] == files[i]);
        }
        lemma_text_with_absent(init, texts.drop_last(), path);
        assert(files.last() == files[files.len() - 1]);
    }
}

proof fn lemma_text_with_at(files: Seq<FileView>, texts: Seq<Seq<char>>, path: Seq<char>, pos: int)
    requires
        distinct_paths(files),
        texts.len() == files.len(),
        0 <= pos < files.len(),
        files[pos].0 == path,
    ensures
        text_with(files, texts, path) == Some(texts[pos]),
    decreases files.len(),
{
    let init = files.drop_last();
    if pos == files.len() - 1 {
    } else {
        assert(files.last() == files[files.len() - 1]);
        assert(files[files.len() - 1].0 != files[pos].0);
        assert(distinct_paths(init)) by {
            assert forall|i: int, j: int| 0 <= i < j < init.len() implies (#[trigger] init[i]).0
                != (#[trigger] init[j]).0 by {
                assert(init[i] == files[i] && init[j] == files[j]);
            }
        }
        assert(init[pos] == files[pos]);
        assert(texts.drop_last()[pos] == texts[pos]);
        lemma_text_with_at(init, texts.drop_last(), path, pos);
    }
}

/// `use_count`, counted.
fn count_uses(markers: &Vec<Marker>, alias: &Alias) -> (n: usize)
    ensures
        n == use_count(markers_view(markers@), alias@),
{
    let ghost mv = markers_view(markers@);
    let ghost f = |m: MarkerSpec|
        match m.payload {
            PayloadView::Use { alias: used } => if used == alias@ {
                Some(())
            } else {
                None
            },
            _ => None,
        };
    let mut n: usize = 0;
    let mut j: usize = 0;
    while j < markers.len()
        invariant
            j <= markers@.len(),
            mv == markers_view(markers@),
            f == (|m: MarkerSpec|
                match m.payload {
                    PayloadView::Use { alias: used } => if used == alias@ {
                        Some(())
                    } else {
                        None
                    },
                    _ => None,
                }),
            n == over_markers(mv.take(j as int), f).len(),
            n <= j,
        decreases markers.len() - j,
    {
        proof {
            lemma_over_markers_step(mv, f, j as int);
        }
        assert(mv[j as int] == markers@[j as int]@);
        match &markers[j].payload {
            MarkerPayload::Use { alias: used } => {
                if used.same(alias) {
                    n += 1;
                }
            },
            _ => {},
        }
        j += 1;
    }
    assert(mv.take(j as int) =~= mv);
    n
}

/// The declarations that are the first of their name, as indices into `decls`.
pub open spec fn is_first(decls: Seq<(Seq<char>, BindingView)>, i: int) -> bool {
    forall|j: int| 0 <= j < i ==> (#[trigger] decls[j]).0 != decls[i].0
}

/// Each declared name once, in the order of its first declaration.
pub open spec fn names_of(decls: Seq<(Seq<char>, BindingView)>) -> Seq<Seq<char>>
    decreases decls.len(),
{
    if decls.len() == 0 {
        Seq::empty()
    } else if is_first(decls, decls.len() - 1) {
        names_of(decls.drop_last()).push(decls.last().0)
    } else {
        names_of(decls.drop_last())
    }
}

/// Names declared more than once, with every declaring marker's span in file order.
pub open spec fn duplicates_of(decls: Seq<(Seq<char>, BindingView)>, upto: int) -> Seq<(Seq<char>, Seq<(int, int)>)>
    decreases upto,
{
    if upto <= 0 || upto > decls.len() {
        Seq::empty()
    } else {
        let before = duplicates_of(decls, upto - 1);
        let name = decls[upto - 1].0;
        if is_first(decls, upto - 1) && declaration_spans(decls, name).len() >= 2 {
            before.push((name, declaration_spans(decls, name)))
        } else {
            before
        }
    }
}

/// Whether `decls[i]` is the first declaration of its name, computed.
fn first_of_name(decls: &Vec<(Alias, AliasBinding)>, i: usize) -> (b: bool)
    requires
        i < decls@.len(),
    ensures
        b == is_first(decls_view(decls@), i as int),
{
    let ghost dv = decls_view(decls@);
    let mut j: usize = 0;
    while j < i
        invariant
            j <= i < decls@.len(),
            dv == decls_view(decls@),
            forall|k: int| 0 <= k < j ==> (#[trigger] dv[k]).0 != dv[i as int].0,
        decreases i - j,
    {
        assert(dv[j as int].0 == decls@[j as int].0@);
        assert(dv[i as int].0 == decls@[i as int].0@);
        if decls[j].0.same(&decls[i].0) {
            return false;
        }
        j += 1;
    }
    true
}

/// The spans of every declaration of `name`, collected.
fn spans_of_name(decls: &Vec<(Alias, AliasBinding)>, name: &Alias) -> (r: Vec<ByteSpan>)
    ensures
        r@.map_values(|s: ByteSpan| (s.start as int, s.end as int)) == declaration_spans(
            decls_view(decls@),
            name@,
        ),
{
    let ghost dv = decls_view(decls@);
    let mut out: Vec<ByteSpan> = Vec::new();
    let mut j: usize = 0;
    while j < decls.len()
        invariant
            j <= decls@.len(),
            dv == decls_view(decls@),
            out@.map_values(|s: ByteSpan| (s.start as int, s.end as int)) == declaration_spans(
                dv.take(j as int),
                name@,
            ),
        decreases decls.len() - j,
    {
        assert(dv.take(j + 1).drop_last() =~= dv.take(j as int));
        assert(dv.take(j + 1).last() == dv[j as int]);
        assert(dv[j as int] == (decls@[j as int].0@, decls@[j as int].1@));
        let ghost before = out@.map_values(|s: ByteSpan| (s.start as int, s.end as int));
        if decls[j].0.same(name) {
            out.push(decls[j].1.declaration);
            assert(out@.map_values(|s: ByteSpan| (s.start as int, s.end as int)) =~= before.push(
                dv[j as int].1.declaration,
            ));
        }
        j += 1;
    }
    assert(dv.take(j as int) =~= dv);
    out
}

impl AliasTable {
    /// Every declared alias once, in the order of its first declaration.
    pub fn aliases(&self) -> (r: Vec<&Alias>)
        ensures
            r@.map_values(|a: &Alias| a@) == names_of(self@),
    {
        let ghost dv = self@;
        let mut out: Vec<&Alias> = Vec::new();
        let mut i: usize = 0;
        while i < self.decls.len()
            invariant
                i <= self.decls@.len(),
                dv == decls_view(self.decls@),
                out@.map_values(|a: &Alias| a@) == names_of(dv.take(i as int)),
            decreases self.decls.len() - i,
        {
            let first = first_of_name(&self.decls, i);
            let ghost pre = dv.take(i + 1);
            assert(pre.drop_last() =~= dv.take(i as int));
            assert(pre.last() == dv[i as int]);
            assert(is_first(pre, i as int) == is_first(dv, i as int)) by {
                assert forall|j: int| 0 <= j < i implies pre[j] == dv[j] by {}
            }
            let ghost before = out@.map_values(|a: &Alias| a@);
            if first {
                out.push(&self.decls[i].0);
                assert(dv[i as int].0 == self.decls@[i as int].0@);
                assert(out@.map_values(|a: &Alias| a@) =~= before.push(dv[i as int].0));
            }
            i += 1;
        }
        assert(dv.take(i as int) =~= dv);
        out
    }

    /// Names declared more than once, with every declaring marker's span in file order.
    pub fn duplicates(&self) -> (r: Vec<(&Alias, Vec<ByteSpan>)>)
        ensures
            r@.map_values(
                |d: (&Alias, Vec<ByteSpan>)|
                    (d.0@, d.1@.map_values(|s: ByteSpan| (s.start as int, s.end as int))),
            ) == duplicates_of(self@, self@.len() as int),
    {
        let ghost dv = self@;
        let mut out: Vec<(&Alias, Vec<ByteSpan>)> = Vec::new();
        let mut i: usize = 0;
        while i < self.decls.len()
            invariant
                i <= self.decls@.len(),
                dv == decls_view(self.decls@),
                out@.map_values(
                    |d: (&Alias, Vec<ByteSpan>)|
                        (d.0@, d.1@.map_values(|s: ByteSpan| (s.start as int, s.end as int))),
                ) == duplicates_of(dv, i as int),
            decreases self.decls.len() - i,
        {
            let first = first_of_name(&self.decls, i);
            let ghost before = out@.map_values(
                |d: (&Alias, Vec<ByteSpan>)|
                    (d.0@, d.1@.map_values(|s: ByteSpan| (s.start as int, s.end as int))),
            );
            assert(dv[i as int].0 == self.decls@[i as int].0@);
            if first {
                let spans = spans_of_name(&self.decls, &self.decls[i].0);
                if spans.len() >= 2 {
                    let ghost sv = spans@.map_values(|s: ByteSpan| (s.start as int, s.end as int));
                    out.push((&self.decls[i].0, spans));
                    assert(out@.map_values(
                        |d: (&Alias, Vec<ByteSpan>)|
                            (d.0@, d.1@.map_values(|s: ByteSpan| (s.start as int, s.end as int))),
                    ) =~= before.push((dv[i as int].0, sv)));
                }
            }
            i += 1;
        }
        out
    }
}

/// The aliases a file declares and never uses, with their bindings, from the declarations
/// `decls.take(upto)`.
pub open spec fn unused_in(path: Seq<char>, markers: Seq<MarkerSpec>, decls: Seq<(Seq<char>, BindingView)>, upto: int) -> Seq<
    (Seq<char>, Seq<char>, BindingView),
>
    decreases upto,
{
    if upto <= 0 || upto > decls.len() {
        Seq::empty()
    } else {
        let before = unused_in(path, markers, decls, upto - 1);
        let (name, binding) = decls[upto - 1];
        if is_first(decls, upto - 1) && use_count(markers, name) == 0 {
            before.push((path, name, binding))
        } else {
            before
        }
    }
}

pub open spec fn all_unused(files: Seq<FileView>) -> Seq<(Seq<char>, Seq<char>, BindingView)> {
    over_files(
        files,
        |f: FileView| unused_in(f.0, f.1, declarations(f.1), declarations(f.1).len() as int),
    )
}

pub open spec fn unused_view<'a>(found: Seq<(&'a FilePath, &'a Alias, &'a AliasBinding)>) -> Seq<
    (Seq<char>, Seq<char>, BindingView),
> {
    found.map_values(|u: (&'a FilePath, &'a Alias, &'a AliasBinding)| (u.0@, u.1@, u.2@))
}

/// The region of the first marker at `span`; prose when no marker is there.
pub open spec fn region_at(markers: Seq<MarkerSpec>, span: (int, int)) -> RegionKind
    decreases markers.len(),
{
    if markers.len() == 0 {
        RegionKind::Prose
    } else if markers[0].span == span {
        markers[0].region
    } else {
        region_at(markers.drop_first(), span)
    }
}

/// A file's aliases declared more than once, each with the sites of its declarations.
pub open spec fn file_duplicate_aliases(root: Seq<char>, f: FileView) -> Seq<(Seq<char>, Seq<char>, Seq<SiteView>)> {
    let decls = declarations(f.1);
    duplicates_of(decls, decls.len() as int).map_values(
        |d: (Seq<char>, Seq<(int, int)>)|
            (f.0, d.0, d.1.map_values(|sp: (int, int)| site_of(root, f.0, sp, region_at(f.1, sp)))),
    )
}

/// Every alias declared more than once in its file, file by file.
pub open spec fn all_duplicate_aliases(root: Seq<char>, files: Seq<FileView>) -> Seq<(Seq<char>, Seq<char>, Seq<SiteView>)> {
    over_files(files, |f: FileView| file_duplicate_aliases(root, f))
}

/// The region of the marker at `span`, as `region_at` says.
fn region_of(markers: &Vec<Marker>, span: ByteSpan) -> (r: RegionKind)
    ensures
        r == region_at(markers_view(markers@), (span.start as int, span.end as int)),
{
    let ghost mv = markers_view(markers@);
    let ghost sp = (span.start as int, span.end as int);
    let mut i: usize = 0;
    assert(mv.skip(0) =~= mv);
    while i < markers.len()
        invariant
            i <= markers@.len(),
            mv == markers_view(markers@),
            sp == (span.start as int, span.end as int),
            region_at(mv, sp) == region_at(mv.skip(i as int), sp),
        decreases markers.len() - i,
    {
        let ghost rest = mv.skip(i as int);
        assert(rest.len() > 0);
        assert(rest[0] == markers@[i as int]@);
        assert(rest.drop_first() =~= mv.skip(i + 1));
        if markers[i].span.start == span.start && markers[i].span.end == span.end {
            assert(rest[0].span == sp);
            return markers[i].region;
        }
        assert(rest[0].span != sp);
        i += 1;
    }
    RegionKind::Prose
}

/// The duplicate-alias findings of one file, as views.
pub open spec fn duplicate_view<'a>(d: (&'a FilePath, &'a Alias, Vec<Site>)) -> (Seq<char>, Seq<char>, Seq<SiteView>) {
    (d.0@, d.1@, d.2@.map_values(|s: Site| s@))
}

impl Index {
    /// Every alias declared more than once in its file, with the sites of its declarations.
    pub fn duplicate_aliases(&self) -> (r: Vec<(&FilePath, &Alias, Vec<Site>)>)
        ensures
            r@.map_values(|d: (&FilePath, &Alias, Vec<Site>)| duplicate_view(d)) == all_duplicate_aliases(
                self@.0,
                self@.1,
            ),
    {
        proof {
            use_type_invariant(self);
        }
        let ghost fv = self@.1;
        let ghost root = self@.0;
        let ghost f = |f: FileView| file_duplicate_aliases(root, f);
        let mut out: Vec<(&FilePath, &Alias, Vec<Site>)> = Vec::new();
        let mut i: usize = 0;
        while i < self.files.len()
            invariant
                i <= self.files@.len(),
                fv == self@.1,
                root == self@.0,
                fv == files_view(self.files@),
                forall|j: int| 0 <= j < self.files@.len() ==> record_ok(#[trigger] self.files@[j].1),
                f == (|f: FileView| file_duplicate_aliases(root, f)),
                out@.map_values(|d: (&FilePath, &Alias, Vec<Site>)| duplicate_view(d)) == over_files(
                    fv.take(i as int),
                    f,
                ),
            decreases self.files.len() - i,
        {
            let path = &self.files[i].0;
            let record = &self.files[i].1;
            assert(fv[i as int] == file_view(self.files@[i as int].0, self.files@[i as int].1));
            assert(record_ok(self.files@[i as int].1));
            proof {
                lemma_over_files_step(fv, f, i as int);
            }
            let ghost mv = markers_view(record.markers@);
            let ghost decls = declarations(mv);
            let dups = record.aliases.duplicates();
            let ghost dv = duplicates_of(decls, decls.len() as int);
            let ghost before = out@.map_values(|d: (&FilePath, &Alias, Vec<Site>)| duplicate_view(d));
            let ghost want = file_duplicate_aliases(root, fv[i as int]);
            let mut j: usize = 0;
            while j < dups.len()
                invariant
                    j <= dups@.len(),
                    dups@.map_values(
                        |d: (&Alias, Vec<ByteSpan>)|
                            (d.0@, d.1@.map_values(|s: ByteSpan| (s.start as int, s.end as int))),
                    ) == dv,
                    want == dv.map_values(
                        |d: (Seq<char>, Seq<(int, int)>)|
                            (path@, d.0, d.1.map_values(|sp: (int, int)| site_of(root, path@, sp, region_at(mv, sp)))),
                    ),
                    mv == markers_view(record.markers@),
                    root == self.root@,
                    out@.map_values(|d: (&FilePath, &Alias, Vec<Site>)| duplicate_view(d)) == before
                        + want.take(j as int),
                decreases dups.len() - j,
            {
                let (alias, spans) = (dups[j].0, &dups[j].1);
                assert(dv[j as int].1 == spans@.map_values(|s: ByteSpan| (s.start as int, s.end as int)));
                let ghost spv = dv[j as int].1;
                let mut sites: Vec<Site> = Vec::new();
                let mut k: usize = 0;
                while k < spans.len()
                    invariant
                        k <= spans@.len(),
                        spv == spans@.map_values(|s: ByteSpan| (s.start as int, s.end as int)),
                        mv == markers_view(record.markers@),
                        root == self.root@,
                        sites@.map_values(|s: Site| s@) == spv.take(k as int).map_values(
                            |sp: (int, int)| site_of(root, path@, sp, region_at(mv, sp)),
                        ),
                    decreases spans.len() - k,
                {
                    let sp = spans[k];
                    let region = region_of(&record.markers, sp);
                    let ghost sb = sites@.map_values(|s: Site| s@);
                    let made = site(&self.root, path, sp, region);
                    let ghost mk = made@;
                    sites.push(made);
                    assert(spv[k as int] == (sp.start as int, sp.end as int));
                    assert(spv.take(k + 1) =~= spv.take(k as int).push(spv[k as int]));
                    assert(mk == site_of(root, path@, spv[k as int], region_at(mv, spv[k as int])));
                    assert(sites@.map_values(|s: Site| s@) =~= sb.push(mk));
                    assert(sites@.map_values(|s: Site| s@) =~= spv.take(k + 1).map_values(
                        |sp: (int, int)| site_of(root, path@, sp, region_at(mv, sp)),
                    ));
                    k += 1;
                }
                assert(spv.take(k as int) =~= spv);
                let ghost ob = out@.map_values(|d: (&FilePath, &Alias, Vec<Site>)| duplicate_view(d));
                out.push((path, alias, sites));
                assert(dv[j as int].0 == alias@);
                assert(out@.map_values(|d: (&FilePath, &Alias, Vec<Site>)| duplicate_view(d)) =~= ob.push(
                    want[j as int],
                ));
                assert(want.take(j + 1) =~= want.take(j as int).push(want[j as int]));
                j += 1;
            }
            assert(want.take(j as int) =~= want);
            i += 1;
        }
        assert(fv.take(i as int) =~= fv);
        out
    }
}

impl Index {
    /// Aliases a file declares and never uses, file by file.
    pub fn unused_aliases(&self) -> (r: Vec<(&FilePath, &Alias, &AliasBinding)>)
        ensures
            unused_view(r@) == all_unused(self@.1),
    {
        proof {
            use_type_invariant(self);
        }
        let ghost fv = self@.1;
        let ghost g = |f: FileView| unused_in(f.0, f.1, declarations(f.1), declarations(f.1).len() as int);
        let mut out: Vec<(&FilePath, &Alias, &AliasBinding)> = Vec::new();
        let mut i: usize = 0;
        assert(unused_view(out@) =~= over_files(fv.take(0), g));
        while i < self.files.len()
            invariant
                i <= self.files@.len(),
                fv == files_view(self.files@),
                forall|k: int| 0 <= k < self.files@.len() ==> record_ok(#[trigger] self.files@[k].1),
                g == (|f: FileView| unused_in(f.0, f.1, declarations(f.1), declarations(f.1).len() as int)),
                unused_view(out@) == over_files(fv.take(i as int), g),
            decreases self.files.len() - i,
        {
            proof {
                lemma_over_files_step(fv, g, i as int);
            }
            assert(fv[i as int] == file_view(self.files@[i as int].0, self.files@[i as int].1));
            assert(record_ok(self.files@[i as int].1));
            let path = &self.files[i].0;
            let record = &self.files[i].1;
            let decls = &record.aliases.decls;
            let ghost dv = decls_view(decls@);
            let ghost mv = markers_view(record.markers@);
            let ghost start = unused_view(out@);
            let mut j: usize = 0;
            assert(start + unused_in(path@, mv, dv, 0) =~= start);
            while j < decls.len()
                invariant
                    j <= decls@.len(),
                    dv == decls_view(decls@),
                    mv == markers_view(record.markers@),
                    unused_view(out@) == start + unused_in(path@, mv, dv, j as int),
                decreases decls.len() - j,
            {
                let first = first_of_name(decls, j);
                assert(dv[j as int] == (decls@[j as int].0@, decls@[j as int].1@));
                let ghost before = unused_view(out@);
                if first && count_uses(&record.markers, &decls[j].0) == 0 {
                    out.push((path, &decls[j].0, &decls[j].1));
                    assert(unused_view(out@) =~= before.push((path@, dv[j as int].0, dv[j as int].1)));
                }
                j += 1;
            }
            i += 1;
        }
        assert(fv.take(i as int) =~= fv);
        out
    }
}

/// The rank of a region kind in declaration order.
pub open spec fn region_rank(kind: RegionKind) -> int {
    match kind {
        RegionKind::Prose => 0,
        RegionKind::InlineCode => 1,
        RegionKind::Comment => 2,
        RegionKind::Whole => 3,
    }
}

/// Whether site `a` sorts before site `b`: by root, path, span start, span end, then region,
/// the order `Site`'s fields give.
pub open spec fn site_less(a: SiteView, b: SiteView) -> bool {
    if a.root != b.root {
        text_less(a.root, b.root)
    } else if a.path != b.path {
        path_less(a.path, b.path)
    } else if a.span.0 != b.span.0 {
        a.span.0 < b.span.0
    } else if a.span.1 != b.span.1 {
        a.span.1 < b.span.1
    } else {
        region_rank(a.region) < region_rank(b.region)
    }
}

/// Site order is asymmetric.
pub proof fn lemma_site_less_asymmetric(a: SiteView, b: SiteView)
    requires
        site_less(b, a),
    ensures
        !site_less(a, b),
        a != b,
{
    if a.root != b.root {
        crate::chars::lemma_text_less_asymmetric(b.root, a.root);
    } else if a.path != b.path {
        crate::chars::lemma_path_less_asymmetric(b.path, a.path);
    }
}

/// Two sites neither of which sorts before the other are the same site.
pub proof fn lemma_site_less_total(a: SiteView, b: SiteView)
    requires
        !site_less(a, b),
        !site_less(b, a),
    ensures
        a == b,
{
    if a.root != b.root {
        crate::chars::lemma_text_less_total(a.root, b.root);
    } else if a.path != b.path {
        crate::chars::lemma_path_less_total(a.path, b.path);
    } else {
        assert(a.region == b.region) by {
            assert(region_rank(a.region) == region_rank(b.region));
        }
    }
}

/// Site order is transitive.
pub proof fn lemma_site_less_transitive(a: SiteView, b: SiteView, c: SiteView)
    requires
        site_less(a, b),
        site_less(b, c),
    ensures
        site_less(a, c),
{
    if a.root != b.root || b.root != c.root {
        crate::chars::lemma_text_less_trichotomy(a.root, b.root);
        crate::chars::lemma_text_less_trichotomy(b.root, c.root);
        if a.root != b.root && b.root != c.root {
            crate::chars::lemma_text_less_transitive(a.root, b.root, c.root);
        }
        if a.root == c.root {
            crate::chars::lemma_text_less_asymmetric(a.root, b.root);
        }
    } else if a.path != b.path || b.path != c.path {
        if a.path != b.path && b.path != c.path {
            crate::chars::lemma_path_less_transitive(a.path, b.path, c.path);
        }
        if a.path == c.path {
            crate::chars::lemma_path_less_asymmetric(a.path, b.path);
        }
    }
}

fn rank(kind: RegionKind) -> (r: u8)
    ensures
        r == region_rank(kind),
{
    match kind {
        RegionKind::Prose => 0,
        RegionKind::InlineCode => 1,
        RegionKind::Comment => 2,
        RegionKind::Whole => 3,
    }
}

pub(crate) fn less_site(a: &Site, b: &Site) -> (r: bool)
    ensures
        r == site_less(a@, b@),
{
    if !a.root.same(&b.root) {
        less_text(a.root.as_str(), b.root.as_str())
    } else if !a.path.same(&b.path) {
        less_path(a.path.as_str(), b.path.as_str())
    } else if a.span.start != b.span.start {
        a.span.start < b.span.start
    } else if a.span.end != b.span.end {
        a.span.end < b.span.end
    } else {
        rank(a.region) < rank(b.region)
    }
}

/// Where the run of sites that `s` sorts before, at the end of `sites`, begins.
pub open spec fn later_sites(sites: Seq<SiteView>, s: SiteView) -> int
    decreases sites.len(),
{
    if sites.len() == 0 {
        0
    } else if site_less(s, sites.last()) {
        later_sites(sites.drop_last(), s)
    } else {
        sites.len() as int
    }
}

/// `sites` stably sorted, as successive insertions.
pub open spec fn sorted_sites(sites: Seq<SiteView>) -> Seq<SiteView>
    decreases sites.len(),
{
    if sites.len() == 0 {
        Seq::empty()
    } else {
        let before = sorted_sites(sites.drop_last());
        before.insert(later_sites(before, sites.last()), sites.last())
    }
}

fn insert_site(sites: &mut Vec<Site>, s: Site)
    ensures
        final(sites)@.map_values(|x: Site| x@) == old(sites)@.map_values(|x: Site| x@).insert(
            later_sites(old(sites)@.map_values(|x: Site| x@), s@),
            s@,
        ),
{
    let ghost sv = sites@.map_values(|x: Site| x@);
    let mut i: usize = sites.len();
    assert(sv.take(i as int) =~= sv);
    while i > 0 && less_site(&s, &sites[i - 1])
        invariant
            i <= sites@.len(),
            sv == sites@.map_values(|x: Site| x@),
            later_sites(sv, s@) == later_sites(sv.take(i as int), s@),
        decreases i,
    {
        assert(sv[i - 1] == sites@[i - 1]@);
        assert(sv.take(i as int).drop_last() =~= sv.take(i - 1));
        assert(sv.take(i as int).last() == sv[i - 1]);
        i -= 1;
    }
    if i > 0 {
        assert(sv[i - 1] == sites@[i - 1]@);
        assert(sv.take(i as int).last() == sv[i - 1]);
    }
    let ghost sview = s@;
    sites.insert(i, s);
    assert(sites@.map_values(|x: Site| x@) =~= sv.insert(i as int, sview));
}

/// Each anchor id once, in the order it first appears.
pub open spec fn ids_of(anchors: Seq<(Seq<char>, SiteView)>) -> Seq<Seq<char>>
    decreases anchors.len(),
{
    if anchors.len() == 0 {
        Seq::empty()
    } else if (forall|j: int| 0 <= j < anchors.len() - 1 ==> (#[trigger] anchors[j]).0 != anchors.last().0) {
        ids_of(anchors.drop_last()).push(anchors.last().0)
    } else {
        ids_of(anchors.drop_last())
    }
}

/// Anchor ids declared more than once, in the order they first appear, each with all its sites
/// sorted; from the anchors `anchors.take(upto)`.
pub open spec fn duplicate_anchors_of(anchors: Seq<(Seq<char>, SiteView)>, upto: int) -> Seq<
    (Seq<char>, Seq<SiteView>),
>
    decreases upto,
{
    if upto <= 0 || upto > anchors.len() {
        Seq::empty()
    } else {
        let before = duplicate_anchors_of(anchors, upto - 1);
        let id = anchors[upto - 1].0;
        let first = forall|j: int| 0 <= j < upto - 1 ==> (#[trigger] anchors[j]).0 != id;
        if first && sites_named(anchors, id).len() > 1 {
            before.push((id, sorted_sites(sites_named(anchors, id))))
        } else {
            before
        }
    }
}

impl Index {
    fn first_of_id(&self, i: usize) -> (b: bool)
        requires
            i < self.anchors@.len(),
        ensures
            b == forall|j: int|
                0 <= j < i ==> (#[trigger] anchors_view(self.anchors@)[j]).0 != anchors_view(
                    self.anchors@,
                )[i as int].0,
    {
        let ghost av = anchors_view(self.anchors@);
        let mut j: usize = 0;
        while j < i
            invariant
                j <= i < self.anchors@.len(),
                av == anchors_view(self.anchors@),
                forall|k: int| 0 <= k < j ==> (#[trigger] av[k]).0 != av[i as int].0,
            decreases i - j,
        {
            assert(av[j as int].0 == self.anchors@[j as int].0@);
            assert(av[i as int].0 == self.anchors@[i as int].0@);
            if self.anchors[j].0.same(&self.anchors[i].0) {
                return false;
            }
            j += 1;
        }
        true
    }

    /// Every anchor id once, in the order it first appears.
    pub fn anchor_ids(&self) -> (r: Vec<&AnchorId>)
        ensures
            r@.map_values(|id: &AnchorId| id@) == ids_of(all_anchors(self@.0, self@.1)),
    {
        proof {
            use_type_invariant(self);
        }
        let ghost av = anchors_view(self.anchors@);
        let mut out: Vec<&AnchorId> = Vec::new();
        let mut i: usize = 0;
        while i < self.anchors.len()
            invariant
                i <= self.anchors@.len(),
                av == anchors_view(self.anchors@),
                out@.map_values(|id: &AnchorId| id@) == ids_of(av.take(i as int)),
            decreases self.anchors.len() - i,
        {
            let first = self.first_of_id(i);
            let ghost pre = av.take(i + 1);
            assert(pre.drop_last() =~= av.take(i as int));
            assert(pre.last() == av[i as int]);
            assert((forall|j: int| 0 <= j < pre.len() - 1 ==> (#[trigger] pre[j]).0 != pre.last().0)
                == first) by {
                assert forall|j: int| 0 <= j < i implies pre[j] == av[j] by {}
            }
            let ghost before = out@.map_values(|id: &AnchorId| id@);
            if first {
                out.push(&self.anchors[i].0);
                assert(av[i as int].0 == self.anchors@[i as int].0@);
                assert(out@.map_values(|id: &AnchorId| id@) =~= before.push(av[i as int].0));
            }
            i += 1;
        }
        assert(av.take(i as int) =~= av);
        out
    }

    /// Anchor ids declared more than once in this root, with every site, sites sorted.
    pub fn duplicate_anchors(&self) -> (r: Vec<(&AnchorId, Vec<Site>)>)
        ensures
            r@.map_values(|d: (&AnchorId, Vec<Site>)| (d.0@, d.1@.map_values(|s: Site| s@)))
                == duplicate_anchors_of(all_anchors(self@.0, self@.1), all_anchors(self@.0, self@.1).len() as int),
    {
        proof {
            use_type_invariant(self);
        }
        let ghost av = anchors_view(self.anchors@);
        let mut out: Vec<(&AnchorId, Vec<Site>)> = Vec::new();
        let mut i: usize = 0;
        while i < self.anchors.len()
            invariant
                i <= self.anchors@.len(),
                av == anchors_view(self.anchors@),
                av == all_anchors(self@.0, self@.1),
                out@.map_values(|d: (&AnchorId, Vec<Site>)| (d.0@, d.1@.map_values(|s: Site| s@)))
                    == duplicate_anchors_of(av, i as int),
            decreases self.anchors.len() - i,
        {
            let first = self.first_of_id(i);
            assert(av[i as int].0 == self.anchors@[i as int].0@);
            let ghost before = out@.map_values(
                |d: (&AnchorId, Vec<Site>)| (d.0@, d.1@.map_values(|s: Site| s@)),
            );
            if first {
                let id = &self.anchors[i].0;
                let sites = self.anchor_sites(id);
                if sites.len() > 1 {
                    let ghost named = sites@.map_values(|s: Site| s@);
                    let sorted = sort_sites(sites);
                    let ghost sv = sorted@.map_values(|s: Site| s@);
                    out.push((id, sorted));
                    assert(out@.map_values(
                        |d: (&AnchorId, Vec<Site>)| (d.0@, d.1@.map_values(|s: Site| s@)),
                    ) =~= before.push((av[i as int].0, sv)));
                }
            }
            i += 1;
        }
        out
    }
}

/// `sorted_sites`, computed.
fn sort_sites(sites: Vec<Site>) -> (r: Vec<Site>)
    ensures
        r@.map_values(|s: Site| s@) == sorted_sites(sites@.map_values(|s: Site| s@)),
{
    let ghost orig = sites@.map_values(|s: Site| s@);
    let total = sites.len();
    let mut rest = sites;
    let mut out: Vec<Site> = Vec::new();
    let mut i: usize = 0;
    assert(orig.take(0) =~= Seq::<SiteView>::empty());
    while rest.len() > 0
        invariant
            orig.len() == total,
            i + rest@.len() == total,
            rest@.map_values(|s: Site| s@) == orig.skip(i as int),
            out@.map_values(|s: Site| s@) == sorted_sites(orig.take(i as int)),
        decreases rest.len(),
    {
        let ghost rv = rest@.map_values(|s: Site| s@);
        let ghost rs = rest@;
        let s = rest.remove(0);
        assert(s@ == rv[0]);
        assert(orig[i as int] == rv[0]);
        let ghost pre = orig.take(i + 1);
        assert(pre.drop_last() =~= orig.take(i as int));
        assert(pre.last() == orig[i as int]);
        insert_site(&mut out, s);
        proof {
            assert(rest@ =~= rs.subrange(1, rs.len() as int));
            let nv = rest@.map_values(|s: Site| s@);
            assert forall|j: int| 0 <= j < nv.len() implies
                #[trigger] nv[j] == orig.skip(i + 1)[j] by {
                assert(rest@[j] == rs[j + 1]);
                assert(rv[j + 1] == orig.skip(i as int)[j + 1]);
            }
        }
        i += 1;
        assert(rest@.map_values(|s: Site| s@) =~= orig.skip(i as int));
    }
    assert(orig.take(i as int) =~= orig);
    out
}

} // verus!
