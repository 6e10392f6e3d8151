//! What an `@ref[...]` body points at, and its parser.
//!
//! ```text
//! ref      := target [ws "as" ws alias]
//! target   := [root ":"] body
//! body     := "#" anchor_id | rel_path "#" symbol_name | rel_path ["/"]
//! rel_path := bare_path | "./" bare_path | ("../")+ bare_path
//! ```
//!
//! A bare path is root-relative; `./` and `../` are relative to the file the marker is written
//! in and are anchored at parse time, so every `RelPath` here is root-relative.
use vstd::prelude::*;
use crate::chars::same_text;
use crate::chars::{push_text};
use crate::marker::alias::alias_message;
use crate::marker::id::id_message;
use crate::marker::path::path_message;
use crate::marker::symbol::symbol_message;
use crate::root::root_name_message;

use crate::chars::{
    all_chars, byte_len, byte_offsets, find_first, first_index_of, has_whitespace,
    is_unicode_whitespace, lemma_byte_len_subrange, lemma_first_index_of, str_byte_len, to_chars,
    unicode_whitespace, whitespace_tokens, ws_tokens, contains_whitespace,
};
use crate::marker::alias::{alias_verdict, Alias, AliasError};
use crate::marker::id::{id_verdict, AnchorId, IdError, IdFault};
use crate::marker::path::{
    anchored_verdict, is_file_relative, is_file_relative_spec, path_verdict, PathError,
    PathExpectation, RelPath,
};
use crate::marker::symbol::{symbol_verdict, SymbolError, SymbolFault, SymbolName};
use crate::root::{
    directory_of, is_root_name_char, root_name_char, root_name_pred, root_name_verdict, FilePath,
    RootName, RootNameError,
};
use crate::span::ByteSpan;

verus! {

broadcast use vstd::string::group_string_axioms;

/// What an `@ref[...]` body points at.
#[derive(Debug, PartialEq, Eq, Hash)]
pub enum RefTarget {
    Path { root: Option<RootName>, path: RelPath, expects: PathExpectation },
    Symbol { root: Option<RootName>, path: RelPath, name: SymbolName },
    Anchor { root: Option<RootName>, id: AnchorId },
}

/// A `RefTarget` with its names taken as text.
pub enum TargetView {
    Path { root: Option<Seq<char>>, path: Seq<char>, expects: PathExpectation },
    Symbol { root: Option<Seq<char>>, path: Seq<char>, name: Seq<char> },
    Anchor { root: Option<Seq<char>>, id: Seq<char> },
}

pub open spec fn root_view(root: Option<RootName>) -> Option<Seq<char>> {
    match root {
        Some(name) => Some(name@),
        None => None,
    }
}

impl View for RefTarget {
    type V = TargetView;

    open spec fn view(&self) -> TargetView {
        match self {
            RefTarget::Path { root, path, expects } => TargetView::Path {
                root: root_view(*root),
                path: path@,
                expects: *expects,
            },
            RefTarget::Symbol { root, path, name } => TargetView::Symbol {
                root: root_view(*root),
                path: path@,
                name: name@,
            },
            RefTarget::Anchor { root, id } => TargetView::Anchor { root: root_view(*root), id: id@ },
        }
    }
}

impl TargetView {
    pub open spec fn root(self) -> Option<Seq<char>> {
        match self {
            TargetView::Path { root, .. } => root,
            TargetView::Symbol { root, .. } => root,
            TargetView::Anchor { root, .. } => root,
        }
    }

    /// The same target with `root` in place of its own.
    pub open spec fn with_root(self, root: Option<Seq<char>>) -> TargetView {
        match self {
            TargetView::Path { path, expects, .. } => TargetView::Path { root, path, expects },
            TargetView::Symbol { path, name, .. } => TargetView::Symbol { root, path, name },
            TargetView::Anchor { id, .. } => TargetView::Anchor { root, id },
        }
    }

    /// The same target with its root made explicit.
    pub open spec fn resolved_in(self, written_in: Seq<char>) -> TargetView {
        match self.root() {
            Some(r) => self,
            None => self.with_root(Some(written_in)),
        }
    }
}

impl Clone for RefTarget {
    fn clone(&self) -> (r: Self)
        ensures
            r@ == self@,
    {
        match self {
            RefTarget::Path { root, path, expects } => RefTarget::Path {
                root: clone_root(root),
                path: path.clone(),
                expects: *expects,
            },
            RefTarget::Symbol { root, path, name } => RefTarget::Symbol {
                root: clone_root(root),
                path: path.clone(),
                name: name.clone(),
            },
            RefTarget::Anchor { root, id } => RefTarget::Anchor { root: clone_root(root), id: id.clone() },
        }
    }
}

fn clone_root(root: &Option<RootName>) -> (r: Option<RootName>)
    ensures
        root_view(r) == root_view(*root),
{
    match root {
        Some(name) => Some(name.clone()),
        None => None,
    }
}

impl RefTarget {
    pub fn root(&self) -> (r: Option<&RootName>)
        ensures
            match r {
                Some(name) => self@.root() == Some(name@),
                None => self@.root() is None,
            },
    {
        match self {
            RefTarget::Path { root, .. } => root.as_ref(),
            RefTarget::Symbol { root, .. } => root.as_ref(),
            RefTarget::Anchor { root, .. } => root.as_ref(),
        }
    }

    pub fn path(&self) -> (r: Option<&RelPath>)
        ensures
            match self@ {
                TargetView::Path { path, .. } => r matches Some(p) && p@ == path,
                TargetView::Symbol { path, .. } => r matches Some(p) && p@ == path,
                TargetView::Anchor { .. } => r is None,
            },
    {
        match self {
            RefTarget::Path { path, .. } => Some(path),
            RefTarget::Symbol { path, .. } => Some(path),
            RefTarget::Anchor { .. } => None,
        }
    }

    /// The same target aimed at another path; an anchor target is returned unchanged.
    pub fn with_path(&self, path: RelPath) -> (r: RefTarget)
        ensures
            r@ == match self@ {
                TargetView::Path { root, expects, .. } => TargetView::Path {
                    root,
                    path: path@,
                    expects,
                },
                TargetView::Symbol { root, name, .. } => TargetView::Symbol {
                    root,
                    path: path@,
                    name,
                },
                TargetView::Anchor { root, id } => TargetView::Anchor { root, id },
            },
    {
        match self {
            RefTarget::Path { root, expects, .. } => RefTarget::Path {
                root: clone_root(root),
                path,
                expects: *expects,
            },
            RefTarget::Symbol { root, name, .. } => RefTarget::Symbol {
                root: clone_root(root),
                path,
                name: name.clone(),
            },
            RefTarget::Anchor { root, id } => RefTarget::Anchor {
                root: clone_root(root),
                id: id.clone(),
            },
        }
    }

    /// The same target with its root made explicit, so `#id` written in root `r` compares
    /// equal to `r:#id`.
    pub fn resolved_in(&self, written_in: &RootName) -> (r: RefTarget)
        ensures
            r@ == self@.resolved_in(written_in@),
    {
        let root = match self.root() {
            Some(name) => name.clone(),
            None => written_in.clone(),
        };
        match self {
            RefTarget::Path { path, expects, .. } => RefTarget::Path {
                root: Some(root),
                path: path.clone(),
                expects: *expects,
            },
            RefTarget::Symbol { path, name, .. } => RefTarget::Symbol {
                root: Some(root),
                path: path.clone(),
                name: name.clone(),
            },
            RefTarget::Anchor { id, .. } => RefTarget::Anchor { root: Some(root), id: id.clone() },
        }
    }

    /// Whether two targets are the same, name for name.
    pub fn same(&self, other: &RefTarget) -> (b: bool)
        ensures
            b == (self@ == other@),
    {
        let same_root = match (self.root(), other.root()) {
            (Some(a), Some(b)) => a.same(b),
            (None, None) => true,
            _ => false,
        };
        match (self, other) {
            (
                RefTarget::Path { path: p1, expects: e1, .. },
                RefTarget::Path { path: p2, expects: e2, .. },
            ) => same_root && p1.same(p2) && *e1 == *e2,
            (
                RefTarget::Symbol { path: p1, name: n1, .. },
                RefTarget::Symbol { path: p2, name: n2, .. },
            ) => same_root && p1.same(p2) && n1.same(n2),
            (RefTarget::Anchor { id: i1, .. }, RefTarget::Anchor { id: i2, .. }) => same_root
                && i1.same(i2),
            _ => false,
        }
    }
}

/// `@ref[target as Alias]`: the alias and where its name sits.
#[derive(Debug, Clone, PartialEq, Eq)]
pub struct DeclaredAlias {
    pub alias: Alias,
    pub span: ByteSpan,
}

impl DeclaredAlias {
    pub fn shifted_by(self, offset: usize) -> (r: Self)
        requires
            self.span.wf(),
            self.span.end + offset <= usize::MAX,
        ensures
            r.alias@ == self.alias@,
            r.span.start == self.span.start + offset,
            r.span.end == self.span.end + offset,
    {
        DeclaredAlias { alias: self.alias, span: self.span.shifted_by(offset) }
    }
}

#[derive(Debug, Clone, PartialEq, Eq)]
pub struct ParsedTarget {
    pub target: RefTarget,
    /// For anchor targets, the id's byte span relative to the start of the body.
    pub id_span: Option<ByteSpan>,
    /// The `as Alias` clause, its span relative to the start of the body.
    pub alias: Option<DeclaredAlias>,
}

#[derive(Debug, PartialEq, Eq, Hash)]
pub enum TargetError {
    Empty,
    EmptyAfterRoot { root: String },
    EmptySymbol,
    BadAliasClause,
    RootPrefixOnRelative { root: String },
    RelativeNeedsFile,
    Alias(AliasError),
    Root(RootNameError),
    Id(IdError),
    Path(PathError),
    Symbol(SymbolError),
}

/// `TargetError` with its owned text taken by value.
pub enum TargetFault {
    Empty,
    EmptyAfterRoot { root: Seq<char> },
    EmptySymbol,
    BadAliasClause,
    RootPrefixOnRelative { root: Seq<char> },
    RelativeNeedsFile,
    Alias(AliasError),
    Root(RootNameError),
    Id(IdFault),
    Path(PathError),
    Symbol(SymbolFault),
}

impl View for TargetError {
    type V = TargetFault;

    open spec fn view(&self) -> TargetFault {
        match self {
            TargetError::Empty => TargetFault::Empty,
            TargetError::EmptyAfterRoot { root } => TargetFault::EmptyAfterRoot { root: root@ },
            TargetError::EmptySymbol => TargetFault::EmptySymbol,
            TargetError::BadAliasClause => TargetFault::BadAliasClause,
            TargetError::RootPrefixOnRelative { root } => TargetFault::RootPrefixOnRelative {
                root: root@,
            },
            TargetError::RelativeNeedsFile => TargetFault::RelativeNeedsFile,
            TargetError::Alias(e) => TargetFault::Alias(*e),
            TargetError::Root(e) => TargetFault::Root(*e),
            TargetError::Id(e) => TargetFault::Id(e@),
            TargetError::Path(e) => TargetFault::Path(*e),
            TargetError::Symbol(e) => TargetFault::Symbol(e.fault()),
        }
    }
}

/// UTF-8 length of `s`, as `str::len` reports it.
pub open spec fn blen(s: Seq<char>) -> usize {
    byte_len(s) as usize
}

/// A leading `name:` is a root prefix only when `name` is root-shaped; otherwise the `:` is left
/// in place for the path grammar to reject as reserved. The root and the index where the rest
/// starts.
pub open spec fn root_split(text: Seq<char>) -> Result<(Option<Seq<char>>, int), TargetFault> {
    let i = first_index_of(text, ':');
    if i < 0 {
        Ok((None, 0))
    } else if i == 0 || !all_chars(text.take(i), root_name_pred()) {
        Ok((None, 0))
    } else if i + 1 == text.len() {
        Err(TargetFault::EmptyAfterRoot { root: text.take(i) })
    } else {
        match root_name_verdict(text.take(i), blen(text.take(i))) {
            Err(e) => Err(TargetFault::Root(e)),
            Ok(()) => Ok((Some(text.take(i)), i + 1)),
        }
    }
}

/// A path spelling resolved against the writing file's directory, when there is one.
pub open spec fn path_in(text: Seq<char>, dir: Option<Seq<char>>) -> Result<Seq<char>, TargetFault> {
    match dir {
        Some(d) => match anchored_verdict(d, text, blen(text)) {
            Ok(p) => Ok(p),
            Err(e) => Err(TargetFault::Path(e)),
        },
        None => if is_file_relative_spec(text) {
            Err(TargetFault::RelativeNeedsFile)
        } else {
            match path_verdict(text, blen(text)) {
                Some(e) => Err(TargetFault::Path(e)),
                None => Ok(text),
            }
        },
    }
}

/// A target without an anchor `#`: a path or a `path#Symbol`, under `root`.
#[verifier::opaque]
pub open spec fn named_verdict(root: Option<Seq<char>>, rest: Seq<char>, dir: Option<Seq<char>>) -> Result<
    (TargetView, Option<(int, int)>),
    TargetFault,
> {
    if is_file_relative_spec(rest) && root is Some {
        Err(TargetFault::RootPrefixOnRelative { root: root->0 })
    } else {
        let h = first_index_of(rest, '#');
        if h >= 0 {
            let name = rest.skip(h + 1);
            if name.len() == 0 {
                Err(TargetFault::EmptySymbol)
            } else {
                match path_in(rest.take(h), dir) {
                    Err(f) => Err(f),
                    Ok(path) => match symbol_verdict(name, blen(name)) {
                        Err(f) => Err(TargetFault::Symbol(f)),
                        Ok(()) => Ok((TargetView::Symbol { root, path, name }, None)),
                    },
                }
            }
        } else {
            let directory = rest.len() > 0 && rest.last() == '/';
            let spelled = if directory {
                rest.drop_last()
            } else {
                rest
            };
            match path_in(spelled, dir) {
                Err(f) => Err(f),
                Ok(path) => Ok(
                    (
                        TargetView::Path {
                            root,
                            path,
                            expects: if directory {
                                PathExpectation::Directory
                            } else {
                                PathExpectation::Any
                            },
                        },
                        None,
                    ),
                ),
            }
        }
    }
}

/// A whitespace-free target starting `offset` bytes into the body: the target, and for an
/// anchor target the byte span of its id in the body.
#[verifier::opaque]
pub open spec fn bare_verdict(text: Seq<char>, offset: int, dir: Option<Seq<char>>) -> Result<
    (TargetView, Option<(int, int)>),
    TargetFault,
> {
    match root_split(text) {
        Err(f) => Err(f),
        Ok((root, rs)) => {
            let rest = text.skip(rs);
            if rest.len() > 0 && rest[0] == '#' {
                let id = rest.skip(1);
                match id_verdict(id, blen(id)) {
                    Some(f) => Err(TargetFault::Id(f)),
                    None => Ok(
                        (
                            TargetView::Anchor { root, id },
                            Some(
                                (
                                    offset + byte_len(text.take(rs)) + 1,
                                    offset + byte_len(text),
                                ),
                            ),
                        ),
                    ),
                }
            } else {
                named_verdict(root, rest, dir)
            }
        },
    }
}

pub open spec fn as_word() -> Seq<char> {
    seq!['a', 's']
}

/// What `parse_target` decides for `body` written in a file whose directory is `dir`: the
/// target, the id span, and the declared alias with its span.
pub open spec fn target_verdict(body: Seq<char>, dir: Option<Seq<char>>) -> Result<
    (TargetView, Option<(int, int)>, Option<(Seq<char>, (int, int))>),
    TargetFault,
> {
    if body.len() == 0 {
        Err(TargetFault::Empty)
    } else if !has_whitespace(body) {
        match bare_verdict(body, 0, dir) {
            Err(f) => Err(f),
            Ok((target, span)) => Ok((target, span, None)),
        }
    } else {
        let padded = is_unicode_whitespace(body[0]) || is_unicode_whitespace(body.last());
        let toks = ws_tokens(body);
        if !padded && toks.len() == 3 && body.subrange(toks[1].0, toks[1].1) == as_word() {
            let target_text = body.subrange(toks[0].0, toks[0].1);
            let alias_text = body.subrange(toks[2].0, toks[2].1);
            match bare_verdict(target_text, byte_len(body.take(toks[0].0)) as int, dir) {
                Err(f) => Err(f),
                Ok((target, span)) => match alias_verdict(alias_text, blen(alias_text)) {
                    Err(e) => Err(TargetFault::Alias(e)),
                    Ok(()) => {
                        let start = byte_len(body.take(toks[2].0)) as int;
                        Ok(
                            (
                                target,
                                span,
                                Some((alias_text, (start, start + byte_len(alias_text)))),
                            ),
                        )
                    },
                },
            }
        } else {
            Err(TargetFault::BadAliasClause)
        }
    }
}

pub open spec fn file_dir(written_in: Option<&FilePath>) -> Option<Seq<char>> {
    match written_in {
        Some(file) => Some(directory_of(file@)),
        None => None,
    }
}


pub open spec fn span_view(span: Option<ByteSpan>) -> Option<(int, int)> {
    match span {
        Some(s) => Some((s.start as int, s.end as int)),
        None => None,
    }
}

pub open spec fn alias_view(alias: Option<DeclaredAlias>) -> Option<(Seq<char>, (int, int))> {
    match alias {
        Some(d) => Some((d.alias@, (d.span.start as int, d.span.end as int))),
        None => None,
    }
}

fn split_root_prefix(text: &str, chars: &Vec<char>) -> (r: Result<(Option<RootName>, usize), TargetError>)
    requires
        chars@ == text@,
    ensures
        match root_split(text@) {
            Err(f) => r matches Err(e) && e@ == f,
            Ok((root, rs)) => r matches Ok((name, k)) && root_view(name) == root && k == rs,
        },
        r matches Ok((_, k)) ==> k <= text@.len(),
{
    let n = chars.len();
    assert(chars@.subrange(0, n as int) =~= text@);
    let i = match find_first(chars, 0, n, ':') {
        None => {
            return Ok((None, 0));
        },
        Some(i) => i,
    };
    if i == 0 {
        return Ok((None, 0));
    }
    let mut j: usize = 0;
    while j < i
        invariant
            0 < i,
            j <= i < chars@.len(),
            chars@ == text@,
            first_index_of(text@, ':') == i as int,
            forall|k: int| 0 <= k < j ==> is_root_name_char(#[trigger] text@.take(i as int)[k]),
        decreases i - j,
    {
        if !root_name_char(chars[j]) {
            assert(!root_name_pred()(text@.take(i as int)[j as int]));
            return Ok((None, 0));
        }
        j += 1;
    }
    assert(all_chars(text@.take(i as int), root_name_pred()));
    if i + 1 == n {
        let root = text.substring_char(0, i).to_owned();
        return Err(TargetError::EmptyAfterRoot { root });
    }
    let prefix = text.substring_char(0, i);
    let _ = str_byte_len(prefix);
    match RootName::parse(prefix) {
        Err(e) => Err(TargetError::Root(e)),
        Ok(root) => Ok((Some(root), i + 1)),
    }
}

fn parse_path(text: &str, written_in: Option<&FilePath>) -> (r: Result<RelPath, TargetError>)
    ensures
        match path_in(text@, file_dir(written_in)) {
            Ok(p) => r matches Ok(path) && path@ == p,
            Err(f) => r matches Err(e) && e@ == f,
        },
{
    let _ = str_byte_len(text);
    match written_in {
        Some(file) => match RelPath::anchored(file.directory(), text) {
            Ok(path) => Ok(path),
            Err(e) => Err(TargetError::Path(e)),
        },
        None => {
            if is_file_relative(text) {
                Err(TargetError::RelativeNeedsFile)
            } else {
                match RelPath::parse(text) {
                    Ok(path) => Ok(path),
                    Err(e) => Err(TargetError::Path(e)),
                }
            }
        },
    }
}

/// The rest of a target after its root prefix, when it is not `#id`.
fn parse_named(rest_text: &str, root: Option<RootName>, written_in: Option<&FilePath>) -> (r: Result<
    (RefTarget, Option<ByteSpan>),
    TargetError,
>)
    ensures
        match named_verdict(root_view(root), rest_text@, file_dir(written_in)) {
            Ok((t, span)) => r matches Ok((target, id_span)) && target@ == t && span_view(id_span)
                == span,
            Err(f) => r matches Err(e) && e@ == f,
        },
        r matches Ok((_, span)) ==> span is None,
{
    reveal(named_verdict);
    let ghost rest = rest_text@;
    let chars = to_chars(rest_text);
    let n = chars.len();
    if is_file_relative(rest_text) {
        match root {
            Some(name) => {
                let root_text = name.as_str().to_owned();
                return Err(TargetError::RootPrefixOnRelative { root: root_text });
            },
            None => {},
        }
    }
    assert(chars@.subrange(0, n as int) =~= rest);
    match find_first(&chars, 0, n, '#') {
        Some(h) => {
            if h + 1 == n {
                assert(rest.skip(h + 1).len() == 0);
                return Err(TargetError::EmptySymbol);
            }
            let path_text = rest_text.substring_char(0, h);
            assert(path_text@ =~= rest.take(h as int));
            let path = parse_path(path_text, written_in)?;
            let name_text = rest_text.substring_char(h + 1, n);
            assert(name_text@ =~= rest.skip(h + 1));
            let _ = str_byte_len(name_text);
            let name = match SymbolName::parse(name_text) {
                Ok(name) => name,
                Err(e) => {
                    return Err(TargetError::Symbol(e));
                },
            };
            Ok((RefTarget::Symbol { root, path, name }, None))
        },
        None => {
            if n > 0 && chars[n - 1] == '/' {
                let path_text = rest_text.substring_char(0, n - 1);
                assert(path_text@ =~= rest.drop_last());
                let path = parse_path(path_text, written_in)?;
                Ok((RefTarget::Path { root, path, expects: PathExpectation::Directory }, None))
            } else {
                let path = parse_path(rest_text, written_in)?;
                Ok((RefTarget::Path { root, path, expects: PathExpectation::Any }, None))
            }
        },
    }
}

/// Parses a whitespace-free target. Spans are relative to the body; `offset` is where the
/// target token starts in it, so an id span ends at the token's end, never at the body's.
fn parse_bare_target(text: &str, offset: usize, written_in: Option<&FilePath>) -> (r: Result<
    (RefTarget, Option<ByteSpan>),
    TargetError,
>)
    requires
        text@.len() > 0,
        offset + byte_len(text@) <= usize::MAX,
    ensures
        match bare_verdict(text@, offset as int, file_dir(written_in)) {
            Ok((t, span)) => r matches Ok((target, id_span)) && target@ == t && span_view(id_span)
                == span,
            Err(f) => r matches Err(e) && e@ == f,
        },
        r matches Ok((_, Some(span))) ==> span.start <= span.end == offset + byte_len(text@),
{
    reveal(bare_verdict);
    let chars = to_chars(text);
    let total = str_byte_len(text);
    let offsets = byte_offsets(&chars);
    let n = chars.len();
    let (root, rs) = split_root_prefix(text, &chars)?;
    let ghost rest = text@.skip(rs as int);
    if rs < n && chars[rs] == '#' {
        assert(rest[0] == '#');
        let id_text = text.substring_char(rs + 1, n);
        assert(id_text@ =~= rest.skip(1));
        let _ = str_byte_len(id_text);
        let id = match AnchorId::parse(id_text) {
            Ok(id) => id,
            Err(e) => {
                return Err(TargetError::Id(e));
            },
        };
        proof {
            crate::chars::lemma_byte_len_monotone(text@, rs as int, n as int);
            assert(text@.take(n as int) =~= text@);
        }
        let span = ByteSpan::new(offset + offsets[rs] + 1, offset + total);
        return Ok((RefTarget::Anchor { root, id }, Some(span)));
    }
    assert(!(rest.len() > 0 && rest[0] == '#')) by {
        if rs < n {
            assert(rest[0] == chars@[rs as int]);
        }
    }
    let rest_text = text.substring_char(rs, n);
    assert(rest_text@ =~= rest);
    parse_named(rest_text, root, written_in)
}

/// `written_in` is the file the marker sits in, which anchors `./` and `../` paths. `None` is
/// for targets typed on a command line, where a relative path has nothing to be relative to.
pub fn parse_target(body: &str, written_in: Option<&FilePath>) -> (r: Result<ParsedTarget, TargetError>)
    ensures
        match target_verdict(body@, file_dir(written_in)) {
            Ok((t, span, alias)) => r matches Ok(parsed) && parsed.target@ == t && span_view(
                parsed.id_span,
            ) == span && alias_view(parsed.alias) == alias,
            Err(f) => r matches Err(e) && e@ == f,
        },
        r matches Ok(parsed) ==> (parsed.id_span matches Some(s) ==> s.start <= s.end <= byte_len(
            body@,
        )) && (parsed.alias matches Some(d) ==> d.span.start <= d.span.end <= byte_len(body@)),
{
    let chars = to_chars(body);
    let total = str_byte_len(body);
    if chars.len() == 0 {
        return Err(TargetError::Empty);
    }
    if !contains_whitespace(&chars) {
        let (target, id_span) = parse_bare_target(body, 0, written_in)?;
        return Ok(ParsedTarget { target, id_span, alias: None });
    }
    let n = chars.len();
    let padded = unicode_whitespace(chars[0]) || unicode_whitespace(chars[n - 1]);
    let tokens = whitespace_tokens(&chars);
    proof {
        crate::chars::lemma_ws_tokens_bounded(body@);
    }
    if padded || tokens.len() != 3 {
        return Err(TargetError::BadAliasClause);
    }
    let (s1, e1) = tokens[1];
    let is_as = e1 - s1 == 2 && chars[s1] == 'a' && chars[s1 + 1] == 's';
    proof {
        let w = body@.subrange(s1 as int, e1 as int);
        if is_as {
            assert(w =~= as_word());
        } else if w == as_word() {
            assert(w.len() == 2 && w[0] == 'a' && w[1] == 's');
            assert(chars@[s1 as int] == w[0]);
        }
    }
    if !is_as {
        return Err(TargetError::BadAliasClause);
    }
    let offsets = byte_offsets(&chars);
    let (s0, e0) = tokens[0];
    let (s2, e2) = tokens[2];
    let target_text = body.substring_char(s0, e0);
    proof {
        lemma_byte_len_subrange(body@, s0 as int, e0 as int);
        crate::chars::lemma_byte_len_monotone(body@, e0 as int, n as int);
        lemma_byte_len_subrange(body@, s2 as int, e2 as int);
        crate::chars::lemma_byte_len_monotone(body@, e2 as int, n as int);
        assert(body@.take(n as int) =~= body@);
    }
    let (target, id_span) = parse_bare_target(target_text, offsets[s0], written_in)?;
    let alias_text = body.substring_char(s2, e2);
    let _ = str_byte_len(alias_text);
    let alias = match Alias::parse(alias_text) {
        Ok(alias) => alias,
        Err(e) => {
            return Err(TargetError::Alias(e));
        },
    };
    let span = ByteSpan::new(offsets[s2], offsets[e2]);
    Ok(ParsedTarget { target, id_span, alias: Some(DeclaredAlias { alias, span }) })
}

/// What an unparsable target is reported as.
pub open spec fn target_message(e: TargetFault) -> Seq<char> {
    match e {
        TargetFault::Empty => "target is empty"@,
        TargetFault::EmptyAfterRoot { root } => "nothing follows the root prefix `"@ + root + ":`"@,
        TargetFault::EmptySymbol => "nothing follows `#`; a symbol reference is written `path#Name`"@,
        TargetFault::BadAliasClause => "a target has no spaces; to declare an alias write `target as Alias`"@,
        TargetFault::RootPrefixOnRelative { root } => "`"@ + root + ":` cannot prefix a `./` or `../` path; a relative path is resolved from the file it is written in, which is always in the current root"@,
        TargetFault::RelativeNeedsFile => "a `./` or `../` path is relative to the file it is written in; there is no file here, so write the path root-relative"@,
        TargetFault::Alias(e) => alias_message(e),
        TargetFault::Root(e) => root_name_message(e),
        TargetFault::Id(e) => id_message(e),
        TargetFault::Path(e) => path_message(e),
        TargetFault::Symbol(e) => symbol_message(e),
    }
}

impl TargetError {
    /// The message this error is reported with.
    pub fn message(&self) -> (s: String)
        ensures
            s@ == target_message(self@),
    {
        match self {
            TargetError::Empty => {
                "target is empty".to_owned()
            },
            TargetError::EmptyAfterRoot { root } => {
                let mut s = "nothing follows the root prefix `".to_owned();
                push_text(&mut s, root.as_str());
                push_text(&mut s, ":`");
                s
            },
            TargetError::EmptySymbol => {
                "nothing follows `#`; a symbol reference is written `path#Name`".to_owned()
            },
            TargetError::BadAliasClause => {
                "a target has no spaces; to declare an alias write `target as Alias`".to_owned()
            },
            TargetError::RootPrefixOnRelative { root } => {
                let mut s = "`".to_owned();
                push_text(&mut s, root.as_str());
                push_text(&mut s, ":` cannot prefix a `./` or `../` path; a relative path is resolved from the file it is written in, which is always in the current root");
                s
            },
            TargetError::RelativeNeedsFile => {
                "a `./` or `../` path is relative to the file it is written in; there is no file here, so write the path root-relative".to_owned()
            },
            TargetError::Alias(e) => {
                e.message()
            },
            TargetError::Root(e) => {
                e.message()
            },
            TargetError::Id(e) => {
                e.message()
            },
            TargetError::Path(e) => {
                e.message()
            },
            TargetError::Symbol(e) => {
                e.message()
            },
        }
    }
}

impl TargetError {
    /// Whether the two errors are the same, as their views compare.
    pub fn same_as(&self, other: &TargetError) -> (b: bool)
        ensures
            b == (self@ == other@),
    {
        match (self, other) {
            (TargetError::Empty, TargetError::Empty) => true,
            (TargetError::EmptyAfterRoot { root: root1 }, TargetError::EmptyAfterRoot { root: root2 }) => same_text(root1.as_str(), root2.as_str()),
            (TargetError::EmptySymbol, TargetError::EmptySymbol) => true,
            (TargetError::BadAliasClause, TargetError::BadAliasClause) => true,
            (TargetError::RootPrefixOnRelative { root: root1 }, TargetError::RootPrefixOnRelative { root: root2 }) => same_text(root1.as_str(), root2.as_str()),
            (TargetError::RelativeNeedsFile, TargetError::RelativeNeedsFile) => true,
            (TargetError::Alias(x1), TargetError::Alias(x2)) => *x1 == *x2,
            (TargetError::Root(x1), TargetError::Root(x2)) => *x1 == *x2,
            (TargetError::Id(x1), TargetError::Id(x2)) => x1.same_as(x2),
            (TargetError::Path(x1), TargetError::Path(x2)) => *x1 == *x2,
            (TargetError::Symbol(x1), TargetError::Symbol(x2)) => x1.same_as(x2),
            _ => false,
        }
    }
}

impl Clone for TargetError {
    fn clone(&self) -> (r: Self)
        ensures
            r@ == self@,
    {
        match self {
            TargetError::Empty => TargetError::Empty,
            TargetError::EmptyAfterRoot { root } => TargetError::EmptyAfterRoot { root: root.clone() },
            TargetError::EmptySymbol => TargetError::EmptySymbol,
            TargetError::BadAliasClause => TargetError::BadAliasClause,
            TargetError::RootPrefixOnRelative { root } => TargetError::RootPrefixOnRelative { root: root.clone() },
            TargetError::RelativeNeedsFile => TargetError::RelativeNeedsFile,
            TargetError::Alias(x) => TargetError::Alias(*x),
            TargetError::Root(x) => TargetError::Root(*x),
            TargetError::Id(x) => TargetError::Id(x.clone()),
            TargetError::Path(x) => TargetError::Path(*x),
            TargetError::Symbol(x) => TargetError::Symbol(*x),
        }
    }
}

} // verus!
