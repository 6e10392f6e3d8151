//! The marker language: `@anchor[id]`, `@ref[target]`, `@[Alias]` and `@noref[...]`, and the
//! types they parse into.
pub mod alias;
pub mod id;
pub mod lex;
pub mod noref;
pub mod path;
pub mod symbol;
pub mod target;

pub use alias::{Alias, AliasError, MAX_ALIAS_BYTES};
pub use id::{AnchorId, IdError, MAX_ID_BYTES, MAX_SEGMENT_BYTES};
pub use lex::{LexError, Lexed, lex};
pub use noref::{
    MAX_NOREF_ENTRY_BYTES, NoRefEntry, NoRefEntryError, NoRefError, NoRefItem, parse_noref_body,
};
pub use path::{MAX_PATH_BYTES, PathError, PathExpectation, RelPath};
pub use symbol::{MAX_SYMBOL_BYTES, SymbolError, SymbolName};
pub use target::{DeclaredAlias, ParsedTarget, RefTarget, TargetError, parse_target};

use vstd::prelude::*;
use crate::chars::same_text;
use crate::chars::{push_text};
use crate::marker::alias::alias_message;
use crate::marker::id::id_message;
use crate::marker::noref::noref_message;
use crate::marker::target::target_message;

use crate::marker::alias::alias_verdict;
use crate::marker::id::{IdFault, id_verdict};
use crate::marker::noref::{NoRefFault, items_view, noref_body_verdict};
use crate::marker::target::{
    TargetFault, TargetView, alias_view, blen, span_view, target_verdict,
};
use crate::span::ByteSpan;
use crate::text::RegionKind;

verus! {

#[derive(Debug, Clone, Copy, PartialEq, Eq, Structural, Hash)]
pub enum MarkerKind {
    Anchor,
    Ref,
    /// An alias use, `@[Alias]`.
    Use,
    NoRef,
}

impl MarkerKind {
    /// The syntax the author typed to open a marker of this kind.
    pub open spec fn syntax(self) -> Seq<char> {
        match self {
            MarkerKind::Anchor => "@anchor"@,
            MarkerKind::Ref => "@ref"@,
            MarkerKind::Use => "@[...]"@,
            MarkerKind::NoRef => "@noref"@,
        }
    }

    /// Renders the kind as the syntax the author typed: `Use` is `@[...]`, not its name.
    pub fn to_string(&self) -> (s: String)
        ensures
            s@ == self.syntax(),
    {
        match self {
            MarkerKind::Anchor => "@anchor".to_owned(),
            MarkerKind::Ref => "@ref".to_owned(),
            MarkerKind::Use => "@[...]".to_owned(),
            MarkerKind::NoRef => "@noref".to_owned(),
        }
    }
}

/// A well-formed marker found in one file. File identity lives on the containing scan.
#[derive(Debug, Clone, PartialEq, Eq)]
pub struct Marker {
    pub payload: MarkerPayload,
    /// The whole marker, `@` through `]`.
    pub span: ByteSpan,
    /// The text between the brackets.
    pub body_span: ByteSpan,
    pub region: RegionKind,
}

#[derive(Debug, Clone, PartialEq, Eq)]
pub enum MarkerPayload {
    Anchor { id: AnchorId },
    Ref {
        target: RefTarget,
        /// For `#id` and `root:#id` targets, the bytes a rename rewrites.
        id_span: Option<ByteSpan>,
        /// The `as Alias` clause, when the marker declares one.
        alias: Option<DeclaredAlias>,
    },
    Use { alias: Alias },
    NoRef { items: Vec<NoRefItem> },
}

/// A payload with its text and spans taken by value.
pub enum PayloadView {
    Anchor { id: Seq<char> },
    Ref {
        target: TargetView,
        id_span: Option<(int, int)>,
        alias: Option<(Seq<char>, (int, int))>,
    },
    Use { alias: Seq<char> },
    NoRef { items: Seq<(Seq<char>, (int, int))> },
}

impl View for MarkerPayload {
    type V = PayloadView;

    open spec fn view(&self) -> PayloadView {
        match self {
            MarkerPayload::Anchor { id } => PayloadView::Anchor { id: id@ },
            MarkerPayload::Ref { target, id_span, alias } => PayloadView::Ref {
                target: target@,
                id_span: span_view(*id_span),
                alias: alias_view(*alias),
            },
            MarkerPayload::Use { alias } => PayloadView::Use { alias: alias@ },
            MarkerPayload::NoRef { items } => PayloadView::NoRef { items: items_view(items@) },
        }
    }
}

impl PayloadView {
    pub open spec fn kind(self) -> MarkerKind {
        match self {
            PayloadView::Anchor { .. } => MarkerKind::Anchor,
            PayloadView::Ref { .. } => MarkerKind::Ref,
            PayloadView::Use { .. } => MarkerKind::Use,
            PayloadView::NoRef { .. } => MarkerKind::NoRef,
        }
    }
}

impl Marker {
    pub fn kind(&self) -> (k: MarkerKind)
        ensures
            k == self.payload@.kind(),
    {
        match self.payload {
            MarkerPayload::Anchor { .. } => MarkerKind::Anchor,
            MarkerPayload::Ref { .. } => MarkerKind::Ref,
            MarkerPayload::Use { .. } => MarkerKind::Use,
            MarkerPayload::NoRef { .. } => MarkerKind::NoRef,
        }
    }
}

/// A marker that was opened but could not be parsed. Always an error: the author opted in.
#[derive(Debug, Clone, PartialEq, Eq)]
pub struct MalformedMarker {
    pub kind: MarkerKind,
    pub reason: MalformedReason,
    pub span: ByteSpan,
    pub region: RegionKind,
}

#[derive(Debug, PartialEq, Eq, Hash)]
pub enum MalformedReason {
    /// The opener has no closing `]` on its line.
    Unclosed,
    EmptyBody,
    InvalidAnchorId { raw: String, reason: IdError },
    InvalidTarget { raw: String, reason: TargetError },
    InvalidAlias { raw: String, reason: AliasError },
    InvalidNoRef { raw: String, reason: NoRefError },
}

/// `MalformedReason` with its text taken by value.
pub enum ReasonView {
    Unclosed,
    EmptyBody,
    InvalidAnchorId { raw: Seq<char>, reason: IdFault },
    InvalidTarget { raw: Seq<char>, reason: TargetFault },
    InvalidAlias { raw: Seq<char>, reason: AliasError },
    InvalidNoRef { raw: Seq<char>, reason: NoRefFault },
}

impl View for MalformedReason {
    type V = ReasonView;

    open spec fn view(&self) -> ReasonView {
        match self {
            MalformedReason::Unclosed => ReasonView::Unclosed,
            MalformedReason::EmptyBody => ReasonView::EmptyBody,
            MalformedReason::InvalidAnchorId { raw, reason } => ReasonView::InvalidAnchorId {
                raw: raw@,
                reason: reason@,
            },
            MalformedReason::InvalidTarget { raw, reason } => ReasonView::InvalidTarget {
                raw: raw@,
                reason: reason@,
            },
            MalformedReason::InvalidAlias { raw, reason } => ReasonView::InvalidAlias {
                raw: raw@,
                reason: *reason,
            },
            MalformedReason::InvalidNoRef { raw, reason } => ReasonView::InvalidNoRef {
                raw: raw@,
                reason: reason@,
            },
        }
    }
}

/// A span moved `offset` bytes later.
pub open spec fn shift(span: (int, int), offset: int) -> (int, int) {
    (span.0 + offset, span.1 + offset)
}

/// Shifting by zero changes nothing, and two shifts compose into one.
pub proof fn lemma_shifts_compose(span: (int, int), a: int, b: int)
    ensures
        shift(span, 0) == span,
        shift(shift(span, a), b) == shift(span, a + b),
{
}

/// What a marker of `kind` with `body`, starting `body_start` bytes into a file whose directory
/// is `dir`, parses into. Spans in the payload are file offsets.
pub open spec fn body_verdict(kind: MarkerKind, body: Seq<char>, body_start: int, dir: Option<
    Seq<char>,
>) -> Result<PayloadView, ReasonView> {
    if body.len() == 0 {
        Err(ReasonView::EmptyBody)
    } else {
        match kind {
            MarkerKind::Anchor => match id_verdict(body, blen(body)) {
                None => Ok(PayloadView::Anchor { id: body }),
                Some(f) => Err(ReasonView::InvalidAnchorId { raw: body, reason: f }),
            },
            MarkerKind::Ref => match target_verdict(body, dir) {
                Ok((target, id_span, alias)) => Ok(
                    PayloadView::Ref {
                        target,
                        id_span: match id_span {
                            Some(s) => Some(shift(s, body_start)),
                            None => None,
                        },
                        alias: match alias {
                            Some((name, s)) => Some((name, shift(s, body_start))),
                            None => None,
                        },
                    },
                ),
                Err(f) => Err(ReasonView::InvalidTarget { raw: body, reason: f }),
            },
            MarkerKind::Use => match alias_verdict(body, blen(body)) {
                Ok(()) => Ok(PayloadView::Use { alias: body }),
                Err(e) => Err(ReasonView::InvalidAlias { raw: body, reason: e }),
            },
            MarkerKind::NoRef => match noref_body_verdict(body) {
                Ok(items) => Ok(
                    PayloadView::NoRef {
                        items: items.map_values(
                            |item: (Seq<char>, (int, int))| (item.0, shift(item.1, body_start)),
                        ),
                    },
                ),
                Err(f) => Err(ReasonView::InvalidNoRef { raw: body, reason: f }),
            },
        }
    }
}

/// What a malformed marker is reported as.
pub open spec fn reason_message(r: ReasonView) -> Seq<char> {
    match r {
        ReasonView::Unclosed => "missing closing `]` on the same line"@,
        ReasonView::EmptyBody => "empty body"@,
        ReasonView::InvalidAnchorId { raw, reason } => "invalid anchor id `"@ + raw + "`: "@ + id_message(reason),
        ReasonView::InvalidTarget { raw, reason } => "invalid target `"@ + raw + "`: "@ + target_message(reason),
        ReasonView::InvalidAlias { raw, reason } => "invalid alias `"@ + raw + "`: "@ + alias_message(reason),
        ReasonView::InvalidNoRef { raw, reason } => "invalid ignore list `"@ + raw + "`: "@ + noref_message(reason),
    }
}

impl MalformedReason {
    /// The message this error is reported with.
    pub fn message(&self) -> (s: String)
        ensures
            s@ == reason_message(self@),
    {
        match self {
            MalformedReason::Unclosed => {
                "missing closing `]` on the same line".to_owned()
            },
            MalformedReason::EmptyBody => {
                "empty body".to_owned()
            },
            MalformedReason::InvalidAnchorId { raw, reason } => {
                let mut s = "invalid anchor id `".to_owned();
                push_text(&mut s, raw.as_str());
                push_text(&mut s, "`: ");
                push_text(&mut s, &reason.message());
                s
            },
            MalformedReason::InvalidTarget { raw, reason } => {
                let mut s = "invalid target `".to_owned();
                push_text(&mut s, raw.as_str());
                push_text(&mut s, "`: ");
                push_text(&mut s, &reason.message());
                s
            },
            MalformedReason::InvalidAlias { raw, reason } => {
                let mut s = "invalid alias `".to_owned();
                push_text(&mut s, raw.as_str());
                push_text(&mut s, "`: ");
                push_text(&mut s, &reason.message());
                s
            },
            MalformedReason::InvalidNoRef { raw, reason } => {
                let mut s = "invalid ignore list `".to_owned();
                push_text(&mut s, raw.as_str());
                push_text(&mut s, "`: ");
                push_text(&mut s, &reason.message());
                s
            },
        }
    }
}

impl MalformedReason {
    /// Whether the two errors are the same, as their views compare.
    pub fn same_as(&self, other: &MalformedReason) -> (b: bool)
        ensures
            b == (self@ == other@),
    {
        match (self, other) {
            (MalformedReason::Unclosed, MalformedReason::Unclosed) => true,
            (MalformedReason::EmptyBody, MalformedReason::EmptyBody) => true,
            (MalformedReason::InvalidAnchorId { raw: raw1, reason: reason1 }, MalformedReason::InvalidAnchorId { raw: raw2, reason: reason2 }) => same_text(raw1.as_str(), raw2.as_str()) && reason1.same_as(reason2),
            (MalformedReason::InvalidTarget { raw: raw1, reason: reason1 }, MalformedReason::InvalidTarget { raw: raw2, reason: reason2 }) => same_text(raw1.as_str(), raw2.as_str()) && reason1.same_as(reason2),
            (MalformedReason::InvalidAlias { raw: raw1, reason: reason1 }, MalformedReason::InvalidAlias { raw: raw2, reason: reason2 }) => same_text(raw1.as_str(), raw2.as_str()) && *reason1 == *reason2,
            (MalformedReason::InvalidNoRef { raw: raw1, reason: reason1 }, MalformedReason::InvalidNoRef { raw: raw2, reason: reason2 }) => same_text(raw1.as_str(), raw2.as_str()) && reason1.same_as(reason2),
            _ => false,
        }
    }
}

impl Clone for MalformedReason {
    fn clone(&self) -> (r: Self)
        ensures
            r@ == self@,
    {
        match self {
            MalformedReason::Unclosed => MalformedReason::Unclosed,
            MalformedReason::EmptyBody => MalformedReason::EmptyBody,
            MalformedReason::InvalidAnchorId { raw, reason } => MalformedReason::InvalidAnchorId { raw: raw.clone(), reason: reason.clone() },
            MalformedReason::InvalidTarget { raw, reason } => MalformedReason::InvalidTarget { raw: raw.clone(), reason: reason.clone() },
            MalformedReason::InvalidAlias { raw, reason } => MalformedReason::InvalidAlias { raw: raw.clone(), reason: *reason },
            MalformedReason::InvalidNoRef { raw, reason } => MalformedReason::InvalidNoRef { raw: raw.clone(), reason: reason.clone() },
        }
    }
}

} // verus!
