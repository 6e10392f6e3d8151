//! Byte-span text edits and their application, shared by renames and annotation. Every edit
//! records what it expects to find, so a file that changed since it was scanned is refused
//! rather than corrupted.
use vstd::prelude::*;
use vstd::string::StringSliceAdditionalSpecFns;
use vstd::utf8::{encode_utf8, is_char_boundary};

use crate::chars::{lemma_byte_len_is_encoded_len, lemma_encode_concat, lemma_encode_injective, str_byte_len, str_slice};
use crate::root::FilePath;
use crate::span::ByteSpan;

verus! {

broadcast use vstd::string::group_string_axioms;

#[derive(Debug, Clone, PartialEq, Eq)]
pub struct TextEdit {
    pub span: ByteSpan,
    /// What the span currently holds, checked again before writing.
    pub expected: String,
    pub replacement: String,
}

/// Why a file could not be rewritten.
#[derive(Debug, PartialEq, Eq)]
pub enum ApplyError {
    FileChanged { path: FilePath },
    Read { path: FilePath, message: String },
    Write { path: FilePath, message: String },
}

/// An edit as bytes: where it applies, what it expects there, and what it puts there.
pub open spec fn edit_bytes(edit: TextEdit) -> (int, int, Seq<u8>, Seq<u8>) {
    (
        edit.span.start as int,
        edit.span.end as int,
        encode_utf8(edit.expected@),
        encode_utf8(edit.replacement@),
    )
}

/// The bytes of `src` with `edits` applied in order, copying from `cursor` on; `None` when an
/// edit's span is not on character boundaries, does not hold what the edit expects, or starts
/// before the previous edit ended.
pub open spec fn applied(src: Seq<u8>, edits: Seq<(int, int, Seq<u8>, Seq<u8>)>, cursor: int) -> Option<
    Seq<u8>,
>
    decreases edits.len(),
{
    if edits.len() == 0 {
        Some(src.subrange(cursor, src.len() as int))
    } else {
        let e = edits[0];
        if !(e.0 <= e.1 && is_char_boundary(src, e.0) && is_char_boundary(src, e.1)) {
            None
        } else if src.subrange(e.0, e.1) != e.2 || e.0 < cursor {
            None
        } else {
            match applied(src, edits.drop_first(), e.1) {
                None => None,
                Some(rest) => Some(src.subrange(cursor, e.0) + e.3 + rest),
            }
        }
    }
}

/// Applies `edits`, which must be sorted by span and non-overlapping, to `source`. `None`
/// when any edit's expected text is not where it was planned to be.
pub fn apply_edits(source: &str, edits: &[TextEdit]) -> (r: Option<String>)
    ensures
        match applied(source.spec_bytes(), edits@.map_values(|e: TextEdit| edit_bytes(e)), 0) {
            None => r is None,
            Some(bytes) => r matches Some(out) && encode_utf8(out@) == bytes,
        },
{
    let ghost src = source.spec_bytes();
    let ghost all = edits@.map_values(|e: TextEdit| edit_bytes(e));
    let mut output = String::new();
    let mut cursor: usize = 0;
    let mut k: usize = 0;
    proof {
        vstd::utf8::encode_utf8_valid_utf8(source@);
        vstd::utf8::is_char_boundary_start_end_of_seq(src);
        assert(all.skip(0) =~= all);
    }
    while k < edits.len()
        invariant
            k <= edits@.len(),
            src == source.spec_bytes(),
            all == edits@.map_values(|e: TextEdit| edit_bytes(e)),
            cursor <= src.len(),
            is_char_boundary(src, cursor as int),
            vstd::utf8::valid_utf8(src),
            applied(src, all, 0) == match applied(src, all.skip(k as int), cursor as int) {
                None => None,
                Some(rest) => Some(encode_utf8(output@) + rest),
            },
        decreases edits.len() - k,
    {
        let edit = &edits[k];
        assert(all.skip(k as int)[0] == edit_bytes(*edit));
        assert(all.skip(k as int).drop_first() =~= all.skip(k + 1));
        let current = match str_slice(source, edit.span.start, edit.span.end) {
            Some(current) => current,
            None => {
                return None;
            },
        };
        proof {
            lemma_encode_injective(current@, edit.expected@);
        }
        if current.to_owned() != edit.expected || edit.span.start < cursor {
            proof {
                let e = all.skip(k as int)[0];
                assert(current.spec_bytes() == encode_utf8(current@));
                assert(src.subrange(e.0, e.1) != e.2 || e.0 < cursor);
                assert(applied(src, all.skip(k as int), cursor as int) is None);
            }
            return None;
        }
        let before = match str_slice(source, cursor, edit.span.start) {
            Some(before) => before,
            None => {
                return None;
            },
        };
        proof {
            lemma_encode_concat(output@, before@);
            lemma_encode_concat(output@ + before@, edit.replacement@);
        }
        output.append(before);
        output.append(edit.replacement.as_str());
        cursor = edit.span.end;
        k += 1;
    }
    let total = str_byte_len(source);
    proof {
        assert(all.skip(k as int).len() == 0);
        vstd::utf8::is_char_boundary_start_end_of_seq(src);
        lemma_byte_len_is_encoded_len(source@);
        assert(total == src.len());
        assert(applied(src, all.skip(k as int), cursor as int) == Some(
            src.subrange(cursor as int, src.len() as int),
        ));
    }
    let rest = match str_slice(source, cursor, total) {
        Some(rest) => rest,
        None => {
            return None;
        },
    };
    proof {
        lemma_encode_concat(output@, rest@);
        assert(rest.spec_bytes() == encode_utf8(rest@));
    }
    output.append(rest);
    Some(output)
}

/// How many bytes a run of edits adds: each edit's replacement length less its expected length.
pub open spec fn growth(edits: Seq<(int, int, Seq<u8>, Seq<u8>)>) -> int
    decreases edits.len(),
{
    if edits.len() == 0 {
        0
    } else {
        edits[0].3.len() - edits[0].2.len() + growth(edits.drop_first())
    }
}

/// The edits with every replacement set to what the edit expects.
pub open spec fn keeping(edits: Seq<(int, int, Seq<u8>, Seq<u8>)>) -> Seq<(int, int, Seq<u8>, Seq<u8>)> {
    edits.map_values(|e: (int, int, Seq<u8>, Seq<u8>)| (e.0, e.1, e.2, e.2))
}

/// A character boundary of valid UTF-8 lies within it.
proof fn lemma_boundary_in_range(bytes: Seq<u8>, i: int)
    requires
        vstd::utf8::valid_utf8(bytes),
        is_char_boundary(bytes, i),
    ensures
        0 <= i <= bytes.len(),
{
}

/// Applied edits lengthen the text by what they add: the result is as long as the text from
/// `cursor` on, plus each replacement's length, less each expected text's length.
pub proof fn lemma_applied_length(src: Seq<u8>, edits: Seq<(int, int, Seq<u8>, Seq<u8>)>, cursor: int)
    requires
        vstd::utf8::valid_utf8(src),
        0 <= cursor <= src.len(),
        applied(src, edits, cursor) is Some,
    ensures
        applied(src, edits, cursor)->Some_0.len() == src.len() - cursor + growth(edits),
    decreases edits.len(),
{
    if edits.len() > 0 {
        let e = edits[0];
        lemma_boundary_in_range(src, e.0);
        lemma_boundary_in_range(src, e.1);
        lemma_applied_length(src, edits.drop_first(), e.1);
    }
}

/// Edits that put back what they expect give back the text they were applied to: whenever a run
/// of edits applies, the same edits with each replacement set to its expected text leave the
/// text from `cursor` on unchanged.
pub proof fn lemma_applied_identity(src: Seq<u8>, edits: Seq<(int, int, Seq<u8>, Seq<u8>)>, cursor: int)
    requires
        vstd::utf8::valid_utf8(src),
        0 <= cursor <= src.len(),
        applied(src, edits, cursor) is Some,
    ensures
        applied(src, keeping(edits), cursor) == Some(src.subrange(cursor, src.len() as int)),
    decreases edits.len(),
{
    if edits.len() > 0 {
        let e = edits[0];
        lemma_boundary_in_range(src, e.0);
        lemma_boundary_in_range(src, e.1);
        lemma_applied_identity(src, edits.drop_first(), e.1);
        assert(keeping(edits)[0] == (e.0, e.1, e.2, e.2));
        assert(keeping(edits).drop_first() =~= keeping(edits.drop_first()));
        assert(src.subrange(cursor, e.0) + e.2 + src.subrange(e.1, src.len() as int) =~= src.subrange(
            cursor,
            src.len() as int,
        ));
    } else {
        assert(keeping(edits) =~= Seq::<(int, int, Seq<u8>, Seq<u8>)>::empty());
    }
}

/// The edits as byte ranges with their expected and replacement bytes.
pub open spec fn edits_bytes(edits: Seq<TextEdit>) -> Seq<(int, int, Seq<u8>, Seq<u8>)> {
    edits.map_values(|e: TextEdit| edit_bytes(e))
}

/// Whenever `apply_edits(source, edits)` gives a text, its UTF-8 length is the source's plus each
/// replacement's length less each expected text's length.
pub proof fn lemma_apply_edits_length(source: Seq<char>, edits: Seq<TextEdit>)
    requires
        applied(encode_utf8(source), edits_bytes(edits), 0) is Some,
    ensures
        applied(encode_utf8(source), edits_bytes(edits), 0)->Some_0.len() == encode_utf8(source).len() + growth(
            edits_bytes(edits),
        ),
{
    vstd::utf8::encode_utf8_valid_utf8(source);
    lemma_applied_length(encode_utf8(source), edits_bytes(edits), 0);
}

/// Whenever `apply_edits(source, edits)` gives a text, the same edits with every replacement set
/// to its expected text give back the source itself.
pub proof fn lemma_apply_edits_identity(source: Seq<char>, edits: Seq<TextEdit>)
    requires
        applied(encode_utf8(source), edits_bytes(edits), 0) is Some,
    ensures
        applied(encode_utf8(source), keeping(edits_bytes(edits)), 0) == Some(encode_utf8(source)),
{
    vstd::utf8::encode_utf8_valid_utf8(source);
    lemma_applied_identity(encode_utf8(source), edits_bytes(edits), 0);
    assert(encode_utf8(source).subrange(0, encode_utf8(source).len() as int) =~= encode_utf8(source));
}

} // verus!
