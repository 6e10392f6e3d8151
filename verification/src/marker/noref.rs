//! `@noref[...]` lists: globs the author declares match no reference.
use vstd::prelude::*;
use crate::chars::same_text;
use crate::chars::{decimal, decimal_text, push_char, push_text};

use crate::chars::{
    all_chars, byte_len, contains_whitespace, first_failing, has_whitespace,
    is_unicode_whitespace, lemma_byte_len_is_encoded_len, lemma_byte_len_subrange,
    lemma_first_failing, split_on, split_ranges, str_byte_len, to_chars, unicode_whitespace,
};
use crate::marker::target::blen;
use crate::span::ByteSpan;

verus! {

broadcast use vstd::string::group_string_axioms;

pub const MAX_NOREF_ENTRY_BYTES: usize = 256;

/// Whether `raw` is short enough for globset to build: a literal it matches by automaton has
/// at most `2^31 - 2` states, one per byte, and a longer one makes the build panic.
pub open spec fn glob_size_ok(raw: Seq<char>) -> bool {
    byte_len(raw) < 0x4000_0000
}

/// What globset reports when building `raw` with `*` kept inside one path segment and `\` as an
/// escape, and then a set of that one glob, which compiles its matcher: `None` when both build,
/// else the text of the first error's kind.
pub uninterp spec fn glob_build_error(raw: Seq<char>) -> Option<Seq<char>>;

/// Whether the glob `pattern`, built as `glob_build_error` describes, matches all of
/// `candidate`, on a platform whose only path separator is `/`.
pub uninterp spec fn glob_accepts(pattern: Seq<char>, candidate: Seq<char>) -> bool;

#[verifier::external_type_specification]
#[verifier::external_body]
pub struct ExGlobSet(globset::GlobSet);

/// The pattern a one-glob set was built from.
pub uninterp spec fn glob_set_pattern(set: globset::GlobSet) -> Seq<char>;

/// Builds `raw` with globset's `GlobBuilder` (`literal_separator` and `backslash_escape` on),
/// then a `GlobSet` of that one glob, which compiles its matcher; the error kind's text when
/// either fails. The contract claims only that the outcome is `glob_build_error(raw)`.
#[verifier::external_body]
pub(crate) fn compile_glob(raw: &str) -> (r: Result<globset::GlobSet, String>)
    requires
        glob_size_ok(raw@),
    ensures
        match glob_build_error(raw@) {
            None => r matches Ok(set) && glob_set_pattern(set) == raw@,
            Some(reason) => r matches Err(s) && s@ == reason,
        },
{
    match globset::GlobBuilder::new(raw).literal_separator(true).backslash_escape(true).build() {
        Ok(glob) => match globset::GlobSetBuilder::new().add(glob).build() {
            Ok(set) => Ok(set),
            Err(error) => Err(error.kind().to_string()),
        },
        Err(error) => Err(error.kind().to_string()),
    }
}

/// Whether globset reads `candidate` the same way on every platform: it turns `\` into `/`
/// where `\` separates paths, and nothing else.
pub open spec fn portable_candidate(candidate: Seq<char>) -> bool {
    !candidate.contains('\\')
}

/// `GlobSet::is_match` on a set `compile_glob` built: for a candidate without `\`, whether its
/// pattern matches all of it. For one with `\` the answer depends on the platform, and the
/// contract claims nothing.
#[verifier::external_body]
pub(crate) fn set_matches(set: &globset::GlobSet, candidate: &str) -> (b: bool)
    ensures
        portable_candidate(candidate@) ==> b == glob_accepts(glob_set_pattern(*set), candidate@),
{
    set.is_match(candidate)
}

/// The derived `Clone` of `GlobSet`: a set of the same pattern.
#[verifier::external_body]
pub(crate) fn clone_glob_set(set: &globset::GlobSet) -> (r: globset::GlobSet)
    ensures
        glob_set_pattern(r) == glob_set_pattern(*set),
{
    set.clone()
}

/// Builds `pattern` as `compile_glob` does and asks the set (`GlobSet::is_match`) whether it
/// matches `candidate`. The contract claims only that, for a candidate without `\`, the answer
/// is `glob_accepts(pattern, candidate)`.
#[verifier::external_body]
pub(crate) fn glob_match(pattern: &str, candidate: &str) -> (b: bool)
    requires
        glob_size_ok(pattern@),
        glob_build_error(pattern@) is None,
    ensures
        portable_candidate(candidate@) ==> b == glob_accepts(pattern@, candidate@),
{
    match globset::GlobBuilder::new(pattern).literal_separator(true).backslash_escape(true).build() {
        Ok(glob) => match globset::GlobSetBuilder::new().add(glob).build() {
            Ok(set) => set.is_match(candidate),
            Err(_) => false,
        },
        Err(_) => false,
    }
}

/// One glob that `@noref[...]` or `[ignore] tokens` declares matches no reference.
///
/// Matched against whole coverage tokens, never resolved. `*` stays inside one path segment and
/// `**` crosses them, so `src/` is only the bare token and `src/**` is the subtree. Whitespace,
/// `@`, and backticks are rejected because no token contains them; `[` `]` `,` are legal in a
/// config entry and simply cannot be written inside a marker body.
#[derive(Debug, PartialEq, Eq, Hash, PartialOrd, Ord)]
pub struct NoRefEntry {
    raw: String,
}

#[derive(Debug, PartialEq, Eq, Hash)]
pub enum NoRefEntryError {
    Empty,
    TooLong { len: usize },
    Whitespace,
    InvalidChar { ch: char },
    Glob { reason: String },
}

/// `NoRefEntryError` with its text taken by value.
pub enum NoRefEntryFault {
    Empty,
    TooLong { len: usize },
    Whitespace,
    InvalidChar { ch: char },
    Glob { reason: Seq<char> },
}

impl View for NoRefEntryError {
    type V = NoRefEntryFault;

    open spec fn view(&self) -> NoRefEntryFault {
        match self {
            NoRefEntryError::Empty => NoRefEntryFault::Empty,
            NoRefEntryError::TooLong { len } => NoRefEntryFault::TooLong { len: *len },
            NoRefEntryError::Whitespace => NoRefEntryFault::Whitespace,
            NoRefEntryError::InvalidChar { ch } => NoRefEntryFault::InvalidChar { ch: *ch },
            NoRefEntryError::Glob { reason } => NoRefEntryFault::Glob { reason: reason@ },
        }
    }
}

pub open spec fn is_entry_char(ch: char) -> bool {
    ch != '@' && ch != '`'
}

pub open spec fn entry_pred() -> spec_fn(char) -> bool {
    |c: char| is_entry_char(c)
}

/// What `NoRefEntry::parse` decides for `raw`, whose UTF-8 length is `len`.
pub open spec fn noref_entry_verdict(raw: Seq<char>, len: usize) -> Result<(), NoRefEntryFault> {
    if raw.len() == 0 {
        Err(NoRefEntryFault::Empty)
    } else if len > MAX_NOREF_ENTRY_BYTES {
        Err(NoRefEntryFault::TooLong { len })
    } else if has_whitespace(raw) {
        Err(NoRefEntryFault::Whitespace)
    } else if !all_chars(raw, entry_pred()) {
        Err(NoRefEntryFault::InvalidChar { ch: raw[first_failing(raw, entry_pred())] })
    } else {
        match glob_build_error(raw) {
            Some(reason) => Err(NoRefEntryFault::Glob { reason }),
            None => Ok(()),
        }
    }
}

impl View for NoRefEntry {
    type V = Seq<char>;

    closed spec fn view(&self) -> Seq<char> {
        self.raw@
    }
}

impl NoRefEntry {
    /// Every entry's text builds as a glob.
    #[verifier::type_invariant]
    closed spec fn builds(&self) -> bool {
        glob_build_error(self.raw@) is None && byte_len(self.raw@) <= MAX_NOREF_ENTRY_BYTES
    }

    pub fn parse(raw: &str) -> (r: Result<Self, NoRefEntryError>)
        ensures
            match noref_entry_verdict(raw@, raw.len()) {
                Ok(()) => r matches Ok(entry) && entry@ == raw@,
                Err(f) => r matches Err(e) && e@ == f,
            },
    {
        let _n = str_byte_len(raw);
        let chars = to_chars(raw);
        if chars.len() == 0 {
            return Err(NoRefEntryError::Empty);
        }
        if raw.len() > MAX_NOREF_ENTRY_BYTES {
            return Err(NoRefEntryError::TooLong { len: raw.len() });
        }
        if contains_whitespace(&chars) {
            return Err(NoRefEntryError::Whitespace);
        }
        let mut i: usize = 0;
        while i < chars.len()
            invariant
                i <= chars@.len(),
                chars@ == raw@,
                raw@.len() > 0,
                raw.len() <= MAX_NOREF_ENTRY_BYTES,
                !has_whitespace(raw@),
                forall|j: int| 0 <= j < i ==> is_entry_char(#[trigger] raw@[j]),
            decreases chars.len() - i,
        {
            let ch = chars[i];
            if ch == '@' || ch == '`' {
                proof {
                    lemma_first_failing(raw@, entry_pred(), i as int);
                    assert(!entry_pred()(raw@[i as int]));
                }
                return Err(NoRefEntryError::InvalidChar { ch });
            }
            i += 1;
        }
        assert(all_chars(raw@, entry_pred()));
        match compile_glob(raw) {
            Ok(_) => Ok(NoRefEntry { raw: raw.to_owned() }),
            Err(reason) => Err(NoRefEntryError::Glob { reason }),
        }
    }

    pub fn as_str(&self) -> (s: &str)
        ensures
            s@ == self@,
    {
        self.raw.as_str()
    }

    /// Whether this entry's glob matches all of `token`, for a token without `\` (see
    /// `portable_candidate`).
    pub fn matches_whole(&self, token: &str) -> (b: bool)
        ensures
            portable_candidate(token@) ==> b == glob_accepts(self@, token@),
    {
        proof {
            use_type_invariant(self);
        }
        glob_match(self.raw.as_str(), token)
    }

    /// Whether two entries have the same text.
    pub fn same(&self, other: &NoRefEntry) -> (b: bool)
        ensures
            b == (self@ == other@),
    {
        self.raw == other.raw
    }
}

impl Clone for NoRefEntry {
    fn clone(&self) -> (r: Self)
        ensures
            r@ == self@,
    {
        proof {
            use_type_invariant(self);
        }
        NoRefEntry { raw: self.raw.clone() }
    }
}

/// One entry of a `@noref[...]` list with the span of its text.
#[derive(Debug, Clone, PartialEq, Eq)]
pub struct NoRefItem {
    pub entry: NoRefEntry,
    pub span: ByteSpan,
}

impl NoRefItem {
    pub fn shifted_by(self, offset: usize) -> (r: Self)
        requires
            self.span.wf(),
            self.span.end + offset <= usize::MAX,
        ensures
            r.entry == self.entry,
            r.span.start == self.span.start + offset,
            r.span.end == self.span.end + offset,
    {
        NoRefItem { entry: self.entry, span: self.span.shifted_by(offset) }
    }
}

#[derive(Debug, PartialEq, Eq, Hash)]
pub enum NoRefError {
    Padded,
    EmptyEntry,
    Entry { raw: String, reason: NoRefEntryError },
}

/// `NoRefError` with its text taken by value.
pub enum NoRefFault {
    Padded,
    EmptyEntry,
    Entry { raw: Seq<char>, reason: NoRefEntryFault },
}

impl View for NoRefError {
    type V = NoRefFault;

    open spec fn view(&self) -> NoRefFault {
        match self {
            NoRefError::Padded => NoRefFault::Padded,
            NoRefError::EmptyEntry => NoRefFault::EmptyEntry,
            NoRefError::Entry { raw, reason } => NoRefFault::Entry { raw: raw@, reason: reason@ },
        }
    }
}

/// Number of whitespace characters `str::trim_start` removes from `s`.
pub open spec fn leading_ws(s: Seq<char>) -> nat
    decreases s.len(),
{
    if s.len() > 0 && is_unicode_whitespace(s[0]) {
        1 + leading_ws(s.drop_first())
    } else {
        0
    }
}

/// One piece of a list starting `start` bytes into the body: its entry's text and byte span.
/// Whitespace after the comma is skipped, except on the first piece where nothing precedes it.
pub open spec fn noref_piece(piece: Seq<char>, first: bool, start: int) -> Result<
    (Seq<char>, (int, int)),
    NoRefFault,
> {
    let lead = if first {
        0
    } else {
        leading_ws(piece) as int
    };
    let raw = piece.skip(lead);
    if raw.len() == 0 {
        Err(NoRefFault::EmptyEntry)
    } else {
        match noref_entry_verdict(raw, blen(raw)) {
            Err(reason) => Err(NoRefFault::Entry { raw, reason }),
            Ok(()) => {
                let s = start + byte_len(piece.take(lead));
                Ok((raw, (s, s + byte_len(raw))))
            },
        }
    }
}

/// The entries of the pieces `k..` of a list, the piece `k` starting `start` bytes into the
/// body, or the first piece's fault.
pub open spec fn noref_items(pieces: Seq<Seq<char>>, k: int, start: int) -> Result<
    Seq<(Seq<char>, (int, int))>,
    NoRefFault,
>
    decreases pieces.len() - k,
{
    if k < 0 || k >= pieces.len() {
        Ok(Seq::empty())
    } else {
        match noref_piece(pieces[k], k == 0, start) {
            Err(f) => Err(f),
            Ok(item) => match noref_items(pieces, k + 1, start + byte_len(pieces[k]) + 1) {
                Err(f) => Err(f),
                Ok(rest) => Ok(seq![item] + rest),
            },
        }
    }
}

/// What `parse_noref_body` decides for `body`: each entry's text and its byte span in the body.
pub open spec fn noref_body_verdict(body: Seq<char>) -> Result<Seq<(Seq<char>, (int, int))>, NoRefFault> {
    if body.len() > 0 && (is_unicode_whitespace(body[0]) || is_unicode_whitespace(body.last())) {
        Err(NoRefFault::Padded)
    } else {
        noref_items(split_on(body, ','), 0, 0)
    }
}

/// The entries and spans of a parsed list, as `noref_body_verdict` states them.
pub open spec fn items_view(items: Seq<NoRefItem>) -> Seq<(Seq<char>, (int, int))> {
    items.map_values(|item: NoRefItem| (item.entry@, (item.span.start as int, item.span.end as int)))
}

/// Parses the body of `@noref[a, b/, c.ts]`. Entries are separated by commas; whitespace is
/// allowed only directly after a comma. Spans are relative to the body.
pub fn parse_noref_body(body: &str) -> (r: Result<Vec<NoRefItem>, NoRefError>)
    ensures
        match noref_body_verdict(body@) {
            Ok(items) => r matches Ok(v) && items_view(v@) == items && forall|i: int|
                0 <= i < v@.len() ==> (#[trigger] v@[i]).span.wf() && v@[i].span.end <= byte_len(
                    body@,
                ),
            Err(f) => r matches Err(e) && e@ == f,
        },
{
    let chars = to_chars(body);
    let n = chars.len();
    if n > 0 && (unicode_whitespace(chars[0]) || unicode_whitespace(chars[n - 1])) {
        return Err(NoRefError::Padded);
    }
    let total = str_byte_len(body);
    let ranges = split_ranges(&chars, ',');
    let ghost pieces = split_on(body@, ',');
    let mut items: Vec<NoRefItem> = Vec::new();
    let mut piece_start: usize = 0;
    let mut k: usize = 0;
    proof {
        crate::chars::lemma_split_on_nonempty(body@, ',');
        assert(body@.take(0).len() == 0);
        assert(items_view(items@) + noref_items(pieces, 0, 0)->Ok_0 =~= noref_items(pieces, 0, 0)->Ok_0);
    }
    while k < ranges.len()
        invariant
            k <= ranges@.len(),
            chars@ == body@,
            total == byte_len(body@),
            pieces == split_on(body@, ','),
            noref_body_verdict(body@) == noref_items(pieces, 0, 0),
            crate::chars::ranges_of_split(body@, ',', ranges@),
            ranges@[0].0 == 0,
            forall|j: int|
                0 <= j < ranges@.len() - 1 ==> (#[trigger] ranges@[j + 1]).0 == ranges@[j].1 + 1
                    && body@[ranges@[j].1 as int] == ',',
            k < ranges@.len() ==> piece_start == byte_len(body@.take(ranges@[k as int].0 as int)),
            noref_items(pieces, 0, 0) == match noref_items(pieces, k as int, piece_start as int) {
                Err(f) => Err(f),
                Ok(rest) => Ok(items_view(items@) + rest),
            },
            forall|i: int|
                0 <= i < items@.len() ==> (#[trigger] items@[i]).span.wf() && items@[i].span.end
                    <= byte_len(body@),
        decreases ranges.len() - k,
    {
        let (a, b) = ranges[k];
        assert(pieces[k as int] == body@.subrange(a as int, b as int));
        proof {
            crate::chars::lemma_byte_len_monotone(body@, b as int, body@.len() as int);
            assert(body@.take(body@.len() as int) =~= body@);
        }
        let item = match parse_piece(body, &chars, a, b, k == 0, piece_start) {
            Ok(item) => item,
            Err(e) => {
                assert(noref_items(pieces, k as int, piece_start as int) == Err::<
                    Seq<(Seq<char>, (int, int))>,
                    NoRefFault,
                >(e@));
                return Err(e);
            },
        };
        let ghost old_items = items@;
        let end = item.span.end;
        items.push(item);
        assert(items_view(items@) =~= items_view(old_items) + seq![
            (item.entry@, (item.span.start as int, item.span.end as int)),
        ]);
        proof {
            lemma_byte_len_subrange(body@, a as int, b as int);
            let rest = noref_items(pieces, k + 1, piece_start + byte_len(pieces[k as int]) + 1);
            if rest is Ok {
                assert(items_view(old_items) + (seq![
                    (item.entry@, (item.span.start as int, item.span.end as int)),
                ] + rest->Ok_0) =~= items_view(items@) + rest->Ok_0);
            }
        }
        if k + 1 < ranges.len() {
            proof {
                assert(ranges@[k + 1].0 == b + 1);
                crate::chars::lemma_byte_len_take(body@, b as int);
                crate::chars::lemma_byte_len_monotone(body@, b + 1, body@.len() as int);
            }
            piece_start = end + 1;
        }
        k += 1;
    }
    Ok(items)
}

/// Parses the piece `a..b` of a list, which starts `piece_start` bytes into the body.
fn parse_piece(
    body: &str,
    chars: &Vec<char>,
    a: usize,
    b: usize,
    first: bool,
    piece_start: usize,
) -> (r: Result<NoRefItem, NoRefError>)
    requires
        chars@ == body@,
        a <= b <= chars@.len(),
        piece_start == byte_len(body@.take(a as int)),
        byte_len(body@.take(b as int)) <= usize::MAX,
    ensures
        match noref_piece(body@.subrange(a as int, b as int), first, piece_start as int) {
            Ok((raw, (s, e))) => r matches Ok(item) && item.entry@ == raw && item.span.start == s
                && item.span.end == e && item.span.wf()
                && e == byte_len(body@.take(b as int)),
            Err(f) => r matches Err(err) && err@ == f,
        },
{
    let ghost piece = body@.subrange(a as int, b as int);
    let mut lead: usize = 0;
    assert(piece.skip(0) =~= piece);
    if !first {
        while a + lead < b && unicode_whitespace(chars[a + lead])
            invariant
                a <= b <= chars@.len(),
                a + lead <= b,
                piece == chars@.subrange(a as int, b as int),
                leading_ws(piece) == lead + leading_ws(piece.skip(lead as int)),
            decreases b - a - lead,
        {
            assert(piece.skip(lead as int)[0] == chars@[a + lead]);
            assert(piece.skip(lead as int).drop_first() =~= piece.skip(lead + 1));
            lead += 1;
        }
        if a + lead < b {
            assert(piece.skip(lead as int)[0] == chars@[a + lead]);
        }
        assert(leading_ws(piece.skip(lead as int)) == 0);
    }
    let ghost raw_view = piece.skip(lead as int);
    if a + lead == b {
        assert(raw_view.len() == 0);
        return Err(NoRefError::EmptyEntry);
    }
    let raw = body.substring_char(a + lead, b);
    assert(raw@ =~= raw_view);
    proof {
        lemma_byte_len_is_encoded_len(raw@);
    }
    let entry = match NoRefEntry::parse(raw) {
        Ok(entry) => entry,
        Err(reason) => {
            return Err(NoRefError::Entry { raw: raw.to_owned(), reason });
        },
    };
    proof {
        lemma_byte_len_subrange(body@, a as int, (a + lead) as int);
        lemma_byte_len_subrange(body@, (a + lead) as int, b as int);
        crate::chars::lemma_byte_len_monotone(body@, (a + lead) as int, b as int);
        assert(body@.subrange(a as int, (a + lead) as int) =~= piece.take(lead as int));
    }
    let lead_bytes = str_byte_len(body.substring_char(a, a + lead));
    let raw_bytes = str_byte_len(raw);
    let start = piece_start + lead_bytes;
    let end = start + raw_bytes;
    Ok(NoRefItem { entry, span: ByteSpan::new(start, end) })
}

/// What an invalid ignore entry is reported as.
pub open spec fn noref_entry_message(e: NoRefEntryFault) -> Seq<char> {
    match e {
        NoRefEntryFault::Empty => "entry is empty"@,
        NoRefEntryFault::TooLong { len } => "entry is "@ + decimal(len as nat) + " bytes; the limit is "@ + decimal(MAX_NOREF_ENTRY_BYTES as nat),
        NoRefEntryFault::Whitespace => "entries contain no whitespace; separate entries with commas"@,
        NoRefEntryFault::InvalidChar { ch } => ("entry contains `"@).push(ch) + "`, which cannot appear in an ignored string"@,
        NoRefEntryFault::Glob { reason } => "entry is not a valid glob: "@ + reason,
    }
}

impl NoRefEntryError {
    /// The message this error is reported with.
    pub fn message(&self) -> (s: String)
        ensures
            s@ == noref_entry_message(self@),
    {
        match self {
            NoRefEntryError::Empty => {
                "entry is empty".to_owned()
            },
            NoRefEntryError::TooLong { len } => {
                let mut s = "entry is ".to_owned();
                push_text(&mut s, &decimal_text(*len as u64));
                push_text(&mut s, " bytes; the limit is ");
                push_text(&mut s, &decimal_text(MAX_NOREF_ENTRY_BYTES as u64));
                s
            },
            NoRefEntryError::Whitespace => {
                "entries contain no whitespace; separate entries with commas".to_owned()
            },
            NoRefEntryError::InvalidChar { ch } => {
                let mut s = "entry contains `".to_owned();
                push_char(&mut s, *ch);
                push_text(&mut s, "`, which cannot appear in an ignored string");
                s
            },
            NoRefEntryError::Glob { reason } => {
                let mut s = "entry is not a valid glob: ".to_owned();
                push_text(&mut s, reason.as_str());
                s
            },
        }
    }
}

/// What an invalid ignore list is reported as.
pub open spec fn noref_message(e: NoRefFault) -> Seq<char> {
    match e {
        NoRefFault::Padded => "leading or trailing whitespace"@,
        NoRefFault::EmptyEntry => "empty entry; remove the extra comma"@,
        NoRefFault::Entry { raw, reason } => "`"@ + raw + "`: "@ + noref_entry_message(reason),
    }
}

impl NoRefError {
    /// The message this error is reported with.
    pub fn message(&self) -> (s: String)
        ensures
            s@ == noref_message(self@),
    {
        match self {
            NoRefError::Padded => {
                "leading or trailing whitespace".to_owned()
            },
            NoRefError::EmptyEntry => {
                "empty entry; remove the extra comma".to_owned()
            },
            NoRefError::Entry { raw, reason } => {
                let mut s = "`".to_owned();
                push_text(&mut s, raw.as_str());
                push_text(&mut s, "`: ");
                push_text(&mut s, &reason.message());
                s
            },
        }
    }
}

impl NoRefEntryError {
    /// Whether the two errors are the same, as their views compare.
    pub fn same_as(&self, other: &NoRefEntryError) -> (b: bool)
        ensures
            b == (self@ == other@),
    {
        match (self, other) {
            (NoRefEntryError::Empty, NoRefEntryError::Empty) => true,
            (NoRefEntryError::TooLong { len: len1 }, NoRefEntryError::TooLong { len: len2 }) => *len1 == *len2,
            (NoRefEntryError::Whitespace, NoRefEntryError::Whitespace) => true,
            (NoRefEntryError::InvalidChar { ch: ch1 }, NoRefEntryError::InvalidChar { ch: ch2 }) => *ch1 == *ch2,
            (NoRefEntryError::Glob { reason: reason1 }, NoRefEntryError::Glob { reason: reason2 }) => same_text(reason1.as_str(), reason2.as_str()),
            _ => false,
        }
    }
}

impl Clone for NoRefEntryError {
    fn clone(&self) -> (r: Self)
        ensures
            r@ == self@,
    {
        match self {
            NoRefEntryError::Empty => NoRefEntryError::Empty,
            NoRefEntryError::TooLong { len } => NoRefEntryError::TooLong { len: *len },
            NoRefEntryError::Whitespace => NoRefEntryError::Whitespace,
            NoRefEntryError::InvalidChar { ch } => NoRefEntryError::InvalidChar { ch: *ch },
            NoRefEntryError::Glob { reason } => NoRefEntryError::Glob { reason: reason.clone() },
        }
    }
}

impl NoRefError {
    /// Whether the two errors are the same, as their views compare.
    pub fn same_as(&self, other: &NoRefError) -> (b: bool)
        ensures
            b == (self@ == other@),
    {
        match (self, other) {
            (NoRefError::Padded, NoRefError::Padded) => true,
            (NoRefError::EmptyEntry, NoRefError::EmptyEntry) => true,
            (NoRefError::Entry { raw: raw1, reason: reason1 }, NoRefError::Entry { raw: raw2, reason: reason2 }) => same_text(raw1.as_str(), raw2.as_str()) && reason1.same_as(reason2),
            _ => false,
        }
    }
}

impl Clone for NoRefError {
    fn clone(&self) -> (r: Self)
        ensures
            r@ == self@,
    {
        match self {
            NoRefError::Padded => NoRefError::Padded,
            NoRefError::EmptyEntry => NoRefError::EmptyEntry,
            NoRefError::Entry { raw, reason } => NoRefError::Entry { raw: raw.clone(), reason: reason.clone() },
        }
    }
}

} // verus!
