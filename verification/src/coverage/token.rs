//! Reference-shaped tokens: what coverage looks for in prose, code spans, and comments before
//! asking whether any of it resolves.
use vstd::prelude::*;

use crate::chars::{
    all_chars, ascii_lower, first_index_of, find_first, is_ascii_alnum, is_ascii_alpha,
    push_char, same_text, to_ascii_lower, to_chars,
};
use crate::coverage::linguist::{is_linguist, is_linguist_extension};
use crate::chars::{byte_len, byte_offsets, str_byte_len};
use crate::marker::lex::{is_alphanumeric, off, unicode_alphanumeric};
use crate::marker::path::{find_last, last_index_of};
use crate::marker::Alias;
use crate::span::ByteSpan;
use crate::text::RegionKind;
use crate::chars::{is_unicode_whitespace, unicode_whitespace};

verus! {

broadcast use vstd::string::group_string_axioms;

/// `s` with every ASCII capital lowered.
pub open spec fn lower_text(s: Seq<char>) -> Seq<char> {
    s.map_values(|c: char| ascii_lower(c))
}

/// Extensions a `stem.ext` token may carry: GitHub Linguist's list plus every extension the scan
/// walked past in this root. The union keeps a `.txt` mention a candidate after the last such
/// file is renamed, and keeps an in-house format a candidate as long as one such file exists.
#[derive(Debug, Clone, Copy)]
pub struct KnownExtensions<'a> {
    /// Lowercased extensions seen in the root.
    repo: &'a Vec<String>,
}

impl<'a> View for KnownExtensions<'a> {
    type V = Seq<Seq<char>>;

    closed spec fn view(&self) -> Seq<Seq<char>> {
        self.repo@.map_values(|e: String| e@)
    }
}

/// Whether `extension` is known, ignoring ASCII case.
pub open spec fn is_known(extension: Seq<char>, repo: Seq<Seq<char>>) -> bool {
    is_linguist(lower_text(extension)) || repo.contains(lower_text(extension))
}

impl<'a> KnownExtensions<'a> {
    pub fn new(repo: &'a Vec<String>) -> (known: Self)
        ensures
            known@ == repo@.map_values(|e: String| e@),
    {
        KnownExtensions { repo }
    }

    pub fn contains(self, extension: &str) -> (b: bool)
        ensures
            b == is_known(extension@, self@),
    {
        let chars = to_chars(extension);
        let mut lower = String::new();
        let mut i: usize = 0;
        while i < chars.len()
            invariant
                i <= chars@.len(),
                chars@ == extension@,
                lower@ == lower_text(extension@.take(i as int)),
            decreases chars.len() - i,
        {
            push_char(&mut lower, to_ascii_lower(chars[i]));
            assert(lower_text(extension@.take(i + 1)) =~= lower_text(extension@.take(i as int)).push(
                ascii_lower(chars@[i as int]),
            ));
            i += 1;
        }
        assert(extension@.take(i as int) =~= extension@);
        if is_linguist_extension(lower.as_str()) {
            return true;
        }
        let ghost texts = self@;
        let mut k: usize = 0;
        while k < self.repo.len()
            invariant
                k <= self.repo@.len(),
                texts == self.repo@.map_values(|e: String| e@),
                lower@ == lower_text(extension@),
                forall|j: int| 0 <= j < k ==> texts[j] != lower@,
            decreases self.repo.len() - k,
        {
            if same_text(self.repo[k].as_str(), lower.as_str()) {
                assert(texts[k as int] == lower@);
                return true;
            }
            k += 1;
        }
        false
    }
}

#[derive(Debug, Clone, Copy, PartialEq, Eq, Structural, Hash)]
pub enum PathShape {
    /// The last segment is `stem.ext` with a known extension, optionally followed by `#Symbol`.
    File,
    /// Ends in `/`.
    Directory,
    /// Ends in `/*` or `/**`; proposed as the directory it globs.
    Glob,
}

pub open spec fn ends_with_glob(t: Seq<char>) -> bool {
    let n = t.len();
    (n >= 2 && t[n - 2] == '/' && t[n - 1] == '*') || (n >= 3 && t[n - 3] == '/' && t[n - 2]
        == '*' && t[n - 1] == '*')
}

/// Whether every `.`-separated piece of `s` is one character long: `s` alternates non-dot
/// characters and dots, starting and ending with a non-dot.
pub open spec fn all_single_char_pieces(s: Seq<char>) -> bool {
    &&& s.len() % 2 == 1
    &&& forall|i: int| 0 <= i < s.len() ==> ((#[trigger] s[i] == '.') <==> (i % 2 == 1))
}

pub open spec fn has_ascii_letter(s: Seq<char>) -> bool {
    exists|i: int| 0 <= i < s.len() && is_ascii_alpha(#[trigger] s[i])
}

/// The last `/`-separated piece of the path part (before any `#`) of a token.
pub open spec fn last_piece(token: Seq<char>) -> Seq<char> {
    let h = first_index_of(token, '#');
    let path = if h >= 0 {
        token.take(h)
    } else {
        token
    };
    path.skip(last_index_of(path, '/') + 1)
}

/// Whether a token is a candidate, and as what. Directories announce themselves with a tail;
/// files need an extension somebody has actually used. `line/col`, `Apache-2.0/MIT`, `e.g`, and
/// `1.x` all fall out here.
pub open spec fn shape_of(token: Seq<char>, repo: Seq<Seq<char>>) -> Option<PathShape> {
    if ends_with_glob(token) {
        Some(PathShape::Glob)
    } else if token.len() > 0 && token.last() == '/' {
        Some(PathShape::Directory)
    } else {
        let last = last_piece(token);
        let dot = last_index_of(last, '.');
        if dot < 0 {
            None
        } else if !has_ascii_letter(last.take(dot)) {
            None
        } else if all_single_char_pieces(last) {
            None
        } else if is_known(last.skip(dot + 1), repo) {
            Some(PathShape::File)
        } else {
            None
        }
    }
}

pub fn path_shape(token: &str, known: KnownExtensions<'_>) -> (r: Option<PathShape>)
    ensures
        r == shape_of(token@, known@),
{
    let chars = to_chars(token);
    let n = chars.len();
    if (n >= 2 && chars[n - 2] == '/' && chars[n - 1] == '*') || (n >= 3 && chars[n - 3] == '/'
        && chars[n - 2] == '*' && chars[n - 1] == '*') {
        return Some(PathShape::Glob);
    }
    if n > 0 && chars[n - 1] == '/' {
        return Some(PathShape::Directory);
    }
    assert(chars@.subrange(0, n as int) =~= token@);
    let path_end = match find_first(&chars, 0, n, '#') {
        Some(h) => h,
        None => n,
    };
    let ghost path = token@.take(path_end as int);
    assert(chars@.subrange(0, path_end as int) =~= path);
    let start = match find_last(&chars, 0, path_end, '/') {
        Some(s) => s + 1,
        None => 0,
    };
    let ghost last = path.skip(start as int);
    assert(chars@.subrange(start as int, path_end as int) =~= last);
    assert(last =~= last_piece(token@));
    let dot = match find_last(&chars, start, path_end, '.') {
        Some(d) => d,
        None => {
            return None;
        },
    };
    let lettered = any_ascii_letter(&chars, start, dot);
    assert(chars@.subrange(start as int, dot as int) =~= last.take(dot - start));
    if !lettered {
        return None;
    }
    if single_char_pieces(&chars, start, path_end) {
        return None;
    }
    let extension = token.substring_char(dot + 1, path_end);
    assert(extension@ =~= last.skip(dot - start + 1));
    if known.contains(extension) {
        Some(PathShape::File)
    } else {
        None
    }
}

/// Whether the characters `a..b` hold an ASCII letter.
fn any_ascii_letter(chars: &Vec<char>, a: usize, b: usize) -> (r: bool)
    requires
        a <= b <= chars@.len(),
    ensures
        r == has_ascii_letter(chars@.subrange(a as int, b as int)),
{
    let ghost s = chars@.subrange(a as int, b as int);
    let mut i = a;
    while i < b
        invariant
            a <= i <= b <= chars@.len(),
            s == chars@.subrange(a as int, b as int),
            forall|j: int| 0 <= j < i - a ==> !is_ascii_alpha(#[trigger] s[j]),
        decreases b - i,
    {
        let c = chars[i];
        if ('a' <= c && c <= 'z') || ('A' <= c && c <= 'Z') {
            assert(is_ascii_alpha(s[i - a]));
            return true;
        }
        assert(s[i - a] == c);
        i += 1;
    }
    false
}

/// Whether every `.`-separated piece of the characters `a..b` is one character long.
fn single_char_pieces(chars: &Vec<char>, a: usize, b: usize) -> (r: bool)
    requires
        a <= b <= chars@.len(),
    ensures
        r == all_single_char_pieces(chars@.subrange(a as int, b as int)),
{
    let ghost s = chars@.subrange(a as int, b as int);
    if (b - a) % 2 != 1 {
        return false;
    }
    let mut i = a;
    while i < b
        invariant
            a <= i <= b <= chars@.len(),
            s == chars@.subrange(a as int, b as int),
            forall|j: int| 0 <= j < i - a ==> ((#[trigger] s[j] == '.') <==> (j % 2 == 1)),
        decreases b - i,
    {
        let is_dot = chars[i] == '.';
        assert(s[i - a] == chars@[i as int]);
        if is_dot != ((i - a) % 2 == 1) {
            return false;
        }
        i += 1;
    }
    true
}

pub open spec fn is_path_class(c: char) -> bool {
    is_ascii_alnum(c) || c == '_' || c == '.' || c == '-'
}

pub open spec fn path_class_pred() -> spec_fn(char) -> bool {
    |c: char| is_path_class(c)
}

pub open spec fn is_ident_start(c: char) -> bool {
    is_ascii_alpha(c) || c == '_' || c == '$'
}

pub open spec fn is_ident_char(c: char) -> bool {
    is_ascii_alnum(c) || c == '_' || c == '$'
}

pub open spec fn ident_pred() -> spec_fn(char) -> bool {
    |c: char| is_ident_char(c)
}

/// The first index from `i` on whose character fails `p`, or the length of `t`.
pub open spec fn run_end(t: Seq<char>, i: int, p: spec_fn(char) -> bool) -> int
    decreases t.len() - i,
{
    if i < 0 || i >= t.len() {
        t.len() as int
    } else if p(t[i]) {
        run_end(t, i + 1, p)
    } else {
        i
    }
}

pub proof fn lemma_run_end(t: Seq<char>, i: int, p: spec_fn(char) -> bool)
    requires
        0 <= i <= t.len(),
    ensures
        i <= run_end(t, i, p) <= t.len(),
        forall|q: int| i <= q < run_end(t, i, p) ==> p(#[trigger] t[q]),
        run_end(t, i, p) < t.len() ==> !p(t[run_end(t, i, p)]),
    decreases t.len() - i,
{
    if i < t.len() && p(t[i]) {
        lemma_run_end(t, i + 1, p);
    }
}

/// After a run of path characters ending at `i`: the end of the `/`-separated segments that
/// follow.
pub open spec fn segments_end(t: Seq<char>, i: int) -> int
    decreases t.len() - i,
{
    if 0 <= i && i + 1 < t.len() && t[i] == '/' && is_path_class(t[i + 1]) {
        proof {
            lemma_run_end(t, i + 1, path_class_pred());
        }
        segments_end(t, run_end(t, i + 1, path_class_pred()))
    } else {
        i
    }
}

pub proof fn lemma_segments_end(t: Seq<char>, i: int)
    requires
        0 <= i <= t.len(),
    ensures
        i <= segments_end(t, i) <= t.len(),
    decreases t.len() - i,
{
    if 0 <= i && i + 1 < t.len() && t[i] == '/' && is_path_class(t[i + 1]) {
        lemma_run_end(t, i + 1, path_class_pred());
        lemma_segments_end(t, run_end(t, i + 1, path_class_pred()));
    }
}

/// The optional tail of a path token at `i`: `/` with up to two `*`, or `#` and a symbol name.
pub open spec fn tail_end(t: Seq<char>, i: int) -> int {
    if 0 <= i < t.len() && t[i] == '/' {
        if i + 1 < t.len() && t[i + 1] == '*' {
            if i + 2 < t.len() && t[i + 2] == '*' {
                i + 3
            } else {
                i + 2
            }
        } else {
            i + 1
        }
    } else if 0 <= i && i + 1 < t.len() && t[i] == '#' && is_ident_start(t[i + 1]) {
        run_end(t, i + 2, ident_pred())
    } else {
        i
    }
}

/// Where the path token that starts at `p` ends: path characters in `/`-separated segments,
/// then the optional tail.
pub open spec fn path_match_end(t: Seq<char>, p: int) -> int {
    tail_end(t, segments_end(t, run_end(t, p, path_class_pred())))
}

pub proof fn lemma_path_match_end(t: Seq<char>, p: int)
    requires
        0 <= p < t.len(),
        is_path_class(t[p]),
    ensures
        p < path_match_end(t, p) <= t.len(),
{
    lemma_run_end(t, p, path_class_pred());
    let r = run_end(t, p, path_class_pred());
    assert(r > p);
    lemma_segments_end(t, r);
    let g = segments_end(t, r);
    if 0 <= g && g + 1 < t.len() && t[g] == '#' && is_ident_start(t[g + 1]) {
        lemma_run_end(t, g + 2, ident_pred());
    }
}

/// The path tokens of `t` from `p` on, leftmost first and never overlapping, as character
/// ranges.
pub open spec fn path_matches(t: Seq<char>, p: int) -> Seq<(int, int)>
    decreases t.len() - p,
{
    if p < 0 || p >= t.len() {
        Seq::empty()
    } else if is_path_class(t[p]) {
        proof {
            lemma_path_match_end(t, p);
        }
        seq![(p, path_match_end(t, p))] + path_matches(t, path_match_end(t, p))
    } else {
        path_matches(t, p + 1)
    }
}

pub open spec fn is_sentence_punct(c: char) -> bool {
    c == '.' || c == ',' || c == ';' || c == ':'
}

/// `e` moved back over trailing sentence punctuation, never past `s`.
pub open spec fn trimmed_end(t: Seq<char>, s: int, e: int) -> int
    decreases e - s,
{
    if s < e && e <= t.len() && is_sentence_punct(t[e - 1]) {
        trimmed_end(t, s, e - 1)
    } else {
        e
    }
}

/// Preceded by a path or word character, so the token at `s` is the tail of something longer.
pub open spec fn glued_before(t: Seq<char>, s: int) -> bool {
    s > 0 && (unicode_alphanumeric(t[s - 1]) || t[s - 1] == '/' || t[s - 1] == '.' || t[s - 1]
        == '-' || t[s - 1] == '_' || t[s - 1] == '@' || t[s - 1] == '[' || t[s - 1] == '~')
}

pub open spec fn after_url_scheme(t: Seq<char>, s: int) -> bool {
    s >= 3 && t[s - 3] == ':' && t[s - 2] == '/' && t[s - 1] == '/'
}

pub open spec fn is_path_char(c: char) -> bool {
    is_ascii_alnum(c) || c == '_' || c == '-' || c == '/' || c == '*'
}

/// Part of a glob rather than a reference: `*.generated.ts`, or a `/*` tail that keeps going
/// (`src/*.rs`, `src/**/*.md`). A `*` before a letter is emphasis and stays.
pub open spec fn glob_around(t: Seq<char>, s: int, e: int) -> bool {
    ||| (s > 0 && t[s - 1] == '*' && s < t.len() && t[s] == '.')
    ||| (e > 0 && t[e - 1] == '*' && e < t.len() && if t[e] == '.' {
        e + 1 < t.len() && is_path_char(t[e + 1])
    } else {
        is_path_char(t[e])
    })
}

/// What a token is a candidate as: a path of some shape, or one of the file's aliases.
pub enum ShapeView {
    Path(PathShape),
    Alias(Seq<char>),
}

/// A token with its byte span relative to the region text.
pub struct TokenSpec {
    pub span: (int, int),
    pub text: Seq<char>,
    pub shape: ShapeView,
}

/// The candidate that the path match `s..e` of `t` yields, if any.
pub open spec fn path_token_of(t: Seq<char>, s: int, e: int, repo: Seq<Seq<char>>) -> Option<
    TokenSpec,
> {
    let end = trimmed_end(t, s, e);
    if glued_before(t, s) || after_url_scheme(t, s) || glob_around(t, s, end) {
        None
    } else {
        match shape_of(t.subrange(s, end), repo) {
            None => None,
            Some(shape) => Some(
                TokenSpec {
                    span: (off(t, s), off(t, end)),
                    text: t.subrange(s, end),
                    shape: ShapeView::Path(shape),
                },
            ),
        }
    }
}

/// The candidates the path matches `found` of `t` yield, in order.
pub open spec fn path_tokens_from(t: Seq<char>, found: Seq<(int, int)>, repo: Seq<Seq<char>>) -> Seq<
    TokenSpec,
>
    decreases found.len(),
{
    if found.len() == 0 {
        Seq::empty()
    } else {
        let rest = path_tokens_from(t, found.drop_first(), repo);
        match path_token_of(t, found[0].0, found[0].1, repo) {
            Some(token) => seq![token] + rest,
            None => rest,
        }
    }
}

#[derive(Debug, Clone, PartialEq, Eq)]
pub enum Shape {
    Path(PathShape),
    /// A word equal to an alias this file declares: the highest-confidence candidate there is.
    Alias(Alias),
}

#[derive(Debug, Clone, PartialEq, Eq)]
pub struct Token {
    /// Relative to the region text. For a code span this is the whole span, backticks included.
    pub span: ByteSpan,
    /// The reference-shaped content without any backticks.
    pub text: String,
    pub shape: Shape,
}

impl View for Token {
    type V = TokenSpec;

    open spec fn view(&self) -> TokenSpec {
        TokenSpec {
            span: (self.span.start as int, self.span.end as int),
            text: self.text@,
            shape: match self.shape {
                Shape::Path(shape) => ShapeView::Path(shape),
                Shape::Alias(alias) => ShapeView::Alias(alias@),
            },
        }
    }
}

pub open spec fn tokens_view(tokens: Seq<Token>) -> Seq<TokenSpec> {
    tokens.map_values(|token: Token| token@)
}

/// `run_end` with the path character class.
fn path_run_end(chars: &Vec<char>, i: usize) -> (r: usize)
    requires
        i <= chars@.len(),
    ensures
        r == run_end(chars@, i as int, path_class_pred()),
        i <= r <= chars@.len(),
{
    proof {
        lemma_run_end(chars@, i as int, path_class_pred());
    }
    let mut q = i;
    while q < chars.len() && (ascii_alnum_char(chars[q]) || chars[q] == '_' || chars[q] == '.'
        || chars[q] == '-')
        invariant
            i <= q <= chars@.len(),
            run_end(chars@, i as int, path_class_pred()) == run_end(chars@, q as int, path_class_pred()),
        decreases chars.len() - q,
    {
        q += 1;
    }
    q
}

/// `run_end` with the word character class.
fn word_end(chars: &Vec<char>, i: usize) -> (r: usize)
    requires
        i <= chars@.len(),
    ensures
        r == run_end(chars@, i as int, word_pred()),
        i <= r <= chars@.len(),
{
    proof {
        lemma_run_end(chars@, i as int, word_pred());
    }
    let mut q = i;
    while q < chars.len() && (ascii_alnum_char(chars[q]) || chars[q] == '_')
        invariant
            i <= q <= chars@.len(),
            run_end(chars@, i as int, word_pred()) == run_end(chars@, q as int, word_pred()),
        decreases chars.len() - q,
    {
        q += 1;
    }
    q
}

/// `run_end` with the characters a code span may hold.
fn span_end(chars: &Vec<char>, i: usize) -> (r: usize)
    requires
        i <= chars@.len(),
    ensures
        r == run_end(chars@, i as int, span_char_pred()),
        i <= r <= chars@.len(),
{
    proof {
        lemma_run_end(chars@, i as int, span_char_pred());
    }
    let mut q = i;
    while q < chars.len() && chars[q] != '`' && chars[q] != '\n'
        invariant
            i <= q <= chars@.len(),
            run_end(chars@, i as int, span_char_pred()) == run_end(chars@, q as int, span_char_pred()),
        decreases chars.len() - q,
    {
        q += 1;
    }
    q
}

/// `run_end` with the identifier character class.
fn ident_run_end(chars: &Vec<char>, i: usize) -> (r: usize)
    requires
        i <= chars@.len(),
    ensures
        r == run_end(chars@, i as int, ident_pred()),
        i <= r <= chars@.len(),
{
    proof {
        lemma_run_end(chars@, i as int, ident_pred());
    }
    let mut q = i;
    while q < chars.len() && (ascii_alnum_char(chars[q]) || chars[q] == '_' || chars[q] == '$')
        invariant
            i <= q <= chars@.len(),
            run_end(chars@, i as int, ident_pred()) == run_end(chars@, q as int, ident_pred()),
        decreases chars.len() - q,
    {
        q += 1;
    }
    q
}

fn ascii_alnum_char(c: char) -> (b: bool)
    ensures
        b == is_ascii_alnum(c),
{
    ('a' <= c && c <= 'z') || ('A' <= c && c <= 'Z') || ('0' <= c && c <= '9')
}

fn ascii_alpha_char(c: char) -> (b: bool)
    ensures
        b == is_ascii_alpha(c),
{
    ('a' <= c && c <= 'z') || ('A' <= c && c <= 'Z')
}

/// `path_match_end`, computed.
fn match_end(chars: &Vec<char>, p: usize) -> (e: usize)
    requires
        p < chars@.len(),
        is_path_class(chars@[p as int]),
    ensures
        e == path_match_end(chars@, p as int),
        p < e <= chars@.len(),
{
    proof {
        lemma_path_match_end(chars@, p as int);
    }
    let n = chars.len();
    let mut g = path_run_end(chars, p);
    proof {
        lemma_segments_end(chars@, g as int);
    }
    while g < n && n - g > 1 && chars[g] == '/' && (ascii_alnum_char(chars[g + 1]) || chars[g + 1]
        == '_' || chars[g + 1] == '.' || chars[g + 1] == '-')
        invariant
            n == chars@.len(),
            g <= n,
            segments_end(chars@, run_end(chars@, p as int, path_class_pred())) == segments_end(
                chars@,
                g as int,
            ),
        decreases n - g,
    {
        proof {
            lemma_run_end(chars@, g + 1, path_class_pred());
        }
        g = path_run_end(chars, g + 1);
    }
    tail_at(chars, g)
}

/// `tail_end`, computed.
fn tail_at(chars: &Vec<char>, g: usize) -> (e: usize)
    requires
        g <= chars@.len(),
    ensures
        e == tail_end(chars@, g as int),
{
    let n = chars.len();
    if g < n && chars[g] == '/' {
        if n - g > 1 && chars[g + 1] == '*' {
            if n - g > 2 && chars[g + 2] == '*' {
                g + 3
            } else {
                g + 2
            }
        } else {
            g + 1
        }
    } else if g < n && n - g > 1 && chars[g] == '#' && (ascii_alpha_char(chars[g + 1]) || chars[g
        + 1] == '_' || chars[g + 1] == '$') {
        ident_run_end(chars, g + 2)
    } else {
        g
    }
}

pub open spec fn offsets_of(chars: Seq<char>, offsets: Seq<usize>) -> bool {
    &&& offsets.len() == chars.len() + 1
    &&& forall|i: int| 0 <= i <= chars.len() ==> offsets[i] == off(chars, i)
}

/// Character offsets of `text` and their byte offsets.
fn chars_and_offsets(text: &str) -> (r: (Vec<char>, Vec<usize>))
    ensures
        r.0@ == text@,
        offsets_of(text@, r.1@),
{
    let chars = to_chars(text);
    let _ = str_byte_len(text);
    let offsets = byte_offsets(&chars);
    (chars, offsets)
}

fn path_char(c: char) -> (b: bool)
    ensures
        b == is_path_char(c),
{
    ascii_alnum_char(c) || c == '_' || c == '-' || c == '/' || c == '*'
}

/// The candidate that the path match `s..e` yields, as `path_token_of` decides.
fn path_token_at(
    text: &str,
    chars: &Vec<char>,
    offsets: &Vec<usize>,
    known: KnownExtensions<'_>,
    s: usize,
    e: usize,
) -> (r: Option<Token>)
    requires
        chars@ == text@,
        offsets_of(text@, offsets@),
        s < e <= chars@.len(),
    ensures
        match path_token_of(text@, s as int, e as int, known@) {
            Some(token) => r matches Some(x) && x@ == token,
            None => r is None,
        },
{
    let ghost t = text@;
    let n = chars.len();
    let mut end = e;
    while end > s && (chars[end - 1] == '.' || chars[end - 1] == ',' || chars[end - 1] == ';'
        || chars[end - 1] == ':')
        invariant
            s <= end <= e <= n,
            n == chars@.len(),
            chars@ == t,
            trimmed_end(t, s as int, e as int) == trimmed_end(t, s as int, end as int),
        decreases end - s,
    {
        end -= 1;
    }
    let glued = if s > 0 {
        let prev = chars[s - 1];
        is_alphanumeric(prev) || prev == '/' || prev == '.' || prev == '-' || prev == '_' || prev
            == '@' || prev == '[' || prev == '~'
    } else {
        false
    };
    let url = s >= 3 && chars[s - 3] == ':' && chars[s - 2] == '/' && chars[s - 1] == '/';
    let glob = (s > 0 && chars[s - 1] == '*' && s < n && chars[s] == '.') || (end > 0 && chars[end
        - 1] == '*' && end < n && if chars[end] == '.' {
        n - end > 1 && path_char(chars[end + 1])
    } else {
        path_char(chars[end])
    });
    if glued || url || glob {
        return None;
    }
    let token = text.substring_char(s, end);
    proof {
        crate::chars::lemma_byte_len_monotone(t, s as int, end as int);
    }
    match path_shape(token, known) {
        None => None,
        Some(shape) => Some(
            Token {
                span: ByteSpan::new(offsets[s], offsets[end]),
                text: token.to_owned(),
                shape: Shape::Path(shape),
            },
        ),
    }
}

/// Path candidates in `text`, with spans relative to it.
pub fn path_tokens(text: &str, known: KnownExtensions<'_>) -> (r: Vec<Token>)
    ensures
        tokens_view(r@) == path_tokens_from(text@, path_matches(text@, 0), known@),
{
    let ghost t = text@;
    let ghost all = path_tokens_from(t, path_matches(t, 0), known@);
    let (chars, offsets) = chars_and_offsets(text);
    let n = chars.len();
    let mut out: Vec<Token> = Vec::new();
    let mut p: usize = 0;
    while p < n
        invariant
            chars@ == t,
            t == text@,
            n == t.len(),
            offsets_of(t, offsets@),
            p <= n,
            all == path_tokens_from(t, path_matches(t, 0), known@),
            tokens_view(out@) + path_tokens_from(t, path_matches(t, p as int), known@) == all,
        decreases n - p,
    {
        let c = chars[p];
        if ascii_alnum_char(c) || c == '_' || c == '.' || c == '-' {
            let e = match_end(&chars, p);
            let ghost found = path_matches(t, p as int);
            assert(found.drop_first() =~= path_matches(t, e as int));
            let ghost before = tokens_view(out@);
            match path_token_at(text, &chars, &offsets, known, p, e) {
                Some(token) => {
                    out.push(token);
                    assert(tokens_view(out@) =~= before.push(token@));
                    assert(before + path_tokens_from(t, found, known@) =~= tokens_view(out@)
                        + path_tokens_from(t, path_matches(t, e as int), known@));
                },
                None => {},
            }
            p = e;
        } else {
            p += 1;
        }
    }
    assert(tokens_view(out@) + Seq::<TokenSpec>::empty() =~= tokens_view(out@));
    out
}

/// The first index at or before `j` from which every character up to `j` satisfies `p`.
pub open spec fn back_run(t: Seq<char>, j: int, p: spec_fn(char) -> bool) -> int
    decreases j,
{
    if 0 < j <= t.len() && p(t[j - 1]) {
        back_run(t, j - 1, p)
    } else {
        j
    }
}

pub proof fn lemma_back_run(t: Seq<char>, j: int, p: spec_fn(char) -> bool)
    requires
        0 <= j <= t.len(),
    ensures
        0 <= back_run(t, j, p) <= j,
        forall|q: int| back_run(t, j, p) <= q < j ==> p(#[trigger] t[q]),
        back_run(t, j, p) > 0 ==> !p(t[back_run(t, j, p) - 1]),
    decreases j,
{
    if 0 < j && p(t[j - 1]) {
        lemma_back_run(t, j - 1, p);
    }
}

/// `s` with the characters satisfying `p` removed from both ends, as `str::trim_matches` does.
#[verifier::opaque]
pub open spec fn strip(s: Seq<char>, p: spec_fn(char) -> bool) -> Seq<char> {
    let a = run_end(s, 0, p);
    if a >= s.len() {
        Seq::empty()
    } else {
        s.subrange(a, back_run(s, s.len() as int, p))
    }
}

pub open spec fn tick_pred() -> spec_fn(char) -> bool {
    |c: char| c == '`'
}

pub open spec fn ws_pred() -> spec_fn(char) -> bool {
    |c: char| is_unicode_whitespace(c)
}

/// What a code span holds: its backticks stripped, then surrounding whitespace trimmed.
pub open spec fn code_span_content(s: Seq<char>) -> Seq<char> {
    strip(strip(s, tick_pred()), ws_pred())
}

/// Whether all of `c` is one path token.
pub open spec fn is_whole_path(c: Seq<char>) -> bool {
    c.len() > 0 && is_path_class(c[0]) && path_match_end(c, 0) == c.len()
}

/// A code span whose entire content is one path, with `span` as its span. A bare identifier is
/// never a candidate: a name has no single referent.
pub open spec fn code_span_candidate(s: Seq<char>, span: (int, int), repo: Seq<Seq<char>>) -> Option<
    TokenSpec,
> {
    let content = code_span_content(s);
    if !is_whole_path(content) {
        None
    } else {
        match shape_of(content, repo) {
            None => None,
            Some(shape) => Some(TokenSpec { span, text: content, shape: ShapeView::Path(shape) }),
        }
    }
}

/// The characters of `s` from `from` on with those satisfying `p` skipped from the front and
/// back, as a character range.
fn strip_range(chars: &Vec<char>, a: usize, b: usize, ticks: bool) -> (r: (usize, usize))
    requires
        a <= b <= chars@.len(),
    ensures
        a <= r.0 <= r.1 <= b,
        chars@.subrange(r.0 as int, r.1 as int) == strip(
            chars@.subrange(a as int, b as int),
            if ticks {
                tick_pred()
            } else {
                ws_pred()
            },
        ),
{
    let ghost s = chars@.subrange(a as int, b as int);
    let ghost p = if ticks {
        tick_pred()
    } else {
        ws_pred()
    };
    proof {
        lemma_run_end(s, 0, p);
        lemma_back_run(s, s.len() as int, p);
        reveal(strip);
    }
    let mut i = a;
    while i < b && strips(chars[i], ticks)
        invariant
            a <= i <= b <= chars@.len(),
            s == chars@.subrange(a as int, b as int),
            run_end(s, 0, p) == run_end(s, i - a, p),
            p == (if ticks {
                tick_pred()
            } else {
                ws_pred()
            }),
        decreases b - i,
    {
        assert(s[i - a] == chars@[i as int]);
        i += 1;
    }
    if i < b {
        assert(s[i - a] == chars@[i as int]);
    }
    if i >= b {
        assert(chars@.subrange(b as int, b as int) =~= Seq::<char>::empty());
        return (b, b);
    }
    let mut j = b;
    while j > i && strips(chars[j - 1], ticks)
        invariant
            a <= i < b,
            i < j <= b <= chars@.len(),
            s == chars@.subrange(a as int, b as int),
            back_run(s, s.len() as int, p) == back_run(s, j - a, p),
            !p(s[i - a]),
            p == (if ticks {
                tick_pred()
            } else {
                ws_pred()
            }),
        decreases j - i,
    {
        assert(s[j - 1 - a] == chars@[j - 1]);
        j -= 1;
    }
    assert(s[j - 1 - a] == chars@[j - 1]);
    assert(back_run(s, j - a, p) == j - a);
    assert(run_end(s, i - a, p) == i - a);
    assert(chars@.subrange(i as int, j as int) =~= s.subrange(i - a, j - a));
    (i, j)
}

/// Whether `strip_range` removes `c`: a backtick, or whitespace.
fn strips(c: char, ticks: bool) -> (b: bool)
    ensures
        b == (if ticks {
            tick_pred()
        } else {
            ws_pred()
        })(c),
{
    if ticks {
        c == '`'
    } else {
        unicode_whitespace(c)
    }
}

/// The content of the code span at characters `a..b`, as a character range.
fn code_content(chars: &Vec<char>, a: usize, b: usize) -> (r: (usize, usize))
    requires
        a <= b <= chars@.len(),
    ensures
        a <= r.0 <= r.1 <= b,
        chars@.subrange(r.0 as int, r.1 as int) == code_span_content(chars@.subrange(a as int, b as int)),
{
    let (x, y) = strip_range(chars, a, b, true);
    let (u, v) = strip_range(chars, x, y, false);
    (u, v)
}

/// A code span whose entire content is one path. `span_text` is the span, backticks included,
/// and `span` where it sits.
pub fn code_span_token(span_text: &str, span: ByteSpan, known: KnownExtensions<'_>) -> (r: Option<
    Token,
>)
    ensures
        match code_span_candidate(span_text@, (span.start as int, span.end as int), known@) {
            Some(token) => r matches Some(x) && x@ == token && x.span == span,
            None => r is None,
        },
{
    let chars = to_chars(span_text);
    let n = chars.len();
    assert(chars@.subrange(0, n as int) =~= span_text@);
    let (u, v) = code_content(&chars, 0, n);
    let ghost content = code_span_content(span_text@);
    if u == v {
        return None;
    }
    let mut piece: Vec<char> = Vec::new();
    let mut i = u;
    while i < v
        invariant
            u <= i <= v <= chars@.len(),
            piece@ == chars@.subrange(u as int, i as int),
        decreases v - i,
    {
        piece.push(chars[i]);
        i += 1;
        assert(piece@ =~= chars@.subrange(u as int, i as int));
    }
    assert(piece@ == content);
    let c = piece[0];
    if !(ascii_alnum_char(c) || c == '_' || c == '.' || c == '-') {
        return None;
    }
    if match_end(&piece, 0) != piece.len() {
        return None;
    }
    let content_text = span_text.substring_char(u, v);
    match path_shape(content_text, known) {
        None => None,
        Some(shape) => Some(
            Token { span, text: content_text.to_owned(), shape: Shape::Path(shape) },
        ),
    }
}

pub open spec fn is_word_start(c: char) -> bool {
    is_ascii_alpha(c) || c == '_'
}

pub open spec fn is_word_char(c: char) -> bool {
    is_ascii_alnum(c) || c == '_'
}

pub open spec fn word_pred() -> spec_fn(char) -> bool {
    |c: char| is_word_char(c)
}

/// The identifier-shaped words of `t` from `p` on, as character ranges.
pub open spec fn word_matches(t: Seq<char>, p: int) -> Seq<(int, int)>
    decreases t.len() - p,
{
    if p < 0 || p >= t.len() {
        Seq::empty()
    } else if is_word_start(t[p]) {
        proof {
            lemma_run_end(t, p + 1, word_pred());
        }
        seq![(p, run_end(t, p + 1, word_pred()))] + word_matches(t, run_end(t, p + 1, word_pred()))
    } else {
        word_matches(t, p + 1)
    }
}

pub open spec fn alias_token(span: (int, int), name: Seq<char>) -> TokenSpec {
    TokenSpec { span, text: name, shape: ShapeView::Alias(name) }
}

/// The word `s..e` of `t` as a use of one of `aliases`, unless it is glued to what precedes it.
pub open spec fn alias_word_of(t: Seq<char>, s: int, e: int, aliases: Seq<Seq<char>>) -> Option<
    TokenSpec,
> {
    if glued_before(t, s) || !aliases.contains(t.subrange(s, e)) {
        None
    } else {
        Some(alias_token((off(t, s), off(t, e)), t.subrange(s, e)))
    }
}

pub open spec fn alias_words_from(t: Seq<char>, found: Seq<(int, int)>, aliases: Seq<Seq<char>>) -> Seq<
    TokenSpec,
>
    decreases found.len(),
{
    if found.len() == 0 {
        Seq::empty()
    } else {
        let rest = alias_words_from(t, found.drop_first(), aliases);
        match alias_word_of(t, found[0].0, found[0].1, aliases) {
            Some(token) => seq![token] + rest,
            None => rest,
        }
    }
}

pub open spec fn is_span_char(c: char) -> bool {
    c != '`' && c != '\n'
}

pub open spec fn span_char_pred() -> spec_fn(char) -> bool {
    |c: char| is_span_char(c)
}

/// The backtick spans of a comment from `p` on, backticks included, as character ranges: a
/// backtick, at least one character that is neither a backtick nor a line break, a backtick.
pub open spec fn code_spans(t: Seq<char>, p: int) -> Seq<(int, int)>
    decreases t.len() - p,
{
    if p < 0 || p >= t.len() {
        Seq::empty()
    } else if t[p] == '`' {
        proof {
            lemma_run_end(t, p + 1, span_char_pred());
        }
        let q = run_end(t, p + 1, span_char_pred());
        if q > p + 1 && q < t.len() && t[q] == '`' {
            seq![(p, q + 1)] + code_spans(t, q + 1)
        } else {
            code_spans(t, p + 1)
        }
    } else {
        code_spans(t, p + 1)
    }
}

pub open spec fn byte_spans(t: Seq<char>, ranges: Seq<(int, int)>) -> Seq<(int, int)> {
    ranges.map_values(|r: (int, int)| (off(t, r.0), off(t, r.1)))
}

pub open spec fn intersects(a: (int, int), b: (int, int)) -> bool {
    a.0 < b.1 && b.0 < a.1
}

pub open spec fn clear_of(spans: Seq<(int, int)>, span: (int, int)) -> bool {
    forall|i: int| 0 <= i < spans.len() ==> !intersects(#[trigger] spans[i], span)
}

/// The tokens that share no byte with any of `spans`, in order.
pub open spec fn keep_clear(tokens: Seq<TokenSpec>, spans: Seq<(int, int)>) -> Seq<TokenSpec>
    decreases tokens.len(),
{
    if tokens.len() == 0 {
        Seq::empty()
    } else if clear_of(spans, tokens.last().span) {
        keep_clear(tokens.drop_last(), spans).push(tokens.last())
    } else {
        keep_clear(tokens.drop_last(), spans)
    }
}

/// The code spans of a comment that hold exactly one of `aliases`.
pub open spec fn code_alias_tokens(t: Seq<char>, ranges: Seq<(int, int)>, aliases: Seq<Seq<char>>) -> Seq<
    TokenSpec,
>
    decreases ranges.len(),
{
    if ranges.len() == 0 {
        Seq::empty()
    } else {
        let rest = code_alias_tokens(t, ranges.drop_first(), aliases);
        let (p, q) = ranges[0];
        let content = code_span_content(t.subrange(p, q));
        if aliases.contains(content) {
            seq![alias_token((off(t, p), off(t, q)), content)] + rest
        } else {
            rest
        }
    }
}

/// The code spans of a comment whose content is one path.
pub open spec fn code_path_tokens(t: Seq<char>, ranges: Seq<(int, int)>, repo: Seq<Seq<char>>) -> Seq<
    TokenSpec,
>
    decreases ranges.len(),
{
    if ranges.len() == 0 {
        Seq::empty()
    } else {
        let rest = code_path_tokens(t, ranges.drop_first(), repo);
        let (p, q) = ranges[0];
        match code_span_candidate(t.subrange(p, q), (off(t, p), off(t, q)), repo) {
            Some(token) => seq![token] + rest,
            None => rest,
        }
    }
}

/// Exact, case-sensitive matches against the file's own aliases: a whole code span holding
/// one, or a bare word outside code spans.
pub open spec fn alias_tokens_of(t: Seq<char>, kind: RegionKind, aliases: Seq<Seq<char>>) -> Seq<
    TokenSpec,
> {
    if aliases.len() == 0 {
        Seq::empty()
    } else {
        match kind {
            RegionKind::InlineCode => if aliases.contains(code_span_content(t)) {
                seq![alias_token((0, off(t, t.len() as int)), code_span_content(t))]
            } else {
                Seq::empty()
            },
            RegionKind::Comment => code_alias_tokens(t, code_spans(t, 0), aliases) + keep_clear(
                alias_words_from(t, word_matches(t, 0), aliases),
                byte_spans(t, code_spans(t, 0)),
            ),
            _ => alias_words_from(t, word_matches(t, 0), aliases),
        }
    }
}

/// The path candidates of a region.
pub open spec fn path_candidates_of(t: Seq<char>, kind: RegionKind, repo: Seq<Seq<char>>) -> Seq<
    TokenSpec,
> {
    match kind {
        RegionKind::InlineCode => match code_span_candidate(t, (0, off(t, t.len() as int)), repo) {
            Some(token) => seq![token],
            None => Seq::empty(),
        },
        RegionKind::Comment => code_path_tokens(t, code_spans(t, 0), repo) + keep_clear(
            path_tokens_from(t, path_matches(t, 0), repo),
            byte_spans(t, code_spans(t, 0)),
        ),
        _ => path_tokens_from(t, path_matches(t, 0), repo),
    }
}

/// Alias matches come first and shadow any other token on the same bytes: a code span holding
/// an alias is a use of this file's alias before it is anything else.
pub open spec fn tokens_of(t: Seq<char>, kind: RegionKind, aliases: Seq<Seq<char>>, repo: Seq<
    Seq<char>,
>) -> Seq<TokenSpec> {
    let found = alias_tokens_of(t, kind, aliases);
    found + keep_clear(
        path_candidates_of(t, kind, repo),
        found.map_values(|token: TokenSpec| token.span),
    )
}

pub open spec fn aliases_view(aliases: Seq<&Alias>) -> Seq<Seq<char>> {
    aliases.map_values(|a: &Alias| a@)
}

pub open spec fn spans_view(spans: Seq<ByteSpan>) -> Seq<(int, int)> {
    spans.map_values(|s: ByteSpan| (s.start as int, s.end as int))
}

/// The first of `aliases` spelled `word`.
fn find_alias<'x>(aliases: &[&'x Alias], word: &str) -> (r: Option<&'x Alias>)
    ensures
        r is Some == aliases_view(aliases@).contains(word@),
        r matches Some(a) ==> a@ == word@,
{
    let ghost names = aliases_view(aliases@);
    let mut i: usize = 0;
    while i < aliases.len()
        invariant
            i <= aliases@.len(),
            names == aliases_view(aliases@),
            forall|j: int| 0 <= j < i ==> names[j] != word@,
        decreases aliases.len() - i,
    {
        if same_text(aliases[i].as_str(), word) {
            assert(names[i as int] == word@);
            return Some(aliases[i]);
        }
        i += 1;
    }
    None
}

/// Whether `span` shares no byte with any of `spans`.
fn clear_of_spans(span: ByteSpan, spans: &Vec<ByteSpan>) -> (b: bool)
    ensures
        b == clear_of(spans_view(spans@), (span.start as int, span.end as int)),
{
    let ghost sv = spans_view(spans@);
    let ghost target = (span.start as int, span.end as int);
    let mut k: usize = 0;
    while k < spans.len()
        invariant
            k <= spans@.len(),
            sv == spans_view(spans@),
            target == (span.start as int, span.end as int),
            forall|j: int| 0 <= j < k ==> !intersects(#[trigger] sv[j], target),
        decreases spans.len() - k,
    {
        assert(sv[k as int] == (spans@[k as int].start as int, spans@[k as int].end as int));
        if span.intersects(spans[k]) {
            assert(intersects(sv[k as int], target));
            return false;
        }
        k += 1;
    }
    true
}

/// The tokens of `tokens` that share no byte with any of `spans`.
#[verifier::rlimit(60)]
fn keep_clear_of(tokens: Vec<Token>, spans: &Vec<ByteSpan>) -> (r: Vec<Token>)
    ensures
        tokens_view(r@) == keep_clear(tokens_view(tokens@), spans_view(spans@)),
{
    let ghost orig = tokens@;
    let ghost sv = spans_view(spans@);
    let total = tokens.len();
    let mut rest = tokens;
    let mut out: Vec<Token> = Vec::new();
    let mut i: usize = 0;
    assert(tokens_view(orig.take(0)) =~= Seq::<TokenSpec>::empty());
    while rest.len() > 0
        invariant
            sv == spans_view(spans@),
            orig.len() == total,
            i + rest@.len() == orig.len(),
            rest@ == orig.skip(i as int),
            tokens_view(out@) == keep_clear(tokens_view(orig.take(i as int)), sv),
        decreases rest.len(),
    {
        let token = rest.remove(0);
        assert(token == orig[i as int]);
        let clear = clear_of_spans(token.span, spans);
        let ghost before = tokens_view(out@);
        let ghost taken = tokens_view(orig.take(i + 1));
        assert(taken.drop_last() =~= tokens_view(orig.take(i as int)));
        assert(taken.last() == token@);
        if clear {
            out.push(token);
            assert(tokens_view(out@) =~= before.push(token@));
        }
        i += 1;
        assert(rest@ =~= orig.skip(i as int));
    }
    assert(orig.take(i as int) =~= orig);
    out
}

/// The words of `text` that are uses of `aliases`.
#[verifier::rlimit(60)]
fn alias_words(text: &str, chars: &Vec<char>, offsets: &Vec<usize>, aliases: &[&Alias]) -> (r: Vec<
    Token,
>)
    requires
        chars@ == text@,
        offsets_of(text@, offsets@),
    ensures
        tokens_view(r@) == alias_words_from(text@, word_matches(text@, 0), aliases_view(aliases@)),
{
    let ghost t = text@;
    let ghost names = aliases_view(aliases@);
    let ghost all = alias_words_from(t, word_matches(t, 0), names);
    let n = chars.len();
    let mut out: Vec<Token> = Vec::new();
    let mut p: usize = 0;
    while p < n
        invariant
            chars@ == t,
            t == text@,
            n == t.len(),
            offsets_of(t, offsets@),
            names == aliases_view(aliases@),
            p <= n,
            all == alias_words_from(t, word_matches(t, 0), names),
            tokens_view(out@) + alias_words_from(t, word_matches(t, p as int), names) == all,
        decreases n - p,
    {
        let c = chars[p];
        if ascii_alpha_char(c) || c == '_' {
            let e = word_end(chars, p + 1);
            let ghost found = word_matches(t, p as int);
            assert(found.drop_first() =~= word_matches(t, e as int));
            let glued = if p > 0 {
                let prev = chars[p - 1];
                is_alphanumeric(prev) || prev == '/' || prev == '.' || prev == '-' || prev == '_'
                    || prev == '@' || prev == '[' || prev == '~'
            } else {
                false
            };
            let ghost before = tokens_view(out@);
            if !glued {
                let word = text.substring_char(p, e);
                match find_alias(aliases, word) {
                    Some(alias) => {
                        proof {
                            crate::chars::lemma_byte_len_monotone(t, p as int, e as int);
                        }
                        out.push(
                            Token {
                                span: ByteSpan::new(offsets[p], offsets[e]),
                                text: alias.as_str().to_owned(),
                                shape: Shape::Alias(alias.clone()),
                            },
                        );
                        assert(tokens_view(out@) =~= before.push(
                            alias_token((off(t, p as int), off(t, e as int)), word@),
                        ));
                    },
                    None => {},
                }
            }
            assert(before + alias_words_from(t, found, names) =~= tokens_view(out@)
                + alias_words_from(t, word_matches(t, e as int), names));
            p = e;
        } else {
            p += 1;
        }
    }
    assert(tokens_view(out@) + Seq::<TokenSpec>::empty() =~= tokens_view(out@));
    out
}

/// The backtick spans of a comment, as character ranges.
#[verifier::rlimit(60)]
fn code_span_ranges(chars: &Vec<char>) -> (r: Vec<(usize, usize)>)
    ensures
        r@.map_values(|x: (usize, usize)| (x.0 as int, x.1 as int)) == code_spans(chars@, 0),
        forall|i: int| 0 <= i < r@.len() ==> (#[trigger] r@[i]).0 < r@[i].1 <= chars@.len(),
{
    let ghost t = chars@;
    let n = chars.len();
    let mut out: Vec<(usize, usize)> = Vec::new();
    let mut p: usize = 0;
    while p < n
        invariant
            chars@ == t,
            n == t.len(),
            p <= n,
            out@.map_values(|x: (usize, usize)| (x.0 as int, x.1 as int)) + code_spans(t, p as int)
                == code_spans(t, 0),
            forall|i: int| 0 <= i < out@.len() ==> (#[trigger] out@[i]).0 < out@[i].1 <= n,
        decreases n - p,
    {
        if chars[p] == '`' {
            let q = span_end(chars, p + 1);
            let ghost before = out@.map_values(|x: (usize, usize)| (x.0 as int, x.1 as int));
            if q > p + 1 && q < n && chars[q] == '`' {
                out.push((p, q + 1));
                assert(out@.map_values(|x: (usize, usize)| (x.0 as int, x.1 as int)) =~= before.push(
                    (p as int, q + 1),
                ));
                assert(before + code_spans(t, p as int) =~= out@.map_values(
                    |x: (usize, usize)| (x.0 as int, x.1 as int),
                ) + code_spans(t, q + 1));
                p = q + 1;
            } else {
                p += 1;
            }
        } else {
            p += 1;
        }
    }
    assert(out@.map_values(|x: (usize, usize)| (x.0 as int, x.1 as int)) + Seq::<(int, int)>::empty()
        =~= out@.map_values(|x: (usize, usize)| (x.0 as int, x.1 as int)));
    out
}

/// The byte spans of character ranges of `t`.
#[verifier::rlimit(60)]
fn spans_of_ranges(ranges: &Vec<(usize, usize)>, offsets: &Vec<usize>, Ghost(t): Ghost<Seq<char>>) -> (r:
    Vec<ByteSpan>)
    requires
        offsets_of(t, offsets@),
        forall|i: int| 0 <= i < ranges@.len() ==> (#[trigger] ranges@[i]).0 < ranges@[i].1 <= t.len(),
    ensures
        spans_view(r@) == byte_spans(t, ranges@.map_values(|x: (usize, usize)| (x.0 as int, x.1 as int))),
{
    let ghost rv = ranges@.map_values(|x: (usize, usize)| (x.0 as int, x.1 as int));
    let mut out: Vec<ByteSpan> = Vec::new();
    let mut i: usize = 0;
    while i < ranges.len()
        invariant
            i <= ranges@.len(),
            offsets_of(t, offsets@),
            rv == ranges@.map_values(|x: (usize, usize)| (x.0 as int, x.1 as int)),
            forall|j: int| 0 <= j < ranges@.len() ==> (#[trigger] ranges@[j]).0 < ranges@[j].1 <= t.len(),
            spans_view(out@) == byte_spans(t, rv.take(i as int)),
        decreases ranges.len() - i,
    {
        let (p, q) = ranges[i];
        proof {
            crate::chars::lemma_byte_len_monotone(t, p as int, q as int);
        }
        let ghost before = spans_view(out@);
        out.push(ByteSpan::new(offsets[p], offsets[q]));
        assert(rv[i as int] == (p as int, q as int));
        assert(rv.take(i + 1) =~= rv.take(i as int).push((p as int, q as int)));
        assert(byte_spans(t, rv.take(i + 1)) =~= byte_spans(t, rv.take(i as int)).push(
            (off(t, p as int), off(t, q as int)),
        ));
        assert(spans_view(out@) =~= before.push((off(t, p as int), off(t, q as int))));
        i += 1;
    }
    assert(rv.take(i as int) =~= rv);
    out
}

/// Uses of this file's aliases in a region of kind `kind`.
#[verifier::rlimit(60)]
pub fn alias_tokens(text: &str, kind: RegionKind, aliases: &[&Alias]) -> (r: Vec<Token>)
    ensures
        tokens_view(r@) == alias_tokens_of(text@, kind, aliases_view(aliases@)),
{
    let ghost t = text@;
    let ghost names = aliases_view(aliases@);
    if aliases.len() == 0 {
        let none: Vec<Token> = Vec::new();
        assert(tokens_view(none@) =~= Seq::<TokenSpec>::empty());
        return none;
    }
    let (chars, offsets) = chars_and_offsets(text);
    let n = chars.len();
    match kind {
        RegionKind::InlineCode => {
            assert(chars@.subrange(0, n as int) =~= t);
            let (u, v) = code_content(&chars, 0, n);
            let content = text.substring_char(u, v);
            let mut out: Vec<Token> = Vec::new();
            match find_alias(aliases, content) {
                Some(alias) => {
                    proof {
                        crate::chars::lemma_byte_len_monotone(t, 0, n as int);
                    }
                    out.push(
                        Token {
                            span: ByteSpan::new(offsets[0], offsets[n]),
                            text: alias.as_str().to_owned(),
                            shape: Shape::Alias(alias.clone()),
                        },
                    );
                    assert(tokens_view(out@) =~= seq![
                        alias_token((0, off(t, t.len() as int)), code_span_content(t)),
                    ]);
                },
                None => {
                    assert(tokens_view(out@) =~= Seq::<TokenSpec>::empty());
                },
            }
            out
        },
        RegionKind::Comment => {
            let ranges = code_span_ranges(&chars);
            let ghost rv = ranges@.map_values(|x: (usize, usize)| (x.0 as int, x.1 as int));
            let mut out: Vec<Token> = Vec::new();
            let mut i: usize = ranges.len();
            let mut rev: Vec<Token> = Vec::new();
            while i > 0
                invariant
                    i <= ranges@.len(),
                    chars@ == t,
                    t == text@,
                    offsets_of(t, offsets@),
                    names == aliases_view(aliases@),
                    rv == ranges@.map_values(|x: (usize, usize)| (x.0 as int, x.1 as int)),
                    forall|j: int| 0 <= j < ranges@.len() ==> (#[trigger] ranges@[j]).0 < ranges@[j].1 <= t.len(),
                    tokens_view(rev@) == code_alias_tokens(t, rv.skip(i as int), names),
                decreases i,
            {
                i -= 1;
                let (p, q) = ranges[i];
                let ghost tail = rv.skip(i as int);
                assert(tail.drop_first() =~= rv.skip(i + 1));
                assert(tail[0] == (p as int, q as int));
                let (u, v) = code_content(&chars, p, q);
                let content = text.substring_char(u, v);
                let ghost before = tokens_view(rev@);
                match find_alias(aliases, content) {
                    Some(alias) => {
                        proof {
                            crate::chars::lemma_byte_len_monotone(t, p as int, q as int);
                        }
                        let token = Token {
                            span: ByteSpan::new(offsets[p], offsets[q]),
                            text: alias.as_str().to_owned(),
                            shape: Shape::Alias(alias.clone()),
                        };
                        rev.insert(0, token);
                        assert(tokens_view(rev@) =~= seq![token@] + before);
                    },
                    None => {},
                }
            }
            assert(rv.skip(0) =~= rv);
            out.append(&mut rev);
            assert(tokens_view(out@) == code_alias_tokens(t, rv, names));
            let words = alias_words(text, &chars, &offsets, aliases);
            let covered = spans_of_ranges(&ranges, &offsets, Ghost(t));
            let mut kept = keep_clear_of(words, &covered);
            let ghost first = tokens_view(out@);
            out.append(&mut kept);
            assert(tokens_view(out@) =~= first + keep_clear(
                alias_words_from(t, word_matches(t, 0), names),
                byte_spans(t, code_spans(t, 0)),
            ));
            out
        },
        _ => alias_words(text, &chars, &offsets, aliases),
    }
}

/// Path candidates of a region of kind `kind`.
#[verifier::rlimit(60)]
pub fn path_candidates(text: &str, kind: RegionKind, known: KnownExtensions<'_>) -> (r: Vec<Token>)
    ensures
        tokens_view(r@) == path_candidates_of(text@, kind, known@),
{
    let ghost t = text@;
    let ghost repo = known@;
    let (chars, offsets) = chars_and_offsets(text);
    let n = chars.len();
    match kind {
        RegionKind::InlineCode => {
            proof {
                crate::chars::lemma_byte_len_monotone(t, 0, n as int);
            }
            let mut out: Vec<Token> = Vec::new();
            match code_span_token(text, ByteSpan::new(offsets[0], offsets[n]), known) {
                Some(token) => {
                    out.push(token);
                    assert(tokens_view(out@) =~= seq![token@]);
                },
                None => {
                    assert(tokens_view(out@) =~= Seq::<TokenSpec>::empty());
                },
            }
            out
        },
        RegionKind::Comment => {
            let ranges = code_span_ranges(&chars);
            let ghost rv = ranges@.map_values(|x: (usize, usize)| (x.0 as int, x.1 as int));
            let mut rev: Vec<Token> = Vec::new();
            let mut i: usize = ranges.len();
            while i > 0
                invariant
                    i <= ranges@.len(),
                    chars@ == t,
                    t == text@,
                    offsets_of(t, offsets@),
                    repo == known@,
                    rv == ranges@.map_values(|x: (usize, usize)| (x.0 as int, x.1 as int)),
                    forall|j: int| 0 <= j < ranges@.len() ==> (#[trigger] ranges@[j]).0 < ranges@[j].1 <= t.len(),
                    tokens_view(rev@) == code_path_tokens(t, rv.skip(i as int), repo),
                decreases i,
            {
                i -= 1;
                let (p, q) = ranges[i];
                let ghost tail = rv.skip(i as int);
                assert(tail.drop_first() =~= rv.skip(i + 1));
                assert(tail[0] == (p as int, q as int));
                proof {
                    crate::chars::lemma_byte_len_monotone(t, p as int, q as int);
                }
                let span_text = text.substring_char(p, q);
                let ghost before = tokens_view(rev@);
                match code_span_token(span_text, ByteSpan::new(offsets[p], offsets[q]), known) {
                    Some(token) => {
                        rev.insert(0, token);
                        assert(tokens_view(rev@) =~= seq![token@] + before);
                    },
                    None => {},
                }
            }
            assert(rv.skip(0) =~= rv);
            let mut out: Vec<Token> = Vec::new();
            out.append(&mut rev);
            assert(tokens_view(out@) == code_path_tokens(t, rv, repo));
            let paths = path_tokens(text, known);
            let covered = spans_of_ranges(&ranges, &offsets, Ghost(t));
            let mut kept = keep_clear_of(paths, &covered);
            let ghost first = tokens_view(out@);
            out.append(&mut kept);
            assert(tokens_view(out@) =~= first + keep_clear(
                path_tokens_from(t, path_matches(t, 0), repo),
                byte_spans(t, code_spans(t, 0)),
            ));
            out
        },
        _ => path_tokens(text, known),
    }
}

/// The candidates of one region: uses of this file's aliases first, then the path candidates
/// that share no byte with any of them.
#[verifier::rlimit(60)]
pub fn tokens(text: &str, kind: RegionKind, aliases: &[&Alias], known: KnownExtensions<'_>) -> (r:
    Vec<Token>)
    ensures
        tokens_view(r@) == tokens_of(text@, kind, aliases_view(aliases@), known@),
{
    let mut found = alias_tokens(text, kind, aliases);
    let ghost fv = tokens_view(found@);
    let mut taken: Vec<ByteSpan> = Vec::new();
    let mut i: usize = 0;
    while i < found.len()
        invariant
            i <= found@.len(),
            fv == tokens_view(found@),
            spans_view(taken@) == fv.take(i as int).map_values(|token: TokenSpec| token.span),
        decreases found.len() - i,
    {
        let ghost before = spans_view(taken@);
        let span = found[i].span;
        taken.push(span);
        assert(fv[i as int] == found@[i as int]@);
        assert(fv.take(i + 1) =~= fv.take(i as int).push(fv[i as int]));
        assert(fv.take(i + 1).map_values(|token: TokenSpec| token.span) =~= fv.take(
            i as int,
        ).map_values(|token: TokenSpec| token.span).push((span.start as int, span.end as int)));
        assert(spans_view(taken@) =~= before.push((span.start as int, span.end as int)));
        i += 1;
    }
    assert(fv.take(i as int) =~= fv);
    let others = path_candidates(text, kind, known);
    let mut kept = keep_clear_of(others, &taken);
    let ghost kv = tokens_view(kept@);
    found.append(&mut kept);
    assert(tokens_view(found@) =~= fv + kv);
    found
}

} // verus!
