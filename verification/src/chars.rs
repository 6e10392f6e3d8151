//! Character classes and the few string operations the marker grammar is written in terms of.
use vstd::prelude::*;
use vstd::std_specs::iter::IteratorSpec;
use vstd::string::StringSliceAdditionalSpecFns;

verus! {

broadcast use vstd::string::group_string_axioms;

/// The characters of `s`, in order.
pub fn to_chars(s: &str) -> (v: Vec<char>)
    ensures
        v@ == s@,
{
    let mut it = s.chars();
    let mut v: Vec<char> = Vec::new();
    loop
        invariant
            v@ + IteratorSpec::remaining(&it) == s@,
            IteratorSpec::decrease(&it) is Some,
        decreases IteratorSpec::decrease(&it)->0,
    {
        let ghost before = IteratorSpec::remaining(&it);
        match it.next() {
            Some(c) => {
                v.push(c);
                assert(v@ + IteratorSpec::remaining(&it) =~= s@);
            },
            None => {
                assert(v@ =~= s@);
                return v;
            },
        }
    }
}

pub open spec fn is_ascii_digit(c: char) -> bool {
    '0' <= c <= '9'
}

pub open spec fn is_ascii_alpha(c: char) -> bool {
    ('a' <= c <= 'z') || ('A' <= c <= 'Z')
}

pub open spec fn is_ascii_alnum(c: char) -> bool {
    is_ascii_alpha(c) || is_ascii_digit(c)
}

pub fn ascii_alpha(c: char) -> (b: bool)
    ensures
        b == is_ascii_alpha(c),
{
    ('a' <= c && c <= 'z') || ('A' <= c && c <= 'Z')
}

pub fn ascii_alnum(c: char) -> (b: bool)
    ensures
        b == is_ascii_alnum(c),
{
    ('a' <= c && c <= 'z') || ('A' <= c && c <= 'Z') || ('0' <= c && c <= '9')
}


/// Rust's `char::is_whitespace`: the Unicode `White_Space` property.
pub open spec fn is_unicode_whitespace(c: char) -> bool {
    ||| ('\u{9}' <= c <= '\u{d}')
    ||| c == ' '
    ||| c == '\u{85}'
    ||| c == '\u{a0}'
    ||| c == '\u{1680}'
    ||| ('\u{2000}' <= c <= '\u{200a}')
    ||| c == '\u{2028}'
    ||| c == '\u{2029}'
    ||| c == '\u{202f}'
    ||| c == '\u{205f}'
    ||| c == '\u{3000}'
}

pub fn unicode_whitespace(c: char) -> (b: bool)
    ensures
        b == is_unicode_whitespace(c),
{
    ('\u{9}' <= c && c <= '\u{d}') || c == ' ' || c == '\u{85}' || c == '\u{a0}' || c
        == '\u{1680}' || ('\u{2000}' <= c && c <= '\u{200a}') || c == '\u{2028}' || c
        == '\u{2029}' || c == '\u{202f}' || c == '\u{205f}' || c == '\u{3000}'
}

/// Rust's `char::is_control`: the Unicode general category `Cc`.
pub open spec fn is_control(c: char) -> bool {
    (c as u32) <= 0x1f || (0x7f <= (c as u32) && (c as u32) <= 0x9f)
}

pub fn control(c: char) -> (b: bool)
    ensures
        b == is_control(c),
{
    c <= '\u{1f}' || ('\u{7f}' <= c && c <= '\u{9f}')
}

/// Whether any character of `s` is whitespace.
pub open spec fn has_whitespace(s: Seq<char>) -> bool {
    exists|i: int| 0 <= i < s.len() && is_unicode_whitespace(#[trigger] s[i])
}

pub fn contains_whitespace(s: &Vec<char>) -> (b: bool)
    ensures
        b == has_whitespace(s@),
{
    let mut i: usize = 0;
    while i < s.len()
        invariant
            i <= s.len(),
            forall|j: int| 0 <= j < i ==> !is_unicode_whitespace(#[trigger] s@[j]),
        decreases s.len() - i,
    {
        if unicode_whitespace(s[i]) {
            return true;
        }
        i += 1;
    }
    false
}

/// Number of bytes UTF-8 spends on `c`.
pub open spec fn utf8_width(c: char) -> nat {
    let v = c as u32;
    if v < 0x80 {
        1
    } else if v < 0x800 {
        2
    } else if v < 0x10000 {
        3
    } else {
        4
    }
}

/// Number of bytes UTF-8 spends on `s`.
pub open spec fn byte_len(s: Seq<char>) -> nat
    decreases s.len(),
{
    if s.len() == 0 {
        0
    } else {
        byte_len(s.drop_last()) + utf8_width(s.last())
    }
}

pub fn char_width(c: char) -> (n: usize)
    ensures
        n == utf8_width(c),
        1 <= n <= 4,
{
    if '\u{80}' > c {
        1
    } else if '\u{800}' > c {
        2
    } else if '\u{10000}' > c {
        3
    } else {
        4
    }
}

pub proof fn lemma_byte_len_take(s: Seq<char>, i: int)
    requires
        0 <= i < s.len(),
    ensures
        byte_len(s.take(i + 1)) == byte_len(s.take(i)) + utf8_width(s[i]),
{
    assert(s.take(i + 1).drop_last() =~= s.take(i));
}

pub proof fn lemma_byte_len_monotone(s: Seq<char>, i: int, j: int)
    requires
        0 <= i <= j <= s.len(),
    ensures
        byte_len(s.take(i)) <= byte_len(s.take(j)),
        byte_len(s.take(i)) + (j - i) <= byte_len(s.take(j)),
    decreases j - i,
{
    if i < j {
        lemma_byte_len_monotone(s, i, j - 1);
        lemma_byte_len_take(s, j - 1);
    }
}

/// The UTF-8 encoding of a string is as long as `byte_len` says.
pub proof fn lemma_byte_len_is_encoded_len(s: Seq<char>)
    ensures
        byte_len(s) == vstd::utf8::encode_utf8(s).len(),
    decreases s.len(),
{
    if s.len() > 0 {
        lemma_byte_len_split(s);
        lemma_byte_len_is_encoded_len(s.drop_first());
        vstd::utf8::char_is_scalar(s[0]);
    }
}

proof fn lemma_byte_len_split(s: Seq<char>)
    requires
        s.len() > 0,
    ensures
        byte_len(s) == utf8_width(s[0]) + byte_len(s.drop_first()),
    decreases s.len(),
{
    if s.len() > 1 {
        lemma_byte_len_split(s.drop_last());
        assert(s.drop_last().drop_first() =~= s.drop_first().drop_last());
        assert(s.drop_first().last() == s.last());
        assert(s.drop_last()[0] == s[0]);
        assert(byte_len(s.drop_first()) == byte_len(s.drop_first().drop_last()) + utf8_width(
            s.drop_first().last(),
        ));
    } else {
        assert(s.drop_first().len() == 0);
        assert(s.drop_last().len() == 0);
        assert(byte_len(s.drop_first()) == 0);
        assert(byte_len(s.drop_last()) == 0);
        assert(s.last() == s[0]);
    }
}

/// Byte offsets of the starts of every character of `chars`, and the total length last.
pub fn byte_offsets(chars: &Vec<char>) -> (offsets: Vec<usize>)
    requires
        byte_len(chars@) <= usize::MAX,
    ensures
        offsets@.len() == chars@.len() + 1,
        forall|i: int| 0 <= i <= chars@.len() ==> offsets@[i] == byte_len(#[trigger] chars@.take(i)),
{
    let mut offsets: Vec<usize> = Vec::new();
    let mut total: usize = 0;
    let mut i: usize = 0;
    offsets.push(0);
    assert(chars@.take(0).len() == 0);
    while i < chars.len()
        invariant
            i <= chars@.len(),
            byte_len(chars@) <= usize::MAX,
            offsets@.len() == i + 1,
            total == byte_len(chars@.take(i as int)),
            forall|k: int| 0 <= k <= i ==> offsets@[k] == byte_len(#[trigger] chars@.take(k)),
        decreases chars.len() - i,
    {
        proof {
            lemma_byte_len_take(chars@, i as int);
            lemma_byte_len_monotone(chars@, i + 1, chars@.len() as int);
            assert(chars@.take(chars@.len() as int) =~= chars@);
        }
        total = total + char_width(chars[i]);
        i += 1;
        offsets.push(total);
    }
    offsets
}


/// Byte length of the characters `i..j`, as the difference of two prefix lengths.
pub proof fn lemma_byte_len_subrange(s: Seq<char>, i: int, j: int)
    requires
        0 <= i <= j <= s.len(),
    ensures
        byte_len(s.take(j)) == byte_len(s.take(i)) + byte_len(s.subrange(i, j)),
    decreases j - i,
{
    if i == j {
        assert(s.subrange(i, j).len() == 0);
    } else {
        lemma_byte_len_subrange(s, i, j - 1);
        lemma_byte_len_take(s, j - 1);
        assert(s.subrange(i, j).drop_last() =~= s.subrange(i, j - 1));
    }
}

/// The byte length of `s`, which is the UTF-8 length of its characters.
pub fn str_byte_len(s: &str) -> (n: usize)
    ensures
        n == byte_len(s@),
        n == s.len(),
{
    let bytes = s.as_bytes();
    proof {
        lemma_byte_len_is_encoded_len(s@);
    }
    bytes.len()
}

/// The pieces of `s` between occurrences of `sep`, like `str::split` with a `char` pattern:
/// there is always at least one piece, and `n` separators give `n + 1` pieces.
pub open spec fn split_on(s: Seq<char>, sep: char) -> Seq<Seq<char>>
    decreases s.len(),
{
    if s.len() == 0 {
        seq![Seq::<char>::empty()]
    } else if s.last() == sep {
        split_on(s.drop_last(), sep).push(Seq::<char>::empty())
    } else {
        let pieces = split_on(s.drop_last(), sep);
        pieces.update(pieces.len() - 1, pieces.last().push(s.last()))
    }
}

pub proof fn lemma_split_on_nonempty(s: Seq<char>, sep: char)
    ensures
        split_on(s, sep).len() >= 1,
    decreases s.len(),
{
    if s.len() > 0 {
        lemma_split_on_nonempty(s.drop_last(), sep);
    }
}

/// Whether `ranges` are the character ranges of the pieces of `s` split on `sep`.
pub open spec fn ranges_of_split(s: Seq<char>, sep: char, ranges: Seq<(usize, usize)>) -> bool {
    &&& ranges.len() == split_on(s, sep).len()
    &&& forall|k: int|
        0 <= k < ranges.len() ==> {
            &&& (#[trigger] ranges[k]).0 <= ranges[k].1 <= s.len()
            &&& s.subrange(ranges[k].0 as int, ranges[k].1 as int) == split_on(s, sep)[k]
        }
    &&& ranges.last().1 == s.len()
}

/// The character ranges of the pieces of `s` split on `sep`, in order.
pub fn split_ranges(s: &Vec<char>, sep: char) -> (ranges: Vec<(usize, usize)>)
    ensures
        ranges_of_split(s@, sep, ranges@),
        ranges@[0].0 == 0,
        forall|k: int|
            0 <= k < ranges@.len() - 1 ==> (#[trigger] ranges@[k + 1]).0 == ranges@[k].1 + 1
                && s@[ranges@[k].1 as int] == sep,
{
    let mut ranges: Vec<(usize, usize)> = Vec::new();
    ranges.push((0, 0));
    let mut i: usize = 0;
    assert(s@.take(0) =~= Seq::<char>::empty());
    assert(s@.take(0).subrange(0, 0) =~= Seq::<char>::empty());
    assert(split_on(s@.take(0), sep) =~= seq![Seq::<char>::empty()]);
    while i < s.len()
        invariant
            i <= s@.len(),
            ranges_of_split(s@.take(i as int), sep, ranges@),
            ranges@.len() >= 1,
            ranges@[0].0 == 0,
            forall|k: int|
                0 <= k < ranges@.len() - 1 ==> (#[trigger] ranges@[k + 1]).0 == ranges@[k].1 + 1
                    && s@[ranges@[k].1 as int] == sep,
        decreases s.len() - i,
    {
        let ghost pre = s@.take(i as int);
        let ghost next = s@.take(i + 1);
        assert(next.drop_last() =~= pre);
        assert(next.last() == s@[i as int]);
        proof {
            lemma_split_on_nonempty(pre, sep);
        }
        if s[i] == sep {
            let ghost old_ranges = ranges@;
            ranges.push((i + 1, i + 1));
            assert forall|k: int|
                0 <= k < ranges@.len() - 1 implies (#[trigger] ranges@[k + 1]).0 == ranges@[k].1 + 1
                    && s@[ranges@[k].1 as int] == sep by {
                if k < old_ranges.len() - 1 {
                    assert(ranges@[k + 1] == old_ranges[k + 1]);
                }
            }
            proof {
                assert forall|k: int| 0 <= k < ranges@.len() implies {
                    &&& (#[trigger] ranges@[k]).0 <= ranges@[k].1 <= next.len()
                    &&& next.subrange(ranges@[k].0 as int, ranges@[k].1 as int) == split_on(
                        next,
                        sep,
                    )[k]
                } by {
                    if k < ranges@.len() - 1 {
                        assert(next.subrange(ranges@[k].0 as int, ranges@[k].1 as int)
                            =~= pre.subrange(ranges@[k].0 as int, ranges@[k].1 as int));
                    } else {
                        assert(next.subrange(ranges@[k].0 as int, ranges@[k].1 as int)
                            =~= Seq::<char>::empty());
                    }
                }
            }
        } else {
            let last = ranges.len() - 1;
            let (a, b) = ranges[last];
            let ghost old_ranges = ranges@;
            ranges.set(last, (a, i + 1));
            assert forall|k: int|
                0 <= k < ranges@.len() - 1 implies (#[trigger] ranges@[k + 1]).0 == ranges@[k].1 + 1
                    && s@[ranges@[k].1 as int] == sep by {
                assert(ranges@[k] == old_ranges[k]);
                assert(ranges@[k + 1].0 == old_ranges[k + 1].0);
            }
            proof {
                assert forall|k: int| 0 <= k < ranges@.len() implies {
                    &&& (#[trigger] ranges@[k]).0 <= ranges@[k].1 <= next.len()
                    &&& next.subrange(ranges@[k].0 as int, ranges@[k].1 as int) == split_on(
                        next,
                        sep,
                    )[k]
                } by {
                    if k < ranges@.len() - 1 {
                        assert(next.subrange(ranges@[k].0 as int, ranges@[k].1 as int)
                            =~= pre.subrange(ranges@[k].0 as int, ranges@[k].1 as int));
                    } else {
                        assert(next.subrange(a as int, (i + 1) as int) =~= pre.subrange(
                            a as int,
                            b as int,
                        ).push(s@[i as int]));
                    }
                }
            }
        }
        i += 1;
    }
    assert(s@.take(s@.len() as int) =~= s@);
    ranges
}

/// Character ranges of the non-empty runs of non-whitespace in `s`, in order.
pub open spec fn ws_tokens(s: Seq<char>) -> Seq<(int, int)>
    decreases s.len(),
{
    if s.len() == 0 {
        Seq::empty()
    } else {
        let before = ws_tokens(s.drop_last());
        let i = s.len() - 1;
        if is_unicode_whitespace(s.last()) {
            before
        } else if before.len() > 0 && before.last().1 == i {
            before.update(before.len() - 1, (before.last().0, i + 1))
        } else {
            before.push((i, i + 1))
        }
    }
}

pub proof fn lemma_ws_tokens_bounded(s: Seq<char>)
    ensures
        forall|k: int|
            0 <= k < ws_tokens(s).len() ==> 0 <= (#[trigger] ws_tokens(s)[k]).0 < ws_tokens(s)[k].1
                <= s.len(),
    decreases s.len(),
{
    if s.len() > 0 {
        lemma_ws_tokens_bounded(s.drop_last());
        let before = ws_tokens(s.drop_last());
        let i = s.len() - 1;
        let now = ws_tokens(s);
        if is_unicode_whitespace(s.last()) {
            assert(now == before);
        } else if before.len() > 0 && before.last().1 == i {
            assert forall|k: int| 0 <= k < now.len() implies 0 <= (#[trigger] now[k]).0 < now[k].1
                <= s.len() by {
                if k < now.len() - 1 {
                    assert(now[k] == before[k]);
                }
            }
        } else {
            assert forall|k: int| 0 <= k < now.len() implies 0 <= (#[trigger] now[k]).0 < now[k].1
                <= s.len() by {
                if k < now.len() - 1 {
                    assert(now[k] == before[k]);
                }
            }
        }
    }
}

/// The runs of non-whitespace in `s`, as character ranges.
pub fn whitespace_tokens(s: &Vec<char>) -> (tokens: Vec<(usize, usize)>)
    ensures
        tokens@.len() == ws_tokens(s@).len(),
        forall|k: int|
            0 <= k < tokens@.len() ==> (#[trigger] tokens@[k]).0 == ws_tokens(s@)[k].0
                && tokens@[k].1 == ws_tokens(s@)[k].1,
{
    let mut tokens: Vec<(usize, usize)> = Vec::new();
    let mut i: usize = 0;
    assert(s@.take(0) =~= Seq::<char>::empty());
    while i < s.len()
        invariant
            i <= s@.len(),
            tokens@.len() == ws_tokens(s@.take(i as int)).len(),
            forall|k: int|
                0 <= k < tokens@.len() ==> (#[trigger] tokens@[k]).0 == ws_tokens(s@.take(i as int))[k].0
                    && tokens@[k].1 == ws_tokens(s@.take(i as int))[k].1,
        decreases s.len() - i,
    {
        let ghost pre = s@.take(i as int);
        let ghost next = s@.take(i + 1);
        assert(next.drop_last() =~= pre);
        assert(next.last() == s@[i as int]);
        proof {
            lemma_ws_tokens_bounded(pre);
        }
        if unicode_whitespace(s[i]) {
        } else if tokens.len() > 0 && tokens[tokens.len() - 1].1 == i {
            let last = tokens.len() - 1;
            let (a, _) = tokens[last];
            tokens.set(last, (a, i + 1));
        } else {
            tokens.push((i, i + 1));
        }
        i += 1;
    }
    assert(s@.take(s@.len() as int) =~= s@);
    tokens
}

/// Index of the first `c` in `s`, or -1.
pub open spec fn first_index_of(s: Seq<char>, c: char) -> int
    decreases s.len(),
{
    if s.len() == 0 {
        -1
    } else {
        let before = first_index_of(s.drop_last(), c);
        if before >= 0 {
            before
        } else if s.last() == c {
            s.len() - 1
        } else {
            -1
        }
    }
}

pub proof fn lemma_first_index_of(s: Seq<char>, c: char)
    ensures
        -1 <= first_index_of(s, c) < s.len(),
        first_index_of(s, c) >= 0 ==> s[first_index_of(s, c)] == c,
        first_index_of(s, c) == -1 <==> !s.contains(c),
    decreases s.len(),
{
    if s.len() > 0 {
        lemma_first_index_of(s.drop_last(), c);
        if first_index_of(s, c) == -1 {
            assert forall|i: int| 0 <= i < s.len() implies s[i] != c by {
                if i < s.len() - 1 {
                    assert(s[i] == s.drop_last()[i]);
                }
            }
        } else {
            let i = first_index_of(s, c);
            assert(s[i] == c);
        }
    }
}

/// Finds `first_index_of(chars[a..b], c)`, as an index into `chars`.
pub fn find_first(chars: &Vec<char>, a: usize, b: usize, c: char) -> (r: Option<usize>)
    requires
        a <= b <= chars@.len(),
    ensures
        match r {
            Some(i) => a <= i < b && i - a == first_index_of(chars@.subrange(a as int, b as int), c),
            None => first_index_of(chars@.subrange(a as int, b as int), c) == -1,
        },
{
    let mut j: usize = a;
    assert(chars@.subrange(a as int, a as int).len() == 0);
    while j < b
        invariant
            a <= j <= b <= chars@.len(),
            first_index_of(chars@.subrange(a as int, j as int), c) == -1,
        decreases b - j,
    {
        let ghost sub = chars@.subrange(a as int, j + 1);
        assert(sub.drop_last() =~= chars@.subrange(a as int, j as int));
        if chars[j] == c {
            proof {
                lemma_first_index_prefix(chars@.subrange(a as int, b as int), c, j + 1 - a);
                assert(chars@.subrange(a as int, b as int).take(j + 1 - a) =~= sub);
            }
            return Some(j);
        }
        j += 1;
    }
    None
}

/// A `c` found in a prefix is the first `c` of the whole.
pub proof fn lemma_first_index_prefix(s: Seq<char>, c: char, n: int)
    requires
        0 <= n <= s.len(),
        first_index_of(s.take(n), c) >= 0,
    ensures
        first_index_of(s, c) == first_index_of(s.take(n), c),
    decreases s.len() - n,
{
    if n < s.len() {
        assert(s.take(n + 1).drop_last() =~= s.take(n));
        lemma_first_index_prefix(s, c, n + 1);
    } else {
        assert(s.take(n) =~= s);
    }
}

/// The bytes `start..end` of `s` as a string, when both ends fall on character boundaries.
///
/// Trusted: `str::get` with a `Range<usize>`, which std documents as returning `None` exactly
/// where indexing with that range would panic (an end out of bounds, `start > end`, or an end
/// inside a character) and the subslice otherwise.
#[verifier::external_body]
pub fn str_slice(s: &str, start: usize, end: usize) -> (r: Option<&str>)
    ensures
        match r {
            Some(t) => {
                &&& start <= end
                &&& vstd::utf8::is_char_boundary(s.spec_bytes(), start as int)
                &&& vstd::utf8::is_char_boundary(s.spec_bytes(), end as int)
                &&& t.spec_bytes() == s.spec_bytes().subrange(start as int, end as int)
            },
            None => !(start <= end && vstd::utf8::is_char_boundary(s.spec_bytes(), start as int)
                && vstd::utf8::is_char_boundary(s.spec_bytes(), end as int)),
        },
{
    s.get(start..end)
}

/// UTF-8 encoding distributes over concatenation.
pub proof fn lemma_encode_concat(a: Seq<char>, b: Seq<char>)
    ensures
        vstd::utf8::encode_utf8(a + b) == vstd::utf8::encode_utf8(a) + vstd::utf8::encode_utf8(b),
    decreases a.len(),
{
    if a.len() == 0 {
        assert(a + b =~= b);
    } else {
        lemma_encode_concat(a.drop_first(), b);
        assert((a + b).drop_first() =~= a.drop_first() + b);
        assert((a + b)[0] == a[0]);
    }
}

/// Two strings are equal exactly when their encodings are.
pub proof fn lemma_encode_injective(a: Seq<char>, b: Seq<char>)
    ensures
        (vstd::utf8::encode_utf8(a) == vstd::utf8::encode_utf8(b)) == (a == b),
{
    vstd::utf8::encode_utf8_decode_utf8(a);
    vstd::utf8::encode_utf8_decode_utf8(b);
}

/// `String::push`, which std documents as appending `c` to the end of the string.
#[verifier::external_body]
pub fn push_char(s: &mut String, c: char)
    ensures
        final(s)@ == old(s)@.push(c),
{
    s.push(c);
}

/// Appends `t` to `s`.
pub fn push_text(s: &mut String, t: &str)
    ensures
        final(s)@ == old(s)@ + t@,
{
    let chars = to_chars(t);
    let ghost start = s@;
    let mut i: usize = 0;
    while i < chars.len()
        invariant
            i <= chars@.len(),
            chars@ == t@,
            s@ == start + t@.take(i as int),
        decreases chars.len() - i,
    {
        push_char(s, chars[i]);
        assert(t@.take(i + 1) =~= t@.take(i as int).push(t@[i as int]));
        i += 1;
    }
    assert(t@.take(i as int) =~= t@);
}

/// The decimal digit for `d`, which is below ten.
pub open spec fn digit(d: int) -> char {
    (('0' as int) + d) as char
}

/// `n` written in decimal, without leading zeros.
pub open spec fn decimal(n: nat) -> Seq<char>
    decreases n,
{
    if n < 10 {
        seq![digit(n as int)]
    } else {
        decimal(n / 10) + seq![digit((n % 10) as int)]
    }
}

/// `n` written in decimal, as `Display` writes an integer.
pub fn decimal_text(n: u64) -> (s: String)
    ensures
        s@ == decimal(n as nat),
{
    let mut digits: Vec<char> = Vec::new();
    let mut rest: u64 = n;
    // Digits are collected least significant first.
    while rest >= 10
        invariant
            decimal(n as nat) == decimal(rest as nat) + digits@.reverse(),
        decreases rest,
    {
        let c: char = char_of_digit((rest % 10) as u32);
        let ghost before = digits@;
        digits.push(c);
        assert(digits@.reverse() =~= seq![c] + before.reverse());
        assert(decimal(rest as nat) == decimal((rest / 10) as nat) + seq![c]);
        assert(decimal((rest / 10) as nat) + seq![c] + before.reverse() =~= decimal(
            (rest / 10) as nat,
        ) + digits@.reverse());
        rest = rest / 10;
    }
    let c: char = char_of_digit(rest as u32);
    let ghost before = digits@;
    digits.push(c);
    assert(digits@.reverse() =~= seq![c] + before.reverse());
    assert(decimal(n as nat) == digits@.reverse());
    let mut s = String::new();
    let mut i: usize = digits.len();
    while i > 0
        invariant
            i <= digits@.len(),
            s@ == digits@.reverse().take((digits@.len() - i) as int),
        decreases i,
    {
        i -= 1;
        let ghost k = digits@.len() - i - 1;
        push_char(&mut s, digits[i]);
        assert(digits@.reverse()[k] == digits@[i as int]);
        assert(digits@.reverse().take(k + 1) =~= digits@.reverse().take(k).push(digits@[i as int]));
    }
    assert(digits@.reverse().take(digits@.len() as int) =~= digits@.reverse());
    s
}

fn char_of_digit(d: u32) -> (c: char)
    requires
        d < 10,
    ensures
        c == digit(d as int),
{
    match d {
        0 => '0',
        1 => '1',
        2 => '2',
        3 => '3',
        4 => '4',
        5 => '5',
        6 => '6',
        7 => '7',
        8 => '8',
        _ => '9',
    }
}

/// `c` with ASCII `A`..`Z` mapped to `a`..`z`, as `char::to_ascii_lowercase` does.
pub open spec fn ascii_lower(c: char) -> char {
    if 'A' <= c <= 'Z' {
        ((c as u32) + 32) as char
    } else {
        c
    }
}

pub fn to_ascii_lower(c: char) -> (r: char)
    ensures
        r == ascii_lower(c),
{
    if 'A' <= c && c <= 'Z' {
        let v = c as u32;
        let lowered = (v as u8) + 32;
        assert(lowered == v + 32);
        lowered as char
    } else {
        c
    }
}

/// Whether two strings are the same text, compared byte by byte.
pub fn same_text(a: &str, b: &str) -> (r: bool)
    ensures
        r == (a@ == b@),
{
    let x = a.as_bytes();
    let y = b.as_bytes();
    proof {
        lemma_encode_injective(a@, b@);
    }
    if x.len() != y.len() {
        return false;
    }
    let mut i: usize = 0;
    while i < x.len()
        invariant
            x@ == a.spec_bytes(),
            y@ == b.spec_bytes(),
            x@.len() == y@.len(),
            i <= x@.len(),
            forall|j: int| 0 <= j < i ==> x@[j] == y@[j],
        decreases x.len() - i,
    {
        if x[i] != y[i] {
            return false;
        }
        i += 1;
    }
    assert(x@ =~= y@);
    true
}

/// Index of the first character of `s` that fails `p`; meaningful when one does.
pub open spec fn first_failing(s: Seq<char>, p: spec_fn(char) -> bool) -> int {
    choose|i: int| 0 <= i < s.len() && !p(s[i]) && forall|j: int| 0 <= j < i ==> p(#[trigger] s[j])
}

pub open spec fn all_chars(s: Seq<char>, p: spec_fn(char) -> bool) -> bool {
    forall|i: int| 0 <= i < s.len() ==> p(#[trigger] s[i])
}

/// The first failing index is unique, so a loop that finds one has found `first_failing`.
pub proof fn lemma_first_failing(s: Seq<char>, p: spec_fn(char) -> bool, i: int)
    requires
        0 <= i < s.len(),
        !p(s[i]),
        forall|j: int| 0 <= j < i ==> p(#[trigger] s[j]),
    ensures
        first_failing(s, p) == i,
{
    let k = first_failing(s, p);
    assert(0 <= k < s.len() && !p(s[k]) && forall|j: int| 0 <= j < k ==> p(#[trigger] s[j]));
    if k < i {
        assert(p(s[k]));
    }
    if k > i {
        assert(p(s[i]));
    }
}

/// Whether `a` comes before `b` in the order of `str`: character by character, a proper prefix
/// first.
pub open spec fn text_less(a: Seq<char>, b: Seq<char>) -> bool
    decreases a.len(),
{
    if a.len() == 0 {
        b.len() > 0
    } else if b.len() == 0 {
        false
    } else if a[0] != b[0] {
        a[0] < b[0]
    } else {
        text_less(a.drop_first(), b.drop_first())
    }
}

/// Text order is asymmetric.
pub proof fn lemma_text_less_asymmetric(a: Seq<char>, b: Seq<char>)
    requires
        text_less(a, b),
    ensures
        !text_less(b, a),
        a != b,
    decreases a.len(),
{
    if a.len() > 0 && b.len() > 0 && a[0] == b[0] {
        lemma_text_less_asymmetric(a.drop_first(), b.drop_first());
    }
}

/// No text sorts before itself.
pub proof fn lemma_text_less_irreflexive(a: Seq<char>)
    ensures
        !text_less(a, a),
    decreases a.len(),
{
    if a.len() > 0 {
        lemma_text_less_irreflexive(a.drop_first());
    }
}

/// Text order is transitive.
pub proof fn lemma_text_less_transitive(a: Seq<char>, b: Seq<char>, c: Seq<char>)
    requires
        text_less(a, b),
        text_less(b, c),
    ensures
        text_less(a, c),
    decreases a.len(),
{
    if a.len() > 0 && b.len() > 0 && c.len() > 0 && a[0] == b[0] && b[0] == c[0] {
        lemma_text_less_transitive(a.drop_first(), b.drop_first(), c.drop_first());
    }
}

/// Of two texts, one sorts before the other or they are equal.
pub proof fn lemma_text_less_trichotomy(a: Seq<char>, b: Seq<char>)
    ensures
        a == b || text_less(a, b) || text_less(b, a),
{
    if !text_less(a, b) && !text_less(b, a) {
        lemma_text_less_total(a, b);
    }
}

/// Two texts neither of which sorts before the other are equal.
pub proof fn lemma_text_less_total(a: Seq<char>, b: Seq<char>)
    requires
        !text_less(a, b),
        !text_less(b, a),
    ensures
        a == b,
    decreases a.len(),
{
    if a.len() > 0 && b.len() > 0 {
        lemma_text_less_total(a.drop_first(), b.drop_first());
        assert(a =~= seq![a[0]] + a.drop_first());
        assert(b =~= seq![b[0]] + b.drop_first());
    } else {
        assert(a =~= b);
    }
}

/// Whether path `a` comes before path `b`: component by component, each compared as text, a
/// proper prefix of components first. That is character order with `/` lowest.
pub open spec fn path_less(a: Seq<char>, b: Seq<char>) -> bool
    decreases a.len(),
{
    if a.len() == 0 {
        b.len() > 0
    } else if b.len() == 0 {
        false
    } else if a[0] != b[0] {
        a[0] == '/' || (b[0] != '/' && a[0] < b[0])
    } else {
        path_less(a.drop_first(), b.drop_first())
    }
}

/// Path order is asymmetric.
pub proof fn lemma_path_less_asymmetric(a: Seq<char>, b: Seq<char>)
    requires
        path_less(a, b),
    ensures
        !path_less(b, a),
        a != b,
    decreases a.len(),
{
    if a.len() > 0 && b.len() > 0 && a[0] == b[0] {
        lemma_path_less_asymmetric(a.drop_first(), b.drop_first());
    }
}

/// No path sorts before itself.
pub proof fn lemma_path_less_irreflexive(a: Seq<char>)
    ensures
        !path_less(a, a),
    decreases a.len(),
{
    if a.len() > 0 {
        lemma_path_less_irreflexive(a.drop_first());
    }
}

/// Path order is transitive.
pub proof fn lemma_path_less_transitive(a: Seq<char>, b: Seq<char>, c: Seq<char>)
    requires
        path_less(a, b),
        path_less(b, c),
    ensures
        path_less(a, c),
    decreases a.len(),
{
    if a.len() > 0 && b.len() > 0 && c.len() > 0 && a[0] == b[0] && b[0] == c[0] {
        lemma_path_less_transitive(a.drop_first(), b.drop_first(), c.drop_first());
    }
}

/// Of two paths, one sorts before the other or they are equal.
pub proof fn lemma_path_less_trichotomy(a: Seq<char>, b: Seq<char>)
    ensures
        a == b || path_less(a, b) || path_less(b, a),
{
    if !path_less(a, b) && !path_less(b, a) {
        lemma_path_less_total(a, b);
    }
}

/// Two paths neither of which sorts before the other are equal.
pub proof fn lemma_path_less_total(a: Seq<char>, b: Seq<char>)
    requires
        !path_less(a, b),
        !path_less(b, a),
    ensures
        a == b,
    decreases a.len(),
{
    if a.len() > 0 && b.len() > 0 {
        lemma_path_less_total(a.drop_first(), b.drop_first());
        assert(a =~= seq![a[0]] + a.drop_first());
        assert(b =~= seq![b[0]] + b.drop_first());
    } else {
        assert(a =~= b);
    }
}

/// `path_less` on two paths.
pub fn less_path(a: &str, b: &str) -> (r: bool)
    ensures
        r == path_less(a@, b@),
{
    let x = to_chars(a);
    let y = to_chars(b);
    let mut i: usize = 0;
    assert(a@.skip(0) =~= a@);
    assert(b@.skip(0) =~= b@);
    while i < x.len() && i < y.len() && x[i] == y[i]
        invariant
            i <= x@.len(),
            i <= y@.len(),
            x@ == a@,
            y@ == b@,
            path_less(a@, b@) == path_less(a@.skip(i as int), b@.skip(i as int)),
        decreases x.len() - i,
    {
        assert(a@.skip(i as int).drop_first() =~= a@.skip(i + 1));
        assert(b@.skip(i as int).drop_first() =~= b@.skip(i + 1));
        i += 1;
    }
    if i == x.len() {
        assert(a@.skip(i as int).len() == 0);
        i < y.len()
    } else if i == y.len() {
        false
    } else {
        assert(a@.skip(i as int)[0] == x@[i as int]);
        assert(b@.skip(i as int)[0] == y@[i as int]);
        if x[i] == '/' {
            true
        } else if y[i] == '/' {
            false
        } else {
            x[i] < y[i]
        }
    }
}

/// `text_less` on two strings.
pub fn less_text(a: &str, b: &str) -> (r: bool)
    ensures
        r == text_less(a@, b@),
{
    let x = to_chars(a);
    let y = to_chars(b);
    let mut i: usize = 0;
    assert(a@.skip(0) =~= a@);
    assert(b@.skip(0) =~= b@);
    while i < x.len() && i < y.len() && x[i] == y[i]
        invariant
            i <= x@.len(),
            i <= y@.len(),
            x@ == a@,
            y@ == b@,
            text_less(a@, b@) == text_less(a@.skip(i as int), b@.skip(i as int)),
        decreases x.len() - i,
    {
        assert(a@.skip(i as int).drop_first() =~= a@.skip(i + 1));
        assert(b@.skip(i as int).drop_first() =~= b@.skip(i + 1));
        i += 1;
    }
    if i == x.len() {
        assert(a@.skip(i as int).len() == 0);
        i < y.len()
    } else if i == y.len() {
        false
    } else {
        assert(a@.skip(i as int)[0] == x@[i as int]);
        assert(b@.skip(i as int)[0] == y@[i as int]);
        x[i] < y[i]
    }
}

} // verus!
