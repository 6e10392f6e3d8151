//! Root-relative paths as a reference target spells them.
use vstd::prelude::*;
use crate::chars::{decimal, decimal_text, push_char, push_text};

use crate::chars::{
    all_chars, control, first_failing, is_control, is_unicode_whitespace, lemma_first_failing,
    lemma_split_on_nonempty, ranges_of_split, split_on, split_ranges, to_chars,
    unicode_whitespace,
};

verus! {

broadcast use vstd::string::group_string_axioms;

pub const MAX_PATH_BYTES: usize = 1024;

/// A root-relative, forward-slash path with no `.`/`..` segments and an allowlisted charset.
/// Built by `parse` from a root-relative spelling or by `anchored` from a `./` or `../` one;
/// the stored path is root-relative either way. Never touches the filesystem; joining it onto
/// a root cannot escape that root.
#[derive(Debug, PartialEq, Eq, Hash, PartialOrd, Ord)]
pub struct RelPath(String);

/// Whether a path target ended in `/`, which additionally requires a directory.
#[derive(Debug, Clone, Copy, PartialEq, Eq, Structural, Hash)]
pub enum PathExpectation {
    Any,
    Directory,
}

#[derive(Debug, Clone, Copy, PartialEq, Eq, Structural, Hash)]
pub enum PathError {
    Empty,
    TooLong { len: usize },
    Absolute,
    Backslash,
    EmptySegment,
    CurrentDirectory,
    ParentDirectory,
    EscapesRoot,
    NamesRoot,
    ReservedChar { ch: char },
    InvalidChar { ch: char },
}

/// Characters the target grammar reserves; a path segment may not contain them.
pub open spec fn is_reserved(ch: char) -> bool {
    ch == '[' || ch == ']' || ch == '#' || ch == ':' || ch == '\\'
}

pub open spec fn path_char_fault(ch: char) -> Option<PathError> {
    if is_reserved(ch) {
        Some(PathError::ReservedChar { ch })
    } else if is_unicode_whitespace(ch) || is_control(ch) {
        Some(PathError::InvalidChar { ch })
    } else {
        None
    }
}

pub open spec fn path_char_pred() -> spec_fn(char) -> bool {
    |c: char| path_char_fault(c) is None
}

pub open spec fn dot() -> Seq<char> {
    seq!['.']
}

pub open spec fn dot_dot() -> Seq<char> {
    seq!['.', '.']
}

/// What is wrong with one segment of a path, if anything.
pub open spec fn path_segment_fault(seg: Seq<char>) -> Option<PathError> {
    if seg.len() == 0 {
        Some(PathError::EmptySegment)
    } else if seg == dot() {
        Some(PathError::CurrentDirectory)
    } else if seg == dot_dot() {
        Some(PathError::ParentDirectory)
    } else if !all_chars(seg, path_char_pred()) {
        path_char_fault(seg[first_failing(seg, path_char_pred())])
    } else {
        None
    }
}

/// The fault of the first faulty segment.
pub open spec fn path_segments_fault(segs: Seq<Seq<char>>) -> Option<PathError>
    decreases segs.len(),
{
    if segs.len() == 0 {
        None
    } else {
        match path_segment_fault(segs[0]) {
            Some(fault) => Some(fault),
            None => path_segments_fault(segs.drop_first()),
        }
    }
}

/// The checks on a whole spelling, before its segments.
pub open spec fn shape_fault(raw: Seq<char>, len: usize) -> Option<PathError> {
    if raw.len() == 0 {
        Some(PathError::Empty)
    } else if len > MAX_PATH_BYTES {
        Some(PathError::TooLong { len })
    } else if raw[0] == '/' {
        Some(PathError::Absolute)
    } else if raw.contains('\\') {
        Some(PathError::Backslash)
    } else {
        None
    }
}

/// What `RelPath::parse` decides for `raw`, whose UTF-8 length is `len`.
pub open spec fn path_verdict(raw: Seq<char>, len: usize) -> Option<PathError> {
    match shape_fault(raw, len) {
        Some(fault) => Some(fault),
        None => path_segments_fault(split_on(raw, '/')),
    }
}

/// `.`, `..`, `./…`, `../…`. `.hidden` and `..rc` are ordinary names.
pub open spec fn is_file_relative_spec(text: Seq<char>) -> bool {
    ||| text == dot()
    ||| text == dot_dot()
    ||| (text.len() >= 2 && text[0] == '.' && text[1] == '/')
    ||| (text.len() >= 3 && text[0] == '.' && text[1] == '.' && text[2] == '/')
}

pub fn is_file_relative(text: &str) -> (b: bool)
    ensures
        b == is_file_relative_spec(text@),
{
    let chars = to_chars(text);
    let n = chars.len();
    let r = (n == 1 && chars[0] == '.') || (n == 2 && chars[0] == '.' && chars[1] == '.') || (n
        >= 2 && chars[0] == '.' && chars[1] == '/') || (n >= 3 && chars[0] == '.' && chars[1]
        == '.' && chars[2] == '/');
    proof {
        if n == 1 && chars[0] == '.' {
            assert(text@ =~= dot());
        }
        if n == 2 && chars[0] == '.' && chars[1] == '.' {
            assert(text@ =~= dot_dot());
        }
    }
    r
}

/// The leading `./` (once) or `../` run that `anchored` resolves against the file's directory;
/// returns how many of the first pieces it takes.
pub open spec fn leading_dots(segs: Seq<Seq<char>>) -> nat
    decreases segs.len(),
{
    if segs.len() > 0 && segs[0] == dot() {
        1
    } else {
        leading_parents(segs)
    }
}

pub open spec fn leading_parents(segs: Seq<Seq<char>>) -> nat
    decreases segs.len(),
{
    if segs.len() > 0 && segs[0] == dot_dot() {
        1 + leading_parents(segs.drop_first())
    } else {
        0
    }
}

/// Lexical normalization of a list of segments: empty and `.` segments vanish, `..` removes
/// the previous segment and fails when there is none.
pub open spec fn normalize(segs: Seq<Seq<char>>) -> Option<Seq<Seq<char>>>
    decreases segs.len(),
{
    if segs.len() == 0 {
        Some(Seq::empty())
    } else {
        match normalize(segs.drop_last()) {
            None => None,
            Some(stack) => {
                let seg = segs.last();
                if seg.len() == 0 || seg == dot() {
                    Some(stack)
                } else if seg == dot_dot() {
                    if stack.len() == 0 {
                        None
                    } else {
                        Some(stack.drop_last())
                    }
                } else {
                    Some(stack.push(seg))
                }
            },
        }
    }
}

/// Segments joined with `/`.
pub open spec fn join(segs: Seq<Seq<char>>) -> Seq<char>
    decreases segs.len(),
{
    if segs.len() == 0 {
        Seq::empty()
    } else if segs.len() == 1 {
        segs[0]
    } else {
        join(segs.drop_last()) + seq!['/'] + segs.last()
    }
}

/// What `RelPath::anchored` decides for `written` in a file whose directory is `dir`: the
/// normalized path, or the fault.
pub open spec fn anchored_verdict(dir: Seq<char>, written: Seq<char>, len: usize) -> Result<
    Seq<char>,
    PathError,
> {
    if !is_file_relative_spec(written) {
        match path_verdict(written, len) {
            Some(fault) => Err(fault),
            None => Ok(written),
        }
    } else {
        match shape_fault(written, len) {
            Some(fault) => Err(fault),
            None => {
                let segs = split_on(written, '/');
                match path_segments_fault(segs.skip(leading_dots(segs) as int)) {
                    Some(fault) => Err(fault),
                    None => match normalize(split_on(dir, '/') + segs) {
                        None => Err(PathError::EscapesRoot),
                        Some(stack) => if stack.len() == 0 {
                            Err(PathError::NamesRoot)
                        } else {
                            Ok(join(stack))
                        },
                    },
                }
            },
        }
    }
}


/// Index of the last `c` in `s`, or -1.
pub open spec fn last_index_of(s: Seq<char>, c: char) -> int
    decreases s.len(),
{
    if s.len() == 0 {
        -1
    } else if s.last() == c {
        s.len() - 1
    } else {
        last_index_of(s.drop_last(), c)
    }
}

/// The last `/`-separated piece of `s`.
pub open spec fn file_name_of(s: Seq<char>) -> Seq<char> {
    split_on(s, '/').last()
}

/// Everything before the last `/`, when there is one.
pub open spec fn parent_of(s: Seq<char>) -> Option<Seq<char>> {
    let start = s.len() - file_name_of(s).len();
    if start == 0 {
        None
    } else {
        Some(s.take(start - 1))
    }
}

/// `Path::extension` of a file name: what follows its last `.`, unless that `.` is the first
/// character or there is none.
pub open spec fn extension_of(name: Seq<char>) -> Option<Seq<char>> {
    let d = last_index_of(name, '.');
    if d <= 0 {
        None
    } else {
        Some(name.skip(d + 1))
    }
}

/// Finds `last_index_of(chars[a..b], c)`, relative to `a`.
pub fn find_last(chars: &Vec<char>, a: usize, b: usize, c: char) -> (r: Option<usize>)
    requires
        a <= b <= chars@.len(),
    ensures
        match r {
            Some(i) => a <= i < b && i - a == last_index_of(chars@.subrange(a as int, b as int), c),
            None => last_index_of(chars@.subrange(a as int, b as int), c) == -1,
        },
{
    let mut j: usize = b;
    while j > a
        invariant
            a <= j <= b <= chars@.len(),
            last_index_of(chars@.subrange(a as int, b as int), c) == last_index_of(
                chars@.subrange(a as int, j as int),
                c,
            ),
        decreases j - a,
    {
        let ghost sub = chars@.subrange(a as int, j as int);
        assert(sub.drop_last() =~= chars@.subrange(a as int, j - 1));
        if chars[j - 1] == c {
            return Some(j - 1);
        }
        j -= 1;
    }
    None
}

/// Every range in `stack` lies inside the text it comes from.
pub open spec fn stack_ok(dir_len: nat, written_len: nat, stack: Seq<(bool, usize, usize)>) -> bool {
    forall|i: int|
        0 <= i < stack.len() ==> #[trigger] stack[i].1 <= stack[i].2 && stack[i].2 <= (if stack[i].0 {
            dir_len
        } else {
            written_len
        })
}

/// The text of one piece of `dir` (when `p.0`) or of `written`.
pub open spec fn piece(dir: Seq<char>, written: Seq<char>, p: (bool, usize, usize)) -> Seq<char> {
    if p.0 {
        dir.subrange(p.1 as int, p.2 as int)
    } else {
        written.subrange(p.1 as int, p.2 as int)
    }
}

pub open spec fn pieces(dir: Seq<char>, written: Seq<char>, stack: Seq<(bool, usize, usize)>) -> Seq<
    Seq<char>,
> {
    stack.map_values(|p: (bool, usize, usize)| piece(dir, written, p))
}

/// What a range of `chars` holds, as `normalize` sees it: 0 for empty or `.`, 1 for `..`,
/// 2 for a name.
fn classify(chars: &Vec<char>, a: usize, b: usize) -> (k: u8)
    requires
        a <= b <= chars@.len(),
    ensures
        k == 0 <==> (chars@.subrange(a as int, b as int).len() == 0 || chars@.subrange(
            a as int,
            b as int,
        ) == dot()),
        k == 1 <==> chars@.subrange(a as int, b as int) == dot_dot(),
        k <= 2,
{
    let ghost seg = chars@.subrange(a as int, b as int);
    assert(dot().len() == 1 && dot_dot().len() == 2);
    if a == b {
        return 0;
    }
    if b - a == 1 && chars[a] == '.' {
        assert(seg =~= dot());
        return 0;
    }
    if b - a == 2 && chars[a] == '.' && chars[a + 1] == '.' {
        assert(seg =~= dot_dot());
        return 1;
    }
    assert(seg != dot()) by {
        if seg == dot() {
            assert(seg.len() == 1 && seg[0] == '.');
        }
    }
    assert(seg != dot_dot()) by {
        if seg == dot_dot() {
            assert(seg.len() == 2 && seg[0] == '.' && seg[1] == '.');
        }
    }
    2
}

/// One step of `normalize` over the pieces `ranges` of `chars`, appended to `stack`.
#[verifier::spinoff_prover]
#[verifier::rlimit(40)]
fn normalize_into(
    dir: &Vec<char>,
    written: &Vec<char>,
    from_dir: bool,
    ranges: &Vec<(usize, usize)>,
    stack: &mut Vec<(bool, usize, usize)>,
    escaped: &mut bool,
    Ghost(before): Ghost<Seq<Seq<char>>>,
)
    requires
        ranges_of_split(if from_dir { dir@ } else { written@ }, '/', ranges@),
        *old(escaped) ==> normalize(before) is None,
        !*old(escaped) ==> normalize(before) == Some(pieces(dir@, written@, old(stack)@)),
        stack_ok(dir@.len(), written@.len(), old(stack)@),
    ensures
        ({
            let after = before + split_on(if from_dir { dir@ } else { written@ }, '/');
            &&& *final(escaped) ==> normalize(after) is None
            &&& !*final(escaped) ==> normalize(after) == Some(
                pieces(dir@, written@, final(stack)@),
            )
        }),
        stack_ok(dir@.len(), written@.len(), final(stack)@),
{
    let ghost src = if from_dir {
        dir@
    } else {
        written@
    };
    let ghost segs = split_on(src, '/');
    let mut k: usize = 0;
    assert(before + segs.take(0) =~= before);

    while k < ranges.len()
        invariant
            k <= ranges@.len(),
            src == (if from_dir { dir@ } else { written@ }),
            segs == split_on(src, '/'),
            ranges_of_split(src, '/', ranges@),
            *escaped ==> normalize(before + segs.take(k as int)) is None,
            !*escaped ==> normalize(before + segs.take(k as int)) == Some(
                pieces(dir@, written@, stack@),
            ),
            stack_ok(dir@.len(), written@.len(), stack@),
        decreases ranges.len() - k,
    {
        let (a, b) = ranges[k];
        let ghost all = before + segs.take(k + 1);
        assert(all.drop_last() =~= before + segs.take(k as int));
        assert(all.last() == segs[k as int]);
        let kind = if from_dir {
            classify(dir, a, b)
        } else {
            classify(written, a, b)
        };
        if !*escaped {
            let ghost old_stack = stack@;
            if kind == 1 {
                if stack.len() == 0 {
                    *escaped = true;
                } else {
                    stack.pop();
                    assert(stack@ =~= old_stack.drop_last());
                    assert(pieces(dir@, written@, stack@) =~= pieces(dir@, written@, old_stack).drop_last());
                    assert(stack_ok(dir@.len(), written@.len(), stack@)) by {
                        assert forall|i: int| 0 <= i < stack@.len() implies #[trigger] stack@[i] == old_stack[i] by {}
                    }
                }
            } else if kind == 2 {
                stack.push((from_dir, a, b));
                assert(ranges@[k as int].0 <= ranges@[k as int].1 <= src.len());
                assert(stack_ok(dir@.len(), written@.len(), stack@)) by {
                    assert forall|i: int| 0 <= i < stack@.len() - 1 implies #[trigger] stack@[i] == old_stack[i] by {}
                }
                assert(pieces(dir@, written@, stack@) =~= pieces(dir@, written@, old_stack).push(
                    segs[k as int],
                ));
            }
        }
        k += 1;
    }
    assert(segs.take(ranges@.len() as int) =~= segs);
}

/// `join` of the pieces, built by appending each piece's text.
#[verifier::spinoff_prover]
#[verifier::rlimit(40)]
fn join_pieces(
    dir_text: &str,
    written_text: &str,
    stack: &Vec<(bool, usize, usize)>,
) -> (s: String)
    requires
        stack_ok(dir_text@.len(), written_text@.len(), stack@),
    ensures
        s@ == join(pieces(dir_text@, written_text@, stack@)),
{
    let ghost all = pieces(dir_text@, written_text@, stack@);
    let mut out = String::new();
    let mut m: usize = 0;
    assert(all.take(0) =~= Seq::<Seq<char>>::empty());
    while m < stack.len()
        invariant
            m <= stack@.len(),
            all == pieces(dir_text@, written_text@, stack@),
            out@ == join(all.take(m as int)),
            stack_ok(dir_text@.len(), written_text@.len(), stack@),
        decreases stack.len() - m,
    {
        let (from_dir, a, b) = stack[m];
        let text = if from_dir {
            dir_text.substring_char(a, b)
        } else {
            written_text.substring_char(a, b)
        };
        assert(text@ == all[m as int]);
        assert(all.take(m + 1).drop_last() =~= all.take(m as int));
        if m > 0 {
            proof {
                reveal_strlit("/");
            }
            out.append("/");
        }
        out.append(text);
        assert(all.take(m + 1).last() == all[m as int]);
        if m == 0 {
            assert(out@ =~= join(all.take(m + 1)));
        } else {
            assert(out@ =~= join(all.take(m + 1)));
        }
        m += 1;
    }
    assert(all.take(stack@.len() as int) =~= all);
    out
}


/// How many leading pieces of `chars` split on `/` are the `./` or `../` run.
fn leading_dot_count(chars: &Vec<char>, ranges: &Vec<(usize, usize)>) -> (skip: usize)
    requires
        ranges_of_split(chars@, '/', ranges@),
    ensures
        skip == leading_dots(split_on(chars@, '/')),
        skip <= ranges@.len(),
{
    let ghost segs = split_on(chars@, '/');
    proof {
        lemma_split_on_nonempty(chars@, '/');
    }
    let (a0, b0) = ranges[0];
    if b0 - a0 == 1 && chars[a0] == '.' {
        assert(segs[0] =~= dot());
        return 1;
    }
    assert(segs[0] != dot()) by {
        if segs[0] == dot() {
            assert(segs[0].len() == 1 && segs[0][0] == '.');
            assert(chars@[a0 as int] == segs[0][0]);
        }
    }
    let mut skip: usize = 0;
    assert(segs.skip(0) =~= segs);
    while skip < ranges.len()
        invariant
            skip <= ranges@.len(),
            ranges_of_split(chars@, '/', ranges@),
            segs == split_on(chars@, '/'),
            leading_parents(segs) == skip + leading_parents(segs.skip(skip as int)),
        ensures
            skip <= ranges@.len(),
            leading_parents(segs) == skip,
        decreases ranges.len() - skip,
    {
        let (a, b) = ranges[skip];
        assert(segs.skip(skip as int).drop_first() =~= segs.skip(skip + 1));
        assert(segs.skip(skip as int)[0] == segs[skip as int]);
        if b - a == 2 && chars[a] == '.' && chars[a + 1] == '.' {
            assert(segs[skip as int] =~= dot_dot());
            skip += 1;
        } else {
            assert(segs[skip as int] != dot_dot()) by {
                if segs[skip as int] == dot_dot() {
                    assert(segs[skip as int].len() == 2);
                    assert(chars@[a as int] == segs[skip as int][0]);
                    assert(chars@[a + 1] == segs[skip as int][1]);
                }
            }
            break;
        }
    }
    assert(skip == ranges@.len() ==> segs.skip(skip as int).len() == 0);
    skip
}

impl View for RelPath {
    type V = Seq<char>;

    closed spec fn view(&self) -> Seq<char> {
        self.0@
    }
}

fn shape_check(raw: &str, chars: &Vec<char>) -> (r: Result<(), PathError>)
    requires
        chars@ == raw@,
    ensures
        match shape_fault(raw@, raw.len()) {
            None => r is Ok,
            Some(f) => r == Err::<(), PathError>(f),
        },
{
    if chars.len() == 0 {
        return Err(PathError::Empty);
    }
    if raw.len() > MAX_PATH_BYTES {
        return Err(PathError::TooLong { len: raw.len() });
    }
    if chars[0] == '/' {
        return Err(PathError::Absolute);
    }
    let mut i: usize = 0;
    while i < chars.len()
        invariant
            i <= chars@.len(),
            chars@ == raw@,
            raw@.len() > 0,
            raw.len() <= MAX_PATH_BYTES,
            raw@[0] != '/',
            forall|j: int| 0 <= j < i ==> #[trigger] chars@[j] != '\\',
        decreases chars.len() - i,
    {
        if chars[i] == '\\' {
            assert(raw@.contains('\\')) by {
                assert(raw@[i as int] == '\\');
            }
            return Err(PathError::Backslash);
        }
        i += 1;
    }
    assert(!raw@.contains('\\'));
    Ok(())
}

fn char_fault(ch: char) -> (r: Option<PathError>)
    ensures
        r == path_char_fault(ch),
{
    if ch == '[' || ch == ']' || ch == '#' || ch == ':' || ch == '\\' {
        Some(PathError::ReservedChar { ch })
    } else if unicode_whitespace(ch) || control(ch) {
        Some(PathError::InvalidChar { ch })
    } else {
        None
    }
}

/// Checks the segment `chars[a..b]`.
fn segment_check(chars: &Vec<char>, a: usize, b: usize) -> (r: Result<(), PathError>)
    requires
        a <= b <= chars@.len(),
    ensures
        match path_segment_fault(chars@.subrange(a as int, b as int)) {
            None => r is Ok,
            Some(f) => r == Err::<(), PathError>(f),
        },
{
    let ghost seg = chars@.subrange(a as int, b as int);
    if a == b {
        return Err(PathError::EmptySegment);
    }
    if b - a == 1 && chars[a] == '.' {
        assert(seg =~= dot());
        return Err(PathError::CurrentDirectory);
    }
    if b - a == 2 && chars[a] == '.' && chars[a + 1] == '.' {
        assert(seg =~= dot_dot());
        return Err(PathError::ParentDirectory);
    }
    assert(seg != dot()) by {
        if seg == dot() {
            assert(seg.len() == 1 && seg[0] == '.');
        }
    }
    assert(seg != dot_dot()) by {
        if seg == dot_dot() {
            assert(seg.len() == 2 && seg[0] == '.' && seg[1] == '.');
        }
    }
    let mut i: usize = a;
    while i < b
        invariant
            a <= i <= b <= chars@.len(),
            seg == chars@.subrange(a as int, b as int),
            seg.len() > 0,
            seg != dot(),
            seg != dot_dot(),
            forall|j: int| 0 <= j < i - a ==> path_char_fault(#[trigger] seg[j]) is None,
        decreases b - i,
    {
        let ch = chars[i];
        assert(seg[i - a] == ch);
        match char_fault(ch) {
            Some(fault) => {
                proof {
                    lemma_first_failing(seg, path_char_pred(), i - a);
                    assert(!path_char_pred()(seg[i - a]));
                }
                return Err(fault);
            },
            None => {},
        }
        i += 1;
    }
    assert(all_chars(seg, path_char_pred()));
    Ok(())
}

/// Checks the pieces `ranges[from..]` of `chars` in order.
#[verifier::rlimit(40)]
fn segments_check(chars: &Vec<char>, ranges: &Vec<(usize, usize)>, from: usize) -> (r: Result<
    (),
    PathError,
>)
    requires
        ranges_of_split(chars@, '/', ranges@),
        from <= ranges@.len(),
    ensures
        match path_segments_fault(split_on(chars@, '/').skip(from as int)) {
            None => r is Ok,
            Some(f) => r == Err::<(), PathError>(f),
        },
{
    let ghost segs = split_on(chars@, '/');
    let mut k: usize = from;
    while k < ranges.len()
        invariant
            from <= k <= ranges@.len(),
            ranges_of_split(chars@, '/', ranges@),
            segs == split_on(chars@, '/'),
            path_segments_fault(segs.skip(from as int)) == path_segments_fault(segs.skip(k as int)),
        decreases ranges.len() - k,
    {
        let (a, b) = ranges[k];
        assert(segs.skip(k as int)[0] == segs[k as int]);
        assert(segs.skip(k as int).drop_first() =~= segs.skip(k + 1));
        match segment_check(chars, a, b) {
            Ok(()) => {},
            Err(e) => {
                return Err(e);
            },
        }
        k += 1;
    }
    assert(segs.skip(k as int).len() == 0);
    Ok(())
}

impl RelPath {
    /// A root-relative spelling. `./` and `..` are errors here; `anchored` accepts them.
    pub fn parse(raw: &str) -> (r: Result<Self, PathError>)
        ensures
            match path_verdict(raw@, raw.len()) {
                None => r matches Ok(path) && path@ == raw@,
                Some(f) => r == Err::<Self, PathError>(f),
            },
    {
        let chars = to_chars(raw);
        shape_check(raw, &chars)?;
        let ranges = split_ranges(&chars, '/');
        assert(split_on(chars@, '/').skip(0) =~= split_on(chars@, '/'));
        segments_check(&chars, &ranges, 0)?;
        Ok(RelPath(raw.to_owned()))
    }

    /// `written` as it appears in a marker inside a file whose directory is `file_dir`
    /// (root-relative, `""` for the root). A bare spelling is root-relative and goes through
    /// `parse`; `./x` and `../x` are anchored to `file_dir` and normalized lexically, so the
    /// result is root-relative either way and a `RelPath` never holds a `.` or `..`.
    pub fn anchored(file_dir: &str, written: &str) -> (r: Result<Self, PathError>)
        ensures
            match anchored_verdict(file_dir@, written@, written.len()) {
                Ok(p) => r matches Ok(path) && path@ == p,
                Err(f) => r == Err::<Self, PathError>(f),
            },
    {
        if !is_file_relative(written) {
            return Self::parse(written);
        }
        let chars = to_chars(written);
        shape_check(written, &chars)?;
        let ranges = split_ranges(&chars, '/');
        let ghost segs = split_on(written@, '/');
        let skip = leading_dot_count(&chars, &ranges);
        assert(leading_dots(segs) == skip);
        segments_check(&chars, &ranges, skip)?;
        let dir_chars = to_chars(file_dir);
        let dir_ranges = split_ranges(&dir_chars, '/');
        let mut stack: Vec<(bool, usize, usize)> = Vec::new();
        let mut escaped = false;
        assert(pieces(file_dir@, written@, stack@) =~= Seq::<Seq<char>>::empty());
        normalize_into(
            &dir_chars,
            &chars,
            true,
            &dir_ranges,
            &mut stack,
            &mut escaped,
            Ghost(Seq::empty()),
        );
        assert(Seq::<Seq<char>>::empty() + split_on(file_dir@, '/') =~= split_on(file_dir@, '/'));
        normalize_into(
            &dir_chars,
            &chars,
            false,
            &ranges,
            &mut stack,
            &mut escaped,
            Ghost(split_on(file_dir@, '/')),
        );
        if escaped {
            return Err(PathError::EscapesRoot);
        }
        if stack.len() == 0 {
            return Err(PathError::NamesRoot);
        }
        let joined = join_pieces(file_dir, written, &stack);
        Ok(RelPath(joined))
    }

    pub fn as_str(&self) -> (s: &str)
        ensures
            s@ == self@,
    {
        self.0.as_str()
    }

    /// The last segment.
    pub fn file_name(&self) -> (s: &str)
        ensures
            s@ == file_name_of(self@),
    {
        let chars = to_chars(self.0.as_str());
        let ranges = split_ranges(&chars, '/');
        proof {
            lemma_split_on_nonempty(self@, '/');
        }
        let (a, b) = ranges[ranges.len() - 1];
        self.0.as_str().substring_char(a, b)
    }

    /// The path without its last segment; `None` for a path of one segment.
    pub fn parent(&self) -> (s: Option<&str>)
        ensures
            match parent_of(self@) {
                None => s is None,
                Some(p) => s matches Some(t) && t@ == p,
            },
    {
        let chars = to_chars(self.0.as_str());
        let ranges = split_ranges(&chars, '/');
        proof {
            lemma_split_on_nonempty(self@, '/');
        }
        let (a, b) = ranges[ranges.len() - 1];
        if a == 0 {
            None
        } else {
            Some(self.0.as_str().substring_char(0, a - 1))
        }
    }

    /// The extension of the last segment.
    pub fn extension(&self) -> (s: Option<&str>)
        ensures
            match extension_of(file_name_of(self@)) {
                None => s is None,
                Some(e) => s matches Some(t) && t@ == e,
            },
    {
        let chars = to_chars(self.0.as_str());
        let ranges = split_ranges(&chars, '/');
        proof {
            lemma_split_on_nonempty(self@, '/');
        }
        let (a, b) = ranges[ranges.len() - 1];
        match find_last(&chars, a, b, '.') {
            None => None,
            Some(d) => {
                if d == a {
                    None
                } else {
                    let ghost name = chars@.subrange(a as int, b as int);
                    assert(name.skip(d - a + 1) =~= chars@.subrange(d + 1, b as int));
                    Some(self.0.as_str().substring_char(d + 1, b))
                }
            },
        }
    }

    /// Whether two paths are the same.
    pub fn same(&self, other: &RelPath) -> (b: bool)
        ensures
            b == (self@ == other@),
    {
        self.0 == other.0
    }
}

impl Clone for RelPath {
    fn clone(&self) -> (r: Self)
        ensures
            r@ == self@,
    {
        RelPath(self.0.clone())
    }
}

/// What an invalid path is reported as.
pub open spec fn path_message(e: PathError) -> Seq<char> {
    match e {
        PathError::Empty => "path is empty"@,
        PathError::TooLong { len } => "path is "@ + decimal(len as nat) + " bytes; the limit is "@ + decimal(MAX_PATH_BYTES as nat),
        PathError::Absolute => "path is absolute; paths are relative to the root"@,
        PathError::Backslash => "path contains `\\`; use `/` as the separator"@,
        PathError::EmptySegment => "path has an empty segment (trailing or doubled `/`)"@,
        PathError::CurrentDirectory => "path contains a `.` segment; `./` is allowed only at the start of a path"@,
        PathError::ParentDirectory => "path contains a `..` segment after a name; `../` is allowed only as a leading run"@,
        PathError::EscapesRoot => "relative path leaves the root: more `../` than directories above this file"@,
        PathError::NamesRoot => "relative path names the root directory itself; name a file or directory inside it"@,
        PathError::ReservedChar { ch } => ("path contains `"@).push(ch) + "`, which the target grammar reserves"@,
        PathError::InvalidChar { .. } => "path contains whitespace or a control character"@,
    }
}

impl PathError {
    /// The message this error is reported with.
    pub fn message(&self) -> (s: String)
        ensures
            s@ == path_message(*self),
    {
        match self {
            PathError::Empty => {
                "path is empty".to_owned()
            },
            PathError::TooLong { len } => {
                let mut s = "path is ".to_owned();
                push_text(&mut s, &decimal_text(*len as u64));
                push_text(&mut s, " bytes; the limit is ");
                push_text(&mut s, &decimal_text(MAX_PATH_BYTES as u64));
                s
            },
            PathError::Absolute => {
                "path is absolute; paths are relative to the root".to_owned()
            },
            PathError::Backslash => {
                "path contains `\\`; use `/` as the separator".to_owned()
            },
            PathError::EmptySegment => {
                "path has an empty segment (trailing or doubled `/`)".to_owned()
            },
            PathError::CurrentDirectory => {
                "path contains a `.` segment; `./` is allowed only at the start of a path".to_owned()
            },
            PathError::ParentDirectory => {
                "path contains a `..` segment after a name; `../` is allowed only as a leading run".to_owned()
            },
            PathError::EscapesRoot => {
                "relative path leaves the root: more `../` than directories above this file".to_owned()
            },
            PathError::NamesRoot => {
                "relative path names the root directory itself; name a file or directory inside it".to_owned()
            },
            PathError::ReservedChar { ch } => {
                let mut s = "path contains `".to_owned();
                push_char(&mut s, *ch);
                push_text(&mut s, "`, which the target grammar reserves");
                s
            },
            PathError::InvalidChar { .. } => {
                "path contains whitespace or a control character".to_owned()
            },
        }
    }
}

} // verus!
