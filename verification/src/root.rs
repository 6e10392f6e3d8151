//! Root names and root-relative file paths.
use vstd::prelude::*;
use crate::chars::{decimal, decimal_text, push_char, push_text};

use crate::chars::{
    all_chars, ascii_alnum, first_failing, is_ascii_alnum, lemma_first_failing,
    lemma_split_on_nonempty, ranges_of_split, split_on, split_ranges, to_chars,
};
use crate::marker::path::{dot_dot, file_name_of, RelPath};

verus! {

broadcast use vstd::string::group_string_axioms;

pub const MAX_ROOT_NAME_BYTES: usize = 64;

/// Name of a root: the namespace a reference resolves in. `[A-Za-z0-9_-]+`.
#[derive(Debug, PartialEq, Eq, Hash, PartialOrd, Ord)]
pub struct RootName(String);

#[derive(Debug, Clone, Copy, PartialEq, Eq, Structural, Hash)]
pub enum RootNameError {
    Empty,
    TooLong { len: usize },
    InvalidChar { ch: char },
}

pub open spec fn is_root_name_char(ch: char) -> bool {
    is_ascii_alnum(ch) || ch == '_' || ch == '-'
}

pub fn root_name_char(ch: char) -> (b: bool)
    ensures
        b == is_root_name_char(ch),
{
    ascii_alnum(ch) || ch == '_' || ch == '-'
}

pub open spec fn root_name_pred() -> spec_fn(char) -> bool {
    |c: char| is_root_name_char(c)
}

/// What `RootName::parse` decides for `raw`, whose UTF-8 length is `len`.
pub open spec fn root_name_verdict(raw: Seq<char>, len: usize) -> Result<(), RootNameError> {
    if raw.len() == 0 {
        Err(RootNameError::Empty)
    } else if len > MAX_ROOT_NAME_BYTES {
        Err(RootNameError::TooLong { len })
    } else if !all_chars(raw, root_name_pred()) {
        Err(
            RootNameError::InvalidChar {
                ch: raw[first_failing(raw, root_name_pred())],
            },
        )
    } else {
        Ok(())
    }
}

impl View for RootName {
    type V = Seq<char>;

    closed spec fn view(&self) -> Seq<char> {
        self.0@
    }
}

impl RootName {
    pub fn parse(raw: &str) -> (r: Result<Self, RootNameError>)
        ensures
            match root_name_verdict(raw@, raw.len()) {
                Ok(()) => r matches Ok(name) && name@ == raw@,
                Err(e) => r == Err::<Self, RootNameError>(e),
            },
    {
        if raw.is_empty() {
            return Err(RootNameError::Empty);
        }
        if raw.len() > MAX_ROOT_NAME_BYTES {
            return Err(RootNameError::TooLong { len: raw.len() });
        }
        let chars = to_chars(raw);
        let mut i: usize = 0;
        while i < chars.len()
            invariant
                i <= chars@.len(),
                chars@ == raw@,
                raw@.len() != 0,
                raw.len() <= MAX_ROOT_NAME_BYTES,
                forall|j: int| 0 <= j < i ==> is_root_name_char(#[trigger] chars@[j]),
            decreases chars.len() - i,
        {
            if !root_name_char(chars[i]) {
                proof {
                    lemma_first_failing(raw@, root_name_pred(), i as int);
                    assert(!root_name_pred()(raw@[i as int]));
                }
                return Err(RootNameError::InvalidChar { ch: chars[i] });
            }
            i += 1;
        }
        Ok(RootName(raw.to_owned()))
    }

    pub fn as_str(&self) -> (s: &str)
        ensures
            s@ == self@,
    {
        self.0.as_str()
    }

    /// Whether two names spell the same root.
    pub fn same(&self, other: &RootName) -> (b: bool)
        ensures
            b == (self@ == other@),
    {
        self.0 == other.0
    }
}

impl Clone for RootName {
    fn clone(&self) -> (r: Self)
        ensures
            r@ == self@,
    {
        RootName(self.0.clone())
    }
}


/// A file's path relative to its root, with `/` separators. Unlike a `RelPath` it admits any
/// name a file can have; it only refuses what would leave the root.
#[derive(Debug, PartialEq, Eq, Hash, PartialOrd, Ord)]
pub struct FilePath(String);

#[derive(Debug, Clone, Copy, PartialEq, Eq, Structural, Hash)]
pub enum FilePathError {
    Empty,
    NotRelative,
}

/// What `FilePath::new` decides for `raw`.
pub open spec fn file_path_verdict(raw: Seq<char>) -> Option<FilePathError> {
    if raw.len() == 0 {
        Some(FilePathError::Empty)
    } else if raw[0] == '/' || split_on(raw, '/').contains(dot_dot()) {
        Some(FilePathError::NotRelative)
    } else {
        None
    }
}

/// The directory part of a path: everything before its last `/`, or nothing.
pub open spec fn directory_of(s: Seq<char>) -> Seq<char> {
    let start = s.len() - file_name_of(s).len();
    if start == 0 {
        Seq::empty()
    } else {
        s.take(start - 1)
    }
}

impl View for FilePath {
    type V = Seq<char>;

    closed spec fn view(&self) -> Seq<char> {
        self.0@
    }
}

/// `raw` written with `separator` between its components, rewritten with `/`.
pub open spec fn with_forward_slashes(raw: Seq<char>, separator: char) -> Seq<char> {
    raw.map_values(|c: char| if c == separator { '/' } else { c })
}

impl FilePath {
    /// A path as the platform spells it, `separator` being the platform's own (`\\` on
    /// Windows): the separator becomes `/` before the path is checked.
    pub fn from_native(raw: &str, separator: char) -> (r: Result<Self, FilePathError>)
        ensures
            match file_path_verdict(with_forward_slashes(raw@, separator)) {
                None => r matches Ok(path) && path@ == with_forward_slashes(raw@, separator),
                Some(f) => r == Err::<Self, FilePathError>(f),
            },
    {
        let chars = to_chars(raw);
        let mut out = String::new();
        let mut i: usize = 0;
        while i < chars.len()
            invariant
                i <= chars@.len(),
                chars@ == raw@,
                out@ == with_forward_slashes(raw@.take(i as int), separator),
            decreases chars.len() - i,
        {
            let c = chars[i];
            crate::chars::push_char(&mut out, if c == separator { '/' } else { c });
            assert(with_forward_slashes(raw@.take(i + 1), separator) =~= with_forward_slashes(
                raw@.take(i as int),
                separator,
            ).push(if c == separator { '/' } else { c }));
            i += 1;
        }
        assert(raw@.take(i as int) =~= raw@);
        FilePath::new(out.as_str())
    }

    pub fn new(raw: &str) -> (r: Result<Self, FilePathError>)
        ensures
            match file_path_verdict(raw@) {
                None => r matches Ok(path) && path@ == raw@,
                Some(f) => r == Err::<Self, FilePathError>(f),
            },
    {
        let chars = to_chars(raw);
        if chars.len() == 0 {
            return Err(FilePathError::Empty);
        }
        if chars[0] == '/' {
            return Err(FilePathError::NotRelative);
        }
        let ranges = split_ranges(&chars, '/');
        let ghost segs = split_on(raw@, '/');
        let mut k: usize = 0;
        while k < ranges.len()
            invariant
                k <= ranges@.len(),
                chars@ == raw@,
                raw@.len() > 0,
                raw@[0] != '/',
                segs == split_on(raw@, '/'),
                ranges_of_split(raw@, '/', ranges@),
                forall|j: int| 0 <= j < k ==> #[trigger] segs[j] != dot_dot(),
            decreases ranges.len() - k,
        {
            let (a, b) = ranges[k];
            if b - a == 2 && chars[a] == '.' && chars[a + 1] == '.' {
                assert(segs[k as int] =~= dot_dot());
                assert(segs.contains(dot_dot()));
                return Err(FilePathError::NotRelative);
            }
            assert(segs[k as int] != dot_dot()) by {
                if segs[k as int] == dot_dot() {
                    assert(segs[k as int].len() == 2);
                    assert(chars@[a as int] == segs[k as int][0]);
                    assert(chars@[a + 1] == segs[k as int][1]);
                }
            }
            k += 1;
        }
        assert(!segs.contains(dot_dot()));
        Ok(FilePath(raw.to_owned()))
    }

    /// The file path a reference's `RelPath` names.
    pub fn from_rel(path: &RelPath) -> (r: Self)
        ensures
            r@ == path@,
    {
        FilePath(path.as_str().to_owned())
    }

    pub fn as_str(&self) -> (s: &str)
        ensures
            s@ == self@,
    {
        self.0.as_str()
    }

    /// The root-relative directory holding the file; empty for a file at the root.
    pub fn directory(&self) -> (s: &str)
        ensures
            s@ == directory_of(self@),
    {
        let chars = to_chars(self.0.as_str());
        let ranges = split_ranges(&chars, '/');
        proof {
            lemma_split_on_nonempty(self@, '/');
        }
        let (a, b) = ranges[ranges.len() - 1];
        if a == 0 {
            self.0.as_str().substring_char(0, 0)
        } else {
            self.0.as_str().substring_char(0, a - 1)
        }
    }

    /// Whether two paths are the same.
    pub fn same(&self, other: &FilePath) -> (b: bool)
        ensures
            b == (self@ == other@),
    {
        self.0 == other.0
    }
}

impl Clone for FilePath {
    fn clone(&self) -> (r: Self)
        ensures
            r@ == self@,
    {
        FilePath(self.0.clone())
    }
}

/// What an invalid root name is reported as.
pub open spec fn root_name_message(e: RootNameError) -> Seq<char> {
    match e {
        RootNameError::Empty => "root name is empty"@,
        RootNameError::TooLong { len } => "root name is "@ + decimal(len as nat) + " bytes; the limit is "@ + decimal(MAX_ROOT_NAME_BYTES as nat),
        RootNameError::InvalidChar { ch } => ("root name contains `"@).push(ch) + "`; only letters, digits, `_` and `-` are allowed"@,
    }
}

impl RootNameError {
    /// The message this error is reported with.
    pub fn message(&self) -> (s: String)
        ensures
            s@ == root_name_message(*self),
    {
        match self {
            RootNameError::Empty => {
                "root name is empty".to_owned()
            },
            RootNameError::TooLong { len } => {
                let mut s = "root name is ".to_owned();
                push_text(&mut s, &decimal_text(*len as u64));
                push_text(&mut s, " bytes; the limit is ");
                push_text(&mut s, &decimal_text(MAX_ROOT_NAME_BYTES as u64));
                s
            },
            RootNameError::InvalidChar { ch } => {
                let mut s = "root name contains `".to_owned();
                push_char(&mut s, *ch);
                push_text(&mut s, "`; only letters, digits, `_` and `-` are allowed");
                s
            },
        }
    }
}

} // verus!
