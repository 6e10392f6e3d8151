//! Unqualified declaration names.
use vstd::prelude::*;
use crate::chars::{decimal, decimal_text, push_char, push_text, same_text};

use crate::chars::{
    all_chars, ascii_alnum, ascii_alpha, first_failing, is_ascii_alnum, is_ascii_alpha,
    lemma_first_failing, to_chars,
};

verus! {

broadcast use vstd::string::group_string_axioms;

pub const MAX_SYMBOL_BYTES: usize = 256;

/// An unqualified declaration name: `[A-Za-z_$][A-Za-z0-9_$]*`.
///
/// Qualified forms (`Foo::bar`, `Class.method`) are rejected rather than matched on their last
/// segment: the guarantee is file-scoped, and a qualified name would be a guaranteed miss.
#[derive(Debug, PartialEq, Eq, Hash, PartialOrd, Ord)]
pub struct SymbolName(String);

#[derive(Debug, Clone, Copy, PartialEq, Eq, Hash)]
pub enum SymbolError {
    Empty,
    TooLong { len: usize },
    Qualified { separator: &'static str },
    InvalidStart { ch: char },
    InvalidChar { ch: char },
}

/// The separator a qualified name uses, as `SymbolError::Qualified` reports it.
#[derive(Debug, Clone, Copy, PartialEq, Eq, Structural)]
pub enum Qualifier {
    Path,
    Member,
}

/// `SymbolError` with its separator named by `Qualifier`, for contracts.
#[derive(Debug, Clone, Copy, PartialEq, Eq, Structural)]
pub enum SymbolFault {
    Empty,
    TooLong { len: usize },
    Qualified { separator: Qualifier },
    InvalidStart { ch: char },
    InvalidChar { ch: char },
}

impl SymbolError {
    /// This error with its separator as a `Qualifier`.
    pub open spec fn fault(self) -> SymbolFault {
        match self {
            SymbolError::Empty => SymbolFault::Empty,
            SymbolError::TooLong { len } => SymbolFault::TooLong { len },
            SymbolError::Qualified { separator } => SymbolFault::Qualified {
                separator: if separator@ == "::"@ {
                    Qualifier::Path
                } else {
                    Qualifier::Member
                },
            },
            SymbolError::InvalidStart { ch } => SymbolFault::InvalidStart { ch },
            SymbolError::InvalidChar { ch } => SymbolFault::InvalidChar { ch },
        }
    }
}

pub open spec fn is_symbol_start(ch: char) -> bool {
    is_ascii_alpha(ch) || ch == '_' || ch == '$'
}

pub open spec fn is_symbol_char(ch: char) -> bool {
    is_ascii_alnum(ch) || ch == '_' || ch == '$'
}

pub open spec fn symbol_pred() -> spec_fn(char) -> bool {
    |c: char| is_symbol_char(c)
}

/// Whether `s` holds `::`.
pub open spec fn has_path_separator(s: Seq<char>) -> bool {
    exists|i: int| 0 <= i < s.len() - 1 && #[trigger] s[i] == ':' && s[i + 1] == ':'
}

/// Whether `s` holds `.`.
pub open spec fn has_dot(s: Seq<char>) -> bool {
    exists|i: int| 0 <= i < s.len() && #[trigger] s[i] == '.'
}

/// What `SymbolName::parse` decides for `raw`, whose UTF-8 length is `len`.
pub open spec fn symbol_verdict(raw: Seq<char>, len: usize) -> Result<(), SymbolFault> {
    if len > MAX_SYMBOL_BYTES {
        Err(SymbolFault::TooLong { len })
    } else if has_path_separator(raw) {
        Err(SymbolFault::Qualified { separator: Qualifier::Path })
    } else if has_dot(raw) {
        Err(SymbolFault::Qualified { separator: Qualifier::Member })
    } else if raw.len() == 0 {
        Err(SymbolFault::Empty)
    } else if !is_symbol_start(raw[0]) {
        Err(SymbolFault::InvalidStart { ch: raw[0] })
    } else if !all_chars(raw.drop_first(), symbol_pred()) {
        Err(
            SymbolFault::InvalidChar {
                ch: raw.drop_first()[first_failing(raw.drop_first(), symbol_pred())],
            },
        )
    } else {
        Ok(())
    }
}

/// Whether `s` spells a valid symbol name.
pub open spec fn is_symbol(s: Seq<char>) -> bool {
    &&& s.len() > 0
    &&& is_symbol_start(s[0])
    &&& all_chars(s.drop_first(), symbol_pred())
}

impl View for SymbolName {
    type V = Seq<char>;

    closed spec fn view(&self) -> Seq<char> {
        self.0@
    }
}

fn find_path_separator(chars: &Vec<char>) -> (b: bool)
    ensures
        b == has_path_separator(chars@),
{
    let mut i: usize = 0;
    while i < chars.len()
        invariant
            forall|j: int| 0 <= j < i && j < chars@.len() - 1 ==> !(#[trigger] chars@[j] == ':' && chars@[j + 1] == ':'),
        decreases chars.len() - i,
    {
        if i + 1 < chars.len() && chars[i] == ':' && chars[i + 1] == ':' {
            return true;
        }
        i += 1;
    }
    false
}

fn find_dot(chars: &Vec<char>) -> (b: bool)
    ensures
        b == has_dot(chars@),
{
    let mut i: usize = 0;
    while i < chars.len()
        invariant
            i <= chars@.len(),
            forall|j: int| 0 <= j < i ==> #[trigger] chars@[j] != '.',
        decreases chars.len() - i,
    {
        if chars[i] == '.' {
            return true;
        }
        i += 1;
    }
    false
}

impl SymbolName {
    pub fn parse(raw: &str) -> (r: Result<Self, SymbolError>)
        ensures
            match symbol_verdict(raw@, raw.len()) {
                Ok(()) => r matches Ok(name) && name@ == raw@ && is_symbol(raw@),
                Err(f) => r matches Err(e) && e.fault() == f,
            },
    {
        if raw.len() > MAX_SYMBOL_BYTES {
            return Err(SymbolError::TooLong { len: raw.len() });
        }
        let chars = to_chars(raw);
        if find_path_separator(&chars) {
            proof {
                reveal_strlit("::");
            }
            return Err(SymbolError::Qualified { separator: "::" });
        }
        if find_dot(&chars) {
            proof {
                reveal_strlit("::");
                reveal_strlit(".");
                assert("."@.len() != "::"@.len());
            }
            return Err(SymbolError::Qualified { separator: "." });
        }
        if chars.len() == 0 {
            return Err(SymbolError::Empty);
        }
        let first = chars[0];
        if !(ascii_alpha(first) || first == '_' || first == '$') {
            return Err(SymbolError::InvalidStart { ch: first });
        }
        let ghost rest = raw@.drop_first();
        let mut i: usize = 1;
        while i < chars.len()
            invariant
                1 <= i <= chars@.len(),
                chars@ == raw@,
                rest == raw@.drop_first(),
                raw@.len() > 0,
                is_symbol_start(raw@[0]),
                raw.len() <= MAX_SYMBOL_BYTES,
                !has_path_separator(raw@),
                !has_dot(raw@),
                forall|j: int| 0 <= j < i - 1 ==> is_symbol_char(#[trigger] rest[j]),
            decreases chars.len() - i,
        {
            let ch = chars[i];
            if !(ascii_alnum(ch) || ch == '_' || ch == '$') {
                proof {
                    assert(rest[i - 1] == ch);
                    lemma_first_failing(rest, symbol_pred(), i - 1);
                    assert(!symbol_pred()(rest[i - 1]));
                }
                return Err(SymbolError::InvalidChar { ch });
            }
            assert(rest[i - 1] == ch);
            i += 1;
        }
        Ok(SymbolName(raw.to_owned()))
    }

    pub fn as_str(&self) -> (s: &str)
        ensures
            s@ == self@,
    {
        self.0.as_str()
    }

    /// Whether two names are the same.
    pub fn same(&self, other: &SymbolName) -> (b: bool)
        ensures
            b == (self@ == other@),
    {
        self.0 == other.0
    }
}

impl Clone for SymbolName {
    fn clone(&self) -> (r: Self)
        ensures
            r@ == self@,
    {
        SymbolName(self.0.clone())
    }
}

/// How a qualifier is written.
pub open spec fn qualifier_text(q: Qualifier) -> Seq<char> {
    match q {
        Qualifier::Path => "::"@,
        Qualifier::Member => "."@,
    }
}

/// What an invalid symbol name is reported as.
pub open spec fn symbol_message(e: SymbolFault) -> Seq<char> {
    match e {
        SymbolFault::Empty => "symbol name is empty"@,
        SymbolFault::TooLong { len } => "symbol name is "@ + decimal(len as nat) + " bytes; the limit is "@ + decimal(MAX_SYMBOL_BYTES as nat),
        SymbolFault::Qualified { separator } => "symbol name is qualified with `"@ + qualifier_text(separator) + "`; a reference asserts that a declaration with this name exists somewhere in the file, so give the unqualified name"@,
        SymbolFault::InvalidStart { ch } => ("symbol name starts with `"@).push(ch) + "`; names start with a letter, `_`, or `$`"@,
        SymbolFault::InvalidChar { ch } => ("symbol name contains `"@).push(ch) + "`; only letters, digits, `_`, and `$` are allowed"@,
    }
}

impl SymbolError {
    /// The message this error is reported with.
    pub fn message(&self) -> (s: String)
        ensures
            s@ == symbol_message(self.fault()),
    {
        match self {
            SymbolError::Empty => {
                "symbol name is empty".to_owned()
            },
            SymbolError::TooLong { len } => {
                let mut s = "symbol name is ".to_owned();
                push_text(&mut s, &decimal_text(*len as u64));
                push_text(&mut s, " bytes; the limit is ");
                push_text(&mut s, &decimal_text(MAX_SYMBOL_BYTES as u64));
                s
            },
            SymbolError::Qualified { separator } => {
                let mut s = "symbol name is qualified with `".to_owned();
                if same_text(separator, "::") {
                    push_text(&mut s, "::");
                } else {
                    push_text(&mut s, ".");
                }
                push_text(&mut s, "`; a reference asserts that a declaration with this name exists somewhere in the file, so give the unqualified name");
                s
            },
            SymbolError::InvalidStart { ch } => {
                let mut s = "symbol name starts with `".to_owned();
                push_char(&mut s, *ch);
                push_text(&mut s, "`; names start with a letter, `_`, or `$`");
                s
            },
            SymbolError::InvalidChar { ch } => {
                let mut s = "symbol name contains `".to_owned();
                push_char(&mut s, *ch);
                push_text(&mut s, "`; only letters, digits, `_`, and `$` are allowed");
                s
            },
        }
    }
}

impl SymbolError {
    /// Whether the two errors are the same once their separators are read as qualifiers.
    pub fn same_as(&self, other: &SymbolError) -> (b: bool)
        ensures
            b == (self.fault() == other.fault()),
    {
        match (self, other) {
            (SymbolError::Empty, SymbolError::Empty) => true,
            (SymbolError::TooLong { len: a }, SymbolError::TooLong { len: b }) => *a == *b,
            (SymbolError::Qualified { separator: a }, SymbolError::Qualified { separator: b }) => {
                same_text(*a, "::") == same_text(*b, "::")
            },
            (SymbolError::InvalidStart { ch: a }, SymbolError::InvalidStart { ch: b }) => *a == *b,
            (SymbolError::InvalidChar { ch: a }, SymbolError::InvalidChar { ch: b }) => *a == *b,
            _ => false,
        }
    }
}

} // verus!
