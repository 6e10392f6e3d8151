//! File-local names for targets.
use vstd::prelude::*;
use crate::chars::{decimal, decimal_text, push_char, push_text};

use crate::chars::{
    all_chars, ascii_alnum, ascii_alpha, first_failing, is_ascii_alnum, is_ascii_alpha,
    lemma_first_failing, to_chars,
};

verus! {

broadcast use vstd::string::group_string_axioms;

pub const MAX_ALIAS_BYTES: usize = 64;

/// A file-local name for a target: declared by `@ref[target as Alias]`, used as `@[Alias]`.
///
/// `[A-Za-z_][A-Za-z0-9_]*`. Disjoint from the path and id charsets on purpose: an alias is a
/// name, never a target, and a diagnostic can never confuse the two.
#[derive(Debug, PartialEq, Eq, Hash, PartialOrd, Ord)]
pub struct Alias(String);

#[derive(Debug, Clone, Copy, PartialEq, Eq, Structural, Hash)]
pub enum AliasError {
    Empty,
    TooLong { len: usize },
    InvalidStart { ch: char },
    InvalidChar { ch: char },
}

pub open spec fn is_alias_start(ch: char) -> bool {
    is_ascii_alpha(ch) || ch == '_'
}

pub open spec fn is_alias_char(ch: char) -> bool {
    is_ascii_alnum(ch) || ch == '_'
}

pub open spec fn alias_pred() -> spec_fn(char) -> bool {
    |c: char| is_alias_char(c)
}

/// What `Alias::parse` decides for `raw`, whose UTF-8 length is `len`.
pub open spec fn alias_verdict(raw: Seq<char>, len: usize) -> Result<(), AliasError> {
    if len > MAX_ALIAS_BYTES {
        Err(AliasError::TooLong { len })
    } else if raw.len() == 0 {
        Err(AliasError::Empty)
    } else if !is_alias_start(raw[0]) {
        Err(AliasError::InvalidStart { ch: raw[0] })
    } else if !all_chars(raw.drop_first(), alias_pred()) {
        Err(
            AliasError::InvalidChar {
                ch: raw.drop_first()[first_failing(raw.drop_first(), alias_pred())],
            },
        )
    } else {
        Ok(())
    }
}

/// Whether `s` spells a valid alias.
pub open spec fn is_alias(s: Seq<char>) -> bool {
    &&& s.len() > 0
    &&& is_alias_start(s[0])
    &&& all_chars(s.drop_first(), alias_pred())
}

impl View for Alias {
    type V = Seq<char>;

    closed spec fn view(&self) -> Seq<char> {
        self.0@
    }
}

impl Alias {
    pub fn parse(raw: &str) -> (r: Result<Self, AliasError>)
        ensures
            match alias_verdict(raw@, raw.len()) {
                Ok(()) => r matches Ok(alias) && alias@ == raw@ && is_alias(raw@),
                Err(e) => r == Err::<Self, AliasError>(e),
            },
    {
        if raw.len() > MAX_ALIAS_BYTES {
            return Err(AliasError::TooLong { len: raw.len() });
        }
        let chars = to_chars(raw);
        if chars.len() == 0 {
            return Err(AliasError::Empty);
        }
        let first = chars[0];
        if !(ascii_alpha(first) || first == '_') {
            return Err(AliasError::InvalidStart { ch: first });
        }
        let ghost rest = raw@.drop_first();
        let mut i: usize = 1;
        while i < chars.len()
            invariant
                1 <= i <= chars@.len(),
                chars@ == raw@,
                rest == raw@.drop_first(),
                raw@.len() > 0,
                is_alias_start(raw@[0]),
                raw.len() <= MAX_ALIAS_BYTES,
                forall|j: int| 0 <= j < i - 1 ==> is_alias_char(#[trigger] rest[j]),
            decreases chars.len() - i,
        {
            let ch = chars[i];
            if !(ascii_alnum(ch) || ch == '_') {
                proof {
                    assert(rest[i - 1] == ch);
                    lemma_first_failing(rest, alias_pred(), i - 1);
                    assert(!alias_pred()(rest[i - 1]));
                }
                return Err(AliasError::InvalidChar { ch });
            }
            assert(rest[i - 1] == ch);
            i += 1;
        }
        Ok(Alias(raw.to_owned()))
    }

    pub fn as_str(&self) -> (s: &str)
        ensures
            s@ == self@,
    {
        self.0.as_str()
    }

    /// The alias as it is written.
    pub fn to_string(&self) -> (s: String)
        ensures
            s@ == self@,
    {
        self.0.clone()
    }

    /// Whether two aliases are the same name.
    pub fn same(&self, other: &Alias) -> (b: bool)
        ensures
            b == (self@ == other@),
    {
        self.0 == other.0
    }
}

impl Clone for Alias {
    fn clone(&self) -> (r: Self)
        ensures
            r@ == self@,
    {
        Alias(self.0.clone())
    }
}

/// What an invalid alias is reported as.
pub open spec fn alias_message(e: AliasError) -> Seq<char> {
    match e {
        AliasError::Empty => "alias is empty"@,
        AliasError::TooLong { len } => "alias is "@ + decimal(len as nat) + " bytes; the limit is "@ + decimal(MAX_ALIAS_BYTES as nat),
        AliasError::InvalidStart { ch } => ("alias starts with `"@).push(ch) + "`; aliases start with a letter or `_`"@,
        AliasError::InvalidChar { ch } => ("alias contains `"@).push(ch) + "`; only letters, digits, and `_` are allowed"@,
    }
}

impl AliasError {
    /// The message this error is reported with.
    pub fn message(&self) -> (s: String)
        ensures
            s@ == alias_message(*self),
    {
        match self {
            AliasError::Empty => {
                "alias is empty".to_owned()
            },
            AliasError::TooLong { len } => {
                let mut s = "alias is ".to_owned();
                push_text(&mut s, &decimal_text(*len as u64));
                push_text(&mut s, " bytes; the limit is ");
                push_text(&mut s, &decimal_text(MAX_ALIAS_BYTES as u64));
                s
            },
            AliasError::InvalidStart { ch } => {
                let mut s = "alias starts with `".to_owned();
                push_char(&mut s, *ch);
                push_text(&mut s, "`; aliases start with a letter or `_`");
                s
            },
            AliasError::InvalidChar { ch } => {
                let mut s = "alias contains `".to_owned();
                push_char(&mut s, *ch);
                push_text(&mut s, "`; only letters, digits, and `_` are allowed");
                s
            },
        }
    }
}

} // verus!
