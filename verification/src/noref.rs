//! Strings the author has declared are not references, and the matching that suppresses them.
use vstd::prelude::*;

use crate::chars::{find_first, first_index_of, to_chars};
use crate::marker::noref::{glob_accepts, portable_candidate};
use crate::marker::NoRefEntry;

verus! {

broadcast use vstd::string::group_string_axioms;

/// An entry matches a token when its glob matches the whole token or, for a `path#symbol` token,
/// the whole path. Nothing is implied: `src/` is only `src/`, `src/**` is the subtree.
pub open spec fn entry_matches(pattern: Seq<char>, token: Seq<char>) -> bool {
    glob_accepts(pattern, token) || (first_index_of(token, '#') >= 0 && glob_accepts(
        pattern,
        token.take(first_index_of(token, '#')),
    ))
}

/// Index of the first of `entries` that matches `token`, or -1.
pub open spec fn first_match(entries: Seq<Seq<char>>, token: Seq<char>) -> int
    decreases entries.len(),
{
    if entries.len() == 0 {
        -1
    } else {
        let before = first_match(entries.drop_last(), token);
        if before >= 0 {
            before
        } else if entry_matches(entries.last(), token) {
            entries.len() - 1
        } else {
            -1
        }
    }
}

/// A set of ignore entries that remembers which ones were ever claimed, so unused entries can be
/// reported. Duplicates are kept: the second copy can never claim anything and is reported.
#[derive(Debug)]
pub struct NoRefSet {
    entries: Vec<NoRefEntry>,
    claimed: Vec<bool>,
}

impl View for NoRefSet {
    /// The entries' texts in declaration order, and which of them were claimed.
    type V = (Seq<Seq<char>>, Seq<bool>);

    closed spec fn view(&self) -> (Seq<Seq<char>>, Seq<bool>) {
        (self.entries@.map_values(|e: NoRefEntry| e@), self.claimed@)
    }
}

impl NoRefSet {
    #[verifier::type_invariant]
    closed spec fn wf(&self) -> bool {
        self.claimed@.len() == self.entries@.len()
    }

    pub fn new(entries: Vec<NoRefEntry>) -> (set: Self)
        ensures
            set@.0 == entries@.map_values(|e: NoRefEntry| e@),
            set@.1 == Seq::new(entries@.len(), |i: int| false),
    {
        let mut claimed: Vec<bool> = Vec::new();
        let mut i: usize = 0;
        while i < entries.len()
            invariant
                i <= entries@.len(),
                claimed@ == Seq::new(i as nat, |j: int| false),
            decreases entries.len() - i,
        {
            claimed.push(false);
            i += 1;
            assert(claimed@ =~= Seq::new(i as nat, |j: int| false));
        }
        NoRefSet { entries, claimed }
    }

    /// Marks the first entry that matches `token` and reports whether one did.
    pub fn claim(&mut self, token: &str) -> (b: bool)
        ensures
            final(self)@.0 == old(self)@.0,
            final(self)@.1.len() == old(self)@.1.len(),
            portable_candidate(token@) ==> b == (first_match(old(self)@.0, token@) >= 0),
            portable_candidate(token@) ==> final(self)@.1 == if b {
                old(self)@.1.update(first_match(old(self)@.0, token@), true)
            } else {
                old(self)@.1
            },
    {
        proof {
            use_type_invariant(&*self);
        }
        let ghost texts = self@.0;
        let chars = to_chars(token);
        let hash = find_first(&chars, 0, chars.len(), '#');
        assert(chars@.subrange(0, chars@.len() as int) =~= token@);
        let path = match hash {
            Some(h) => Some(token.substring_char(0, h)),
            None => None,
        };
        proof {
            if let Some(p) = path {
                if portable_candidate(token@) {
                    assert forall|k: int| 0 <= k < p@.len() implies p@[k] != '\\' by {
                        assert(p@[k] == token@[k]);
                    }
                }
            }
        }
        let mut i: usize = 0;
        while i < self.entries.len()
            invariant
                self.claimed@.len() == self.entries@.len(),
                self@.0 == texts,
                self@.1 == old(self)@.1,
                texts == old(self)@.0,
                i <= texts.len(),
                portable_candidate(token@) ==> first_match(texts.take(i as int), token@) == -1,
                portable_candidate(token@) ==> match path {
                    Some(p) => portable_candidate(p@),
                    None => true,
                },
                match path {
                    Some(p) => first_index_of(token@, '#') >= 0 && p@ == token@.take(
                        first_index_of(token@, '#'),
                    ),
                    None => first_index_of(token@, '#') == -1,
                },
            decreases texts.len() - i,
        {
            let entry = &self.entries[i];
            assert(texts.take(i + 1).drop_last() =~= texts.take(i as int));
            assert(texts[i as int] == entry@);
            let hit = entry.matches_whole(token) || match path {
                Some(p) => entry.matches_whole(p),
                None => false,
            };
            if hit {
                proof {
                    if portable_candidate(token@) {
                        lemma_first_match_prefix(texts, token@, i + 1);
                    }
                }
                let mut claimed = self.claimed.clone();
                assert(claimed@ =~= self.claimed@);
                claimed.set(i, true);
                self.claimed = claimed;
                return true;
            }
            i += 1;
        }
        assert(texts.take(texts.len() as int) =~= texts);
        false
    }

    /// Entries that never matched, with their position in declaration order.
    pub fn unused(&self) -> (r: Vec<(usize, &NoRefEntry)>)
        ensures
            r@.map_values(|p: (usize, &NoRefEntry)| (p.0 as int, p.1@)) == unused_of(self@, 0),
    {
        proof {
            use_type_invariant(self);
        }
        let mut out: Vec<(usize, &NoRefEntry)> = Vec::new();
        let mut i: usize = 0;
        let ghost v = self@;
        while i < self.entries.len()
            invariant
                self.claimed@.len() == self.entries@.len(),
                v == self@,
                i <= v.0.len(),
                out@.map_values(|p: (usize, &NoRefEntry)| (p.0 as int, p.1@)) + unused_of(v, i as int)
                    == unused_of(v, 0),
            decreases v.0.len() - i,
        {
            let ghost before = out@.map_values(|p: (usize, &NoRefEntry)| (p.0 as int, p.1@));
            if !self.claimed[i] {
                out.push((i, &self.entries[i]));
                assert(out@.map_values(|p: (usize, &NoRefEntry)| (p.0 as int, p.1@)) =~= before
                    + seq![(i as int, v.0[i as int])]);
                assert(before + unused_of(v, i as int) =~= out@.map_values(
                    |p: (usize, &NoRefEntry)| (p.0 as int, p.1@),
                ) + unused_of(v, i + 1));
            }
            i += 1;
        }
        assert(unused_of(v, i as int) =~= Seq::<(int, Seq<char>)>::empty());
        out
    }
}

impl Default for NoRefSet {
    fn default() -> (set: Self)
        ensures
            set@.0.len() == 0,
            set@.1.len() == 0,
    {
        NoRefSet { entries: Vec::new(), claimed: Vec::new() }
    }
}

/// The unclaimed entries from position `i` on, with their positions.
pub open spec fn unused_of(set: (Seq<Seq<char>>, Seq<bool>), i: int) -> Seq<(int, Seq<char>)>
    decreases set.0.len() - i,
{
    if i < 0 || i >= set.0.len() {
        Seq::empty()
    } else if set.1[i] {
        unused_of(set, i + 1)
    } else {
        seq![(i, set.0[i])] + unused_of(set, i + 1)
    }
}

/// An entry that repeats an earlier entry's text is never the first match, so claiming never
/// marks it.
pub proof fn lemma_duplicate_never_claims(entries: Seq<Seq<char>>, token: Seq<char>, i: int, j: int)
    requires
        0 <= i < j < entries.len(),
        entries[i] == entries[j],
    ensures
        first_match(entries, token) != j,
{
    lemma_first_match_is_first(entries, token);
    if first_match(entries, token) == j {
        assert(entry_matches(entries[i], token));
    }
}

/// `first_match` is the least index whose entry matches, or -1 when none does.
pub proof fn lemma_first_match_is_first(entries: Seq<Seq<char>>, token: Seq<char>)
    ensures
        -1 <= first_match(entries, token) < entries.len(),
        first_match(entries, token) >= 0 ==> entry_matches(
            entries[first_match(entries, token)],
            token,
        ),
        forall|k: int|
            0 <= k < entries.len() && (first_match(entries, token) == -1 || k < first_match(
                entries,
                token,
            )) ==> !entry_matches(#[trigger] entries[k], token),
    decreases entries.len(),
{
    if entries.len() > 0 {
        let init = entries.drop_last();
        lemma_first_match_is_first(init, token);
        assert forall|k: int|
            0 <= k < entries.len() && (first_match(entries, token) == -1 || k < first_match(
                entries,
                token,
            )) implies !entry_matches(#[trigger] entries[k], token) by {
            if k < entries.len() - 1 {
                assert(entries[k] == init[k]);
            }
        }
    }
}

/// A match found in a prefix is the first match of the whole.
proof fn lemma_first_match_prefix(entries: Seq<Seq<char>>, token: Seq<char>, n: int)
    requires
        0 <= n <= entries.len(),
        first_match(entries.take(n), token) >= 0,
    ensures
        first_match(entries, token) == first_match(entries.take(n), token),
    decreases entries.len() - n,
{
    if n < entries.len() {
        assert(entries.take(n + 1).drop_last() =~= entries.take(n));
        lemma_first_match_prefix(entries, token, n + 1);
    } else {
        assert(entries.take(n) =~= entries);
    }
}

} // verus!
