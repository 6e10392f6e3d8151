//! What a path token that does not resolve root-relative may have meant: the same path read
//! beside the file that writes it, or under exactly one of that file's ancestor directories.
use vstd::prelude::*;

use crate::chars::{byte_len, push_text, str_byte_len, to_chars};
use crate::coverage::token::PathShape;
use crate::coverage::{CandView, CandidateKind};
use crate::diagnostic::{kind_message, DiagnosticKind, KindView};
use crate::marker::path::{file_name_of, path_verdict};
use crate::marker::RelPath;
use crate::resolve::Unresolved;
use crate::root::{directory_of, FilePath};

verus! {

broadcast use vstd::string::group_string_axioms;

/// `t` without the `*`s it ends in.
pub open spec fn trim_stars(t: Seq<char>) -> Seq<char>
    decreases t.len(),
{
    if t.len() > 0 && t.last() == '*' {
        trim_stars(t.drop_last())
    } else {
        t
    }
}

/// Whether `t` is only `.` and `/`: the writing file's own directory or a parent, which always
/// exist, so prose about the syntax and never a reference.
pub open spec fn only_dots(t: Seq<char>) -> bool {
    forall|i: int| 0 <= i < t.len() ==> t[i] == '.' || t[i] == '/'
}

/// The text a path token is checked as: a glob names the directory it globs, and a token of
/// only `.` and `/` is checked as nothing.
pub open spec fn target_text_of(token: Seq<char>, shape: PathShape) -> Option<Seq<char>> {
    let t = match shape {
        PathShape::Glob => trim_stars(token),
        _ => token,
    };
    if only_dots(t) {
        None
    } else {
        Some(t)
    }
}

/// The text a path token is checked as (see `target_text_of`).
pub fn path_target_text(token: &str, shape: PathShape) -> (r: Option<String>)
    ensures
        match target_text_of(token@, shape) {
            Some(t) => r matches Some(s) && s@ == t,
            None => r is None,
        },
{
    let chars = to_chars(token);
    let mut end: usize = chars.len();
    assert(token@.take(end as int) =~= token@);
    if matches!(shape, PathShape::Glob) {
        while end > 0 && chars[end - 1] == '*'
            invariant
                end <= chars@.len(),
                chars@ == token@,
                trim_stars(token@) == trim_stars(token@.take(end as int)),
            decreases end,
        {
            assert(token@.take(end as int).drop_last() =~= token@.take(end - 1));
            end -= 1;
        }
        assert(end == 0 || chars@[end - 1] != '*');
        assert(trim_stars(token@.take(end as int)) == token@.take(end as int));
    } else {
        assert(token@.take(end as int) =~= token@);
    }
    let ghost t = token@.take(end as int);
    assert(t == match shape {
        PathShape::Glob => trim_stars(token@),
        _ => token@,
    });
    let mut i: usize = 0;
    while i < end
        invariant
            i <= end <= chars@.len(),
            chars@ == token@,
            t == token@.take(end as int),
            t == match shape {
                PathShape::Glob => trim_stars(token@),
                _ => token@,
            },
            forall|j: int| 0 <= j < i ==> t[j] == '.' || t[j] == '/',
        decreases end - i,
    {
        if chars[i] != '.' && chars[i] != '/' {
            assert(!(t[i as int] == '.' || t[i as int] == '/'));
            assert(!only_dots(t));
            let found = token.substring_char(0, end).to_owned();
            assert(found@ =~= t);
            return Some(found);
        }
        i += 1;
    }
    None
}

/// The directories above `dir` that are not the root, nearest first: the prefixes of `dir`
/// before each of its first `k` characters that is `/`, taken from the back.
pub open spec fn ancestors_within(dir: Seq<char>, k: int) -> Seq<Seq<char>>
    decreases k,
{
    if k <= 0 {
        Seq::empty()
    } else if dir[k - 1] == '/' && k - 1 > 0 {
        seq![dir.take(k - 1)] + ancestors_within(dir, k - 1)
    } else {
        ancestors_within(dir, k - 1)
    }
}

/// `path` read under each directory of `ancestors` in turn, where that is a path at all.
pub open spec fn candidates_under(ancestors: Seq<Seq<char>>, path: Seq<char>) -> Seq<Seq<char>>
    decreases ancestors.len(),
{
    if ancestors.len() == 0 {
        Seq::empty()
    } else {
        let joined = ancestors[0] + "/"@ + path;
        let rest = candidates_under(ancestors.drop_first(), path);
        if path_verdict(joined, byte_len(joined) as usize) is None {
            seq![joined] + rest
        } else {
            rest
        }
    }
}

/// Where a bare path written in `written_in` could be meant to sit, beyond the file's own
/// directory: under each directory above it that is not the root, nearest first.
pub open spec fn ancestor_candidates_of(written_in: Seq<char>, path: Seq<char>) -> Seq<Seq<char>> {
    let dir = directory_of(written_in);
    candidates_under(ancestors_within(dir, dir.len() as int), path)
}

/// The paths `path` could mean under the directories above the file that writes it (see
/// `ancestor_candidates_of`).
pub fn ancestor_candidates(written_in: &FilePath, path: &RelPath) -> (r: Vec<RelPath>)
    ensures
        r@.map_values(|p: RelPath| p@) == ancestor_candidates_of(written_in@, path@),
{
    let dir = written_in.directory();
    let chars = to_chars(dir);
    let ghost d = dir@;
    let mut out: Vec<RelPath> = Vec::new();
    let mut k: usize = chars.len();
    assert(out@.map_values(|p: RelPath| p@) =~= Seq::<Seq<char>>::empty());
    while k > 0
        invariant
            k <= chars@.len(),
            chars@ == d,
            dir@ == d,
            d == directory_of(written_in@),
            out@.map_values(|p: RelPath| p@) + candidates_under(ancestors_within(d, k as int), path@)
                == candidates_under(ancestors_within(d, d.len() as int), path@),
        decreases k,
    {
        let ghost before = out@.map_values(|p: RelPath| p@);
        if chars[k - 1] == '/' && k - 1 > 0 {
            let ancestor = dir.substring_char(0, k - 1);
            let mut joined = String::new();
            push_text(&mut joined, ancestor);
            push_text(&mut joined, "/");
            push_text(&mut joined, path.as_str());
            assert(joined@ =~= d.take(k - 1) + "/"@ + path@);
            let ghost rest = candidates_under(ancestors_within(d, k - 1), path@);
            assert(seq![d.take(k - 1)] + ancestors_within(d, k - 1) == ancestors_within(d, k as int));
            assert((seq![d.take(k - 1)] + ancestors_within(d, k - 1)).drop_first() =~= ancestors_within(d, k - 1));
            let _n = str_byte_len(joined.as_str());
            match RelPath::parse(joined.as_str()) {
                Ok(p) => {
                    out.push(p);
                    assert(out@.map_values(|p: RelPath| p@) =~= before.push(joined@));
                    assert(before.push(joined@) + rest =~= before + (seq![joined@] + rest));
                },
                Err(_) => {},
            }
        }
        k -= 1;
    }
    out
}

/// The part of `target` after `path`, such as `#symbol`, when `target` starts with `path`.
pub open spec fn tail_of(target: Seq<char>, path: Seq<char>) -> Seq<char> {
    if path.len() <= target.len() && target.take(path.len() as int) == path {
        target.skip(path.len() as int)
    } else {
        Seq::empty()
    }
}

/// What a path token that does not resolve root-relative becomes: proposed in the `./` form
/// when it resolves beside its file; proposed root-relative when it resolves under exactly one
/// of the file's ancestors (`hits`, the ones under which it resolves); otherwise unresolvable
/// for `missing`, naming the one file of the same name when there is exactly one
/// (`same_name`).
pub open spec fn fallback_of(
    target: Seq<char>,
    path: Seq<char>,
    beside: bool,
    hits: Seq<Seq<char>>,
    missing: Seq<char>,
    same_name: Seq<Seq<char>>,
) -> CandView {
    if beside {
        CandView::Proposal { replacement: "@ref[./"@ + target + "]"@ }
    } else if hits.len() == 1 {
        CandView::Proposal { replacement: "@ref["@ + hits[0] + tail_of(target, path) + "]"@ }
    } else if same_name.len() == 1 {
        CandView::Unresolvable {
            reason: missing + "; one file named `"@ + file_name_of(path) + "` exists at `"@ + same_name[0] + "`"@,
        }
    } else {
        CandView::Unresolvable { reason: missing }
    }
}

/// The finding for a path token that does not resolve root-relative (see `fallback_of`), with
/// `missing`'s message as the reason it stays unresolvable.
pub fn fallback_kind(
    target: &str,
    path: &RelPath,
    beside: bool,
    hits: &Vec<RelPath>,
    missing: Unresolved,
    same_name: &Vec<String>,
) -> (r: CandidateKind)
    ensures
        r@ == fallback_of(
            target@,
            path@,
            beside,
            hits@.map_values(|p: RelPath| p@),
            kind_message(KindView::Unresolved(missing@)),
            same_name@.map_values(|s: String| s@),
        ),
{
    if beside {
        let mut replacement = String::new();
        push_text(&mut replacement, "@ref[./");
        push_text(&mut replacement, target);
        push_text(&mut replacement, "]");
        assert(replacement@ =~= "@ref[./"@ + target@ + "]"@);
        return CandidateKind::Proposal { replacement };
    }
    if hits.len() == 1 {
        let chars = to_chars(target);
        let pchars = to_chars(path.as_str());
        let mut starts = pchars.len() <= chars.len();
        let mut i: usize = 0;
        while starts && i < pchars.len()
            invariant
                chars@ == target@,
                pchars@ == path@,
                starts ==> pchars@.len() <= chars@.len(),
                i <= pchars@.len(),
                starts ==> forall|j: int| 0 <= j < i ==> chars@[j] == pchars@[j],
                !starts ==> !(path@.len() <= target@.len() && target@.take(path@.len() as int) == path@),
            decreases pchars.len() - i,
        {
            if chars[i] != pchars[i] {
                assert(target@.take(path@.len() as int)[i as int] != path@[i as int]);
                starts = false;
            }
            i += 1;
        }
        let tail = if starts {
            assert(target@.take(path@.len() as int) =~= path@);
            target.substring_char(pchars.len(), chars.len())
        } else {
            ""
        };
        proof {
            if !starts {
                reveal_strlit("");
            }
        }
        assert(tail@ == tail_of(target@, path@));
        let mut replacement = String::new();
        push_text(&mut replacement, "@ref[");
        push_text(&mut replacement, hits[0].as_str());
        push_text(&mut replacement, tail);
        push_text(&mut replacement, "]");
        assert(replacement@ =~= "@ref["@ + hits@[0]@ + tail_of(target@, path@) + "]"@);
        return CandidateKind::Proposal { replacement };
    }
    let mut reason = DiagnosticKind::Unresolved(missing).to_string();
    if same_name.len() == 1 {
        let ghost before = reason@;
        push_text(&mut reason, "; one file named `");
        push_text(&mut reason, path.file_name());
        push_text(&mut reason, "` exists at `");
        push_text(&mut reason, same_name[0].as_str());
        push_text(&mut reason, "`");
        assert(reason@ =~= before + "; one file named `"@ + file_name_of(path@) + "` exists at `"@ + same_name@[0]@
            + "`"@);
    }
    CandidateKind::Unresolvable { reason }
}

} // verus!
