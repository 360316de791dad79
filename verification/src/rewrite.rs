//! The guarded rewrite: whether a newly built shebang line is applied,
//! and the textual substitution that applies it — the first literal
//! occurrence of the original line is replaced, all other bytes kept.

use vstd::prelude::*;

use crate::bytes::append_bytes;
use crate::bytes::bytes_eq;
use crate::bytes::dup;
use crate::bytes::has_prefix;
use crate::bytes::is_prefix;
use crate::bytes::subvec;

verus! {

/// The rewrite policy: nothing is written when the new line equals the
/// original; otherwise the rewrite happens when an update is forced or
/// the interpreter token does not already point below the canonical
/// store prefix.
pub open spec fn spec_should_rewrite(
    original: Seq<u8>,
    new_line: Seq<u8>,
    interpreter: Seq<u8>,
    update: bool,
    canonical: Seq<u8>,
) -> bool {
    new_line != original && (update || !is_prefix(canonical, interpreter))
}

pub fn should_rewrite(
    original: &Vec<u8>,
    new_line: &Vec<u8>,
    interpreter: &Vec<u8>,
    update: bool,
    canonical: &Vec<u8>,
) -> (r: bool)
    ensures
        r == spec_should_rewrite(original@, new_line@, interpreter@, update, canonical@),
{
    if bytes_eq(new_line, original) {
        return false;
    }
    update || !has_prefix(interpreter, canonical)
}

/// `pat` occurs in `s` at position `i`.
pub open spec fn match_at(s: Seq<u8>, pat: Seq<u8>, i: int) -> bool {
    0 <= i && i + pat.len() <= s.len() && s.subrange(i, i + pat.len()) == pat
}

/// `i` is the first position of `s` where `pat` occurs.
pub open spec fn first_match_at(s: Seq<u8>, pat: Seq<u8>, i: int) -> bool {
    match_at(s, pat, i) && forall|j: int| 0 <= j < i ==> !match_at(s, pat, j)
}

/// A substitution whose pattern leads the content touches only those
/// leading bytes: the first occurrence is the prefix itself, so the
/// result is the substitute followed by the untouched tail. (The shebang
/// rewrite is this case: the pattern is the file's own trimmed first
/// line.)
pub proof fn lemma_replace_prefix_changes_only_head(
    content: Seq<u8>,
    pat: Seq<u8>,
    subst: Seq<u8>,
    i: int,
    r: Seq<u8>,
)
    requires
        crate::bytes::is_prefix(pat, content),
        first_match_at(content, pat, i),
        r == content.take(i) + subst + content.skip(i + pat.len()),
    ensures
        i == 0,
        r == subst + content.skip(pat.len() as int),
{
    assert(match_at(content, pat, 0));
    if i > 0 {
        assert(!match_at(content, pat, 0));
    }
    assert(content.take(0) + subst + content.skip(pat.len() as int) =~= subst + content.skip(
        pat.len() as int,
    ));
}

fn matches_at(content: &Vec<u8>, pat: &Vec<u8>, i: usize) -> (r: bool)
    requires
        i + pat@.len() <= content@.len(),
    ensures
        r == match_at(content@, pat@, i as int),
{
    let n = content.len();
    let mut k: usize = 0;
    while k < pat.len()
        invariant
            n == content@.len(),
            i + pat@.len() <= content@.len(),
            k <= pat@.len(),
            forall|j: int| 0 <= j < k ==> content@[i + j] == pat@[j],
        decreases pat@.len() - k,
    {
        if content[i + k] != pat[k] {
            proof {
                assert(content@.subrange(i as int, i + pat@.len())[k as int] == content@[i + k]);
            }
            return false;
        }
        k += 1;
    }
    proof {
        assert(content@.subrange(i as int, i + pat@.len()) =~= pat@);
    }
    true
}

/// Replaces the first (and only the first) occurrence of `pat` in
/// `content` with `subst`; bytes before and after that occurrence are
/// kept identical. Without an occurrence the content comes back
/// unchanged.
pub fn replace_first(content: &Vec<u8>, pat: &Vec<u8>, subst: &Vec<u8>) -> (r: Vec<u8>)
    ensures
        (exists|i: int| match_at(content@, pat@, i)) ==> exists|i: int|
            #[trigger] first_match_at(content@, pat@, i) && r@ == content@.take(i) + subst@
                + content@.skip(i + pat@.len()),
        !(exists|i: int| match_at(content@, pat@, i)) ==> r@ == content@,
{
    if pat.len() > content.len() {
        return dup(content);
    }
    if pat.len() == 0 {
        let mut r = dup(subst);
        let tail = dup(content);
        append_bytes(&mut r, &tail);
        proof {
            assert(content@.subrange(0, 0) =~= pat@);
            assert(first_match_at(content@, pat@, 0));
            assert(content@.take(0) =~= Seq::<u8>::empty());
            assert(content@.skip(0) =~= content@);
            assert(r@ =~= content@.take(0) + subst@ + content@.skip(0));
        }
        return r;
    }
    let n = content.len();
    let mut i: usize = 0;
    while i <= n - pat.len()
        invariant
            n == content@.len(),
            0 < pat@.len() <= content@.len(),
            i <= content@.len() - pat@.len() + 1,
            forall|j: int| 0 <= j < i ==> !match_at(content@, pat@, j),
        decreases content@.len() - pat@.len() + 1 - i,
    {
        if matches_at(content, pat, i) {
            let mut r = subvec(content, 0, i);
            append_bytes(&mut r, subst);
            let tail = subvec(content, i + pat.len(), content.len());
            append_bytes(&mut r, &tail);
            proof {
                assert(first_match_at(content@, pat@, i as int));
                assert(content@.subrange(0, i as int) =~= content@.take(i as int));
                assert(content@.subrange(i + pat@.len(), content@.len() as int) =~= content@.skip(
                    i + pat@.len(),
                ));
            }
            return r;
        }
        i += 1;
    }
    proof {
        assert forall|j: int| !match_at(content@, pat@, j) by {
            if 0 <= j <= content@.len() - pat@.len() {
                assert(!match_at(content@, pat@, j));
            }
        }
    }
    dup(content)
}

} // verus!
