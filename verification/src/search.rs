//! The interpreter resolver: a colon-separated search path is split into
//! directories, each directory yields a candidate path for a program
//! name, and the first candidate that is a regular file wins.

use vstd::prelude::*;

use crate::bytes::append_bytes;
use crate::bytes::dup;
use crate::errors::PatchError;

verus! {

/// The candidate path for `name` inside directory `dir`: an absolute
/// `name` stands alone; otherwise `dir` and `name` are joined with a
/// single slash unless `dir` is empty or already ends in one.
pub open spec fn spec_candidate(dir: Seq<u8>, name: Seq<u8>) -> Seq<u8> {
    if name.len() > 0 && name[0] == 47 {
        name
    } else if dir.len() == 0 {
        name
    } else if dir.last() == 47 {
        dir + name
    } else {
        dir + seq![47u8] + name
    }
}

pub fn candidate(dir: &Vec<u8>, name: &Vec<u8>) -> (r: Vec<u8>)
    ensures
        r@ == spec_candidate(dir@, name@),
{
    if (name.len() > 0 && name[0] == 47) || dir.len() == 0 {
        return dup(name);
    }
    let mut r = dup(dir);
    if dir[dir.len() - 1] != 47 {
        r.push(47);
    }
    append_bytes(&mut r, name);
    r
}

/// Length of the longest colon-free prefix of `s`.
pub open spec fn piece_len(s: Seq<u8>) -> nat
    decreases s.len(),
{
    if s.len() == 0 || s[0] == 58 {
        0
    } else {
        1 + piece_len(s.skip(1))
    }
}

pub proof fn lemma_piece_len_le(s: Seq<u8>)
    ensures
        piece_len(s) <= s.len(),
    decreases s.len(),
{
    if s.len() == 0 || s[0] == 58 {
    } else {
        lemma_piece_len_le(s.skip(1));
    }
}

pub proof fn lemma_piece_len_exact(s: Seq<u8>, k: nat)
    requires
        k <= s.len(),
        forall|j: int| 0 <= j < k ==> s[j] != 58,
        k == s.len() || s[k as int] == 58,
    ensures
        piece_len(s) == k,
    decreases k,
{
    if k == 0 {
    } else {
        assert(s[0] != 58);
        assert forall|j: int| 0 <= j < k - 1 implies s.skip(1)[j] != 58 by {
            assert(s.skip(1)[j] == s[j + 1]);
        }
        if k < s.len() {
            assert(s.skip(1)[k - 1] == s[k as int]);
        }
        lemma_piece_len_exact(s.skip(1), (k - 1) as nat);
    }
}

/// The pieces of `s` split on colons, empty pieces kept; an empty `s`
/// yields one empty piece.
pub open spec fn split_colon(s: Seq<u8>) -> Seq<Seq<u8>>
    decreases s.len(),
    via split_colon_decreases
{
    if piece_len(s) == s.len() {
        seq![s]
    } else {
        seq![s.take(piece_len(s) as int)] + split_colon(s.skip(piece_len(s) as int + 1))
    }
}

#[via_fn]
proof fn split_colon_decreases(s: Seq<u8>) {
    lemma_piece_len_le(s);
}

/// Splits a colon-separated search-path value into its directories,
/// in order, empty entries kept.
pub fn split_search_path(path_env: &Vec<u8>) -> (r: Vec<Vec<u8>>)
    ensures
        r.deep_view() == split_colon(path_env@),
{
    let s = path_env;
    let mut r: Vec<Vec<u8>> = Vec::new();
    let mut i: usize = 0;
    proof {
        assert(r.deep_view() =~= Seq::<Seq<u8>>::empty());
        assert(s@.skip(0) =~= s@);
        assert(r.deep_view() + split_colon(s@) =~= split_colon(s@));
    }
    loop
        invariant_except_break
            i <= s@.len(),
            split_colon(s@) == r.deep_view() + split_colon(s@.skip(i as int)),
        ensures
            r.deep_view() == split_colon(s@),
        decreases s@.len() - i,
    {
        let start = i;
        loop
            invariant_except_break
                start <= i <= s@.len(),
                forall|j: int| start <= j < i ==> s@[j] != 58,
            ensures
                start <= i <= s@.len(),
                forall|j: int| start <= j < i ==> s@[j] != 58,
                i == s@.len() || s@[i as int] == 58,
            decreases s@.len() - i,
        {
            if i == s.len() {
                break ;
            }
            if s[i] == 58 {
                break ;
            }
            i += 1;
        }
        let piece = crate::bytes::subvec(s, start, i);
        proof {
            let tail = s@.skip(start as int);
            assert forall|j: int| 0 <= j < i - start implies tail[j] != 58 by {
                assert(tail[j] == s@[start + j]);
            }
            if i < s@.len() {
                assert(tail[i - start] == s@[i as int]);
            }
            lemma_piece_len_exact(tail, (i - start) as nat);
            assert(tail.take(i - start) =~= s@.subrange(start as int, i as int));
        }
        let ghost old_deep = r.deep_view();
        r.push(piece);
        proof {
            assert(r.deep_view() =~~= old_deep.push(piece@));
        }
        if i == s.len() {
            proof {
                let tail = s@.skip(start as int);
                assert(piece_len(tail) == tail.len());
                assert(split_colon(tail) =~= seq![piece@]);
                assert(old_deep.push(piece@) =~= old_deep + seq![piece@]);
            }
            break ;
        }
        proof {
            let tail = s@.skip(start as int);
            assert(piece_len(tail) < tail.len());
            assert(tail.skip(piece_len(tail) as int + 1) =~= s@.skip(i + 1));
            assert(old_deep.push(piece@) + split_colon(s@.skip(i + 1)) =~= old_deep + (seq![piece@]
                + split_colon(s@.skip(i + 1))));
        }
        i += 1;
    }
    r
}

/// `i` is the first index of `hits` that is set.
pub open spec fn first_hit(hits: Seq<bool>, i: int) -> bool {
    &&& 0 <= i < hits.len()
    &&& hits[i]
    &&& forall|j: int| 0 <= j < i ==> !hits[j]
}

/// Resolves `program` against the directories of a search path, given
/// for each directory whether its candidate path is a regular file
/// (`is_file[i]` answers for `spec_candidate(dirs[i], program)`). The
/// first hit wins; if nothing hits, the program was not found.
pub fn which_in_path(program: &Vec<u8>, dirs: &Vec<Vec<u8>>, is_file: &Vec<bool>) -> (r: Result<
    Vec<u8>,
    PatchError,
>)
    requires
        is_file@.len() == dirs@.len(),
    ensures
        match r {
            Ok(p) => exists|i: int|
                #[trigger] first_hit(is_file@, i) && p@ == spec_candidate(dirs@[i]@, program@),
            Err(e) => {
                &&& forall|i: int| 0 <= i < is_file@.len() ==> !is_file@[i]
                &&& e matches PatchError::NotFound { program: q } && q@ == program@
            },
        },
{
    let mut i: usize = 0;
    while i < dirs.len()
        invariant
            is_file@.len() == dirs@.len(),
            i <= dirs@.len(),
            forall|j: int| 0 <= j < i ==> !is_file@[j],
        decreases dirs@.len() - i,
    {
        if is_file[i] {
            let p = candidate(&dirs[i], program);
            proof {
                assert(first_hit(is_file@, i as int));
            }
            return Ok(p);
        }
        i += 1;
    }
    Err(PatchError::NotFound { program: dup(program) })
}

/// Resolution against a model of the filesystem: `files` is the set of
/// paths that are regular files. The first directory whose candidate
/// is in `files` wins.
pub open spec fn spec_resolve(files: Set<Seq<u8>>, dirs: Seq<Seq<u8>>, name: Seq<u8>) -> Option<
    Seq<u8>,
>
    decreases dirs.len(),
{
    if dirs.len() == 0 {
        None
    } else if files.contains(spec_candidate(dirs[0], name)) {
        Some(spec_candidate(dirs[0], name))
    } else {
        spec_resolve(files, dirs.skip(1), name)
    }
}

/// A candidate built from whitespace-free parts is whitespace-free.
pub proof fn lemma_candidate_ws_free(dir: Seq<u8>, name: Seq<u8>)
    requires
        crate::bytes::ws_free(dir),
        crate::bytes::ws_free(name),
    ensures
        crate::bytes::ws_free(spec_candidate(dir, name)),
{
    let c = spec_candidate(dir, name);
    assert forall|i: int| 0 <= i < c.len() implies !crate::bytes::is_ws(c[i]) by {
        if name.len() > 0 && name[0] == 47 {
        } else if dir.len() == 0 {
        } else if dir.last() == 47 {
            assert(c == dir + name);
        } else {
            assert(c == dir + seq![47u8] + name);
        }
    }
}

/// A candidate for a nonempty name is nonempty.
pub proof fn lemma_candidate_nonempty(dir: Seq<u8>, name: Seq<u8>)
    requires
        name.len() > 0,
    ensures
        spec_candidate(dir, name).len() > 0,
{
}

/// The final path segment of a candidate for a slash-free name is the
/// name itself.
pub proof fn lemma_candidate_last_segment(dir: Seq<u8>, name: Seq<u8>)
    requires
        !name.contains(47),
    ensures
        crate::bytes::last_segment(spec_candidate(dir, name)) == name,
{
    let c = spec_candidate(dir, name);
    assert forall|j: int| 0 <= j < name.len() implies name[j] != 47 by {
        if name[j] == 47 {
            assert(name.contains(47u8));
        }
    }
    if name.len() > 0 && name[0] == 47 {
        assert(name.contains(47u8));
    } else if dir.len() == 0 {
        crate::bytes::lemma_last_segment_suffix(name, 0);
        assert(name.skip(0) =~= name);
    } else if dir.last() == 47 {
        assert(c == dir + name);
        assert(c[dir.len() - 1] == 47);
        assert forall|j: int| dir.len() <= j < c.len() implies c[j] != 47 by {
            assert(c[j] == name[j - dir.len()]);
        }
        crate::bytes::lemma_last_segment_suffix(c, dir.len() as int);
        assert(c.skip(dir.len() as int) =~= name);
    } else {
        assert(c == dir + seq![47u8] + name);
        assert(c[dir.len() as int] == 47);
        assert forall|j: int| dir.len() + 1 <= j < c.len() implies c[j] != 47 by {
            assert(c[j] == name[j - dir.len() - 1]);
        }
        crate::bytes::lemma_last_segment_suffix(c, dir.len() as int + 1);
        assert(c.skip(dir.len() as int + 1) =~= name);
    }
}

/// A successful resolution returns the candidate of some directory, and
/// that candidate is a member of `files`.
pub proof fn lemma_resolve_some(files: Set<Seq<u8>>, dirs: Seq<Seq<u8>>, name: Seq<u8>)
    requires
        spec_resolve(files, dirs, name) is Some,
    ensures
        files.contains(spec_resolve(files, dirs, name)->Some_0),
        exists|i: int|
            0 <= i < dirs.len() && spec_resolve(files, dirs, name) == Some(
                #[trigger] spec_candidate(dirs[i], name),
            ),
        dirs.len() > 0,
    decreases dirs.len(),
{
    if dirs.len() == 0 {
    } else if files.contains(spec_candidate(dirs[0], name)) {
        assert(spec_resolve(files, dirs, name) == Some(spec_candidate(dirs[0], name)));
    } else {
        lemma_resolve_some(files, dirs.skip(1), name);
        let i = choose|i: int|
            0 <= i < dirs.skip(1).len() && spec_resolve(files, dirs.skip(1), name) == Some(
                #[trigger] spec_candidate(dirs.skip(1)[i], name),
            );
        assert(dirs.skip(1)[i] == dirs[i + 1]);
        assert(spec_resolve(files, dirs, name) == Some(spec_candidate(dirs[i + 1], name)));
    }
}

/// An absolute path that is a regular file resolves to itself whenever
/// the search path has at least one entry.
pub proof fn lemma_resolve_absolute(files: Set<Seq<u8>>, dirs: Seq<Seq<u8>>, p: Seq<u8>)
    requires
        dirs.len() > 0,
        p.len() > 0,
        p[0] == 47,
        files.contains(p),
    ensures
        spec_resolve(files, dirs, p) == Some(p),
{
    assert(spec_candidate(dirs[0], p) == p);
}

/// Probe results that agree with the filesystem model make
/// `which_in_path` agree with `spec_resolve`: no hit means no
/// resolution, and the first hit is the resolved path.
pub proof fn lemma_probes_match_resolve(
    files: Set<Seq<u8>>,
    dirs: Seq<Seq<u8>>,
    name: Seq<u8>,
    hits: Seq<bool>,
)
    requires
        hits.len() == dirs.len(),
        forall|i: int|
            0 <= i < dirs.len() ==> hits[i] == files.contains(
                #[trigger] spec_candidate(dirs[i], name),
            ),
    ensures
        (forall|i: int| 0 <= i < hits.len() ==> !hits[i]) ==> spec_resolve(files, dirs, name)
            is None,
        forall|i: int|
            #[trigger] first_hit(hits, i) ==> spec_resolve(files, dirs, name) == Some(
                spec_candidate(dirs[i], name),
            ),
    decreases dirs.len(),
{
    if dirs.len() == 0 {
    } else {
        lemma_probes_match_resolve(files, dirs.skip(1), name, hits.skip(1));
        assert forall|j: int| 0 <= j < dirs.skip(1).len() implies hits.skip(1)[j] == files.contains(
            #[trigger] spec_candidate(dirs.skip(1)[j], name),
        ) by {
            assert(dirs.skip(1)[j] == dirs[j + 1]);
            assert(hits.skip(1)[j] == hits[j + 1]);
        }
        if forall|i: int| 0 <= i < hits.len() ==> !hits[i] {
            assert(!hits[0]);
            assert forall|i: int| 0 <= i < hits.skip(1).len() implies !hits.skip(1)[i] by {
                assert(hits.skip(1)[i] == hits[i + 1]);
            }
        }
        assert forall|i: int| #[trigger] first_hit(hits, i) implies spec_resolve(files, dirs, name)
            == Some(spec_candidate(dirs[i], name)) by {
            if i == 0 {
                assert(files.contains(spec_candidate(dirs[0], name)));
            } else {
                assert(!hits[0]);
                assert(first_hit(hits.skip(1), i - 1)) by {
                    assert(hits.skip(1)[i - 1] == hits[i]);
                    assert forall|j: int| 0 <= j < i - 1 implies !hits.skip(1)[j] by {
                        assert(hits.skip(1)[j] == hits[j + 1]);
                    }
                }
                assert(dirs.skip(1)[i - 1] == dirs[i]);
            }
        }
    }
}

/// Whether a permission mode has an execute bit set for some principal.
pub fn is_executable_mode(mode: u32) -> (r: bool)
    ensures
        r == (mode & 0o111 != 0),
{
    mode & 0o111 != 0
}

} // verus!
