//! Byte-sequence utilities shared by the shebang parser: whitespace
//! classification, trimming, tokenization, joining and path segments.

use vstd::prelude::*;

verus! {

/// Bytes treated as whitespace when a shebang line is trimmed and split
/// into tokens: space, tab, line feed, carriage return.
pub open spec fn is_ws(b: u8) -> bool {
    b == 32 || b == 9 || b == 10 || b == 13
}

/// No byte of `s` is whitespace.
pub open spec fn ws_free(s: Seq<u8>) -> bool {
    forall|i: int| 0 <= i < s.len() ==> !is_ws(s[i])
}

/// `p` is a prefix of `s`.
pub open spec fn is_prefix(p: Seq<u8>, s: Seq<u8>) -> bool {
    p.len() <= s.len() && s.subrange(0, p.len() as int) == p
}

/// `s` with all trailing whitespace removed.
pub open spec fn trim_end(s: Seq<u8>) -> Seq<u8>
    decreases s.len(),
{
    if s.len() > 0 && is_ws(s[s.len() - 1]) {
        trim_end(s.drop_last())
    } else {
        s
    }
}

/// Length of the longest whitespace-free prefix of `s`.
pub open spec fn word_len(s: Seq<u8>) -> nat
    decreases s.len(),
{
    if s.len() == 0 || is_ws(s[0]) {
        0
    } else {
        1 + word_len(s.skip(1))
    }
}

pub proof fn lemma_word_len_le(s: Seq<u8>)
    ensures
        word_len(s) <= s.len(),
    decreases s.len(),
{
    if s.len() == 0 || is_ws(s[0]) {
    } else {
        lemma_word_len_le(s.skip(1));
    }
}

/// The whitespace-delimited words of `s`, in order, without empty words.
pub open spec fn tokens(s: Seq<u8>) -> Seq<Seq<u8>>
    decreases s.len(),
    via tokens_decreases
{
    if s.len() == 0 {
        Seq::empty()
    } else if is_ws(s[0]) {
        tokens(s.skip(1))
    } else {
        seq![s.take(word_len(s) as int)] + tokens(s.skip(word_len(s) as int))
    }
}

#[via_fn]
proof fn tokens_decreases(s: Seq<u8>) {
    if s.len() > 0 && !is_ws(s[0]) {
        lemma_word_len_le(s);
    }
}

/// The part of `s` after its last slash byte (all of `s` if it has none).
pub open spec fn last_segment(s: Seq<u8>) -> Seq<u8>
    decreases s.len(),
{
    if s.len() == 0 {
        s
    } else if s.last() == 47 {
        Seq::empty()
    } else {
        last_segment(s.drop_last()).push(s.last())
    }
}

/// The final segment of a whitespace-free sequence is whitespace-free.
pub proof fn lemma_last_segment_ws_free(s: Seq<u8>)
    requires
        ws_free(s),
    ensures
        ws_free(last_segment(s)),
    decreases s.len(),
{
    if s.len() == 0 {
    } else if s.last() == 47 {
    } else {
        assert(ws_free(s.drop_last())) by {
            assert forall|j: int| 0 <= j < s.drop_last().len() implies !is_ws(s.drop_last()[j]) by {
                assert(s.drop_last()[j] == s[j]);
            }
        }
        lemma_last_segment_ws_free(s.drop_last());
    }
}

/// The final segment holds no slash.
pub proof fn lemma_last_segment_no_slash(s: Seq<u8>)
    ensures
        !last_segment(s).contains(47),
    decreases s.len(),
{
    if s.len() == 0 {
        assert(!last_segment(s).contains(47u8)) by {
            if last_segment(s).contains(47u8) {
                let j = choose|j: int|
                    0 <= j < last_segment(s).len() && last_segment(s)[j] == 47u8;
            }
        }
    } else if s.last() == 47 {
        assert(!Seq::<u8>::empty().contains(47u8)) by {
            if Seq::<u8>::empty().contains(47u8) {
                let j = choose|j: int| 0 <= j < 0 && Seq::<u8>::empty()[j] == 47u8;
            }
        }
    } else {
        lemma_last_segment_no_slash(s.drop_last());
        let t = last_segment(s.drop_last());
        let r = t.push(s.last());
        assert(!r.contains(47u8)) by {
            if r.contains(47u8) {
                let j = choose|j: int| 0 <= j < r.len() && r[j] == 47u8;
                if j < t.len() {
                    assert(t.contains(47u8));
                }
            }
        }
    }
}

/// The elements of `parts` joined with a single space between neighbours.
pub open spec fn join_ws(parts: Seq<Seq<u8>>) -> Seq<u8>
    decreases parts.len(),
{
    if parts.len() == 0 {
        Seq::empty()
    } else if parts.len() == 1 {
        parts[0]
    } else {
        parts[0] + seq![32u8] + join_ws(parts.skip(1))
    }
}

fn byte_is_ws(b: u8) -> (r: bool)
    ensures
        r == is_ws(b),
{
    b == 32 || b == 9 || b == 10 || b == 13
}

/// A fresh copy of the byte range `[from, to)` of `s`.
pub fn subvec(s: &Vec<u8>, from: usize, to: usize) -> (r: Vec<u8>)
    requires
        from <= to <= s@.len(),
    ensures
        r@ == s@.subrange(from as int, to as int),
{
    let mut r: Vec<u8> = Vec::new();
    let mut i = from;
    while i < to
        invariant
            from <= i <= to <= s@.len(),
            r@ == s@.subrange(from as int, i as int),
        decreases to - i,
    {
        r.push(s[i]);
        proof {
            assert(s@.subrange(from as int, i + 1) =~= s@.subrange(from as int, i as int).push(
                s@[i as int],
            ));
        }
        i += 1;
    }
    r
}

/// Appends all bytes of `src` to `dst`.
pub fn append_bytes(dst: &mut Vec<u8>, src: &Vec<u8>)
    ensures
        final(dst)@ == old(dst)@ + src@,
{
    let mut i: usize = 0;
    while i < src.len()
        invariant
            i <= src@.len(),
            dst@ == old(dst)@ + src@.subrange(0, i as int),
        decreases src@.len() - i,
    {
        dst.push(src[i]);
        proof {
            assert(src@.subrange(0, i + 1) =~= src@.subrange(0, i as int).push(src@[i as int]));
            assert(old(dst)@ + src@.subrange(0, i as int).push(src@[i as int]) =~= (old(dst)@
                + src@.subrange(0, i as int)).push(src@[i as int]));
        }
        i += 1;
    }
    proof {
        assert(src@.subrange(0, src@.len() as int) =~= src@);
    }
}

/// A fresh copy of `s`.
pub fn dup(s: &Vec<u8>) -> (r: Vec<u8>)
    ensures
        r@ == s@,
{
    let r = subvec(s, 0, s.len());
    proof {
        assert(s@.subrange(0, s@.len() as int) =~= s@);
    }
    r
}

/// Whether the byte sequences held by `a` and `b` are equal.
pub fn bytes_eq(a: &Vec<u8>, b: &Vec<u8>) -> (r: bool)
    ensures
        r == (a@ == b@),
{
    if a.len() != b.len() {
        return false;
    }
    let mut i: usize = 0;
    while i < a.len()
        invariant
            i <= a@.len(),
            a@.len() == b@.len(),
            forall|j: int| 0 <= j < i ==> a@[j] == b@[j],
        decreases a@.len() - i,
    {
        if a[i] != b[i] {
            return false;
        }
        i += 1;
    }
    proof {
        assert(a@ =~= b@);
    }
    true
}

/// Whether `p` holds a prefix of `s`.
pub fn has_prefix(s: &Vec<u8>, p: &Vec<u8>) -> (r: bool)
    ensures
        r == is_prefix(p@, s@),
{
    if p.len() > s.len() {
        return false;
    }
    let mut i: usize = 0;
    while i < p.len()
        invariant
            i <= p@.len() <= s@.len(),
            forall|j: int| 0 <= j < i ==> s@[j] == p@[j],
        decreases p@.len() - i,
    {
        if s[i] != p[i] {
            proof {
                assert(s@.subrange(0, p@.len() as int)[i as int] == s@[i as int]);
            }
            return false;
        }
        i += 1;
    }
    proof {
        assert(s@.subrange(0, p@.len() as int) =~= p@);
    }
    true
}

/// Whether some byte of `s` equals `b`.
pub fn contains_byte(s: &Vec<u8>, b: u8) -> (r: bool)
    ensures
        r == s@.contains(b),
{
    let mut i: usize = 0;
    while i < s.len()
        invariant
            i <= s@.len(),
            forall|j: int| 0 <= j < i ==> s@[j] != b,
        decreases s@.len() - i,
    {
        if s[i] == b {
            return true;
        }
        i += 1;
    }
    proof {
        assert(!s@.contains(b)) by {
            if s@.contains(b) {
                let j = choose|j: int| 0 <= j < s@.len() && s@[j] == b;
                assert(s@[j] != b);
            }
        }
    }
    false
}

proof fn lemma_trim_end_drop(s: Seq<u8>, end: int)
    requires
        0 <= end < s.len(),
        is_ws(s[end]),
    ensures
        trim_end(s.subrange(0, end + 1)) == trim_end(s.subrange(0, end)),
{
    let t = s.subrange(0, end + 1);
    assert(t.len() == end + 1);
    assert(is_ws(t[end]));
    assert(t.drop_last() =~= s.subrange(0, end));
}

/// `s` with trailing whitespace removed, as a fresh vector.
pub fn trim_end_vec(s: &Vec<u8>) -> (r: Vec<u8>)
    ensures
        r@ == trim_end(s@),
{
    let mut end = s.len();
    proof {
        assert(s@.subrange(0, s@.len() as int) =~= s@);
    }
    loop
        invariant_except_break
            end <= s@.len(),
            trim_end(s@) == trim_end(s@.subrange(0, end as int)),
        ensures
            end <= s@.len(),
            trim_end(s@) == trim_end(s@.subrange(0, end as int)),
            end == 0 || !is_ws(s@[end - 1]),
        decreases end,
    {
        if end == 0 {
            break ;
        }
        if !byte_is_ws(s[end - 1]) {
            break ;
        }
        proof {
            lemma_trim_end_drop(s@, end - 1);
        }
        end -= 1;
    }
    proof {
        let t = s@.subrange(0, end as int);
        assert(end > 0 ==> !is_ws(t[end - 1]));
        assert(trim_end(t) == t);
    }
    subvec(s, 0, end)
}

pub proof fn lemma_word_len_exact(s: Seq<u8>, k: nat)
    requires
        k <= s.len(),
        forall|j: int| 0 <= j < k ==> !is_ws(s[j]),
        k == s.len() || is_ws(s[k as int]),
    ensures
        word_len(s) == k,
    decreases k,
{
    if k == 0 {
    } else {
        assert(!is_ws(s[0]));
        assert forall|j: int| 0 <= j < k - 1 implies !is_ws(s.skip(1)[j]) by {
            assert(s.skip(1)[j] == s[j + 1]);
        }
        if k < s.len() {
            assert(s.skip(1)[k - 1] == s[k as int]);
        }
        lemma_word_len_exact(s.skip(1), (k - 1) as nat);
    }
}

/// The first word of a non-whitespace-led sequence is nonempty and clean.
pub proof fn lemma_word_props(s: Seq<u8>)
    requires
        s.len() > 0,
        !is_ws(s[0]),
    ensures
        1 <= word_len(s) <= s.len(),
        forall|j: int| 0 <= j < word_len(s) ==> !is_ws(s[j]),
        word_len(s) < s.len() ==> is_ws(s[word_len(s) as int]),
    decreases s.len(),
{
    lemma_word_len_le(s);
    if s.len() > 1 && !is_ws(s[1]) {
        assert(s.skip(1)[0] == s[1]);
        lemma_word_props(s.skip(1));
        assert forall|j: int| 0 <= j < word_len(s) implies !is_ws(s[j]) by {
            if j > 0 {
                assert(s.skip(1)[j - 1] == s[j]);
            }
        }
        if word_len(s) < s.len() {
            assert(s.skip(1)[word_len(s.skip(1)) as int] == s[word_len(s) as int]);
        }
    } else {
        assert(word_len(s.skip(1)) == 0) by {
            if s.len() > 1 {
                assert(s.skip(1)[0] == s[1]);
            }
        }
        assert(word_len(s) == 1);
    }
}

/// Every token is nonempty and whitespace-free.
pub proof fn lemma_tokens_wf(s: Seq<u8>)
    ensures
        forall|i: int|
            0 <= i < tokens(s).len() ==> (#[trigger] tokens(s)[i]).len() > 0 && ws_free(
                tokens(s)[i],
            ),
    decreases s.len(),
{
    if s.len() == 0 {
    } else if is_ws(s[0]) {
        lemma_tokens_wf(s.skip(1));
        assert forall|i: int|
            0 <= i < tokens(s).len() implies (#[trigger] tokens(s)[i]).len() > 0 && ws_free(
            tokens(s)[i],
        ) by {
            assert(tokens(s)[i] == tokens(s.skip(1))[i]);
        }
    } else {
        lemma_word_props(s);
        let wl = word_len(s) as int;
        let w = s.take(wl);
        lemma_tokens_wf(s.skip(wl));
        assert(w.len() > 0);
        assert(ws_free(w)) by {
            assert forall|j: int| 0 <= j < w.len() implies !is_ws(w[j]) by {
                assert(w[j] == s[j]);
            }
        }
        assert forall|i: int|
            0 <= i < tokens(s).len() implies (#[trigger] tokens(s)[i]).len() > 0 && ws_free(
            tokens(s)[i],
        ) by {
            if i == 0 {
                assert(tokens(s)[0] == w);
            } else {
                assert(tokens(s)[i] == tokens(s.skip(wl))[i - 1]);
            }
        }
    }
}

/// Splitting ignores trailing whitespace.
pub proof fn lemma_tokens_drop_last_ws(s: Seq<u8>)
    requires
        s.len() > 0,
        is_ws(s.last()),
    ensures
        tokens(s) == tokens(s.drop_last()),
    decreases s.len(),
{
    let t = s.drop_last();
    if is_ws(s[0]) {
        if s.len() == 1 {
            assert(s.skip(1) =~= Seq::<u8>::empty());
            assert(t =~= Seq::<u8>::empty());
        } else {
            assert(s.skip(1).last() == s.last());
            lemma_tokens_drop_last_ws(s.skip(1));
            assert(s.skip(1).drop_last() =~= t.skip(1));
            assert(!(t.len() == 0) && is_ws(t[0]));
        }
    } else {
        let wl = word_len(s) as int;
        lemma_word_props(s);
        assert(wl < s.len()) by {
            if wl == s.len() {
                assert(!is_ws(s[s.len() - 1]));
            }
        }
        assert(is_ws(s[wl]));
        assert forall|j: int| 0 <= j < wl implies !is_ws(t[j]) by {
            assert(t[j] == s[j]);
        }
        if wl < t.len() {
            assert(is_ws(t[wl]));
        }
        lemma_word_len_exact(t, wl as nat);
        assert(t.take(wl) =~= s.take(wl));
        if s.skip(wl).len() > 0 {
            assert(s.skip(wl).last() == s.last());
        }
        lemma_tokens_drop_last_ws(s.skip(wl));
        assert(s.skip(wl).drop_last() =~= t.skip(wl));
    }
}

/// Splitting ignores appended whitespace.
pub proof fn lemma_tokens_append_ws(s: Seq<u8>, w: Seq<u8>)
    requires
        forall|j: int| 0 <= j < w.len() ==> is_ws(w[j]),
    ensures
        tokens(s + w) == tokens(s),
    decreases w.len(),
{
    if w.len() == 0 {
        assert(s + w =~= s);
    } else {
        assert((s + w).last() == w.last());
        lemma_tokens_drop_last_ws(s + w);
        assert((s + w).drop_last() =~= s + w.drop_last());
        lemma_tokens_append_ws(s, w.drop_last());
    }
}

/// Trimming takes a prefix and drops only whitespace.
pub proof fn lemma_trim_end_shape(s: Seq<u8>)
    ensures
        is_prefix(trim_end(s), s),
        forall|j: int| trim_end(s).len() <= j < s.len() ==> is_ws(s[j]),
    decreases s.len(),
{
    if s.len() > 0 && is_ws(s[s.len() - 1]) {
        lemma_trim_end_shape(s.drop_last());
        let t = trim_end(s);
        assert(s.drop_last().subrange(0, t.len() as int) =~= s.subrange(0, t.len() as int));
        assert forall|j: int| t.len() <= j < s.len() implies is_ws(s[j]) by {
            if j < s.len() - 1 {
                assert(is_ws(s.drop_last()[j]));
            }
        }
    } else {
        assert(s.subrange(0, s.len() as int) =~= s);
    }
}

/// Joining whitespace-free nonempty words and splitting again gives the
/// words back.
pub proof fn lemma_join_tokens_roundtrip(parts: Seq<Seq<u8>>)
    requires
        forall|i: int|
            0 <= i < parts.len() ==> (#[trigger] parts[i]).len() > 0 && ws_free(parts[i]),
    ensures
        tokens(join_ws(parts)) == parts,
    decreases parts.len(),
{
    if parts.len() == 0 {
        assert(tokens(join_ws(parts)) =~= parts);
    } else if parts.len() == 1 {
        let s = join_ws(parts);
        assert(s == parts[0]);
        assert(parts[0].len() > 0 && ws_free(parts[0]));
        lemma_word_len_exact(s, s.len() as nat);
        assert(s.take(s.len() as int) =~= s);
        assert(s.skip(s.len() as int) =~= Seq::<u8>::empty());
        assert(tokens(Seq::<u8>::empty()) == Seq::<Seq<u8>>::empty());
        assert(!is_ws(s[0]));
        assert(tokens(s) == seq![s.take(s.len() as int)] + tokens(s.skip(s.len() as int)));
        assert(tokens(s) =~= parts);
    } else {
        let s = join_ws(parts);
        let h = parts[0];
        let rest = join_ws(parts.skip(1));
        assert(s == h + seq![32u8] + rest);
        assert(h.len() > 0 && ws_free(h));
        assert forall|j: int| 0 <= j < h.len() implies !is_ws(s[j]) by {
            assert(s[j] == h[j]);
        }
        assert(s[h.len() as int] == 32);
        lemma_word_len_exact(s, h.len() as nat);
        assert(s[0] == h[0]);
        assert(!is_ws(s[0]));
        assert(s.take(h.len() as int) =~= h);
        let tail = s.skip(h.len() as int);
        assert(tail =~= seq![32u8] + rest);
        assert(is_ws(tail[0]));
        assert(tail.skip(1) =~= rest);
        assert forall|i: int|
            0 <= i < parts.skip(1).len() implies (#[trigger] parts.skip(1)[i]).len() > 0 && ws_free(
            parts.skip(1)[i],
        ) by {
            assert(parts.skip(1)[i] == parts[i + 1]);
        }
        lemma_join_tokens_roundtrip(parts.skip(1));
        assert(tokens(s) == seq![h] + tokens(tail));
        assert(tokens(tail) == tokens(rest));
        assert(seq![h] + parts.skip(1) =~= parts);
    }
}

/// A join of nonempty words is nonempty and ends as its last word does.
pub proof fn lemma_join_ws_last(parts: Seq<Seq<u8>>)
    requires
        parts.len() > 0,
        forall|i: int| 0 <= i < parts.len() ==> (#[trigger] parts[i]).len() > 0,
    ensures
        join_ws(parts).len() > 0,
        join_ws(parts).last() == parts.last().last(),
    decreases parts.len(),
{
    if parts.len() == 1 {
    } else {
        assert forall|i: int|
            0 <= i < parts.skip(1).len() implies (#[trigger] parts.skip(1)[i]).len() > 0 by {
            assert(parts.skip(1)[i] == parts[i + 1]);
        }
        lemma_join_ws_last(parts.skip(1));
        let rest = join_ws(parts.skip(1));
        assert((parts[0] + seq![32u8] + rest).last() == rest.last());
        assert(parts.skip(1).last() == parts.last());
    }
}

/// If a whitespace-free `p` is a prefix of `s`, trimming `s` keeps it.
pub proof fn lemma_trim_keeps_ws_free_prefix(s: Seq<u8>, p: Seq<u8>)
    requires
        is_prefix(p, s),
        ws_free(p),
    ensures
        is_prefix(p, trim_end(s)),
    decreases s.len(),
{
    if s.len() > 0 && is_ws(s[s.len() - 1]) {
        if p.len() == s.len() {
            assert(p[s.len() - 1] == s.subrange(0, p.len() as int)[s.len() - 1]);
            assert(false);
        } else {
            assert(s.drop_last().subrange(0, p.len() as int) =~= s.subrange(0, p.len() as int));
            lemma_trim_keeps_ws_free_prefix(s.drop_last(), p);
        }
    }
}

/// The whitespace-delimited words of `s`, in order.
pub fn split_tokens(s: &Vec<u8>) -> (r: Vec<Vec<u8>>)
    ensures
        r.deep_view() == tokens(s@),
{
    let mut r: Vec<Vec<u8>> = Vec::new();
    let mut i: usize = 0;
    proof {
        assert(r.deep_view() =~= Seq::<Seq<u8>>::empty());
        assert(s@.skip(0) =~= s@);
        assert(r.deep_view() + tokens(s@) =~= tokens(s@));
    }
    while i < s.len()
        invariant
            i <= s@.len(),
            tokens(s@) == r.deep_view() + tokens(s@.skip(i as int)),
        decreases s@.len() - i,
    {
        if byte_is_ws(s[i]) {
            proof {
                assert(s@.skip(i as int)[0] == s@[i as int]);
                assert(s@.skip(i as int).skip(1) =~= s@.skip(i + 1));
            }
            i += 1;
        } else {
            let start = i;
            loop
                invariant_except_break
                    start <= i <= s@.len(),
                    start < s@.len(),
                    !is_ws(s@[start as int]),
                    forall|j: int| start <= j < i ==> !is_ws(s@[j]),
                ensures
                    start <= i <= s@.len(),
                    forall|j: int| start <= j < i ==> !is_ws(s@[j]),
                    i == s@.len() || is_ws(s@[i as int]),
                    start < i,
                decreases s@.len() - i,
            {
                if i == s.len() {
                    break ;
                }
                if byte_is_ws(s[i]) {
                    proof {
                        assert(i != start);
                    }
                    break ;
                }
                i += 1;
            }
            let w = subvec(s, start, i);
            proof {
                let tail = s@.skip(start as int);
                assert forall|j: int| 0 <= j < i - start implies !is_ws(tail[j]) by {
                    assert(tail[j] == s@[start + j]);
                }
                if i < s@.len() {
                    assert(tail[i - start] == s@[i as int]);
                }
                lemma_word_len_exact(tail, (i - start) as nat);
                assert(!is_ws(tail[0]));
                assert(tail.take(i - start) =~= s@.subrange(start as int, i as int));
                assert(tail.skip(i - start) =~= s@.skip(i as int));
                assert(tokens(tail) == seq![w@] + tokens(s@.skip(i as int)));
            }
            let ghost old_deep = r.deep_view();
            r.push(w);
            proof {
                assert(r.deep_view() =~~= old_deep.push(w@));
                assert(old_deep.push(w@) + tokens(s@.skip(i as int)) =~= old_deep + (seq![w@]
                    + tokens(s@.skip(i as int))));
            }
        }
    }
    proof {
        assert(s@.skip(s@.len() as int) =~= Seq::<u8>::empty());
        assert(r.deep_view() + tokens(Seq::<u8>::empty()) =~= r.deep_view());
    }
    r
}

pub proof fn lemma_join_ws_push(parts: Seq<Seq<u8>>, x: Seq<u8>)
    ensures
        parts.len() == 0 ==> join_ws(parts.push(x)) == x,
        parts.len() > 0 ==> join_ws(parts.push(x)) == join_ws(parts) + seq![32u8] + x,
    decreases parts.len(),
{
    if parts.len() == 0 {
        assert(parts.push(x)[0] == x);
    } else if parts.len() == 1 {
        assert(parts.push(x)[0] == parts[0]);
        assert(parts.push(x).skip(1) =~= seq![x]);
        assert(join_ws(seq![x]) == x);
    } else {
        assert(parts.push(x)[0] == parts[0]);
        assert(parts.push(x).skip(1) =~= parts.skip(1).push(x));
        lemma_join_ws_push(parts.skip(1), x);
        assert(parts[0] + seq![32u8] + (join_ws(parts.skip(1)) + seq![32u8] + x) =~= parts[0]
            + seq![32u8] + join_ws(parts.skip(1)) + seq![32u8] + x);
    }
}

/// The elements of `parts` joined with single spaces, as a fresh vector.
pub fn join_tokens(parts: &Vec<Vec<u8>>) -> (r: Vec<u8>)
    ensures
        r@ == join_ws(parts.deep_view()),
{
    let mut r: Vec<u8> = Vec::new();
    let mut i: usize = 0;
    while i < parts.len()
        invariant
            i <= parts@.len(),
            r@ == join_ws(parts.deep_view().take(i as int)),
        decreases parts@.len() - i,
    {
        if i > 0 {
            r.push(32);
        }
        let ghost prefix = r@;
        let mut j: usize = 0;
        while j < parts[i].len()
            invariant
                i < parts@.len(),
                j <= parts@[i as int]@.len(),
                r@ == prefix + parts@[i as int]@.subrange(0, j as int),
            decreases parts@[i as int]@.len() - j,
        {
            let b = parts[i][j];
            r.push(b);
            proof {
                assert(parts@[i as int]@.subrange(0, j + 1) =~= parts@[i as int]@.subrange(
                    0,
                    j as int,
                ).push(parts@[i as int]@[j as int]));
            }
            j += 1;
        }
        proof {
            let dv = parts.deep_view();
            assert(parts@[i as int]@.subrange(0, parts@[i as int]@.len() as int) =~= parts@[
                i as int
            ]@);
            assert(dv[i as int] =~= parts@[i as int]@);
            lemma_join_ws_push(dv.take(i as int), dv[i as int]);
            assert(dv.take(i as int).push(dv[i as int]) =~= dv.take(i + 1));
            if i == 0 {
                assert(prefix =~= Seq::<u8>::empty());
                assert(r@ =~= dv[0]);
            } else {
                assert(r@ =~= join_ws(dv.take(i as int)) + seq![32u8] + dv[i as int]);
            }
        }
        i += 1;
    }
    proof {
        assert(parts.deep_view().take(parts@.len() as int) =~= parts.deep_view());
    }
    r
}

pub proof fn lemma_last_segment_suffix(s: Seq<u8>, k: int)
    requires
        0 <= k <= s.len(),
        forall|j: int| k <= j < s.len() ==> s[j] != 47,
        k > 0 ==> s[k - 1] == 47,
    ensures
        last_segment(s) == s.skip(k),
    decreases s.len(),
{
    if k == s.len() {
        if k > 0 {
            assert(s.last() == 47);
            assert(s.skip(k) =~= Seq::<u8>::empty());
        } else {
            assert(s.skip(0) =~= s);
        }
    } else {
        assert(s.last() != 47);
        assert forall|j: int| k <= j < s.drop_last().len() implies s.drop_last()[j] != 47 by {
            assert(s.drop_last()[j] == s[j]);
        }
        lemma_last_segment_suffix(s.drop_last(), k);
        assert(s.drop_last().skip(k).push(s.last()) =~= s.skip(k));
    }
}

/// The part of `s` after its last slash byte, as a fresh vector.
pub fn last_segment_vec(s: &Vec<u8>) -> (r: Vec<u8>)
    ensures
        r@ == last_segment(s@),
{
    let mut k = s.len();
    loop
        invariant_except_break
            k <= s@.len(),
            forall|j: int| k <= j < s@.len() ==> s@[j] != 47,
        ensures
            k <= s@.len(),
            forall|j: int| k <= j < s@.len() ==> s@[j] != 47,
            k == 0 || s@[k - 1] == 47,
        decreases k,
    {
        if k == 0 {
            break ;
        }
        if s[k - 1] == 47 {
            break ;
        }
        k -= 1;
    }
    proof {
        lemma_last_segment_suffix(s@, k as int);
        assert(s@.skip(k as int) =~= s@.subrange(k as int, s@.len() as int));
    }
    subvec(s, k, s.len())
}

} // verus!
