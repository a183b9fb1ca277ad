use crate::hash::{all_bases, all_canonical, hash_kmer, kmer_hash};
use crate::queue::{lemma_last_min_pos, window_min, window_start, MinimizerQueue, INVALID_RANK};
use vstd::prelude::*;

verus! {

/// Why a sketch cannot be built.
#[derive(Debug, Clone, Copy, PartialEq, Eq, Structural)]
pub enum SketchError {
    /// `k` or `w` is zero, or the sequence is shorter than `k + w`.
    InvalidParameters,
}

/// The rank of a window in the minimizer queue: its hash when every symbol is
/// canonical, else `INVALID_RANK`, which lies above every hash.
pub open spec fn rank_of(s: Seq<u8>) -> u64 {
    if all_bases(s) {
        kmer_hash(s) as u64
    } else {
        INVALID_RANK
    }
}

/// The ranks of the k-mers of `seq`, by starting position.
pub open spec fn kmer_ranks(seq: Seq<u8>, k: int) -> Seq<u64> {
    Seq::new((seq.len() - k + 1) as nat, |i: int| rank_of(seq.subrange(i, i + k)))
}

/// The order of candidates: by hash, then by position.
pub open spec fn cand_lt(a: (u32, usize), b: (u32, usize)) -> bool {
    a.0 < b.0 || (a.0 == b.0 && a.1 < b.1)
}

/// Candidates in strictly ascending order, hence without duplicates.
pub open spec fn cands_sorted(s: Seq<(u32, usize)>) -> bool {
    forall|i: int, j: int| 0 <= i < j < s.len() ==> cand_lt(#[trigger] s[i], #[trigger] s[j])
}

/// `c` is the minimizer of the window that ends after some prefix of the
/// ranks `r`. The minimizer of a window made only of invalid k-mers has rank
/// `INVALID_RANK`, which no 32-bit hash equals, so it is never such a `c`.
pub open spec fn is_minimizer(r: Seq<u64>, w: int, c: (u32, usize)) -> bool {
    exists|n: int|
        1 <= n <= r.len() && #[trigger] window_min(r.take(n), w) == (c.0 as u64, c.1 as int)
}

/// `s` is the sketch of the ranks `r` for windows of width `w`: every window
/// minimizer whose k-mer is made of canonical symbols, sorted by hash and
/// position, each once.
pub open spec fn is_sketch(s: Seq<(u32, usize)>, r: Seq<u64>, w: int) -> bool {
    &&& cands_sorted(s)
    &&& forall|c: (u32, usize)| #[trigger] s.contains(c) <==> is_minimizer(r, w, c)
}

/// Whether a sketch can be built for a sequence of length `len`.
pub open spec fn params_ok(len: int, k: int, w: int) -> bool {
    k > 0 && w > 0 && k + w <= len
}

/// The rank of one window.
fn kmer_rank(kmer: &[u8]) -> (r: u64)
    ensures
        r == rank_of(kmer@),
{
    let hash = hash_kmer(kmer);
    if all_canonical(kmer) {
        hash as u64
    } else {
        INVALID_RANK
    }
}

fn cand_less(a: (u32, usize), b: (u32, usize)) -> (r: bool)
    ensures
        r == cand_lt(a, b),
{
    a.0 < b.0 || (a.0 == b.0 && a.1 < b.1)
}

proof fn lemma_push_contains(s: Seq<(u32, usize)>, v: (u32, usize))
    ensures
        forall|x: (u32, usize)| #[trigger] s.push(v).contains(x) <==> s.contains(x) || x == v,
{
    assert forall|x: (u32, usize)| #[trigger] s.push(v).contains(x) <==> s.contains(x) || x == v by {
        if s.contains(x) {
            let k = choose|k: int| 0 <= k < s.len() && s[k] == x;
            assert(s.push(v)[k] == x);
        }
        if x == v {
            assert(s.push(v)[s.len() as int] == x);
        }
        if s.push(v).contains(x) {
            let k = choose|k: int| 0 <= k < s.len() + 1 && s.push(v)[k] == x;
            if k < s.len() {
                assert(s[k] == x);
            }
        }
    }
}

/// Merges two strictly sorted candidate lists into one, keeping one copy of
/// each candidate that both hold.
fn merge_cands(a: &Vec<(u32, usize)>, b: &Vec<(u32, usize)>) -> (r: Vec<(u32, usize)>)
    requires
        cands_sorted(a@),
        cands_sorted(b@),
    ensures
        cands_sorted(r@),
        forall|x: (u32, usize)| #[trigger] r@.contains(x) <==> a@.contains(x) || b@.contains(x),
{
    let mut r: Vec<(u32, usize)> = Vec::new();
    let mut i: usize = 0;
    let mut j: usize = 0;
    while i < a.len() || j < b.len()
        invariant
            i <= a@.len(),
            j <= b@.len(),
            cands_sorted(a@),
            cands_sorted(b@),
            cands_sorted(r@),
            forall|x: (u32, usize)| #[trigger]
                r@.contains(x) <==> a@.take(i as int).contains(x) || b@.take(j as int).contains(x),
            forall|t: int| 0 <= t < r@.len() && i < a@.len() ==> cand_lt(#[trigger] r@[t], a@[i as int]),
            forall|t: int| 0 <= t < r@.len() && j < b@.len() ==> cand_lt(#[trigger] r@[t], b@[j as int]),
        decreases a@.len() + b@.len() - i - j,
    {
        let ghost r0 = r@;
        let take_a = j >= b.len() || (i < a.len() && !cand_less(b[j], a[i]));
        let take_b = i >= a.len() || (j < b.len() && !cand_less(a[i], b[j]));
        if take_a {
            let x = a[i];
            r.push(x);
            proof {
                lemma_push_contains(r0, x);
                lemma_push_contains(a@.take(i as int), x);
                assert(a@.take(i + 1) =~= a@.take(i as int).push(x));
            }
            i += 1;
            if take_b {
                proof {
                    lemma_push_contains(b@.take(j as int), x);
                    assert(b@.take(j + 1) =~= b@.take(j as int).push(x));
                }
                j += 1;
            }
            assert forall|t: int| 0 <= t < r@.len() && i < a@.len() implies cand_lt(
                #[trigger] r@[t],
                a@[i as int],
            ) by {
                assert(cand_lt(a@[i - 1], a@[i as int]));
            }
            assert forall|t: int| 0 <= t < r@.len() && j < b@.len() implies cand_lt(
                #[trigger] r@[t],
                b@[j as int],
            ) by {
                if take_b {
                    assert(cand_lt(b@[j - 1], b@[j as int]));
                }
            }
        } else {
            let x = b[j];
            r.push(x);
            proof {
                lemma_push_contains(r0, x);
                lemma_push_contains(b@.take(j as int), x);
                assert(b@.take(j + 1) =~= b@.take(j as int).push(x));
            }
            j += 1;
            assert forall|t: int| 0 <= t < r@.len() && j < b@.len() implies cand_lt(
                #[trigger] r@[t],
                b@[j as int],
            ) by {
                assert(cand_lt(b@[j - 1], b@[j as int]));
            }
        }
    }
    assert(a@.take(i as int) =~= a@);
    assert(b@.take(j as int) =~= b@);
    r
}

/// Sorts candidates by hash and then position, keeping one copy of each.
fn sort_cands(v: &[(u32, usize)]) -> (r: Vec<(u32, usize)>)
    ensures
        cands_sorted(r@),
        forall|x: (u32, usize)| #[trigger] r@.contains(x) <==> v@.contains(x),
    decreases v@.len(),
{
    if v.len() <= 1 {
        let r = vstd::slice::slice_to_vec(v);
        return r;
    }
    let mid = v.len() / 2;
    let lo = vstd::slice::slice_subrange(v, 0, mid);
    let hi = vstd::slice::slice_subrange(v, mid, v.len());
    let a = sort_cands(lo);
    let b = sort_cands(hi);
    let r = merge_cands(&a, &b);
    assert forall|x: (u32, usize)| #[trigger] r@.contains(x) <==> v@.contains(x) by {
        if v@.contains(x) {
            let k = choose|k: int| 0 <= k < v@.len() && v@[k] == x;
            if k < mid {
                assert(lo@[k] == x);
            } else {
                assert(hi@[k - mid] == x);
            }
        }
        if lo@.contains(x) {
            let k = choose|k: int| 0 <= k < lo@.len() && lo@[k] == x;
            assert(v@[k] == x);
        }
        if hi@.contains(x) {
            let k = choose|k: int| 0 <= k < hi@.len() && hi@[k] == x;
            assert(v@[k + mid] == x);
        }
    }
    r
}

/// The minimizer sketch of `seq` for k-mers of length `k` and windows of `w`
/// consecutive k-mers: every window minimizer, sorted by hash and then
/// position, each once. Windows are taken at each k-mer start from the first,
/// so the first `w - 1` of them are shorter than `w`. A k-mer that holds a
/// symbol outside the alphabet ranks above every valid one, so it wins only a
/// window made of such k-mers, and such a window gives no entry. A valid k-mer
/// is kept whatever its hash, the sentinel value included.
pub fn get_minimizers(seq: &[u8], k: usize, w: usize) -> (r: Result<Vec<(u32, usize)>, SketchError>)
    ensures
        r.is_ok() <==> params_ok(seq@.len() as int, k as int, w as int),
        r matches Ok(s) ==> is_sketch(s@, kmer_ranks(seq@, k as int), w as int),
        r matches Err(e) ==> e == SketchError::InvalidParameters,
{
    if k == 0 || w == 0 || k > seq.len() || w > seq.len() - k {
        return Err(SketchError::InvalidParameters);
    }
    let ghost rs = kmer_ranks(seq@, k as int);
    let len = seq.len();
    let last = len - k;
    let mut minimizers: Vec<(u32, usize)> = Vec::new();
    let mut queue = MinimizerQueue::new(w);
    let mut pos: usize = 0;
    while pos <= last
        invariant
            last + k == len,
            len == seq@.len(),
            k > 0,
            w > 0,
            pos <= last + 1,
            rs == kmer_ranks(seq@, k as int),
            queue.wf(),
            queue.width() == w,
            queue.history() == rs.take(pos as int),
            forall|c: (u32, usize)| #[trigger]
                minimizers@.contains(c) <==> exists|n: int|
                    1 <= n <= pos && #[trigger] window_min(rs.take(n), w as int) == (
                        c.0 as u64,
                        c.1 as int,
                    ),
        decreases last + 1 - pos,
    {
        let kmer = vstd::slice::slice_subrange(seq, pos, pos + k);
        let rank = kmer_rank(kmer);
        let ghost h0 = rs.take(pos as int);
        let ghost h1 = rs.take(pos + 1);
        assert(rs[pos as int] == rank);
        assert(h0.push(rank) =~= h1);
        let emitted = queue.insert(rank, pos);
        let ghost m1 = window_min(h1, w as int);
        proof {
            lemma_last_min_pos(h1, window_start(h1.len() as int, w as int), h1.len() as int);
        }
        match emitted {
            Some(c) => {
                if c.0 < INVALID_RANK {
                    proof {
                        lemma_push_contains(minimizers@, (c.0 as u32, c.1));
                    }
                    minimizers.push((c.0 as u32, c.1));
                }
                assert(c.1 as int == m1.1);
            },
            None => {
                assert(pos > 0);
                assert(window_min(h0, w as int) == m1);
            },
        }
        assert forall|c: (u32, usize)| #[trigger]
            minimizers@.contains(c) <==> exists|n: int|
                1 <= n <= pos + 1 && #[trigger] window_min(rs.take(n), w as int) == (
                    c.0 as u64,
                    c.1 as int,
                ) by {
            if c.0 as u64 == m1.0 && c.1 as int == m1.1 {
                if emitted is None {
                    assert(window_min(rs.take(pos as int), w as int) == (c.0 as u64, c.1 as int));
                }
            }
            if exists|n: int|
                1 <= n <= pos + 1 && #[trigger] window_min(rs.take(n), w as int) == (
                    c.0 as u64,
                    c.1 as int,
                ) {
                let n = choose|n: int|
                    1 <= n <= pos + 1 && #[trigger] window_min(rs.take(n), w as int) == (
                        c.0 as u64,
                        c.1 as int,
                    );
                if n == pos + 1 {
                    assert(c == (m1.0 as u32, m1.1 as usize));
                    if emitted is None {
                        assert(window_min(rs.take(pos as int), w as int) == (c.0 as u64, c.1 as int));
                    }
                }
            }
        }
        pos += 1;
    }
    assert(rs.take(pos as int) =~= rs);
    Ok(sort_cands(minimizers.as_slice()))
}

/// Every entry of a sketch is a k-mer made only of canonical symbols, with its
/// hash: no k-mer that holds another symbol is ever reported.
pub proof fn lemma_sketch_entries_valid(
    seq: Seq<u8>,
    k: int,
    w: int,
    s: Seq<(u32, usize)>,
    c: (u32, usize),
)
    requires
        params_ok(seq.len() as int, k, w),
        is_sketch(s, kmer_ranks(seq, k), w),
        s.contains(c),
    ensures
        c.1 + k <= seq.len(),
        all_bases(seq.subrange(c.1 as int, c.1 + k)),
        c.0 == kmer_hash(seq.subrange(c.1 as int, c.1 + k)),
{
    let r = kmer_ranks(seq, k);
    let n = choose|n: int|
        1 <= n <= r.len() && #[trigger] window_min(r.take(n), w) == (c.0 as u64, c.1 as int);
    let rn = r.take(n);
    lemma_last_min_pos(rn, window_start(n, w), n);
    assert(rn[c.1 as int] == r[c.1 as int]);
}

/// No window is skipped: for each full window of `w` consecutive k-mers that
/// holds a k-mer made only of canonical symbols, the sketch holds such a
/// k-mer inside that window whose hash is the smallest hash of the valid
/// k-mers of the window.
pub proof fn lemma_window_covered(seq: Seq<u8>, k: int, w: int, s: Seq<(u32, usize)>, i: int)
    requires
        params_ok(seq.len() as int, k, w),
        seq.len() <= usize::MAX,
        is_sketch(s, kmer_ranks(seq, k), w),
        0 <= i,
        i + w <= seq.len() - k + 1,
        exists|p: int| i <= p < i + w && #[trigger] all_bases(seq.subrange(p, p + k)),
    ensures
        exists|c: (u32, usize)|
            #[trigger] s.contains(c) && i <= c.1 < i + w && all_bases(seq.subrange(c.1 as int, c.1 + k))
                && c.0 == kmer_hash(seq.subrange(c.1 as int, c.1 + k)) && forall|p: int|
                i <= p < i + w && all_bases(seq.subrange(p, p + k)) ==> c.0 <= #[trigger] kmer_hash(
                    seq.subrange(p, p + k),
                ),
{
    let r = kmer_ranks(seq, k);
    let n = i + w;
    let rn = r.take(n);
    assert(window_start(n, w) == i);
    lemma_last_min_pos(rn, i, n);
    let m = window_min(rn, w);
    let p0 = choose|p: int| i <= p < i + w && #[trigger] all_bases(seq.subrange(p, p + k));
    assert(rn[p0] == r[p0]);
    assert(m.0 < INVALID_RANK);
    let c = (m.0 as u32, m.1 as usize);
    assert(window_min(r.take(n), w) == (c.0 as u64, c.1 as int));
    assert(is_minimizer(r, w, c));
    assert(s.contains(c));
    assert(rn[m.1] == r[m.1]);
    assert forall|p: int|
        i <= p < i + w && all_bases(seq.subrange(p, p + k)) implies c.0 <= #[trigger] kmer_hash(
        seq.subrange(p, p + k),
    ) by {
        assert(rn[p] == r[p]);
    }
}

/// Two sorted candidate lists with the same members are the same list.
proof fn lemma_sorted_same_members(s1: Seq<(u32, usize)>, s2: Seq<(u32, usize)>)
    requires
        cands_sorted(s1),
        cands_sorted(s2),
        forall|c: (u32, usize)|
            #![trigger s1.contains(c)]
            #![trigger s2.contains(c)]
            s1.contains(c) <==> s2.contains(c),
    ensures
        s1 == s2,
    decreases s1.len(),
{
    if s1.len() == 0 {
        if s2.len() > 0 {
            assert(s2.contains(s2[0]));
        }
        assert(s1 =~= s2);
    } else if s2.len() == 0 {
        assert(s1.contains(s1[0]));
    } else {
        let a = s1[0];
        let b = s2[0];
        assert(s1.contains(a));
        assert(s2.contains(b));
        let ka = choose|x: int| 0 <= x < s2.len() && s2[x] == a;
        let kb = choose|x: int| 0 <= x < s1.len() && s1[x] == b;
        if a != b {
            assert(cand_lt(s2[0], s2[ka]));
            assert(cand_lt(s1[0], s1[kb]));
        }
        let t1 = s1.drop_first();
        let t2 = s2.drop_first();
        assert forall|c: (u32, usize)|
            #![trigger t1.contains(c)]
            #![trigger t2.contains(c)]
            t1.contains(c) <==> t2.contains(c) by {
            if t1.contains(c) {
                let x = choose|x: int| 0 <= x < t1.len() && t1[x] == c;
                assert(s1[x + 1] == c);
                assert(cand_lt(s1[0], s1[x + 1]));
                assert(s2.contains(c));
                let y = choose|y: int| 0 <= y < s2.len() && s2[y] == c;
                assert(y != 0);
                assert(t2[y - 1] == c);
            }
            if t2.contains(c) {
                let x = choose|x: int| 0 <= x < t2.len() && t2[x] == c;
                assert(s2[x + 1] == c);
                assert(cand_lt(s2[0], s2[x + 1]));
                assert(s1.contains(c));
                let y = choose|y: int| 0 <= y < s1.len() && s1[y] == c;
                assert(y != 0);
                assert(t1[y - 1] == c);
            }
        }
        assert forall|i: int, j: int| 0 <= i < j < t1.len() implies cand_lt(
            #[trigger] t1[i],
            #[trigger] t1[j],
        ) by {
            assert(cand_lt(s1[i + 1], s1[j + 1]));
        }
        assert forall|i: int, j: int| 0 <= i < j < t2.len() implies cand_lt(
            #[trigger] t2[i],
            #[trigger] t2[j],
        ) by {
            assert(cand_lt(s2[i + 1], s2[j + 1]));
        }
        lemma_sorted_same_members(t1, t2);
        assert(a == b);
        assert forall|i: int| 0 <= i < s1.len() implies s1[i] == s2[i] by {
            if i > 0 {
                assert(s1[i] == t1[i - 1] && s2[i] == t2[i - 1]);
            }
        }
        assert(s1 =~= s2);
    }
}

/// A sketch is determined by the sequence and the parameters: two sketches of
/// the same sequence with the same `k` and `w` are identical, so building it
/// twice gives the same result.
pub proof fn lemma_sketch_unique(
    seq: Seq<u8>,
    k: int,
    w: int,
    s1: Seq<(u32, usize)>,
    s2: Seq<(u32, usize)>,
)
    requires
        is_sketch(s1, kmer_ranks(seq, k), w),
        is_sketch(s2, kmer_ranks(seq, k), w),
    ensures
        s1 == s2,
{
    lemma_sorted_same_members(s1, s2);
}

} // verus!
