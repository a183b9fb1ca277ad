use vstd::prelude::*;

verus! {

/// The order of matches: by query position, then by reference position.
pub open spec fn pair_lt(a: (usize, usize), b: (usize, usize)) -> bool {
    a.0 < b.0 || (a.0 == b.0 && a.1 < b.1)
}

/// Matches in strictly ascending order, hence without duplicates.
pub open spec fn pairs_sorted(s: Seq<(usize, usize)>) -> bool {
    forall|i: int, j: int| 0 <= i < j < s.len() ==> pair_lt(#[trigger] s[i], #[trigger] s[j])
}

/// Candidates whose hashes do not decrease.
pub open spec fn sorted_by_hash(s: Seq<(u32, usize)>) -> bool {
    forall|i: int, j: int| 0 <= i <= j < s.len() ==> (#[trigger] s[i]).0 <= (#[trigger] s[j]).0
}

/// `m` pairs the position of one of the first `n` query candidates with the
/// position of a reference candidate of the same hash.
pub open spec fn is_match_among(
    reference: Seq<(u32, usize)>,
    query: Seq<(u32, usize)>,
    n: int,
    m: (usize, usize),
) -> bool {
    exists|i: int, j: int|
        0 <= i < n && 0 <= j < reference.len() && #[trigger] query[i].0 == #[trigger] reference[j].0
            && m == (query[i].1, reference[j].1)
}

/// `m` pairs the position of a query candidate with the position of a
/// reference candidate of the same hash.
pub open spec fn is_match(
    reference: Seq<(u32, usize)>,
    query: Seq<(u32, usize)>,
    m: (usize, usize),
) -> bool {
    is_match_among(reference, query, query.len() as int, m)
}

fn pair_less(a: (usize, usize), b: (usize, usize)) -> (r: bool)
    ensures
        r == pair_lt(a, b),
{
    a.0 < b.0 || (a.0 == b.0 && a.1 < b.1)
}

proof fn lemma_push_contains_pair(s: Seq<(usize, usize)>, v: (usize, usize))
    ensures
        forall|x: (usize, usize)| #[trigger] s.push(v).contains(x) <==> s.contains(x) || x == v,
{
    assert forall|x: (usize, usize)| #[trigger] s.push(v).contains(x) <==> s.contains(x) || x == v by {
        if s.contains(x) {
            let k = choose|k: int| 0 <= k < s.len() && s[k] == x;
            assert(s.push(v)[k] == x);
        }
        if x == v {
            assert(s.push(v)[s.len() as int] == x);
        }
        if s.push(v).contains(x) {
            let k = choose|k: int| 0 <= k < s.len() + 1 && s.push(v)[k] == x;
            if k < s.len() {
                assert(s[k] == x);
            }
        }
    }
}

/// Merges two strictly sorted match lists into one, keeping one copy of
/// each match that both hold.
fn merge_pairs(a: &Vec<(usize, usize)>, b: &Vec<(usize, usize)>) -> (r: Vec<(usize, usize)>)
    requires
        pairs_sorted(a@),
        pairs_sorted(b@),
    ensures
        pairs_sorted(r@),
        forall|x: (usize, usize)| #[trigger] r@.contains(x) <==> a@.contains(x) || b@.contains(x),
{
    let mut r: Vec<(usize, usize)> = Vec::new();
    let mut i: usize = 0;
    let mut j: usize = 0;
    while i < a.len() || j < b.len()
        invariant
            i <= a@.len(),
            j <= b@.len(),
            pairs_sorted(a@),
            pairs_sorted(b@),
            pairs_sorted(r@),
            forall|x: (usize, usize)| #[trigger]
                r@.contains(x) <==> a@.take(i as int).contains(x) || b@.take(j as int).contains(x),
            forall|t: int| 0 <= t < r@.len() && i < a@.len() ==> pair_lt(#[trigger] r@[t], a@[i as int]),
            forall|t: int| 0 <= t < r@.len() && j < b@.len() ==> pair_lt(#[trigger] r@[t], b@[j as int]),
        decreases a@.len() + b@.len() - i - j,
    {
        let ghost r0 = r@;
        let take_a = j >= b.len() || (i < a.len() && !pair_less(b[j], a[i]));
        let take_b = i >= a.len() || (j < b.len() && !pair_less(a[i], b[j]));
        if take_a {
            let x = a[i];
            r.push(x);
            proof {
                lemma_push_contains_pair(r0, x);
                lemma_push_contains_pair(a@.take(i as int), x);
                assert(a@.take(i + 1) =~= a@.take(i as int).push(x));
            }
            i += 1;
            if take_b {
                proof {
                    lemma_push_contains_pair(b@.take(j as int), x);
                    assert(b@.take(j + 1) =~= b@.take(j as int).push(x));
                }
                j += 1;
            }
            assert forall|t: int| 0 <= t < r@.len() && i < a@.len() implies pair_lt(
                #[trigger] r@[t],
                a@[i as int],
            ) by {
                assert(pair_lt(a@[i - 1], a@[i as int]));
            }
            assert forall|t: int| 0 <= t < r@.len() && j < b@.len() implies pair_lt(
                #[trigger] r@[t],
                b@[j as int],
            ) by {
                if take_b {
                    assert(pair_lt(b@[j - 1], b@[j as int]));
                }
            }
        } else {
            let x = b[j];
            r.push(x);
            proof {
                lemma_push_contains_pair(r0, x);
                lemma_push_contains_pair(b@.take(j as int), x);
                assert(b@.take(j + 1) =~= b@.take(j as int).push(x));
            }
            j += 1;
            assert forall|t: int| 0 <= t < r@.len() && j < b@.len() implies pair_lt(
                #[trigger] r@[t],
                b@[j as int],
            ) by {
                assert(pair_lt(b@[j - 1], b@[j as int]));
            }
        }
    }
    assert(a@.take(i as int) =~= a@);
    assert(b@.take(j as int) =~= b@);
    r
}

/// Sorts matches by query position and then reference position, keeping one copy of each.
fn sort_pairs(v: &[(usize, usize)]) -> (r: Vec<(usize, usize)>)
    ensures
        pairs_sorted(r@),
        forall|x: (usize, usize)| #[trigger] r@.contains(x) <==> v@.contains(x),
    decreases v@.len(),
{
    if v.len() <= 1 {
        let r = vstd::slice::slice_to_vec(v);
        return r;
    }
    let mid = v.len() / 2;
    let lo = vstd::slice::slice_subrange(v, 0, mid);
    let hi = vstd::slice::slice_subrange(v, mid, v.len());
    let a = sort_pairs(lo);
    let b = sort_pairs(hi);
    let r = merge_pairs(&a, &b);
    assert forall|x: (usize, usize)| #[trigger] r@.contains(x) <==> v@.contains(x) by {
        if v@.contains(x) {
            let k = choose|k: int| 0 <= k < v@.len() && v@[k] == x;
            if k < mid {
                assert(lo@[k] == x);
            } else {
                assert(hi@[k - mid] == x);
            }
        }
        if lo@.contains(x) {
            let k = choose|k: int| 0 <= k < lo@.len() && lo@[k] == x;
            assert(v@[k] == x);
        }
        if hi@.contains(x) {
            let k = choose|k: int| 0 <= k < hi@.len() && hi@[k] == x;
            assert(v@[k + mid] == x);
        }
    }
    r
}

/// The index of the first candidate whose hash is not below `hash`, by
/// binary search.
fn lower_bound(reference: &[(u32, usize)], hash: u32) -> (r: usize)
    requires
        sorted_by_hash(reference@),
    ensures
        r <= reference@.len(),
        forall|i: int| 0 <= i < r ==> (#[trigger] reference@[i]).0 < hash,
        forall|i: int| r <= i < reference@.len() ==> hash <= (#[trigger] reference@[i]).0,
{
    let mut lo: usize = 0;
    let mut hi: usize = reference.len();
    while lo < hi
        invariant
            lo <= hi <= reference@.len(),
            sorted_by_hash(reference@),
            forall|i: int| 0 <= i < lo ==> (#[trigger] reference@[i]).0 < hash,
            forall|i: int| hi <= i < reference@.len() ==> hash <= (#[trigger] reference@[i]).0,
        decreases hi - lo,
    {
        let mid = lo + (hi - lo) / 2;
        if reference[mid].0 < hash {
            assert forall|i: int| 0 <= i < mid + 1 implies (#[trigger] reference@[i]).0 < hash by {
                assert(reference@[i].0 <= reference@[mid as int].0);
            }
            lo = mid + 1;
        } else {
            assert forall|i: int| mid <= i < reference@.len() implies hash <= (
            #[trigger] reference@[i]).0 by {
                assert(reference@[mid as int].0 <= reference@[i].0);
            }
            hi = mid;
        }
    }
    lo
}

/// Every (query position, reference position) pair of candidates that share
/// a hash, sorted by query position and then reference position, each once.
/// The reference is looked up by binary search, so it must be sorted by hash.
pub fn match_sketches(reference: &[(u32, usize)], query: &[(u32, usize)]) -> (r: Vec<(usize, usize)>)
    requires
        sorted_by_hash(reference@),
    ensures
        pairs_sorted(r@),
        forall|m: (usize, usize)| #[trigger] r@.contains(m) <==> is_match(reference@, query@, m),
{
    let mut matches: Vec<(usize, usize)> = Vec::new();
    let mut qi: usize = 0;
    while qi < query.len()
        invariant
            qi <= query@.len(),
            sorted_by_hash(reference@),
            forall|m: (usize, usize)| #[trigger]
                matches@.contains(m) <==> is_match_among(reference@, query@, qi as int, m),
        decreases query@.len() - qi,
    {
        let (hash, qpos) = query[qi];
        let first = lower_bound(reference, hash);
        let mut j: usize = first;
        while j < reference.len() && reference[j].0 == hash
            invariant
                first <= j <= reference@.len(),
                qi < query@.len(),
                query@[qi as int] == (hash, qpos),
                sorted_by_hash(reference@),
                forall|i: int| 0 <= i < first ==> (#[trigger] reference@[i]).0 < hash,
                forall|i: int| first <= i < j ==> (#[trigger] reference@[i]).0 == hash,
                forall|m: (usize, usize)| #[trigger]
                    matches@.contains(m) <==> is_match_among(reference@, query@, qi as int, m) || exists|
                        i: int,
                    |
                        first <= i < j && m == (qpos, #[trigger] reference@[i].1),
            decreases reference@.len() - j,
        {
            let rpos = reference[j].1;
            let ghost before = matches@;
            proof {
                lemma_push_contains_pair(matches@, (qpos, rpos));
            }
            matches.push((qpos, rpos));
            assert forall|m: (usize, usize)| #[trigger]
                matches@.contains(m) <==> is_match_among(reference@, query@, qi as int, m) || exists|
                    i: int,
                |
                    first <= i < j + 1 && m == (qpos, #[trigger] reference@[i].1) by {
                if m == (qpos, rpos) {
                    assert(m == (qpos, reference@[j as int].1));
                }
                if exists|i: int| first <= i < j + 1 && m == (qpos, #[trigger] reference@[i].1) {
                    let i = choose|i: int| first <= i < j + 1 && m == (qpos, #[trigger] reference@[i].1);
                    if i < j {
                        assert(before.contains(m));
                    }
                }
            }
            j += 1;
        }
        assert forall|m: (usize, usize)| #[trigger]
            matches@.contains(m) <==> is_match_among(reference@, query@, qi + 1, m) by {
            if is_match_among(reference@, query@, qi + 1, m) {
                let (i, jj) = choose|i: int, jj: int|
                    0 <= i < qi + 1 && 0 <= jj < reference@.len() && #[trigger] query@[i].0
                        == #[trigger] reference@[jj].0 && m == (query@[i].1, reference@[jj].1);
                if i == qi {
                    if jj >= j {
                        assert(reference@[j as int].0 <= reference@[jj].0);
                    }
                    assert(first <= jj < j && m == (qpos, reference@[jj].1));
                } else {
                    assert(is_match_among(reference@, query@, qi as int, m));
                }
            }
            if exists|i: int| first <= i < j && m == (qpos, #[trigger] reference@[i].1) {
                let i = choose|i: int| first <= i < j && m == (qpos, #[trigger] reference@[i].1);
                assert(query@[qi as int].0 == reference@[i].0);
            }
            if is_match_among(reference@, query@, qi as int, m) {
                let (i, jj) = choose|i: int, jj: int|
                    0 <= i < qi && 0 <= jj < reference@.len() && #[trigger] query@[i].0
                        == #[trigger] reference@[jj].0 && m == (query@[i].1, reference@[jj].1);
                assert(query@[i].0 == reference@[jj].0);
            }
        }
        qi += 1;
    }
    sort_pairs(matches.as_slice())
}

/// Matching a against b and b against a finds the same pairs of positions,
/// each turned around.
pub proof fn lemma_match_converse(
    a: Seq<(u32, usize)>,
    b: Seq<(u32, usize)>,
    ab: Seq<(usize, usize)>,
    ba: Seq<(usize, usize)>,
)
    requires
        forall|m: (usize, usize)| #[trigger] ab.contains(m) <==> is_match(a, b, m),
        forall|m: (usize, usize)| #[trigger] ba.contains(m) <==> is_match(b, a, m),
    ensures
        forall|m: (usize, usize)| #[trigger] ab.contains(m) <==> ba.contains((m.1, m.0)),
{
    assert forall|m: (usize, usize)| #[trigger] ab.contains(m) <==> ba.contains((m.1, m.0)) by {
        if is_match(a, b, m) {
            let (i, j) = choose|i: int, j: int|
                0 <= i < b.len() && 0 <= j < a.len() && #[trigger] b[i].0 == #[trigger] a[j].0 && m
                    == (b[i].1, a[j].1);
            assert(a[j].0 == b[i].0);
            assert(is_match(b, a, (m.1, m.0)));
        }
        if is_match(b, a, (m.1, m.0)) {
            let (i, j) = choose|i: int, j: int|
                0 <= i < a.len() && 0 <= j < b.len() && #[trigger] a[i].0 == #[trigger] b[j].0 && (
                m.1, m.0) == (a[i].1, b[j].1);
            assert(b[j].0 == a[i].0);
            assert(is_match(a, b, m));
        }
    }
}

} // verus!
