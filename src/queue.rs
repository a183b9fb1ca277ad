use vstd::prelude::*;

verus! {

/// The rank of a k-mer that holds a symbol outside the alphabet. It lies above
/// every 32-bit hash, so such a k-mer never wins a window that also holds a
/// k-mer made only of canonical symbols, whatever that k-mer's hash.
pub const INVALID_RANK: u64 = 0x1_0000_0000;

/// The last position in `[lo, hi)` that holds the smallest rank of that range.
pub open spec fn last_min_pos(h: Seq<u64>, lo: int, hi: int) -> int
    decreases hi - lo,
{
    if hi - lo <= 1 {
        lo
    } else {
        let p = last_min_pos(h, lo, hi - 1);
        if h[hi - 1] <= h[p] {
            hi - 1
        } else {
            p
        }
    }
}

/// The first position of the window of width `w` that ends after `n` positions.
pub open spec fn window_start(n: int, w: int) -> int {
    if n >= w {
        n - w
    } else {
        0
    }
}

/// The minimizer of the last `w` ranks of `h`, as (rank, position): the
/// smallest rank, and of equal smallest ranks the latest.
pub open spec fn window_min(h: Seq<u64>, w: int) -> (u64, int) {
    let p = last_min_pos(h, window_start(h.len() as int, w), h.len() as int);
    (h[p], p)
}

pub proof fn lemma_last_min_pos(h: Seq<u64>, lo: int, hi: int)
    requires
        0 <= lo < hi <= h.len(),
    ensures
        lo <= last_min_pos(h, lo, hi) < hi,
        forall|p: int| lo <= p < hi ==> h[last_min_pos(h, lo, hi)] <= #[trigger] h[p],
        forall|p: int| last_min_pos(h, lo, hi) < p < hi ==> h[last_min_pos(h, lo, hi)] < #[trigger] h[p],
    decreases hi - lo,
{
    if hi - lo > 1 {
        lemma_last_min_pos(h, lo, hi - 1);
    }
}

/// A position holding the smallest rank of `[lo, hi)`, with only larger
/// ranks after it, is the last minimum of that range.
proof fn lemma_is_last_min(h: Seq<u64>, lo: int, hi: int, q: int)
    requires
        0 <= lo <= q < hi <= h.len(),
        forall|p: int| lo <= p < hi ==> h[q] <= #[trigger] h[p],
        forall|p: int| q < p < hi ==> h[q] < #[trigger] h[p],
    ensures
        last_min_pos(h, lo, hi) == q,
{
    lemma_last_min_pos(h, lo, hi);
    let r = last_min_pos(h, lo, hi);
    if r < q {
        assert(h[r] < h[q]);
        assert(h[q] <= h[r]);
    } else if r > q {
        assert(h[q] < h[r]);
        assert(h[r] <= h[q]);
    }
}

/// An invalid k-mer never wins a window that holds a valid one: when some rank
/// of the window is below `INVALID_RANK`, so is the minimizer's rank.
pub proof fn lemma_invalid_never_min(h: Seq<u64>, w: int, p: int)
    requires
        w >= 1,
        window_start(h.len() as int, w) <= p < h.len(),
        h[p] < INVALID_RANK,
    ensures
        window_min(h, w).0 < INVALID_RANK,
{
    lemma_last_min_pos(h, window_start(h.len() as int, w), h.len() as int);
}

/// The monotonic queue `q` over the ranks `h` inserted so far, for windows
/// of width `w`: each entry is a rank of the current window at its position,
/// ranks and positions rise strictly along the queue, the last rank inserted
/// is the last entry, no later rank is as small as an entry, and each window
/// rank after the previous entry is at least the entry's rank.
#[verifier::opaque]
spec fn queue_inv(h: Seq<u64>, w: int, q: Seq<(u64, usize)>) -> bool {
    let n = h.len() as int;
    let lo = window_start(n, w);
    &&& forall|j: int|
        0 <= j < q.len() ==> lo <= (#[trigger] q[j]).1 < n && q[j].0 == h[q[j].1 as int] && q[j].1
            + q.len() - j <= n
    &&& forall|i: int, j: int|
        0 <= i < j < q.len() ==> (#[trigger] q[i]).0 < (#[trigger] q[j]).0 && q[i].1 < q[j].1
    &&& n > 0 ==> q.len() > 0 && q[q.len() - 1].1 == n - 1
    &&& forall|j: int, p: int|
        0 <= j < q.len() && q[j].1 < p < n ==> (#[trigger] q[j]).0 < #[trigger] h[p]
    &&& forall|j: int, p: int|
        0 <= j < q.len() && lo <= p < n && (j == 0 || q[j - 1].1 < p) ==> (#[trigger] q[j]).0
            <= #[trigger] h[p]
}

/// The front of a queue that meets the invariant is the window's minimizer.
proof fn lemma_front_is_min(h: Seq<u64>, w: int, q: Seq<(u64, usize)>)
    requires
        w >= 1,
        queue_inv(h, w, q),
    ensures
        h.len() > 0 <==> q.len() > 0,
        q.len() > 0 ==> q[0].1 < h.len() && window_min(h, w) == (q[0].0, q[0].1 as int),
        q.len() > 1 ==> q[0].1 < q[1].1,
{
    reveal(queue_inv);
    if q.len() > 0 {
        assert(q[0].1 < h.len());
    }
    if h.len() == 0 {
        return;
    }
    let n = h.len() as int;
    let lo = window_start(n, w);
    let f = q[0];
    assert forall|p: int| lo <= p < n implies f.0 <= #[trigger] h[p] by {
        assert(f.0 <= h[p]);
    }
    assert forall|p: int| f.1 < p < n implies f.0 < #[trigger] h[p] by {
        assert(q[0].0 < h[p]);
    }
    lemma_is_last_min(h, lo, n, f.1 as int);
}

/// What holds of the queue `q1` between the eviction and the write of an
/// insertion, for the ranks `h` before the new one.
#[verifier::opaque]
spec fn evicted_inv(h: Seq<u64>, w: int, q1: Seq<(u64, usize)>) -> bool {
    let n = h.len() as int;
    let lo2 = window_start(n + 1, w);
    &&& q1.len() < w
    &&& forall|i: int|
        0 <= i < q1.len() ==> lo2 <= (#[trigger] q1[i]).1 < n && q1[i].0 == h[q1[i].1 as int]
            && q1[i].1 + q1.len() - i <= n
    &&& forall|a: int, b: int|
        0 <= a < b < q1.len() ==> (#[trigger] q1[a]).0 < (#[trigger] q1[b]).0 && q1[a].1 < q1[b].1
    &&& q1.len() > 0 ==> q1[q1.len() - 1].1 == n - 1
    &&& q1.len() == 0 ==> lo2 == n
    &&& forall|i: int, p: int|
        0 <= i < q1.len() && q1[i].1 < p < n ==> (#[trigger] q1[i]).0 < #[trigger] h[p]
    &&& forall|i: int, p: int|
        0 <= i < q1.len() && lo2 <= p < n && (i == 0 || q1[i - 1].1 < p) ==> (#[trigger] q1[i]).0
            <= #[trigger] h[p]
}

/// The eviction half of an insertion: the front entry leaves once it falls
/// out of the next window.
proof fn lemma_evict_step(h: Seq<u64>, w: int, q: Seq<(u64, usize)>, q1: Seq<(u64, usize)>)
    requires
        w >= 1,
        queue_inv(h, w, q),
        (q.len() > 0 && q[0].1 + w <= h.len() && q1 == q.drop_first()) || ((q.len() == 0 || q[0].1
            + w > h.len()) && q1 == q),
    ensures
        evicted_inv(h, w, q1),
        q1.len() < w,
{
    reveal(queue_inv);
    reveal(evicted_inv);
    let n = h.len() as int;
    let lo2 = window_start(n + 1, w);
    let evicted = q.len() > 0 && q[0].1 + w <= n;
    if q.len() > 0 {
        assert(q[0].1 + q.len() <= n);
    }
    if evicted {
        assert forall|i: int| 0 <= i < q1.len() implies lo2 <= (#[trigger] q1[i]).1 < n && q1[i].0
            == h[q1[i].1 as int] && q1[i].1 + q1.len() - i <= n by {
            assert(q1[i] == q[i + 1]);
            assert(q[0].1 < q[i + 1].1);
        }
        assert forall|i: int, p: int|
            0 <= i < q1.len() && lo2 <= p < n && (i == 0 || q1[i - 1].1 < p) implies (
            #[trigger] q1[i]).0 <= #[trigger] h[p] by {
            assert(q1[i] == q[i + 1]);
            if i > 0 {
                assert(q1[i - 1] == q[i]);
            }
            assert(q[i + 1].0 <= h[p]);
        }
        assert forall|i: int, p: int| 0 <= i < q1.len() && q1[i].1 < p < n implies (
        #[trigger] q1[i]).0 < #[trigger] h[p] by {
            assert(q1[i] == q[i + 1]);
            assert(q[i + 1].0 < h[p]);
        }
        assert forall|a: int, b: int| 0 <= a < b < q1.len() implies (#[trigger] q1[a]).0 < (
        #[trigger] q1[b]).0 && q1[a].1 < q1[b].1 by {
            assert(q1[a] == q[a + 1] && q1[b] == q[b + 1]);
        }
        if q1.len() > 0 {
            assert(q1[q1.len() - 1] == q[q.len() - 1]);
        } else {
            assert(w == 1);
        }
    } else {
        assert forall|i: int| 0 <= i < q1.len() implies lo2 <= (#[trigger] q1[i]).1 by {
            if i > 0 {
                assert(q[0].1 < q[i].1);
            }
        }
    }
}

/// The write half of an insertion: the new rank replaces the entry at `j`,
/// the first whose rank is not below it, and every entry after `j` is
/// dropped; with no such entry it is appended.
proof fn lemma_write_step(h: Seq<u64>, w: int, q1: Seq<(u64, usize)>, rank: u64, j: int)
    requires
        w >= 1,
        evicted_inv(h, w, q1),
        h.len() <= usize::MAX,
        0 <= j <= q1.len(),
        forall|i: int| 0 <= i < j ==> (#[trigger] q1[i]).0 < rank,
        j < q1.len() ==> rank <= q1[j].0,
    ensures
        queue_inv(h.push(rank), w, q1.take(j).push((rank, h.len() as usize))),
{
    reveal(queue_inv);
    reveal(evicted_inv);
    let n = h.len() as int;
    let lo2 = window_start(n + 1, w);
    let h2 = h.push(rank);
    let q2 = q1.take(j).push((rank, h.len() as usize));
    assert forall|i: int| 0 <= i < q2.len() implies lo2 <= (#[trigger] q2[i]).1 < n + 1 && q2[
        i].0 == h2[q2[i].1 as int] && q2[i].1 + q2.len() - i <= n + 1 by {
        if i < j {
            assert(q2[i] == q1[i]);
        }
    }
    assert forall|a: int, b: int| 0 <= a < b < q2.len() implies (#[trigger] q2[a]).0 < (
    #[trigger] q2[b]).0 && q2[a].1 < q2[b].1 by {
        assert(q2[a] == q1[a]);
        if b < j {
            assert(q2[b] == q1[b]);
        }
    }
    assert forall|i: int, p: int| 0 <= i < q2.len() && q2[i].1 < p < n + 1 implies (#[trigger] q2[
        i]).0 < #[trigger] h2[p] by {
        if i < j {
            assert(q2[i] == q1[i]);
            if p < n {
                assert(q1[i].0 < h[p]);
            }
        }
    }
    assert forall|i: int, p: int|
        0 <= i < q2.len() && lo2 <= p < n + 1 && (i == 0 || q2[i - 1].1 < p) implies (#[trigger] q2[
        i]).0 <= #[trigger] h2[p] by {
        if i < j {
            assert(q2[i] == q1[i]);
            if i > 0 {
                assert(q2[i - 1] == q1[i - 1]);
            }
            if p < n {
                assert(q1[i].0 <= h[p]);
            }
        } else if p < n {
            if i > 0 {
                assert(q2[i - 1] == q1[i - 1]);
            }
            if j < q1.len() {
                assert(q1[j].0 <= h[p]);
            }
        }
    }
}

/// A fixed-capacity circular monotonic queue of (rank, position) candidates
/// that tracks the minimizer of the last `w` ranks inserted.
pub struct MinimizerQueue {
    queue: Vec<(u64, usize)>,
    w: usize,
    start: usize,
    end: usize,
    wrap: bool,
    history: Ghost<Seq<u64>>,
}

impl MinimizerQueue {
    /// The window width.
    pub closed spec fn width(&self) -> int {
        self.w as int
    }

    /// The ranks inserted so far; the one inserted `i`-th sits at position `i`.
    pub closed spec fn history(&self) -> Seq<u64> {
        self.history@
    }

    spec fn span(&self) -> int {
        if self.wrap {
            self.w - self.start + self.end
        } else {
            self.end - self.start
        }
    }

    spec fn slot(&self, j: int) -> int {
        if self.start + j < self.w {
            self.start + j
        } else {
            self.start + j - self.w
        }
    }

    /// The candidates from the logical start to the logical end.
    spec fn entries(&self) -> Seq<(u64, usize)> {
        Seq::new(self.span() as nat, |j: int| self.queue@[self.slot(j)])
    }

    spec fn layout_ok(&self) -> bool {
        &&& self.w >= 1
        &&& self.queue@.len() == self.w
        &&& self.start < self.w
        &&& self.end < self.w
        &&& self.wrap ==> self.end <= self.start
        &&& !self.wrap ==> self.start <= self.end
    }

    /// The queue is well formed.
    pub closed spec fn wf(&self) -> bool {
        &&& self.layout_ok()
        &&& self.history@.len() <= usize::MAX
        &&& queue_inv(self.history@, self.w as int, self.entries())
    }

    /// An empty queue for windows of `w` positions; every slot holds the invalid rank.
    pub fn new(w: usize) -> (r: Self)
        requires
            w >= 1,
        ensures
            r.wf(),
            r.width() == w,
            r.history() == Seq::<u64>::empty(),
    {
        let queue = vec![(INVALID_RANK, 0usize); w];
        let r = Self { queue, w, start: 0, end: 0, wrap: false, history: Ghost(Seq::empty()) };
        assert(r.entries() =~= Seq::empty());
        proof {
            reveal(queue_inv);
        }
        r
    }

    fn span_len(&self) -> (r: usize)
        requires
            self.layout_ok(),
        ensures
            r == self.span(),
            r <= self.w,
    {
        if self.wrap {
            self.w - self.start + self.end
        } else {
            self.end - self.start
        }
    }

    fn slot_of(&self, j: usize) -> (r: usize)
        requires
            self.layout_ok(),
            j < self.w,
        ensures
            r == self.slot(j as int),
            r < self.w,
    {
        if j < self.w - self.start {
            self.start + j
        } else {
            j - (self.w - self.start)
        }
    }

    /// Sets the logical end `len` slots after the logical start.
    fn set_span(&mut self, len: usize)
        requires
            old(self).layout_ok(),
            len <= old(self).w,
        ensures
            final(self).layout_ok(),
            final(self).span() == len,
            final(self).queue == old(self).queue,
            final(self).w == old(self).w,
            final(self).start == old(self).start,
            final(self).history == old(self).history,
    {
        if len < self.w - self.start {
            self.end = self.start + len;
            self.wrap = false;
        } else {
            self.end = len - (self.w - self.start);
            self.wrap = true;
        }
    }

    fn front(&self) -> (r: (u64, usize))
        requires
            self.layout_ok(),
            self.span() > 0,
        ensures
            r == self.entries()[0],
    {
        self.queue[self.start]
    }

    /// Drops the front candidate.
    fn pop_front(&mut self)
        requires
            old(self).layout_ok(),
            old(self).span() > 0,
        ensures
            final(self).layout_ok(),
            final(self).entries() == old(self).entries().drop_first(),
            final(self).w == old(self).w,
            final(self).history == old(self).history,
    {
        self.start = self.start + 1;
        if self.start == self.w {
            self.start = 0;
            self.wrap = false;
        }
        assert(self.entries() =~= old(self).entries().drop_first());
    }

    /// The index along the queue of the first candidate whose rank is not
    /// below `rank`, or the length of the queue if there is none.
    fn find_slot(&self, rank: u64) -> (j: usize)
        requires
            self.layout_ok(),
        ensures
            j <= self.span(),
            forall|i: int| 0 <= i < j ==> (#[trigger] self.entries()[i]).0 < rank,
            j < self.span() ==> rank <= self.entries()[j as int].0,
    {
        let len = self.span_len();
        let mut j: usize = 0;
        while j < len
            invariant
                self.layout_ok(),
                len == self.span(),
                j <= len,
                forall|i: int| 0 <= i < j ==> (#[trigger] self.entries()[i]).0 < rank,
            decreases len - j,
        {
            let idx = self.slot_of(j);
            if rank <= self.queue[idx].0 {
                return j;
            }
            j += 1;
        }
        j
    }

    /// Writes `c` at index `j` along the queue and drops every candidate after it.
    fn write_and_truncate(&mut self, j: usize, c: (u64, usize))
        requires
            old(self).layout_ok(),
            j < old(self).w,
            j <= old(self).span(),
        ensures
            final(self).layout_ok(),
            final(self).entries() == old(self).entries().take(j as int).push(c),
            final(self).w == old(self).w,
            final(self).start == old(self).start,
            final(self).history == old(self).history,
    {
        let ghost e = self.entries();
        let idx = self.slot_of(j);
        self.queue.set(idx, c);
        self.set_span(j + 1);
        assert forall|i: int| 0 <= i < j implies self.slot(i) != self.slot(j as int) by {}
        assert(self.entries() =~= e.take(j as int).push(c));
    }

    /// Folds in the rank of the k-mer at `pos`, the next position: its hash, or
    /// `INVALID_RANK` when it holds a symbol outside the alphabet. Returns the
    /// new window minimizer when it differs from the previous one, and `None`
    /// when the minimizer is unchanged.
    pub fn insert(&mut self, rank: u64, pos: usize) -> (r: Option<(u64, usize)>)
        requires
            old(self).wf(),
            pos == old(self).history().len(),
            pos < usize::MAX,
        ensures
            final(self).wf(),
            final(self).width() == old(self).width(),
            final(self).history() == old(self).history().push(rank),
            r == (if old(self).history().len() == 0 || window_min(
                final(self).history(),
                final(self).width(),
            ) != window_min(old(self).history(), old(self).width()) {
                Some(
                    (
                        window_min(final(self).history(), final(self).width()).0,
                        window_min(final(self).history(), final(self).width()).1 as usize,
                    ),
                )
            } else {
                None
            }),
    {
        let ghost h = self.history@;
        let ghost q = self.entries();
        let ghost w = self.w as int;
        let mut new_min = false;
        proof {
            lemma_front_is_min(h, w, q);
        }
        // Evict the front once it is `w` positions behind.
        if self.span_len() > 0 {
            let f = self.front();
            assert(f.1 < pos);
            if pos - f.1 >= self.w {
                self.pop_front();
                new_min = true;
            }
        }
        let ghost q1 = self.entries();
        proof {
            lemma_evict_step(h, w, q, q1);
        }
        // Write the new candidate over the first one whose rank is not below
        // it, dropping everything after.
        let j = self.find_slot(rank);
        self.write_and_truncate(j, (rank, pos));
        if j == 0 {
            new_min = true;
        }
        let ghost q2 = self.entries();
        assert(q2 == q1.take(j as int).push((rank, h.len() as usize)));
        self.history = Ghost(h.push(rank));
        assert(self.entries() == q2);
        proof {
            lemma_write_step(h, w, q1, rank, j as int);
            lemma_front_is_min(self.history@, w, self.entries());
            let q2 = self.entries();
            if j > 0 {
                assert(q2[0] == q1[0]);
            }
        }
        if new_min {
            Some(self.front())
        } else {
            None
        }
    }
}

} // verus!
