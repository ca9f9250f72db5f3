use vstd::prelude::*;
use crate::page_replacement::{PageReplacement, LruReplacement, LruState, run_accesses};
use crate::util::{without, lemma_without_contains, first_index, lemma_first_index};

verus! {

/// The pages referenced so far, each once, ordered by their last reference (most recent last).
pub open spec fn recency(refs: Seq<usize>) -> Seq<usize>
    decreases refs.len(),
{
    if refs.len() == 0 {
        Seq::empty()
    } else {
        without(recency(refs.drop_last()), refs.last()).push(refs.last())
    }
}

/// The last `c` entries of `r` (all of them when there are fewer).
pub open spec fn most_recent(r: Seq<usize>, c: int) -> Seq<usize> {
    if r.len() <= c {
        r
    } else {
        r.subrange(r.len() - c, r.len() as int)
    }
}

/// A fresh LRU state with `c` frames.
pub open spec fn lru_fresh(c: int) -> LruState {
    LruState { capacity: c, frames: Seq::empty(), faults: 0, use_order: Seq::empty() }
}

/// The LRU state after `refs` from a fresh state.
pub open spec fn lru_after(c: int, refs: Seq<usize>) -> LruState {
    run_accesses::<LruReplacement>(lru_fresh(c), refs)
}

proof fn lemma_without_remove(s: Seq<usize>, i: int)
    requires
        s.no_duplicates(),
        0 <= i < s.len(),
    ensures
        without(s, s[i]) =~= s.remove(i),
    decreases s.len(),
{
    let x = s[i];
    let d = s.drop_last();
    if i == s.len() - 1 {
        assert(!d.contains(x)) by {
            if d.contains(x) {
                let k = choose|k: int| 0 <= k < d.len() && d[k] == x;
                assert(s[k] == s[i]);
            }
        }
        lemma_without_contains(d, x);
    } else {
        assert(d.no_duplicates());
        assert(d[i] == x);
        lemma_without_remove(d, i);
        assert(s.last() != x);
    }
}

pub(crate) proof fn lemma_recency_no_dup(refs: Seq<usize>)
    ensures
        recency(refs).no_duplicates(),
        forall|y: usize| #[trigger] recency(refs).contains(y) <==> refs.contains(y),
    decreases refs.len(),
{
    if refs.len() > 0 {
        let d = refs.drop_last();
        let p = refs.last();
        lemma_recency_no_dup(d);
        lemma_without_contains(recency(d), p);
        let w = without(recency(d), p);
        let r = recency(refs);
        assert(r == w.push(p));
        assert forall|a: int, b: int| 0 <= a < b < r.len() implies r[a] != r[b] by {
            if b == w.len() {
                assert(w.contains(w[a]));
            }
        }
        assert forall|y: usize| #[trigger] r.contains(y) <==> refs.contains(y) by {
            if r.contains(y) {
                let k = choose|k: int| 0 <= k < r.len() && r[k] == y;
                if k < w.len() {
                    assert(w.contains(y));
                    assert(d.contains(y));
                    let m = choose|m: int| 0 <= m < d.len() && d[m] == y;
                    assert(refs[m] == y);
                } else {
                    assert(refs[refs.len() - 1] == y);
                }
            }
            if refs.contains(y) {
                let m = choose|m: int| 0 <= m < refs.len() && refs[m] == y;
                if y == p {
                    assert(r[w.len() as int] == y);
                } else {
                    assert(d[m] == y);
                    assert(w.contains(y));
                    let k = choose|k: int| 0 <= k < w.len() && w[k] == y;
                    assert(r[k] == y);
                }
            }
        }
    }
}

/// From a fresh state with at least one frame, LRU keeps exactly the most recently
/// referenced pages, as many as fit, ordered by recency.
pub open spec fn lru_shape(c: int, refs: Seq<usize>, s: LruState) -> bool {
    &&& s.capacity == c
    &&& s.use_order == most_recent(recency(refs), c)
    &&& s.frames.len() == s.use_order.len()
    &&& s.frames.no_duplicates()
    &&& forall|y: usize| #[trigger] s.frames.contains(y) <==> s.use_order.contains(y)
}

pub(crate) proof fn lemma_most_recent_facts(r: Seq<usize>, c: int)
    requires
        r.no_duplicates(),
        c >= 1,
    ensures
        most_recent(r, c).no_duplicates(),
        most_recent(r, c).len() == if r.len() <= c { r.len() as int } else { c },
        forall|t: int| 0 <= t < most_recent(r, c).len() ==> #[trigger] most_recent(r, c)[t] == r[r.len() - most_recent(r, c).len() + t],
        forall|y: usize| #[trigger] most_recent(r, c).contains(y) ==> r.contains(y),
{
    let u = most_recent(r, c);
    let off = r.len() - u.len();
    assert forall|t: int| 0 <= t < u.len() implies #[trigger] u[t] == r[off + t] by {}
    assert forall|a: int, b: int| 0 <= a < b < u.len() implies u[a] != u[b] by {
        assert(u[a] == r[off + a] && u[b] == r[off + b]);
    }
    assert forall|y: usize| #[trigger] u.contains(y) implies r.contains(y) by {
        let k = choose|k: int| 0 <= k < u.len() && u[k] == y;
        assert(r[off + k] == y);
    }
}

pub(crate) proof fn lemma_lru_step(c: int, refs: Seq<usize>, s: LruState, p: usize)
    requires
        c >= 1,
        lru_shape(c, refs, s),
    ensures
        lru_shape(c, refs.push(p), LruReplacement::step(s, p).0),
        LruReplacement::step(s, p).0.faults == s.faults + if most_recent(recency(refs), c).contains(p) { 0int } else { 1int },
        LruReplacement::step(s, p).1 == !most_recent(recency(refs), c).contains(p),
{
    let r = recency(refs);
    let u = most_recent(r, c);
    let len = r.len() as int;
    let refs2 = refs.push(p);
    assert(refs2.drop_last() =~= refs);
    let r2 = recency(refs2);
    assert(r2 == without(r, p).push(p));
    lemma_recency_no_dup(refs);
    lemma_most_recent_facts(r, c);
    lemma_without_contains(r, p);
    lemma_without_contains(u, p);
    let off = len - u.len();
    let t = LruReplacement::step(s, p).0;
    if s.frames.contains(p) {
        assert(u.contains(p));
        let j = choose|j: int| 0 <= j < u.len() && u[j] == p;
        lemma_without_remove(u, j);
        assert(r[off + j] == p);
        lemma_without_remove(r, off + j);
        let mr = most_recent(r2, c);
        let want = u.remove(j).push(p);
        assert(r2.len() == len);
        assert(mr.len() == want.len());
        assert forall|i: int| 0 <= i < want.len() implies #[trigger] mr[i] == want[i] by {
            if i < want.len() - 1 {
                if i < j {
                    assert(want[i] == u[i]);
                    assert(mr[i] == r2[len - mr.len() + i]);
                    assert(r2[len - mr.len() + i] == r.remove(off + j)[off + i]);
                } else {
                    assert(want[i] == u[i + 1]);
                    assert(mr[i] == r2[len - mr.len() + i]);
                    assert(r2[len - mr.len() + i] == r.remove(off + j)[off + i]);
                }
            }
        }
        assert(mr =~= want);
        assert(t.use_order == without(u, p).push(p));
        assert forall|y: usize| #[trigger] t.frames.contains(y) <==> t.use_order.contains(y) by {
            assert(t.use_order.contains(y) <==> (without(u, p).contains(y) || y == p)) by {
                let w = without(u, p);
                if w.push(p).contains(y) {
                    let k = choose|k: int| 0 <= k < w.push(p).len() && w.push(p)[k] == y;
                    if k < w.len() {
                        assert(w[k] == y);
                    }
                }
                if w.contains(y) {
                    let k = choose|k: int| 0 <= k < w.len() && w[k] == y;
                    assert(w.push(p)[k] == y);
                }
                assert(w.push(p)[w.len() as int] == p);
            }
        }
    } else if s.frames.len() < c {
        assert(!u.contains(p));
        assert(len < c);
        assert(u == r);
        assert(without(r, p) == r);
        assert(most_recent(r2, c) == r.push(p));
        assert(t.frames == s.frames.push(p));
        assert forall|a: int, b: int| 0 <= a < b < t.frames.len() implies t.frames[a] != t.frames[b] by {
            if b == s.frames.len() {
                assert(s.frames.contains(s.frames[a]));
            }
        }
        assert forall|y: usize| #[trigger] t.frames.contains(y) <==> t.use_order.contains(y) by {
            if t.frames.contains(y) {
                let k = choose|k: int| 0 <= k < t.frames.len() && t.frames[k] == y;
                if k < s.frames.len() {
                    assert(s.frames.contains(y));
                    assert(u.contains(y));
                    let m = choose|m: int| 0 <= m < u.len() && u[m] == y;
                    assert(t.use_order[m] == y);
                } else {
                    assert(t.use_order[u.len() as int] == y);
                }
            }
            if t.use_order.contains(y) {
                let k = choose|k: int| 0 <= k < t.use_order.len() && t.use_order[k] == y;
                if k < u.len() {
                    assert(u.contains(y));
                    assert(s.frames.contains(y));
                    let m = choose|m: int| 0 <= m < s.frames.len() && s.frames[m] == y;
                    assert(t.frames[m] == y);
                } else {
                    assert(t.frames[s.frames.len() as int] == y);
                }
            }
        }
    } else {
        assert(!u.contains(p));
        assert(u.len() == c);
        let lru = u[0];
        assert(u.contains(lru));
        assert(s.frames.contains(lru));
        lemma_first_index(s.frames, lru, 0);
        crate::util::lemma_first_index_contains(s.frames, lru);
        let pos = first_index(s.frames, lru, 0);
        assert(t.frames == s.frames.update(pos, p));
        assert(t.use_order == u.drop_first().push(p));
        let mr = most_recent(r2, c);
        let want = u.drop_first().push(p);
        if r.contains(p) {
            let k = choose|k: int| 0 <= k < len && r[k] == p;
            assert(k < off) by {
                if k >= off {
                    assert(u[k - off] == p);
                }
            }
            lemma_without_remove(r, k);
            assert(r2.len() == len);
            assert forall|i: int| 0 <= i < want.len() implies #[trigger] mr[i] == want[i] by {
                if i < want.len() - 1 {
                    assert(want[i] == u[i + 1]);
                    assert(mr[i] == r2[len - c + i]);
                    assert(r2[len - c + i] == r.remove(k)[len - c + i]);
                }
            }
        } else {
            assert(without(r, p) == r);
            assert(r2 == r.push(p));
            assert forall|i: int| 0 <= i < want.len() implies #[trigger] mr[i] == want[i] by {
                if i < want.len() - 1 {
                    assert(want[i] == u[i + 1]);
                    assert(mr[i] == r2[len + 1 - c + i]);
                }
            }
        }
        assert(mr =~= want);
        assert(!s.frames.contains(p));
        assert forall|a: int, b: int| 0 <= a < b < t.frames.len() implies t.frames[a] != t.frames[b] by {
            if a == pos {
                assert(s.frames.contains(s.frames[b]));
            } else if b == pos {
                assert(s.frames.contains(s.frames[a]));
            }
        }
        assert forall|y: usize| #[trigger] t.frames.contains(y) <==> t.use_order.contains(y) by {
            if t.frames.contains(y) {
                let k = choose|k: int| 0 <= k < t.frames.len() && t.frames[k] == y;
                if k == pos {
                    assert(want[want.len() - 1] == y);
                } else {
                    assert(s.frames.contains(y));
                    assert(y != lru);
                    assert(u.contains(y));
                    let m = choose|m: int| 0 <= m < u.len() && u[m] == y;
                    assert(m != 0);
                    assert(want[m - 1] == y);
                }
            }
            if t.use_order.contains(y) {
                let k = choose|k: int| 0 <= k < want.len() && want[k] == y;
                if k == want.len() - 1 {
                    assert(t.frames[pos] == y);
                } else {
                    assert(u[k + 1] == y);
                    assert(u.contains(y));
                    assert(y != lru);
                    assert(s.frames.contains(y));
                    let m = choose|m: int| 0 <= m < s.frames.len() && s.frames[m] == y;
                    assert(m != pos);
                    assert(t.frames[m] == y);
                }
            }
        }
    }
}

pub(crate) proof fn lemma_lru_run(c: int, refs: Seq<usize>)
    requires
        c >= 1,
    ensures
        lru_shape(c, refs, lru_after(c, refs)),
    decreases refs.len(),
{
    if refs.len() == 0 {
        assert(most_recent(recency(refs), c) =~= Seq::<usize>::empty());
    } else {
        let d = refs.drop_last();
        lemma_lru_run(c, d);
        lemma_lru_step(c, d, lru_after(c, d), refs.last());
        assert(d.push(refs.last()) =~= refs);
    }
}

/// What one more reference costs with `c` frames: a fault exactly when the page is not
/// among the `c` most recently referenced pages.
proof fn lemma_lru_fault(c: int, refs: Seq<usize>, p: usize)
    requires
        c >= 1,
    ensures
        lru_after(c, refs.push(p)).faults == lru_after(c, refs).faults + if most_recent(recency(refs), c).contains(p) { 0int } else { 1int },
{
    lemma_lru_run(c, refs);
    lemma_lru_step(c, refs, lru_after(c, refs), p);
    assert(refs.push(p).drop_last() =~= refs);
}

proof fn lemma_most_recent_grows(r: Seq<usize>, c: int, y: usize)
    requires
        r.no_duplicates(),
        c >= 1,
        most_recent(r, c).contains(y),
    ensures
        most_recent(r, c + 1).contains(y),
{
    lemma_most_recent_facts(r, c);
    lemma_most_recent_facts(r, c + 1);
    let u = most_recent(r, c);
    let v = most_recent(r, c + 1);
    let k = choose|k: int| 0 <= k < u.len() && u[k] == y;
    let i = r.len() - u.len() + k;
    assert(v[i - (r.len() - v.len())] == y);
}

/// With every frame count, a fresh LRU faults at most as often as with one fewer frame:
/// no Belady anomaly. (With no frames at all every reference faults.)
pub proof fn lemma_lru_no_belady(c: int, refs: Seq<usize>)
    requires
        c >= 0,
    ensures
        lru_after(c + 1, refs).faults <= lru_after(c, refs).faults,
    decreases refs.len(),
{
    if refs.len() > 0 {
        let d = refs.drop_last();
        let p = refs.last();
        assert(d.push(p) =~= refs);
        lemma_lru_no_belady(c, d);
        lemma_lru_fault(c + 1, d, p);
        if c == 0 {
            lemma_lru_empty_faults(d.push(p));
            lemma_lru_faults_bounded(c + 1, d.push(p));
        } else {
            lemma_lru_fault(c, d, p);
            lemma_recency_no_dup(d);
            if most_recent(recency(d), c).contains(p) {
                lemma_most_recent_grows(recency(d), c, p);
            }
        }
    }
}

/// The inclusion property of LRU: every page held with `c` frames is also held with `c + 1`.
pub proof fn lemma_lru_inclusion(c: int, refs: Seq<usize>, page: usize)
    requires
        c >= 1,
        lru_after(c, refs).frames.contains(page),
    ensures
        lru_after(c + 1, refs).frames.contains(page),
{
    lemma_lru_run(c, refs);
    lemma_lru_run(c + 1, refs);
    lemma_recency_no_dup(refs);
    lemma_most_recent_grows(recency(refs), c, page);
}

proof fn lemma_lru_empty_faults(refs: Seq<usize>)
    ensures
        lru_after(0, refs).faults == refs.len(),
        lru_after(0, refs).frames.len() == 0,
        lru_after(0, refs).capacity == 0,
    decreases refs.len(),
{
    if refs.len() > 0 {
        lemma_lru_empty_faults(refs.drop_last());
        let s0 = lru_after(0, refs.drop_last());
        assert(s0.frames =~= Seq::<usize>::empty());
        assert(!s0.frames.contains(refs.last()));
        assert(first_index(s0.frames, refs.last(), 0) == -1);
        assert(lru_after(0, refs) == LruReplacement::step(s0, refs.last()).0);
        if s0.use_order.len() > 0 {
            assert(first_index(s0.frames, s0.use_order[0], 0) == -1);
        }
        assert(LruReplacement::step(s0, refs.last()).0.frames == s0.frames);
    } else {
        assert(lru_after(0, refs) == lru_fresh(0));
    }
}

proof fn lemma_lru_faults_bounded(c: int, refs: Seq<usize>)
    ensures
        lru_after(c, refs).faults <= refs.len(),
    decreases refs.len(),
{
    if refs.len() > 0 {
        lemma_lru_faults_bounded(c, refs.drop_last());
    }
}

} // verus!
