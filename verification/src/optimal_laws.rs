use vstd::prelude::*;
use vstd::set_lib::lemma_len_subset;
use crate::util::{first_index, lemma_first_index};
use crate::page_replacement::{
    PageReplacement, run_accesses, OptimalReplacement, OptimalState, next_use, is_opt_victim, opt_victim,
    FifoReplacement, FifoState, LruReplacement, LruState, ClockReplacement, ClockState, present, find_slot,
    lemma_find_slot, clock_sweep, sweep_fuel, lemma_sweep_stable, lemma_count_set_le,
};
use crate::pager_laws::{mirrors_fifo, lemma_mirror_step, fifo_fresh, fresh_frames};
use crate::lru_laws::{lru_shape, lemma_lru_step, lemma_most_recent_facts, recency, lemma_recency_no_dup, lru_fresh, lemma_lru_run};

verus! {

/// How many references of `refs` come before the next reference to `x` (all of them when
/// `x` is never referenced).
pub open spec fn next_ref(refs: Seq<usize>, x: usize) -> int {
    let i = first_index(refs, x, 0);
    if i < 0 {
        refs.len() as int
    } else {
        i
    }
}

/// One reference `p` served by a demand-paging policy with `k` frames: the pages held
/// afterwards are at most `k` of those held before and `p`, and they include `p` when `p`
/// was not held (a fault).
pub open spec fn paging_step(k: int, a: Set<usize>, p: usize, b: Set<usize>) -> bool {
    &&& b.finite()
    &&& b.len() <= k
    &&& b.subset_of(a.insert(p))
    &&& a.contains(p) || b.contains(p)
}

/// `rs` lists the pages held after each reference of `refs`, starting from `c`, under
/// some demand-paging policy with `k` frames.
pub open spec fn paging_run(k: int, c: Set<usize>, refs: Seq<usize>, rs: Seq<Set<usize>>) -> bool
    decreases refs.len(),
{
    &&& rs.len() == refs.len()
    &&& refs.len() > 0 ==> paging_step(k, c, refs[0], rs[0]) && paging_run(k, rs[0], refs.drop_first(), rs.drop_first())
}

/// The faults of the run `rs` from `c`: references to pages not held.
pub open spec fn run_faults(c: Set<usize>, refs: Seq<usize>, rs: Seq<Set<usize>>) -> int
    decreases refs.len(),
{
    if refs.len() == 0 || rs.len() == 0 {
        0
    } else {
        (if c.contains(refs[0]) { 0int } else { 1int }) + run_faults(rs[0], refs.drop_first(), rs.drop_first())
    }
}

/// `x` is a held page whose next reference in `rest` comes last.
pub open spec fn farthest(a: Set<usize>, rest: Seq<usize>, x: usize) -> bool {
    &&& a.contains(x)
    &&& forall|y: usize| #[trigger] a.contains(y) ==> next_ref(rest, y) <= next_ref(rest, x)
}

/// One reference under Belady's rule: on a fault with every frame in use, evict a page
/// whose next reference (in `rest`, the references after `p`) comes last.
pub open spec fn min_step(k: int, a: Set<usize>, p: usize, rest: Seq<usize>, b: Set<usize>) -> bool {
    if a.contains(p) {
        b == a
    } else if a.len() < k {
        b == a.insert(p)
    } else {
        exists|x: usize| #[trigger] farthest(a, rest, x) && b == a.remove(x).insert(p)
    }
}

/// `rs` is a run of Belady's rule from `c`.
pub open spec fn min_run(k: int, c: Set<usize>, refs: Seq<usize>, rs: Seq<Set<usize>>) -> bool
    decreases refs.len(),
{
    &&& rs.len() == refs.len()
    &&& refs.len() > 0 ==> min_step(k, c, refs[0], refs.drop_first(), rs[0]) && min_run(k, rs[0], refs.drop_first(), rs.drop_first())
}

/// A run that is valid from `e` is valid from any `d` holding at least the pages of `e`,
/// and faults no more from there.
proof fn lemma_run_from_more(k: int, d: Set<usize>, e: Set<usize>, refs: Seq<usize>, rs: Seq<Set<usize>>)
    requires
        paging_run(k, e, refs, rs),
        e.subset_of(d),
    ensures
        paging_run(k, d, refs, rs),
        run_faults(d, refs, rs) <= run_faults(e, refs, rs),
{
}

proof fn lemma_next_ref_tail(refs: Seq<usize>, x: usize)
    requires
        refs.len() > 0,
        refs[0] != x,
    ensures
        next_ref(refs.drop_first(), x) == next_ref(refs, x) - 1,
{
    lemma_first_index(refs, x, 0);
    lemma_first_index(refs.drop_first(), x, 0);
    let i = first_index(refs, x, 0);
    let j = first_index(refs.drop_first(), x, 0);
    if i >= 0 {
        assert(refs.drop_first()[i - 1] == x);
    }
    if j >= 0 {
        assert(refs[j + 1] == x);
    }
}

/// From the pages of `a` less one page `z`, some run faults at most once more than a given
/// run from `a`.
proof fn lemma_run_missing(k: int, a: Set<usize>, z: usize, refs: Seq<usize>, rs: Seq<Set<usize>>) -> (ours: Seq<Set<usize>>)
    requires
        paging_run(k, a, refs, rs),
        a.finite(),
        a.len() <= k,
    ensures
        paging_run(k, a.remove(z), refs, ours),
        run_faults(a.remove(z), refs, ours) <= run_faults(a, refs, rs) + 1,
    decreases refs.len(),
{
    if refs.len() == 0 {
        rs
    } else if !a.contains(z) {
        assert(a.remove(z) =~= a);
        rs
    } else {
        let p = refs[0];
        let b = rs[0];
        let rest = refs.drop_first();
        let rr = rs.drop_first();
        let o = a.remove(z);
        if p == z {
            if b.contains(z) {
                assert(b.subset_of(o.insert(p)));
                rs
            } else {
                let b2 = b.insert(z);
                assert(b.subset_of(o)) by {
                    assert forall|y: usize| #[trigger] b.contains(y) implies o.contains(y) by {}
                }
                lemma_len_subset(b, o);
                assert(b2.len() == b.len() + 1);
                lemma_run_from_more(k, b2, b, rest, rr);
                let ours = seq![b2] + rr;
                assert(ours[0] == b2);
                assert(ours.drop_first() =~= rr);
                ours
            }
        } else {
            if b.contains(z) {
                let b2 = b.remove(z);
                let tail = lemma_run_missing(k, b, z, rest, rr);
                let ours = seq![b2] + tail;
                assert(ours[0] == b2);
                assert(ours.drop_first() =~= tail);
                assert(b2.subset_of(o.insert(p)));
                assert(b2.len() <= b.len());
                ours
            } else {
                assert(b.subset_of(o.insert(p)));
                rs
            }
        }
    }
}

/// Swapping a held page `x` for a page `y` that is referenced no later loses nothing:
/// some run from the swapped pages faults no more than a given run from `a`.
proof fn lemma_run_swap(k: int, a: Set<usize>, x: usize, y: usize, refs: Seq<usize>, rs: Seq<Set<usize>>) -> (ours: Seq<Set<usize>>)
    requires
        paging_run(k, a, refs, rs),
        a.finite(),
        a.len() <= k,
        a.contains(x),
        !a.contains(y),
        next_ref(refs, y) <= next_ref(refs, x),
    ensures
        paging_run(k, a.remove(x).insert(y), refs, ours),
        run_faults(a.remove(x).insert(y), refs, ours) <= run_faults(a, refs, rs),
    decreases refs.len(),
{
    let o = a.remove(x).insert(y);
    if refs.len() == 0 {
        rs
    } else {
        let p = refs[0];
        let b = rs[0];
        let rest = refs.drop_first();
        let rr = rs.drop_first();
        lemma_first_index(refs, x, 0);
        lemma_first_index(refs, y, 0);
        if p == x {
            assert(next_ref(refs, x) == 0);
            assert(refs[0] == y);
            assert(false);
            rs
        } else if p == y {
            if b.contains(x) {
                let b2 = b.remove(x);
                let tail = lemma_run_missing(k, b, x, rest, rr);
                let ours = seq![b2] + tail;
                assert(ours[0] == b2);
                assert(ours.drop_first() =~= tail);
                assert(b2.subset_of(o.insert(p)));
                assert(b2.len() <= b.len());
                ours
            } else {
                assert(b.subset_of(o.insert(p)));
                rs
            }
        } else {
            lemma_next_ref_tail(refs, x);
            lemma_next_ref_tail(refs, y);
            if b.contains(x) {
                let b2 = b.remove(x).insert(y);
                assert(!b.contains(y));
                assert(b.remove(x).len() == b.len() - 1);
                let tail = lemma_run_swap(k, b, x, y, rest, rr);
                let ours = seq![b2] + tail;
                assert(ours[0] == b2);
                assert(ours.drop_first() =~= tail);
                assert(b2.subset_of(o.insert(p)));
                ours
            } else {
                assert(b.subset_of(o.insert(p)));
                rs
            }
        }
    }
}

/// Belady's rule is optimal: from the same pages, a run of Belady's rule faults no more
/// than any run of a demand-paging policy with as many frames.
pub proof fn lemma_min_is_optimal(k: int, c: Set<usize>, refs: Seq<usize>, rm: Seq<Set<usize>>, rs: Seq<Set<usize>>)
    requires
        k >= 1,
        c.finite(),
        c.len() <= k,
        min_run(k, c, refs, rm),
        paging_run(k, c, refs, rs),
    ensures
        run_faults(c, refs, rm) <= run_faults(c, refs, rs),
    decreases refs.len(),
{
    if refs.len() > 0 {
        let p = refs[0];
        let b = rs[0];
        let d = rm[0];
        let rest = refs.drop_first();
        let rr = rs.drop_first();
        let rmm = rm.drop_first();
        if c.contains(p) {
            assert(b.subset_of(c)) by {
                assert(c.insert(p) =~= c);
            }
            lemma_run_from_more(k, c, b, rest, rr);
            lemma_min_is_optimal(k, c, rest, rmm, rr);
        } else if c.len() < k {
            assert(d == c.insert(p));
            lemma_run_from_more(k, d, b, rest, rr);
            lemma_min_is_optimal(k, d, rest, rmm, rr);
        } else {
            let x = choose|x: usize| #[trigger] farthest(c, rest, x) && d == c.remove(x).insert(p);
            let cp = c.insert(p);
            assert(cp.len() == c.len() + 1);
            assert(d.len() == c.len()) by {
                assert(c.remove(x).len() == c.len() - 1);
            }
            if !b.contains(x) {
                assert(b.subset_of(d));
                lemma_run_from_more(k, d, b, rest, rr);
                lemma_min_is_optimal(k, d, rest, rmm, rr);
            } else {
                let y = choose|y: usize| cp.contains(y) && !b.contains(y);
                assert(exists|y: usize| cp.contains(y) && !b.contains(y)) by {
                    if forall|y: usize| cp.contains(y) ==> b.contains(y) {
                        assert(cp.subset_of(b));
                        lemma_len_subset(cp, b);
                    }
                }
                assert(y != p && y != x);
                assert(c.contains(y));
                let t = cp.remove(y);
                assert(t.len() == k);
                assert(b.subset_of(t));
                lemma_run_from_more(k, t, b, rest, rr);
                assert(next_ref(rest, y) <= next_ref(rest, x));
                let sw = lemma_run_swap(k, t, x, y, rest, rr);
                assert(t.remove(x).insert(y) =~= d);
                lemma_min_is_optimal(k, d, rest, rmm, sw);
            }
        }
    }
}

/// A run of Belady's rule with `k` frames is a demand-paging run with any `m >= k` frames.
proof fn lemma_min_run_is_paging(k: int, m: int, c: Set<usize>, refs: Seq<usize>, rs: Seq<Set<usize>>)
    requires
        k <= m,
        c.finite(),
        c.len() <= k,
        min_run(k, c, refs, rs),
    ensures
        paging_run(m, c, refs, rs),
    decreases refs.len(),
{
    if refs.len() > 0 {
        let p = refs[0];
        let b = rs[0];
        if c.contains(p) {
        } else if c.len() < k {
        } else {
            let x = choose|x: usize| #[trigger] farthest(c, refs.drop_first(), x) && b == c.remove(x).insert(p);
            assert(c.remove(x).len() == c.len() - 1);
        }
        assert(b.finite() && b.len() <= k);
        lemma_min_run_is_paging(k, m, b, refs.drop_first(), rs.drop_first());
    }
}

/// Running a policy from `v` over `refs` is taking the first step, then the rest.
pub proof fn lemma_run_first<A: PageReplacement>(v: A::V, refs: Seq<usize>)
    requires
        refs.len() > 0,
    ensures
        run_accesses::<A>(v, refs) == run_accesses::<A>(A::step(v, refs[0]).0, refs.drop_first()),
    decreases refs.len(),
{
    let w = A::step(v, refs[0]).0;
    if refs.len() == 1 {
        assert(refs.drop_last() =~= Seq::<usize>::empty());
        assert(refs.drop_first() =~= Seq::<usize>::empty());
        assert(run_accesses::<A>(v, refs.drop_last()) == v);
        assert(run_accesses::<A>(v, refs) == A::step(v, refs.last()).0);
        assert(run_accesses::<A>(w, refs.drop_first()) == w);
    } else {
        let dl = refs.drop_last();
        lemma_run_first::<A>(v, dl);
        let df = refs.drop_first();
        assert(dl.drop_first() =~= df.drop_last());
        assert(df.last() == refs.last());
        assert(dl[0] == refs[0]);
        assert(run_accesses::<A>(v, refs) == A::step(run_accesses::<A>(v, dl), refs.last()).0);
        assert(run_accesses::<A>(w, df) == A::step(run_accesses::<A>(w, df.drop_last()), df.last()).0);
    }
}

/// The pages a policy holds after each reference of `refs`, starting from `v`.
pub open spec fn held_along<A: PageReplacement>(held: spec_fn(A::V) -> Set<usize>, v: A::V, refs: Seq<usize>) -> Seq<Set<usize>>
    decreases refs.len(),
{
    if refs.len() == 0 {
        Seq::empty()
    } else {
        let w = A::step(v, refs[0]).0;
        seq![held(w)] + held_along::<A>(held, w, refs.drop_first())
    }
}

proof fn lemma_held_along_unfold<A: PageReplacement>(held: spec_fn(A::V) -> Set<usize>, v: A::V, refs: Seq<usize>)
    requires
        refs.len() > 0,
    ensures
        held_along::<A>(held, v, refs).len() == refs.len(),
        held_along::<A>(held, v, refs)[0] == held(A::step(v, refs[0]).0),
        held_along::<A>(held, v, refs).drop_first() == held_along::<A>(held, A::step(v, refs[0]).0, refs.drop_first()),
    decreases refs.len(),
{
    let w = A::step(v, refs[0]).0;
    lemma_held_along_len::<A>(held, w, refs.drop_first());
    assert(held_along::<A>(held, v, refs).drop_first() =~= held_along::<A>(held, w, refs.drop_first()));
}

proof fn lemma_held_along_len<A: PageReplacement>(held: spec_fn(A::V) -> Set<usize>, v: A::V, refs: Seq<usize>)
    ensures
        held_along::<A>(held, v, refs).len() == refs.len(),
    decreases refs.len(),
{
    if refs.len() > 0 {
        lemma_held_along_len::<A>(held, A::step(v, refs[0]).0, refs.drop_first());
    }
}

/// The pages held by an optimal-replacement state.
pub open spec fn opt_held() -> spec_fn(OptimalState) -> Set<usize> {
    |v: OptimalState| v.frames.to_set()
}

proof fn lemma_opt_victim_exists(fr: Seq<usize>, fu: Seq<usize>, pos: int)
    requires
        fr.len() > 0,
    ensures
        exists|v: int| is_opt_victim(fr, fu, pos, v),
    decreases fr.len(),
{
    if fr.len() == 1 {
        assert(is_opt_victim(fr, fu, pos, 0));
    } else {
        let d = fr.drop_last();
        lemma_opt_victim_exists(d, fu, pos);
        let v0 = choose|v: int| is_opt_victim(d, fu, pos, v);
        let l = fr.len() - 1;
        assert(forall|j: int| 0 <= j < l ==> fr[j] == d[j]);
        if next_use(fu, pos, d[v0]) < 0 {
            assert(is_opt_victim(fr, fu, pos, v0));
        } else if next_use(fu, pos, fr[l]) < 0 {
            assert(is_opt_victim(fr, fu, pos, l));
        } else if next_use(fu, pos, fr[l]) > next_use(fu, pos, d[v0]) {
            assert(is_opt_victim(fr, fu, pos, l));
        } else {
            assert(is_opt_victim(fr, fu, pos, v0));
        }
    }
}

proof fn lemma_first_index_skip(s: Seq<usize>, x: usize, i: int)
    requires
        0 <= i <= s.len(),
    ensures
        first_index(s, x, i) >= 0 ==> first_index(s.subrange(i, s.len() as int), x, 0) == first_index(s, x, i) - i,
        first_index(s, x, i) < 0 ==> first_index(s.subrange(i, s.len() as int), x, 0) < 0,
{
    let t = s.subrange(i, s.len() as int);
    lemma_first_index(s, x, i);
    lemma_first_index(t, x, 0);
    let a = first_index(s, x, i);
    let b = first_index(t, x, 0);
    if a >= 0 {
        assert(t[a - i] == x);
        if b >= 0 && b < a - i {
            assert(s[b + i] == x);
        }
    }
    if b >= 0 {
        assert(s[b + i] == x);
    }
}

proof fn lemma_push_to_set(s: Seq<usize>, x: usize)
    ensures
        s.push(x).to_set() =~= s.to_set().insert(x),
{
    assert forall|y: usize| #[trigger] s.push(x).to_set().contains(y) <==> s.to_set().insert(x).contains(y) by {
        if s.push(x).contains(y) {
            let j = choose|j: int| 0 <= j < s.push(x).len() && s.push(x)[j] == y;
            if j < s.len() {
                assert(s[j] == y);
            }
        }
        if s.contains(y) {
            let j = choose|j: int| 0 <= j < s.len() && s[j] == y;
            assert(s.push(x)[j] == y);
        }
        if y == x {
            assert(s.push(x)[s.len() as int] == x);
        }
    }
}

proof fn lemma_next_ref_le(refs: Seq<usize>, x: usize)
    ensures
        0 <= next_ref(refs, x) <= refs.len(),
{
    lemma_first_index(refs, x, 0);
}

/// A fresh optimal-replacement state with `k` frames for the reference string `refs`.
pub open spec fn opt_fresh(k: int, refs: Seq<usize>) -> OptimalState {
    OptimalState { capacity: k, frames: Seq::empty(), faults: 0, future: refs, position: 0 }
}

/// Optimal replacement follows Belady's rule: serving the rest of its reference string,
/// the pages it holds form a run of Belady's rule, and it counts that run's faults.
proof fn lemma_opt_is_min(k: int, v: OptimalState, refs: Seq<usize>)
    requires
        k >= 1,
        v.capacity == k,
        v.frames.no_duplicates(),
        v.frames.len() <= k,
        0 <= v.position <= v.future.len(),
        refs == v.future.subrange(v.position, v.future.len() as int),
    ensures
        min_run(k, v.frames.to_set(), refs, held_along::<OptimalReplacement>(opt_held(), v, refs)),
        run_accesses::<OptimalReplacement>(v, refs).faults == v.faults + run_faults(v.frames.to_set(), refs, held_along::<OptimalReplacement>(opt_held(), v, refs)),
    decreases refs.len(),
{
    let a = v.frames.to_set();
    v.frames.unique_seq_to_set();
    if refs.len() > 0 {
        let p = refs[0];
        let (w, f) = OptimalReplacement::step(v, p);
        let rest = refs.drop_first();
        lemma_held_along_unfold::<OptimalReplacement>(opt_held(), v, refs);
        lemma_run_first::<OptimalReplacement>(v, refs);
        assert(p == v.future[v.position]);
        assert(rest =~= w.future.subrange(w.position, w.future.len() as int));
        assert(a.contains(p) == v.frames.contains(p));
        if v.frames.contains(p) {
            assert(w.frames == v.frames);
        } else if v.frames.len() < k {
            assert(w.frames == v.frames.push(p));
            lemma_push_to_set(v.frames, p);
            assert(w.frames.no_duplicates()) by {
                assert forall|i: int, j: int| 0 <= i < j < w.frames.len() implies w.frames[i] != w.frames[j] by {
                    if j == v.frames.len() {
                        assert(v.frames.contains(v.frames[i]));
                    }
                }
            }
        } else {
            lemma_opt_victim_exists(v.frames, v.future, v.position);
            let vi = opt_victim(v.frames, v.future, v.position);
            assert(is_opt_victim(v.frames, v.future, v.position, vi));
            let x = v.frames[vi];
            assert(w.frames == v.frames.update(vi, p));
            assert(w.frames.to_set() =~= a.remove(x).insert(p)) by {
                assert forall|y: usize| #[trigger] w.frames.to_set().contains(y) <==> a.remove(x).insert(p).contains(y) by {
                    if w.frames.contains(y) {
                        let j = choose|j: int| 0 <= j < w.frames.len() && w.frames[j] == y;
                        if j != vi {
                            assert(v.frames[j] == y);
                            assert(v.frames.contains(y));
                        }
                    }
                    if y == p {
                        assert(w.frames[vi] == p);
                    } else if a.contains(y) && y != x {
                        let j = choose|j: int| 0 <= j < v.frames.len() && v.frames[j] == y;
                        assert(j != vi);
                        assert(w.frames[j] == y);
                    }
                }
            }
            assert(w.frames.no_duplicates()) by {
                assert forall|i: int, j: int| 0 <= i < j < w.frames.len() implies w.frames[i] != w.frames[j] by {
                    if i == vi {
                        assert(v.frames.contains(v.frames[j]));
                    } else if j == vi {
                        assert(v.frames.contains(v.frames[i]));
                    }
                }
            }
            assert(farthest(a, rest, x)) by {
                let n1 = v.position + 1;
                assert(rest =~= v.future.subrange(n1, v.future.len() as int));
                assert forall|y: usize| #[trigger] a.contains(y) implies next_ref(rest, y) <= next_ref(rest, x) by {
                    let j = choose|j: int| 0 <= j < v.frames.len() && v.frames[j] == y;
                    lemma_first_index_skip(v.future, y, n1);
                    lemma_first_index_skip(v.future, x, n1);
                    lemma_first_index(v.future, y, n1);
                    lemma_first_index(v.future, x, n1);
                    lemma_next_ref_le(rest, y);
                    if next_use(v.future, v.position, x) >= 0 {
                        assert(0 <= next_use(v.future, v.position, v.frames[j]) <= next_use(v.future, v.position, x));
                    }
                }
            }
        }
        lemma_opt_is_min(k, w, rest);
    }
}

/// Optimal replacement, like LRU, is a stack algorithm: with one frame more it never faults
/// more often on the same reference string (no Belady anomaly).
pub proof fn lemma_optimal_no_belady(k: int, refs: Seq<usize>)
    requires
        k >= 1,
    ensures
        run_accesses::<OptimalReplacement>(opt_fresh(k + 1, refs), refs).faults
            <= run_accesses::<OptimalReplacement>(opt_fresh(k, refs), refs).faults,
{
    let v1 = opt_fresh(k + 1, refs);
    let v0 = opt_fresh(k, refs);
    assert(refs =~= refs.subrange(0, refs.len() as int));
    lemma_opt_is_min(k + 1, v1, refs);
    lemma_opt_is_min(k, v0, refs);
    let e = Seq::<usize>::empty().to_set();
    assert(e =~= Set::<usize>::empty());
    let r1 = held_along::<OptimalReplacement>(opt_held(), v1, refs);
    let r0 = held_along::<OptimalReplacement>(opt_held(), v0, refs);
    lemma_min_run_is_paging(k, k + 1, e, refs, r0);
    lemma_min_is_optimal(k + 1, e, refs, r1, r0);
}

/// One reference served by a policy from `v` keeps `inv`, moves the held pages by a
/// demand-paging step with `k` frames, and counts a fault exactly when `p` was not held.
pub open spec fn step_as_paging<A: PageReplacement>(
    k: int,
    inv: spec_fn(A::V) -> bool,
    held: spec_fn(A::V) -> Set<usize>,
    v: A::V,
    p: usize,
) -> bool {
    let (w, f) = A::step(v, p);
    &&& inv(w)
    &&& paging_step(k, held(v), p, held(w))
    &&& f == !held(v).contains(p)
    &&& A::fault_count(w) == A::fault_count(v) + if f { 1int } else { 0int }
}

/// Every state satisfying `inv` serves every reference as a demand-paging policy with `k` frames.
pub open spec fn acts_as_paging<A: PageReplacement>(k: int, inv: spec_fn(A::V) -> bool, held: spec_fn(A::V) -> Set<usize>) -> bool {
    forall|v: A::V, p: usize| inv(v) ==> #[trigger] step_as_paging::<A>(k, inv, held, v, p)
}

proof fn lemma_paging_along<A: PageReplacement>(
    k: int,
    inv: spec_fn(A::V) -> bool,
    held: spec_fn(A::V) -> Set<usize>,
    v: A::V,
    refs: Seq<usize>,
)
    requires
        acts_as_paging::<A>(k, inv, held),
        inv(v),
    ensures
        paging_run(k, held(v), refs, held_along::<A>(held, v, refs)),
        A::fault_count(run_accesses::<A>(v, refs)) == A::fault_count(v) + run_faults(held(v), refs, held_along::<A>(held, v, refs)),
    decreases refs.len(),
{
    lemma_held_along_len::<A>(held, v, refs);
    if refs.len() > 0 {
        let w = A::step(v, refs[0]).0;
        assert(step_as_paging::<A>(k, inv, held, v, refs[0]));
        lemma_held_along_unfold::<A>(held, v, refs);
        lemma_run_first::<A>(v, refs);
        lemma_paging_along::<A>(k, inv, held, w, refs.drop_first());
    }
}

/// A change of held pages from `a` to `b` (as sequences) that is a demand-paging step.
proof fn lemma_seq_paging_step(k: int, a: Seq<usize>, p: usize, b: Seq<usize>)
    requires
        b.len() <= k,
        forall|y: usize| #[trigger] b.contains(y) ==> a.contains(y) || y == p,
        a.contains(p) || b.contains(p),
    ensures
        paging_step(k, a.to_set(), p, b.to_set()),
{
    b.lemma_cardinality_of_set();
    assert(b.to_set().subset_of(a.to_set().insert(p)));
}

/// The pages held by a FIFO state.
pub open spec fn fifo_held() -> spec_fn(FifoState) -> Set<usize> {
    |v: FifoState| v.frames.to_set()
}

/// A FIFO state reachable with `k` frames (one the demand pager mirrors).
pub open spec fn fifo_inv(k: int) -> spec_fn(FifoState) -> bool {
    |v: FifoState| exists|f: Seq<Option<usize>>, o: Seq<usize>| mirrors_fifo(k, f, o, v)
}

proof fn lemma_fifo_acts(k: int)
    ensures
        acts_as_paging::<FifoReplacement>(k, fifo_inv(k), fifo_held()),
{
    assert forall|v: FifoState, p: usize| fifo_inv(k)(v) implies #[trigger] step_as_paging::<FifoReplacement>(k, fifo_inv(k), fifo_held(), v, p) by {
        let (f, o) = choose|f: Seq<Option<usize>>, o: Seq<usize>| mirrors_fifo(k, f, o, v);
        lemma_mirror_step(k, f, o, v, p);
        let (w, fault) = FifoReplacement::step(v, p);
        let (f2, o2, _) = crate::virtual_memory::pager_access(f, o, p);
        assert(mirrors_fifo(k, f2, o2, w));
        if v.frames.contains(p) {
        } else if v.frames.len() < v.capacity {
            assert(w.frames == v.frames.push(p));
            assert forall|y: usize| #[trigger] w.frames.contains(y) implies v.frames.contains(y) || y == p by {
                let j = choose|j: int| 0 <= j < w.frames.len() && w.frames[j] == y;
                if j < v.frames.len() {
                    assert(v.frames[j] == y);
                }
            }
            assert(w.frames[v.frames.len() as int] == p);
        } else {
            assert(o.len() > 0);
            assert(v.queue[0] == v.frames[o[0] as int]);
            assert(v.frames.contains(v.queue[0]));
            lemma_first_index(v.frames, v.queue[0], 0);
            crate::util::lemma_first_index_contains(v.frames, v.queue[0]);
            let pos = first_index(v.frames, v.queue[0], 0);
            assert(w.frames == v.frames.update(pos, p));
            assert forall|y: usize| #[trigger] w.frames.contains(y) implies v.frames.contains(y) || y == p by {
                let j = choose|j: int| 0 <= j < w.frames.len() && w.frames[j] == y;
                if j != pos {
                    assert(v.frames[j] == y);
                }
            }
            assert(w.frames[pos] == p);
        }
        lemma_seq_paging_step(k, v.frames, p, w.frames);
    }
}

/// The pages held by an LRU state.
pub open spec fn lru_held() -> spec_fn(LruState) -> Set<usize> {
    |v: LruState| v.frames.to_set()
}

/// An LRU state reached from a fresh one with `k` frames.
pub open spec fn lru_inv(k: int) -> spec_fn(LruState) -> bool {
    |v: LruState| exists|refs: Seq<usize>| lru_shape(k, refs, v)
}

proof fn lemma_lru_acts(k: int)
    requires
        k >= 1,
    ensures
        acts_as_paging::<LruReplacement>(k, lru_inv(k), lru_held()),
{
    assert forall|v: LruState, p: usize| lru_inv(k)(v) implies #[trigger] step_as_paging::<LruReplacement>(k, lru_inv(k), lru_held(), v, p) by {
        let refs = choose|refs: Seq<usize>| lru_shape(k, refs, v);
        lemma_lru_step(k, refs, v, p);
        lemma_recency_no_dup(refs);
        lemma_most_recent_facts(recency(refs), k);
        let (w, fault) = LruReplacement::step(v, p);
        assert(lru_shape(k, refs.push(p), w));
        if v.frames.contains(p) {
        } else if v.frames.len() < v.capacity {
            assert(w.frames == v.frames.push(p));
            assert forall|y: usize| #[trigger] w.frames.contains(y) implies v.frames.contains(y) || y == p by {
                let j = choose|j: int| 0 <= j < w.frames.len() && w.frames[j] == y;
                if j < v.frames.len() {
                    assert(v.frames[j] == y);
                }
            }
            assert(w.frames[v.frames.len() as int] == p);
        } else {
            assert(v.use_order.len() > 0);
            let lru = v.use_order[0];
            assert(v.use_order.contains(lru));
            assert(v.frames.contains(lru));
            lemma_first_index(v.frames, lru, 0);
            crate::util::lemma_first_index_contains(v.frames, lru);
            let pos = first_index(v.frames, lru, 0);
            assert(w.frames == v.frames.update(pos, p));
            assert forall|y: usize| #[trigger] w.frames.contains(y) implies v.frames.contains(y) || y == p by {
                let j = choose|j: int| 0 <= j < w.frames.len() && w.frames[j] == y;
                if j != pos {
                    assert(v.frames[j] == y);
                }
            }
            assert(w.frames[pos] == p);
        }
        lemma_recency_no_dup(refs.push(p));
        lemma_most_recent_facts(recency(refs.push(p)), k);
        lemma_seq_paging_step(k, v.frames, p, w.frames);
    }
}

/// Optimal replacement against any policy that acts as demand paging with `k` frames from
/// a state holding no pages.
proof fn lemma_optimal_beats<A: PageReplacement>(
    k: int,
    inv: spec_fn(A::V) -> bool,
    held: spec_fn(A::V) -> Set<usize>,
    v: A::V,
    refs: Seq<usize>,
)
    requires
        k >= 1,
        acts_as_paging::<A>(k, inv, held),
        inv(v),
        held(v) == Set::<usize>::empty(),
        A::fault_count(v) == 0,
    ensures
        run_accesses::<OptimalReplacement>(opt_fresh(k, refs), refs).faults <= A::fault_count(run_accesses::<A>(v, refs)),
{
    let o = opt_fresh(k, refs);
    assert(refs =~= refs.subrange(0, refs.len() as int));
    lemma_opt_is_min(k, o, refs);
    assert(o.frames.to_set() =~= Set::<usize>::empty());
    lemma_paging_along::<A>(k, inv, held, v, refs);
    lemma_min_is_optimal(k, Set::<usize>::empty(), refs, held_along::<OptimalReplacement>(opt_held(), o, refs), held_along::<A>(held, v, refs));
}

/// Optimal replacement is a lower bound for FIFO: on any reference string, with the same
/// number of frames, it never faults more often.
pub proof fn lemma_optimal_beats_fifo(k: int, refs: Seq<usize>)
    requires
        1 <= k <= usize::MAX,
    ensures
        run_accesses::<OptimalReplacement>(opt_fresh(k, refs), refs).faults <= run_accesses::<FifoReplacement>(fifo_fresh(k), refs).faults,
{
    lemma_fifo_acts(k);
    let v = fifo_fresh(k);
    assert(mirrors_fifo(k, fresh_frames(k), Seq::empty(), v));
    assert(fifo_inv(k)(v));
    assert(v.frames.to_set() =~= Set::<usize>::empty());
    lemma_optimal_beats::<FifoReplacement>(k, fifo_inv(k), fifo_held(), v, refs);
}

/// Optimal replacement is a lower bound for LRU: on any reference string, with the same
/// number of frames, it never faults more often.
pub proof fn lemma_optimal_beats_lru(k: int, refs: Seq<usize>)
    requires
        k >= 1,
    ensures
        run_accesses::<OptimalReplacement>(opt_fresh(k, refs), refs).faults <= run_accesses::<LruReplacement>(lru_fresh(k), refs).faults,
{
    lemma_lru_acts(k);
    let v = lru_fresh(k);
    lemma_lru_run(k, Seq::empty());
    assert(lru_inv(k)(v));
    assert(v.frames.to_set() =~= Set::<usize>::empty());
    lemma_optimal_beats::<LruReplacement>(k, lru_inv(k), lru_held(), v, refs);
}

proof fn lemma_present(frames: Seq<Option<usize>>)
    ensures
        forall|y: usize| #[trigger] present(frames).contains(y) <==> frames.contains(Some(y)),
        present(frames).len() <= frames.len(),
    decreases frames.len(),
{
    if frames.len() > 0 {
        let d = frames.drop_last();
        lemma_present(d);
        let pd = present(d);
        assert forall|y: usize| #[trigger] present(frames).contains(y) <==> frames.contains(Some(y)) by {
            let pf = present(frames);
            if pf.contains(y) {
                let j = choose|j: int| 0 <= j < pf.len() && pf[j] == y;
                if j < pd.len() {
                    assert(pd[j] == y);
                    assert(pd.contains(y));
                    let i = choose|i: int| 0 <= i < d.len() && d[i] == Some(y);
                    assert(frames[i] == Some(y));
                } else {
                    assert(frames[frames.len() - 1] == Some(y));
                }
            }
            if frames.contains(Some(y)) {
                let i = choose|i: int| 0 <= i < frames.len() && frames[i] == Some(y);
                if i < d.len() {
                    assert(d[i] == Some(y));
                    assert(pd.contains(y));
                    let j = choose|j: int| 0 <= j < pd.len() && pd[j] == y;
                    assert(pf[j] == y);
                } else {
                    assert(pf[pd.len() as int] == y);
                }
            }
        }
    }
}

/// The pages held by a clock state.
pub open spec fn clock_held() -> spec_fn(ClockState) -> Set<usize> {
    |v: ClockState| present(v.frames).to_set()
}

/// A clock state with `k` frames, a hand among them, and no page in two frames.
pub open spec fn clock_inv(k: int) -> spec_fn(ClockState) -> bool {
    |v: ClockState| {
        &&& v.capacity == k
        &&& v.frames.len() == k
        &&& v.reference_bits.len() == k
        &&& 0 <= v.hand < k
        &&& forall|i: int, j: int| 0 <= i < j < k && (#[trigger] v.frames[i]) is Some ==> v.frames[i] != #[trigger] v.frames[j]
    }
}

/// A fresh clock state with `k` frames.
pub open spec fn clock_fresh(k: int) -> ClockState {
    ClockState {
        capacity: k,
        frames: Seq::new(k as nat, |i: int| None::<usize>),
        reference_bits: Seq::new(k as nat, |i: int| false),
        faults: 0,
        hand: 0,
    }
}

proof fn lemma_clock_acts(k: int)
    requires
        k >= 1,
    ensures
        acts_as_paging::<ClockReplacement>(k, clock_inv(k), clock_held()),
{
    assert forall|v: ClockState, p: usize| clock_inv(k)(v) implies #[trigger] step_as_paging::<ClockReplacement>(k, clock_inv(k), clock_held(), v, p) by {
        let (w, fault) = ClockReplacement::step(v, p);
        lemma_find_slot(v.frames, Some(p), 0);
        lemma_find_slot(v.frames, None, 0);
        lemma_present(v.frames);
        let idx = find_slot(v.frames, Some(p), 0);
        if idx >= 0 {
            assert(v.frames.contains(Some(p)));
            assert(w.frames == v.frames);
        } else {
            assert(!v.frames.contains(Some(p)));
            let free = find_slot(v.frames, None, 0);
            let slot = if free >= 0 {
                free
            } else {
                lemma_count_set_le(v.reference_bits);
                lemma_sweep_stable(v.reference_bits, v.hand, k, sweep_fuel(v.reference_bits), sweep_fuel(v.reference_bits));
                clock_sweep(v.reference_bits, v.hand, k, sweep_fuel(v.reference_bits)).1
            };
            assert(0 <= slot < k);
            assert(w.frames == v.frames.update(slot, Some(p)));
            assert(w.reference_bits.len() == k);
            assert forall|i: int, j: int| 0 <= i < j < k && (#[trigger] w.frames[i]) is Some implies w.frames[i] != #[trigger] w.frames[j] by {
                if i == slot {
                    if w.frames[j] == Some(p) {
                        assert(v.frames[j] == Some(p));
                    }
                } else if j == slot {
                    if w.frames[i] == Some(p) {
                        assert(v.frames[i] == Some(p));
                    }
                }
            }
            assert(w.frames[slot] == Some(p));
        }
        lemma_present(w.frames);
        assert forall|y: usize| #[trigger] present(w.frames).contains(y) implies present(v.frames).contains(y) || y == p by {
            let i = choose|i: int| 0 <= i < w.frames.len() && w.frames[i] == Some(y);
            if y != p {
                assert(v.frames[i] == Some(y));
            }
        }
        if idx < 0 {
            assert(w.frames.contains(Some(p)));
        }
        lemma_seq_paging_step(k, present(v.frames), p, present(w.frames));
    }
}

/// Optimal replacement is a lower bound for Clock: on any reference string, with the same
/// number of frames, it never faults more often.
pub proof fn lemma_optimal_beats_clock(k: int, refs: Seq<usize>)
    requires
        k >= 1,
    ensures
        run_accesses::<OptimalReplacement>(opt_fresh(k, refs), refs).faults <= run_accesses::<ClockReplacement>(clock_fresh(k), refs).faults,
{
    lemma_clock_acts(k);
    let v = clock_fresh(k);
    assert(clock_inv(k)(v));
    lemma_present(v.frames);
    assert(present(v.frames).to_set() =~= Set::<usize>::empty()) by {
        assert forall|y: usize| !#[trigger] present(v.frames).to_set().contains(y) by {
            if v.frames.contains(Some(y)) {
                let i = choose|i: int| 0 <= i < v.frames.len() && v.frames[i] == Some(y);
            }
        }
    }
    lemma_optimal_beats::<ClockReplacement>(k, clock_inv(k), clock_held(), v, refs);
}

} // verus!
