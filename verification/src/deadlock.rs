use vstd::prelude::*;
use crate::util::{count_false, lemma_count_false_update, lemma_count_false_all, all_false, lemma_usize_range_finite_len};
pub use crate::wait_graph::{RagEdge, ResourceAllocationGraph};

verus! {

/// Banker's Algorithm state.
#[derive(Clone, Debug)]
pub struct BankersAlgorithm {
    pub num_processes: usize,
    pub num_resources: usize,
    pub available: Vec<usize>,
    pub max_demand: Vec<Vec<usize>>,
    pub allocation: Vec<Vec<usize>>,
}

/// The abstract state of the Banker's algorithm.
pub struct BankModel {
    pub n: int,
    pub m: int,
    pub available: Seq<usize>,
    pub max: Seq<Seq<usize>>,
    pub alloc: Seq<Seq<usize>>,
}

/// Rows of a matrix by value.
pub open spec fn rows(v: Seq<Vec<usize>>) -> Seq<Seq<usize>> {
    v.map_values(|r: Vec<usize>| r@)
}

impl View for BankersAlgorithm {
    type V = BankModel;

    open spec fn view(&self) -> BankModel {
        BankModel {
            n: self.num_processes as int,
            m: self.num_resources as int,
            available: self.available@,
            max: rows(self.max_demand@),
            alloc: rows(self.allocation@),
        }
    }
}

/// The matrices cover `n` processes and `m` resources, and no allocation exceeds its maximum.
pub open spec fn bank_wf(b: BankModel) -> bool {
    &&& 0 <= b.n
    &&& 0 <= b.m
    &&& b.available.len() >= b.m
    &&& b.max.len() >= b.n
    &&& b.alloc.len() >= b.n
    &&& forall|i: int| 0 <= i < b.n ==> #[trigger] b.max[i].len() >= b.m
    &&& forall|i: int| 0 <= i < b.n ==> #[trigger] b.alloc[i].len() >= b.m
    &&& forall|i: int, j: int| 0 <= i < b.n && 0 <= j < b.m ==> #[trigger] b.alloc[i][j] <= b.max[i][j]
}

/// Units of resource `j` allocated to the processes listed in `procs`.
pub open spec fn alloc_sum(b: BankModel, procs: Seq<usize>, j: int) -> int
    decreases procs.len(),
{
    if procs.len() == 0 {
        0
    } else {
        alloc_sum(b, procs.drop_last(), j) + b.alloc[procs.last() as int][j]
    }
}

/// The processes `0..n`.
pub open spec fn all_procs(n: int) -> Seq<usize> {
    Seq::new(n as nat, |i: int| i as usize)
}

/// The total count of each resource (available plus allocated) fits in `usize`.
pub open spec fn bank_totals_fit(b: BankModel) -> bool {
    forall|j: int| 0 <= j < b.m ==> b.available[j] + #[trigger] alloc_sum(b, all_procs(b.n), j) <= usize::MAX
}

/// Remaining need of process `i` for resource `j`.
pub open spec fn need_of(b: BankModel, i: int, j: int) -> int {
    b.max[i][j] - b.alloc[i][j]
}

/// Process `i` can run to completion with `work`.
pub open spec fn fits(b: BankModel, i: int, work: Seq<int>) -> bool {
    forall|j: int| 0 <= j < b.m ==> need_of(b, i, j) <= #[trigger] work[j]
}

/// `work` after process `i` finishes and returns its allocation.
pub open spec fn release(b: BankModel, i: int, work: Seq<int>) -> Seq<int> {
    Seq::new(work.len(), |j: int| if j < b.m { work[j] + b.alloc[i][j] } else { work[j] })
}

/// The work vector after the processes in `procs` have finished.
pub open spec fn work_after(b: BankModel, procs: Seq<usize>) -> Seq<int> {
    Seq::new(b.available.len(), |j: int| if j < b.m { b.available[j] + alloc_sum(b, procs, j) } else { b.available[j] as int })
}

/// `seq` is a safe sequence: every process exactly once, each able to finish with
/// what is available plus what the processes before it have returned.
pub open spec fn is_safe_sequence(b: BankModel, seq: Seq<usize>) -> bool {
    &&& seq.len() == b.n
    &&& seq.no_duplicates()
    &&& forall|k: int| 0 <= k < seq.len() ==> #[trigger] seq[k] < b.n
    &&& forall|k: int| 0 <= k < seq.len() ==> fits(b, #[trigger] seq[k] as int, work_after(b, seq.take(k)))
}

/// The state is safe: some safe sequence exists.
pub open spec fn safe_state(b: BankModel) -> bool {
    exists|seq: Seq<usize>| is_safe_sequence(b, seq)
}

/// The safety check's progress.
pub struct BankRun {
    pub work: Seq<int>,
    pub finish: Seq<bool>,
    pub order: Seq<usize>,
}

/// One pass over processes `i..n`: each unfinished process that fits finishes at once.
/// Returns the state and whether any process finished.
pub open spec fn bank_pass(b: BankModel, s: BankRun, i: int) -> (BankRun, bool)
    decreases b.n - i,
{
    if i < 0 || i >= b.n {
        (s, false)
    } else if !s.finish[i] && fits(b, i, s.work) {
        let s2 = BankRun { work: release(b, i, s.work), finish: s.finish.update(i, true), order: s.order.push(i as usize) };
        (bank_pass(b, s2, i + 1).0, true)
    } else {
        bank_pass(b, s, i + 1)
    }
}

/// Passes repeated `fuel` times.
pub open spec fn bank_run(b: BankModel, s: BankRun, fuel: nat) -> BankRun
    decreases fuel,
{
    if fuel == 0 {
        s
    } else {
        bank_run(b, bank_pass(b, s, 0).0, (fuel - 1) as nat)
    }
}

pub open spec fn bank_start(b: BankModel) -> BankRun {
    BankRun {
        work: Seq::new(b.available.len(), |j: int| b.available[j] as int),
        finish: Seq::new(b.n as nat, |i: int| false),
        order: Seq::empty(),
    }
}

/// The state the safety check ends in: passes repeat until one finishes nobody,
/// which happens within `n + 1` passes.
pub open spec fn bank_final(b: BankModel) -> BankRun {
    bank_run(b, bank_start(b), (b.n + 1) as nat)
}

/// What `is_safe` returns: the finishing order when every process finished.
pub open spec fn safety_result(b: BankModel) -> Option<Seq<usize>> {
    let f = bank_final(b);
    if forall|i: int| 0 <= i < b.n ==> #[trigger] f.finish[i] {
        Some(f.order)
    } else {
        None
    }
}

/// Bookkeeping of the safety check: the finishing order lists the finished processes
/// once each, the work vector is what they returned plus what was available, and each
/// of them fit when it finished.
pub open spec fn bank_good(b: BankModel, s: BankRun) -> bool {
    &&& s.finish.len() == b.n
    &&& s.work == work_after(b, s.order)
    &&& s.order.no_duplicates()
    &&& forall|k: int| 0 <= k < s.order.len() ==> #[trigger] s.order[k] < b.n
    &&& forall|i: int| 0 <= i < b.n ==> (#[trigger] s.finish[i] <==> s.order.contains(i as usize))
    &&& forall|k: int| 0 <= k < s.order.len() ==> fits(b, #[trigger] s.order[k] as int, work_after(b, s.order.take(k)))
}

proof fn lemma_release_work_after(b: BankModel, order: Seq<usize>, i: usize)
    ensures
        release(b, i as int, work_after(b, order)) == work_after(b, order.push(i)),
{
    assert(order.push(i).drop_last() =~= order);
    assert(release(b, i as int, work_after(b, order)) =~= work_after(b, order.push(i)));
}

proof fn lemma_finish_one_good(b: BankModel, s: BankRun, i: int)
    requires
        bank_good(b, s),
        0 <= i < b.n,
        b.n <= usize::MAX,
        !s.finish[i],
        fits(b, i, s.work),
    ensures
        bank_good(b, BankRun { work: release(b, i, s.work), finish: s.finish.update(i, true), order: s.order.push(i as usize) }),
        count_false(s.finish.update(i, true)) + 1 == count_false(s.finish),
{
    let s2 = BankRun { work: release(b, i, s.work), finish: s.finish.update(i, true), order: s.order.push(i as usize) };
    lemma_release_work_after(b, s.order, i as usize);
    assert(!s.order.contains(i as usize));
    assert forall|k: int| 0 <= k < b.n implies (#[trigger] s2.finish[k] <==> s2.order.contains(k as usize)) by {
        if k != i {
            if s2.order.contains(k as usize) {
                let q = choose|q: int| 0 <= q < s2.order.len() && s2.order[q] == k as usize;
                assert(s.order[q] == k as usize);
            }
            if s.order.contains(k as usize) {
                let q = choose|q: int| 0 <= q < s.order.len() && s.order[q] == k as usize;
                assert(s2.order[q] == k as usize);
            }
        } else {
            assert(s2.order[s.order.len() as int] == i as usize);
        }
    }
    assert forall|a: int, c: int| 0 <= a < c < s2.order.len() implies s2.order[a] != s2.order[c] by {
        if c == s.order.len() {
            assert(s.order.contains(s.order[a]));
        }
    }
    assert forall|k: int| 0 <= k < s2.order.len() implies fits(b, #[trigger] s2.order[k] as int, work_after(b, s2.order.take(k))) by {
        if k < s.order.len() {
            assert(s2.order.take(k) =~= s.order.take(k));
        } else {
            assert(s2.order.take(k) =~= s.order);
        }
    }
    lemma_count_false_update(s.finish, i);
}

proof fn lemma_pass_good(b: BankModel, s: BankRun, i: int)
    requires
        bank_good(b, s),
        0 <= i,
        b.n <= usize::MAX,
    ensures
        bank_good(b, bank_pass(b, s, i).0),
        bank_pass(b, s, i).1 ==> count_false(bank_pass(b, s, i).0.finish) < count_false(s.finish),
        !bank_pass(b, s, i).1 ==> bank_pass(b, s, i).0 == s && forall|k: int| i <= k < b.n ==> #[trigger] s.finish[k] || !fits(b, k, s.work),
        count_false(bank_pass(b, s, i).0.finish) <= count_false(s.finish),
    decreases b.n - i,
{
    if i < b.n {
        if !s.finish[i] && fits(b, i, s.work) {
            let s2 = BankRun { work: release(b, i, s.work), finish: s.finish.update(i, true), order: s.order.push(i as usize) };
            lemma_finish_one_good(b, s, i);
            lemma_pass_good(b, s2, i + 1);
        } else {
            lemma_pass_good(b, s, i + 1);
        }
    }
}

proof fn lemma_run_split(b: BankModel, s: BankRun, p: nat, q: nat)
    ensures
        bank_run(b, s, p + q) == bank_run(b, bank_run(b, s, p), q),
    decreases p,
{
    if p > 0 {
        lemma_run_split(b, bank_pass(b, s, 0).0, (p - 1) as nat, q);
        assert((p + q - 1) as nat == (p - 1) as nat + q);
    }
}

proof fn lemma_run_fixed(b: BankModel, s: BankRun, f: nat)
    requires
        bank_pass(b, s, 0).0 == s,
    ensures
        bank_run(b, s, f) == s,
    decreases f,
{
    if f > 0 {
        lemma_run_fixed(b, s, (f - 1) as nat);
    }
}

proof fn lemma_alloc_sum_remove(b: BankModel, procs: Seq<usize>, idx: int, j: int)
    requires
        0 <= idx < procs.len(),
    ensures
        alloc_sum(b, procs, j) == alloc_sum(b, procs.remove(idx), j) + b.alloc[procs[idx] as int][j],
    decreases procs.len(),
{
    if idx < procs.len() - 1 {
        assert(procs.remove(idx).drop_last() =~= procs.drop_last().remove(idx));
        assert(procs.remove(idx).last() == procs.last());
        lemma_alloc_sum_remove(b, procs.drop_last(), idx, j);
    } else {
        assert(procs.remove(idx) =~= procs.drop_last());
    }
}

/// Allocations over a duplicate-free sub-collection of processes are at most those over
/// the whole collection.
proof fn lemma_alloc_sum_subset(b: BankModel, a: Seq<usize>, c: Seq<usize>, j: int)
    requires
        a.no_duplicates(),
        c.no_duplicates(),
        forall|k: int| 0 <= k < a.len() ==> c.contains(#[trigger] a[k]),
    ensures
        alloc_sum(b, a, j) <= alloc_sum(b, c, j),
    decreases a.len(),
{
    if a.len() > 0 {
        let x = a.last();
        assert(c.contains(x)) by {
            assert(c.contains(a[a.len() - 1]));
        }
        let idx = choose|q: int| 0 <= q < c.len() && c[q] == x;
        let c2 = c.remove(idx);
        lemma_alloc_sum_remove(b, c, idx, j);
        let a2 = a.drop_last();
        assert forall|k: int| 0 <= k < a2.len() implies c2.contains(#[trigger] a2[k]) by {
            assert(a2[k] == a[k]);
            assert(a[k] != x);
            assert(c.contains(a[k]));
            let q = choose|q: int| 0 <= q < c.len() && c[q] == a[k];
            assert(q != idx);
            if q < idx {
                assert(c2[q] == a[k]);
            } else {
                assert(c2[q - 1] == a[k]);
            }
        }
        assert forall|u: int, v: int| 0 <= u < v < c2.len() implies c2[u] != c2[v] by {
            let uu = if u < idx { u } else { u + 1 };
            let vv = if v < idx { v } else { v + 1 };
            assert(c2[u] == c[uu] && c2[v] == c[vv]);
        }
        lemma_alloc_sum_subset(b, a2, c2, j);
    } else {
        lemma_alloc_sum_nonneg(b, c, j);
    }
}

proof fn lemma_order_within_totals(b: BankModel, order: Seq<usize>, j: int)
    requires
        order.no_duplicates(),
        forall|k: int| 0 <= k < order.len() ==> #[trigger] order[k] < b.n,
        0 <= b.n <= usize::MAX,
    ensures
        alloc_sum(b, order, j) <= alloc_sum(b, all_procs(b.n), j),
{
    let c = all_procs(b.n);
    assert(c.len() == b.n);
    assert forall|k: int| 0 <= k < order.len() implies c.contains(#[trigger] order[k]) by {
        assert(c[order[k] as int] == order[k]);
    }
    assert forall|u: int, v: int| 0 <= u < v < c.len() implies c[u] != c[v] by {
        assert(c[u] == u as usize && c[v] == v as usize);
        assert(u as usize != v as usize);
    }
    lemma_alloc_sum_subset(b, order, c, j);
}

proof fn lemma_alloc_sum_nonneg(b: BankModel, procs: Seq<usize>, j: int)
    ensures
        alloc_sum(b, procs, j) >= 0,
    decreases procs.len(),
{
    if procs.len() > 0 {
        lemma_alloc_sum_nonneg(b, procs.drop_last(), j);
    }
}

pub open spec fn ints(s: Seq<usize>) -> Seq<int> {
    s.map_values(|x: usize| x as int)
}

/// The safety check's progress as held by its vectors.
pub open spec fn run_state(work: Seq<usize>, finish: Seq<bool>, order: Seq<usize>) -> BankRun {
    BankRun { work: ints(work), finish, order }
}

proof fn lemma_run_reaches_fixed(b: BankModel, s: BankRun, f: nat)
    requires
        bank_good(b, s),
        count_false(s.finish) < f,
        b.n <= usize::MAX,
    ensures
        bank_good(b, bank_run(b, s, f)),
        !bank_pass(b, bank_run(b, s, f), 0).1,
    decreases f,
{
    lemma_pass_good(b, s, 0);
    if !bank_pass(b, s, 0).1 {
        lemma_run_fixed(b, s, f);
    } else {
        lemma_run_reaches_fixed(b, bank_pass(b, s, 0).0, (f - 1) as nat);
    }
}

proof fn lemma_start_good(b: BankModel)
    requires
        0 <= b.n <= usize::MAX,
    ensures
        bank_good(b, bank_start(b)),
        count_false(bank_start(b).finish) == b.n,
{
    let s = bank_start(b);
    assert(s.work =~= work_after(b, s.order));
    lemma_count_false_all(b.n as nat);
}

proof fn lemma_final_state(b: BankModel)
    requires
        0 <= b.n <= usize::MAX,
    ensures
        bank_good(b, bank_final(b)),
        bank_pass(b, bank_final(b), 0).0 == bank_final(b),
        forall|k: int| 0 <= k < b.n ==> #[trigger] bank_final(b).finish[k] || !fits(b, k, bank_final(b).work),
{
    lemma_start_good(b);
    lemma_run_reaches_fixed(b, bank_start(b), (b.n + 1) as nat);
    lemma_pass_good(b, bank_final(b), 0);
}

/// Soundness of the safety check: a returned sequence is a safe sequence.
pub proof fn lemma_safety_sound(b: BankModel)
    requires
        0 <= b.n <= usize::MAX,
    ensures
        safety_result(b) matches Some(seq) ==> is_safe_sequence(b, seq),
{
    lemma_final_state(b);
    let f = bank_final(b);
    if forall|i: int| 0 <= i < b.n ==> #[trigger] f.finish[i] {
        let seq = f.order;
        // The order holds exactly the indices below n, once each.
        let full = Set::new(|x: usize| x < b.n);
        assert(seq.to_set() =~= full) by {
            assert forall|x: usize| seq.to_set().contains(x) <==> full.contains(x) by {
                if seq.to_set().contains(x) {
                    let k = choose|k: int| 0 <= k < seq.len() && seq[k] == x;
                }
                if full.contains(x) {
                    assert(f.finish[x as int]);
                }
            }
        }
        seq.unique_seq_to_set();
        lemma_usize_range_finite_len(b.n);
    }
}

/// The first position of `seq` whose process is unfinished.
proof fn first_unfinished(seq: Seq<usize>, finish: Seq<bool>, k: int) -> (r: int)
    requires
        0 <= k <= seq.len(),
        exists|q: int| k <= q < seq.len() && !finish[seq[q] as int],
    ensures
        k <= r < seq.len(),
        !finish[seq[r] as int],
        forall|q: int| k <= q < r ==> finish[#[trigger] seq[q] as int],
    decreases seq.len() - k,
{
    if !finish[seq[k] as int] {
        k
    } else {
        first_unfinished(seq, finish, k + 1)
    }
}

/// Completeness of the safety check: when it finds no sequence, there is none.
pub proof fn lemma_safety_complete(b: BankModel)
    requires
        bank_wf(b),
        b.n <= usize::MAX,
    ensures
        safety_result(b) is None ==> !safe_state(b),
{
    lemma_final_state(b);
    let f = bank_final(b);
    if safety_result(b) is None && safe_state(b) {
        let seq = choose|seq: Seq<usize>| is_safe_sequence(b, seq);
        let u = choose|i: int| 0 <= i < b.n && !f.finish[i];
        // u occurs in seq, since seq lists all n processes once each.
        let full = Set::new(|x: usize| x < b.n);
        assert(seq.to_set() =~= full) by {
            seq.unique_seq_to_set();
            lemma_usize_range_finite_len(b.n);
            assert forall|x: usize| seq.to_set().contains(x) implies full.contains(x) by {
                let k = choose|k: int| 0 <= k < seq.len() && seq[k] == x;
            }
            assert(seq.to_set().subset_of(full));
            vstd::set_lib::lemma_subset_equality(seq.to_set(), full);
        }
        assert(full.contains(u as usize));
        let qu = choose|q: int| 0 <= q < seq.len() && seq[q] == u as usize;
        let k = first_unfinished(seq, f.finish, 0);
        let pre = seq.take(k);
        assert forall|q: int| 0 <= q < pre.len() implies f.order.contains(#[trigger] pre[q]) by {
            assert(pre[q] == seq[q]);
            assert(f.finish[seq[q] as int]);
        }
        assert forall|x: int, y: int| 0 <= x < y < pre.len() implies pre[x] != pre[y] by {
            assert(pre[x] == seq[x] && pre[y] == seq[y]);
        }
        assert(fits(b, seq[k] as int, work_after(b, pre)));
        assert(fits(b, seq[k] as int, f.work)) by {
            assert forall|j: int| 0 <= j < b.m implies need_of(b, seq[k] as int, j) <= #[trigger] f.work[j] by {
                lemma_alloc_sum_subset(b, pre, f.order, j);
                assert(work_after(b, pre)[j] <= work_after(b, f.order)[j]);
            }
        }
    }
}

/// The first resource (from `j` on) on which a request fails: `Some(true)` when it
/// exceeds the process's remaining need, `Some(false)` when it exceeds what is
/// available; `None` when it fails on none.
pub open spec fn request_check(b: BankModel, p: int, req: Seq<usize>, j: int) -> Option<bool>
    decreases b.m - j,
{
    if j < 0 || j >= b.m {
        None
    } else if req[j] > need_of(b, p, j) {
        Some(true)
    } else if req[j] > b.available[j] {
        Some(false)
    } else {
        request_check(b, p, req, j + 1)
    }
}

/// The state after granting `req` to process `p`.
pub open spec fn granted(b: BankModel, p: int, req: Seq<usize>) -> BankModel {
    BankModel {
        available: Seq::new(b.available.len(), |j: int| if j < b.m { (b.available[j] - req[j]) as usize } else { b.available[j] }),
        alloc: b.alloc.update(p, Seq::new(b.alloc[p].len(), |j: int| if j < b.m { (b.alloc[p][j] + req[j]) as usize } else { b.alloc[p][j] })),
        ..b
    }
}

proof fn lemma_request_check(b: BankModel, p: int, req: Seq<usize>, j: int)
    requires
        0 <= j,
    ensures
        request_check(b, p, req, j) is None ==> forall|q: int| j <= q < b.m ==> #[trigger] req[q] <= need_of(b, p, q) && req[q] <= b.available[q],
    decreases b.m - j,
{
    if j < b.m && req[j] <= need_of(b, p, j) && req[j] <= b.available[j] {
        lemma_request_check(b, p, req, j + 1);
    }
}

proof fn lemma_granted_sum(b: BankModel, p: int, req: Seq<usize>, k: int, j: int)
    requires
        0 <= p < b.n,
        0 <= j < b.m,
        0 <= k <= b.n <= usize::MAX,
        bank_wf(b),
        req[j] <= need_of(b, p, j),
    ensures
        alloc_sum(granted(b, p, req), all_procs(k), j) == alloc_sum(b, all_procs(k), j) + if p < k { req[j] as int } else { 0int },
    decreases k,
{
    if k > 0 {
        assert(all_procs(k).drop_last() =~= all_procs(k - 1));
        lemma_granted_sum(b, p, req, k - 1, j);
    }
}

/// Granting a request that passes the checks keeps the matrices well formed and the totals fitting.
proof fn lemma_granted_wf(b: BankModel, p: int, req: Seq<usize>)
    requires
        bank_wf(b),
        bank_totals_fit(b),
        0 <= p < b.n <= usize::MAX,
        req.len() >= b.m,
        request_check(b, p, req, 0) is None,
    ensures
        bank_wf(granted(b, p, req)),
        bank_totals_fit(granted(b, p, req)),
{
    lemma_request_check(b, p, req, 0);
    let g = granted(b, p, req);
    assert forall|i: int, j: int| 0 <= i < g.n && 0 <= j < g.m implies #[trigger] g.alloc[i][j] <= g.max[i][j] by {
        if i == p {
            assert(req[j] <= need_of(b, p, j));
        }
    }
    assert forall|i: int| 0 <= i < g.n implies #[trigger] g.alloc[i].len() >= g.m by {
        assert(b.alloc[i].len() >= b.m);
    }
    assert forall|j: int| 0 <= j < g.m implies g.available[j] + #[trigger] alloc_sum(g, all_procs(g.n), j) <= usize::MAX by {
        lemma_granted_sum(b, p, req, b.n, j);
        assert(req[j] <= b.available[j]);
        assert(b.available[j] + alloc_sum(b, all_procs(b.n), j) <= usize::MAX);
    }
}

/// A granted request always leaves the system in a safe state.
pub proof fn lemma_granted_is_safe(b: BankModel, p: int, req: Seq<usize>)
    requires
        0 <= b.n <= usize::MAX,
        safety_result(granted(b, p, req)) is Some,
    ensures
        safe_state(granted(b, p, req)),
{
    lemma_safety_sound(granted(b, p, req));
}

impl BankersAlgorithm {
    pub fn new(available: Vec<usize>, max_demand: Vec<Vec<usize>>, allocation: Vec<Vec<usize>>) -> (r: Self)
        ensures
            r.num_processes == max_demand@.len(),
            r.num_resources == available@.len(),
            r.available@ == available@,
            r.max_demand@ == max_demand@,
            r.allocation@ == allocation@,
    {
        let num_processes = max_demand.len();
        let num_resources = available.len();
        BankersAlgorithm { num_processes, num_resources, available, max_demand, allocation }
    }

    /// Compute the need matrix (max - allocation).
    pub fn need(&self) -> (r: Vec<Vec<usize>>)
        requires
            bank_wf(self@),
        ensures
            r@.len() == self.num_processes,
            forall|i: int| 0 <= i < self.num_processes ==> (#[trigger] r@[i])@.len() == self.num_resources,
            forall|i: int, j: int| 0 <= i < self.num_processes && 0 <= j < self.num_resources ==> #[trigger] r@[i]@[j] == need_of(self@, i, j),
    {
        let ghost b = self@;
        let mut need: Vec<Vec<usize>> = Vec::new();
        let mut i: usize = 0;
        while i < self.num_processes
            invariant
                b == self@,
                bank_wf(b),
                i <= self.num_processes,
                need@.len() == i,
                forall|k: int| 0 <= k < i ==> (#[trigger] need@[k])@.len() == self.num_resources,
                forall|k: int, j: int| 0 <= k < i && 0 <= j < self.num_resources ==> #[trigger] need@[k]@[j] == need_of(b, k, j),
            decreases self.num_processes - i,
        {
            let mut row: Vec<usize> = Vec::new();
            let mut j: usize = 0;
            while j < self.num_resources
                invariant
                    b == self@,
                    bank_wf(b),
                    i < self.num_processes,
                    j <= self.num_resources,
                    row@.len() == j,
                    forall|q: int| 0 <= q < j ==> #[trigger] row@[q] == need_of(b, i as int, q),
                decreases self.num_resources - j,
            {
                proof {
                    assert(b.max[i as int] == self.max_demand@[i as int]@);
                    assert(b.alloc[i as int] == self.allocation@[i as int]@);
                    assert(b.alloc[i as int][j as int] <= b.max[i as int][j as int]);
                }
                row.push(self.max_demand[i][j] - self.allocation[i][j]);
                j = j + 1;
            }
            need.push(row);
            i = i + 1;
        }
        need
    }

    /// Check if the system is in a safe state. Returns the safe sequence if safe.
    pub fn is_safe(&self) -> (r: Option<Vec<usize>>)
        requires
            bank_wf(self@),
            bank_totals_fit(self@),
        ensures
            r matches Some(v) ==> safety_result(self@) == Some(v@),
            r is None ==> safety_result(self@) is None,
    {
        let ghost b = self@;
        let n = self.num_processes;
        let m = self.num_resources;
        let need = self.need();
        let mut work = self.available.clone();
        let mut finish = all_false(n);
        let mut safe_seq: Vec<usize> = Vec::new();
        let mut found = true;
        let ghost mut passes: nat = 0;
        let ghost start = bank_start(b);
        proof {
            lemma_start_good(b);
            assert(ints(work@) =~= start.work);
            assert(finish@ =~= start.finish);
            assert(safe_seq@ =~= start.order);
        }
        while found
            invariant
                b == self@,
                bank_wf(b),
                bank_totals_fit(b),
                n == b.n,
                m == b.m,
                start == bank_start(b),
                need@.len() == n,
                forall|i: int| 0 <= i < n ==> (#[trigger] need@[i])@.len() == m,
                forall|i: int, j: int| 0 <= i < n && 0 <= j < m ==> #[trigger] need@[i]@[j] == need_of(b, i, j),
                bank_good(b, run_state(work@, finish@, safe_seq@)),
                work@.len() == b.available.len(),
                run_state(work@, finish@, safe_seq@) == bank_run(b, start, passes),
                found ==> passes + count_false(finish@) <= n,
                !found ==> passes + count_false(finish@) <= n + 1,
                !found ==> bank_pass(b, run_state(work@, finish@, safe_seq@), 0).0
                    == run_state(work@, finish@, safe_seq@),
            decreases count_false(finish@) + if found { 1int } else { 0int },
        {
            let ghost s0 = run_state(work@, finish@, safe_seq@);
            let ghost target = bank_pass(b, s0, 0);
            proof {
                lemma_pass_good(b, s0, 0);
                lemma_run_split(b, start, passes, 1);
                assert(bank_run(b, bank_pass(b, s0, 0).0, 0) == bank_pass(b, s0, 0).0);
                assert(bank_run(b, s0, 1) == bank_pass(b, s0, 0).0);
            }
            found = false;
            let mut i: usize = 0;
            while i < n
                invariant
                    b == self@,
                    bank_wf(b),
                    bank_totals_fit(b),
                    n == b.n,
                    m == b.m,
                    i <= n,
                    need@.len() == n,
                    forall|k: int| 0 <= k < n ==> (#[trigger] need@[k])@.len() == m,
                    forall|k: int, j: int| 0 <= k < n && 0 <= j < m ==> #[trigger] need@[k]@[j] == need_of(b, k, j),
                    work@.len() == b.available.len(),
                    bank_good(b, run_state(work@, finish@, safe_seq@)),
                    bank_pass(b, run_state(work@, finish@, safe_seq@), i as int).0 == target.0,
                    target.1 == (found || bank_pass(b, run_state(work@, finish@, safe_seq@), i as int).1),
                    count_false(finish@) <= count_false(s0.finish),
                    found ==> count_false(finish@) < count_false(s0.finish),
                    !found ==> run_state(work@, finish@, safe_seq@) == s0,
                decreases n - i,
            {
                let ghost cur = run_state(work@, finish@, safe_seq@);
                if !finish[i] {
                    let mut can = true;
                    let mut j: usize = 0;
                    while j < m
                        invariant
                            m == b.m,
                            n == b.n,
                            i < n,
                            j <= m,
                            need@.len() == n,
                            (need@[i as int])@.len() == m,
                            forall|q: int| 0 <= q < m ==> #[trigger] need@[i as int]@[q] == need_of(b, i as int, q),
                            work@.len() == b.available.len(),
                            bank_wf(b),
                            can == forall|q: int| 0 <= q < j ==> need_of(b, i as int, q) <= #[trigger] ints(work@)[q],
                        decreases m - j,
                    {
                        proof {
                            assert(ints(work@)[j as int] == work@[j as int] as int);
                        }
                        if need[i][j] > work[j] {
                            can = false;
                        }
                        j = j + 1;
                    }
                    if can {
                        proof {
                            assert(fits(b, i as int, cur.work));
                            assert(!cur.order.contains(i as usize));
                        }
                        let ghost o2 = safe_seq@.push(i);
                        proof {
                            assert forall|u: int, v: int| 0 <= u < v < o2.len() implies o2[u] != o2[v] by {
                                if v == safe_seq@.len() {
                                    assert(safe_seq@.contains(safe_seq@[u]));
                                }
                            }
                        }
                        let mut j: usize = 0;
                        while j < m
                            invariant
                                m == b.m,
                                n == b.n,
                                i < n,
                                j <= m,
                                b == self@,
                                bank_wf(b),
                                bank_totals_fit(b),
                                work@.len() == b.available.len(),
                                cur.work == work_after(b, cur.order),
                                cur.order == safe_seq@,
                                o2 == safe_seq@.push(i),
                                o2.no_duplicates(),
                                forall|k: int| 0 <= k < o2.len() ==> #[trigger] o2[k] < b.n,
                                forall|q: int| 0 <= q < work@.len() ==> #[trigger] ints(work@)[q] == if q < j { release(b, i as int, cur.work)[q] } else { cur.work[q] },
                            decreases m - j,
                        {
                            proof {
                                lemma_order_within_totals(b, o2, j as int);
                                lemma_release_work_after(b, safe_seq@, i);
                                assert(release(b, i as int, cur.work)[j as int] == work_after(b, o2)[j as int]);
                                assert(b.alloc[i as int] == self.allocation@[i as int]@);
                                assert(b.alloc.len() == self.allocation@.len());
                                assert(b.alloc[i as int].len() >= m);
                                assert(ints(work@)[j as int] == work@[j as int]);
                            }
                            let a = self.allocation[i][j];
                            let ghost w0 = work@;
                            work.set(j, work[j] + a);
                            proof {
                                assert forall|q: int| 0 <= q < work@.len() implies #[trigger] ints(work@)[q] == if q < j + 1 { release(b, i as int, cur.work)[q] } else { cur.work[q] } by {
                                    if q != j {
                                        assert(ints(work@)[q] == ints(w0)[q]);
                                    }
                                }
                            }
                            j = j + 1;
                        }
                        proof {
                            assert(ints(work@) =~= release(b, i as int, cur.work));
                            lemma_count_false_update(finish@, i as int);
                        }
                        finish.set(i, true);
                        safe_seq.push(i);
                        found = true;
                        proof {
                            let nxt = run_state(work@, finish@, safe_seq@);
                            assert(nxt == (BankRun { work: release(b, i as int, cur.work), finish: cur.finish.update(i as int, true), order: cur.order.push(i) }));
                            lemma_finish_one_good(b, cur, i as int);
                            lemma_pass_good(b, cur, i as int);
                        }
                    } else {
                        proof {
                            assert(!fits(b, i as int, cur.work)) by {
                                let q = choose|q: int| 0 <= q < m && !(need_of(b, i as int, q) <= #[trigger] ints(work@)[q]);
                            }
                        }
                    }
                }
                i = i + 1;
            }
            proof {
                let s1 = run_state(work@, finish@, safe_seq@);
                assert(s1 == target.0);
                passes = passes + 1;
                if !found {
                    assert(s1 == s0);
                    assert(!target.1);
                }
            }
        }
        proof {
            let cur = run_state(work@, finish@, safe_seq@);
            lemma_run_split(b, start, passes, (n + 1 - passes) as nat);
            lemma_run_fixed(b, cur, (n + 1 - passes) as nat);
            assert(bank_final(b) == cur);
        }
        let mut all = true;
        let mut k: usize = 0;
        while k < n
            invariant
                k <= n,
                finish@.len() == n,
                all == forall|q: int| 0 <= q < k ==> #[trigger] finish@[q],
            decreases n - k,
        {
            if !finish[k] {
                all = false;
            }
            k = k + 1;
        }
        if all {
            Some(safe_seq)
        } else {
            None
        }
    }

    /// Request resources for a process: refused when it exceeds the process's remaining
    /// need or what is available (checked resource by resource, need first), or when
    /// granting it would leave the system unsafe; otherwise the state after granting it.
    pub fn request(&self, process: usize, request: Vec<usize>) -> (r: Result<BankersAlgorithm, String>)
        requires
            bank_wf(self@),
            bank_totals_fit(self@),
            process < self.num_processes,
            request@.len() >= self.num_resources,
        ensures
            match request_check(self@, process as int, request@, 0) {
                Some(true) => r matches Err(e) && e@ == "Request exceeds maximum need"@,
                Some(false) => r matches Err(e) && e@ == "Resources not available"@,
                None => if safety_result(granted(self@, process as int, request@)) is Some {
                    r matches Ok(s) && s@ == granted(self@, process as int, request@)
                } else {
                    r matches Err(e) && e@ == "Request would lead to unsafe state"@
                },
            },
    {
        let ghost b = self@;
        let m = self.num_resources;
        let need = self.need();
        let mut j: usize = 0;
        while j < m
            invariant
                b == self@,
                bank_wf(b),
                m == b.m,
                j <= m,
                process < b.n,
                request@.len() >= m,
                need@.len() == b.n,
                forall|i: int| 0 <= i < b.n ==> (#[trigger] need@[i])@.len() == m,
                forall|i: int, q: int| 0 <= i < b.n && 0 <= q < m ==> #[trigger] need@[i]@[q] == need_of(b, i, q),
                request_check(b, process as int, request@, 0) == request_check(b, process as int, request@, j as int),
            decreases m - j,
        {
            if request[j] > need[process][j] {
                return Err("Request exceeds maximum need".to_owned());
            }
            if request[j] > self.available[j] {
                return Err("Resources not available".to_owned());
            }
            j = j + 1;
        }
        proof {
            lemma_request_check(b, process as int, request@, 0);
            lemma_granted_wf(b, process as int, request@);
        }
        let ghost g = granted(b, process as int, request@);
        let mut new_available = self.available.clone();
        let mut new_allocation: Vec<Vec<usize>> = Vec::new();
        let mut i: usize = 0;
        while i < self.allocation.len()
            invariant
                i <= self.allocation@.len(),
                rows(new_allocation@) =~= rows(self.allocation@.take(i as int)),
            decreases self.allocation@.len() - i,
        {
            let row = self.allocation[i].clone();
            proof {
                assert(row@ =~= self.allocation@[i as int]@);
            }
            let ghost before = new_allocation@;
            new_allocation.push(row);
            proof {
                assert(self.allocation@.take(i + 1) =~= self.allocation@.take(i as int).push(self.allocation@[i as int]));
                assert(rows(new_allocation@) =~= rows(before).push(row@));
                assert(rows(self.allocation@.take(i + 1)) =~= rows(self.allocation@.take(i as int)).push(self.allocation@[i as int]@));
            }
            i = i + 1;
        }
        proof {
            assert(self.allocation@.take(i as int) =~= self.allocation@);
        }
        let mut prow = self.allocation[process].clone();
        let mut j: usize = 0;
        while j < m
            invariant
                b == self@,
                bank_wf(b),
                m == b.m,
                j <= m,
                process < b.n,
                request@.len() >= m,
                forall|q: int| 0 <= q < m ==> #[trigger] request@[q] <= need_of(b, process as int, q) && request@[q] <= b.available[q],
                new_available@.len() == b.available.len(),
                prow@.len() == b.alloc[process as int].len(),
                forall|q: int| 0 <= q < new_available@.len() ==> #[trigger] new_available@[q] == if q < j { g.available[q] } else { b.available[q] },
                forall|q: int| 0 <= q < prow@.len() ==> #[trigger] prow@[q] == if q < j { g.alloc[process as int][q] } else { b.alloc[process as int][q] },
                g == granted(b, process as int, request@),
            decreases m - j,
        {
            proof {
                assert(b.alloc[process as int].len() >= m);
                assert(b.max[process as int].len() >= m);
                assert(b.alloc[process as int][j as int] <= b.max[process as int][j as int]);
            }
            let ghost (a0, r0) = (new_available@, prow@);
            new_available.set(j, new_available[j] - request[j]);
            prow.set(j, prow[j] + request[j]);
            proof {
                assert forall|q: int| 0 <= q < new_available@.len() implies #[trigger] new_available@[q] == if q < j + 1 { g.available[q] } else { b.available[q] } by {
                    if q != j {
                        assert(new_available@[q] == a0[q]);
                    }
                }
                assert forall|q: int| 0 <= q < prow@.len() implies #[trigger] prow@[q] == if q < j + 1 { g.alloc[process as int][q] } else { b.alloc[process as int][q] } by {
                    if q != j {
                        assert(prow@[q] == r0[q]);
                    }
                }
            }
            j = j + 1;
        }
        proof {
            assert(prow@ =~= g.alloc[process as int]);
            assert(rows(new_allocation@) =~= b.alloc);
        }
        let ghost before = new_allocation@;
        new_allocation.set(process, prow);
        proof {
            assert(rows(new_allocation@) =~= rows(before).update(process as int, prow@));
        }
        let new_state = BankersAlgorithm {
            num_processes: self.num_processes,
            num_resources: self.num_resources,
            available: new_available,
            max_demand: self.max_demand.clone(),
            allocation: new_allocation,
        };
        proof {
            assert(new_state@.available =~= g.available);
            assert(new_state@.alloc =~= g.alloc);
            assert(new_state@.max =~= g.max);
            assert(new_state@ == g);
        }
        if new_state.is_safe().is_some() {
            Ok(new_state)
        } else {
            Err("Request would lead to unsafe state".to_owned())
        }
    }
}

} // verus!
