use vstd::prelude::*;
use crate::util::{sum, lemma_sum_append, lemma_sum_nonneg, sort_ascending, usize_le, lemma_usize_le_total};

verus! {

/// Disk scheduling result.
#[derive(Clone, Debug)]
pub struct DiskScheduleResult {
    pub order: Vec<usize>,
    pub total_seek_distance: usize,
    pub seek_sequence: Vec<usize>,
}

/// Head movement between two cylinders.
pub open spec fn dist(a: int, b: int) -> int {
    if a >= b {
        a - b
    } else {
        b - a
    }
}

/// The seek distances of a head that starts at `from` and visits `path` in order.
pub open spec fn seek_seq(from: int, path: Seq<usize>) -> Seq<int> {
    Seq::new(
        path.len(),
        |k: int| dist(if k == 0 { from } else { path[k - 1] as int }, path[k] as int),
    )
}

/// Where the head stands after visiting `path` from `from`.
pub open spec fn ends_at(from: int, path: Seq<usize>) -> int {
    if path.len() == 0 {
        from
    } else {
        path.last() as int
    }
}

/// Integer view of a sequence of `usize`.
pub open spec fn ints(s: Seq<usize>) -> Seq<int> {
    s.map_values(|x: usize| x as int)
}

/// Every cylinder number converts to `isize`.
pub open spec fn cylinders_ok(s: Seq<usize>) -> bool {
    forall|i: int| 0 <= i < s.len() ==> s[i] <= isize::MAX
}

pub open spec fn below(start: usize) -> spec_fn(usize) -> bool {
    |r: usize| r < start
}

pub open spec fn at_or_above(start: usize) -> spec_fn(usize) -> bool {
    |r: usize| r >= start
}

/// Requests below the start cylinder, in ascending order.
pub open spec fn lower_sorted(start: usize, requests: Seq<usize>) -> Seq<usize> {
    requests.filter(below(start)).sort_by(usize_le())
}

/// Requests at or above the start cylinder, in ascending order.
pub open spec fn upper_sorted(start: usize, requests: Seq<usize>) -> Seq<usize> {
    requests.filter(at_or_above(start)).sort_by(usize_le())
}

/// The positions the head passes through under SCAN, turning points included.
pub open spec fn scan_head_path(
    start: usize,
    requests: Seq<usize>,
    max_cylinder: usize,
    direction: bool,
) -> Seq<usize> {
    let left = lower_sorted(start, requests);
    let right = upper_sorted(start, requests);
    if direction {
        right + (if left.len() > 0 { seq![max_cylinder] } else { Seq::empty() }) + left.reverse()
    } else {
        left.reverse() + (if right.len() > 0 { seq![0usize] } else { Seq::empty() }) + right
    }
}

/// The order in which SCAN services the requests.
pub open spec fn scan_order(
    start: usize,
    requests: Seq<usize>,
    direction: bool,
) -> Seq<usize> {
    let left = lower_sorted(start, requests);
    let right = upper_sorted(start, requests);
    if direction {
        right + left.reverse()
    } else {
        left.reverse() + right
    }
}

/// The seek distances of C-SCAN: up through the upper requests, a wrap to the
/// top and back to cylinder 0 counted as one seek, then up through the lower ones.
pub open spec fn cscan_seeks(start: usize, requests: Seq<usize>, max_cylinder: usize) -> Seq<int> {
    let left = lower_sorted(start, requests);
    let right = upper_sorted(start, requests);
    if left.len() > 0 {
        seek_seq(start as int, right) + seq![
            dist(ends_at(start as int, right), max_cylinder as int) + max_cylinder,
        ] + seek_seq(0, left)
    } else {
        seek_seq(start as int, right)
    }
}

/// The index of the first request nearest to `cur`.
pub open spec fn is_first_nearest(cur: int, rem: Seq<usize>, i: int) -> bool {
    &&& 0 <= i < rem.len()
    &&& forall|j: int| 0 <= j < rem.len() ==> dist(cur, rem[i] as int) <= dist(cur, rem[j] as int)
    &&& forall|j: int| 0 <= j < i ==> dist(cur, rem[j] as int) > dist(cur, rem[i] as int)
}

pub open spec fn first_nearest(cur: int, rem: Seq<usize>) -> int {
    choose|i: int| is_first_nearest(cur, rem, i)
}

/// The order in which SSTF services the requests: always the nearest remaining
/// request, the earliest one among equally near requests.
pub open spec fn sstf_order(cur: int, rem: Seq<usize>) -> Seq<usize>
    decreases rem.len(),
{
    if rem.len() == 0 {
        Seq::empty()
    } else {
        let i = first_nearest(cur, rem);
        if 0 <= i < rem.len() {
            seq![rem[i]] + sstf_order(rem[i] as int, rem.remove(i))
        } else {
            Seq::empty()
        }
    }
}

pub proof fn lemma_first_nearest_unique(cur: int, rem: Seq<usize>, i: int)
    requires
        is_first_nearest(cur, rem, i),
    ensures
        first_nearest(cur, rem) == i,
{
    let k = first_nearest(cur, rem);
    assert(is_first_nearest(cur, rem, k));
    if k < i {
        assert(dist(cur, rem[k] as int) > dist(cur, rem[i] as int));
    } else if k > i {
        assert(dist(cur, rem[i] as int) > dist(cur, rem[k] as int));
    }
}

proof fn lemma_seek_seq_take(from: int, path: Seq<usize>, k: int)
    requires
        0 <= k < path.len(),
    ensures
        seek_seq(from, path.take(k + 1)) =~= seek_seq(from, path.take(k)).push(
            dist(ends_at(from, path.take(k)), path[k] as int),
        ),
{
}

proof fn lemma_seek_seq_prefix(from: int, path: Seq<usize>, k: int)
    requires
        0 <= k <= path.len(),
    ensures
        seek_seq(from, path).take(k) =~= seek_seq(from, path.take(k)),
{
}

proof fn lemma_sum_prefix_le(s: Seq<int>, k: int)
    requires
        0 <= k <= s.len(),
        forall|i: int| 0 <= i < s.len() ==> s[i] >= 0,
    ensures
        sum(s.take(k)) <= sum(s),
{
    assert(s =~= s.take(k) + s.skip(k));
    lemma_sum_append(s.take(k), s.skip(k));
    lemma_sum_nonneg(s.skip(k));
}

proof fn lemma_seek_seq_nonneg(from: int, path: Seq<usize>)
    ensures
        forall|i: int| 0 <= i < seek_seq(from, path).len() ==> seek_seq(from, path)[i] >= 0,
{
}

fn abs_diff(a: usize, b: usize) -> (r: usize)
    ensures
        r == dist(a as int, b as int),
{
    if a >= b {
        a - b
    } else {
        b - a
    }
}

/// Moves the head from `current` through `path`, recording what it services.
fn service(
    path: &[usize],
    current: usize,
    total: usize,
    order: &mut Vec<usize>,
    seeks: &mut Vec<usize>,
) -> (r: (usize, usize))
    requires
        current <= isize::MAX,
        cylinders_ok(path@),
        total + sum(seek_seq(current as int, path@)) <= usize::MAX,
    ensures
        final(order)@ == old(order)@ + path@,
        ints(final(seeks)@) == ints(old(seeks)@) + seek_seq(current as int, path@),
        r.0 == ends_at(current as int, path@),
        r.1 == total + sum(seek_seq(current as int, path@)),
{
    let ghost s = seek_seq(current as int, path@);
    let ghost order0 = order@;
    let ghost seeks0 = ints(seeks@);
    let mut cur = current;
    let mut tot = total;
    let mut k: usize = 0;
    proof {
        assert(path@.take(0) =~= Seq::<usize>::empty());
        assert(s.take(0) =~= Seq::<int>::empty());
        assert(seeks0 + s.take(0) =~= seeks0);
        assert(order0 + path@.take(0) =~= order0);
        lemma_seek_seq_nonneg(current as int, path@);
        lemma_sum_prefix_le(s, s.len() as int);
    }
    while k < path.len()
        invariant
            k <= path.len(),
            s == seek_seq(current as int, path@),
            forall|i: int| 0 <= i < s.len() ==> s[i] >= 0,
            total + sum(s) <= usize::MAX,
            current <= isize::MAX,
            cylinders_ok(path@),
            order@ == order0 + path@.take(k as int),
            ints(seeks@) == seeks0 + s.take(k as int),
            cur == ends_at(current as int, path@.take(k as int)),
            tot == total + sum(s.take(k as int)),
        decreases path.len() - k,
    {
        let r = path[k];
        let d = abs_diff(cur, r);
        proof {
            lemma_seek_seq_take(current as int, path@, k as int);
            lemma_seek_seq_prefix(current as int, path@, k as int);
            lemma_seek_seq_prefix(current as int, path@, k as int + 1);
            assert(s.take(k + 1) =~= s.take(k as int).push(d as int));
            assert(s.take(k + 1).drop_last() =~= s.take(k as int));
            assert(sum(s.take(k + 1)) == sum(s.take(k as int)) + d);
            lemma_sum_prefix_le(s, k + 1);
        }
        tot = tot + d;
        let ghost prev = seeks@;
        seeks.push(d);
        order.push(r);
        cur = r;
        proof {
            assert(ints(seeks@) =~= ints(prev).push(d as int));
            assert(path@.take(k + 1) =~= path@.take(k as int).push(r));
        }
        k = k + 1;
    }
    proof {
        assert(path@.take(k as int) =~= path@);
        assert(s.take(k as int) =~= s);
    }
    (cur, tot)
}

fn reversed(v: &Vec<usize>) -> (r: Vec<usize>)
    ensures
        r@ == v@.reverse(),
{
    let mut r: Vec<usize> = Vec::new();
    let mut k: usize = v.len();
    while k > 0
        invariant
            k <= v.len(),
            r@ =~= v@.subrange(k as int, v.len() as int).reverse(),
        decreases k,
    {
        k = k - 1;
        r.push(v[k]);
    }
    r
}

/// Splits the requests by `start`, each half in ascending order.
fn split_sorted(start: usize, requests: &[usize]) -> (r: (Vec<usize>, Vec<usize>))
    ensures
        r.0@ == lower_sorted(start, requests@),
        r.1@ == upper_sorted(start, requests@),
        cylinders_ok(requests@) ==> cylinders_ok(r.0@) && cylinders_ok(r.1@),
{
    let mut left: Vec<usize> = Vec::new();
    let mut right: Vec<usize> = Vec::new();
    let mut k: usize = 0;
    while k < requests.len()
        invariant
            k <= requests.len(),
            forall|x: usize| left@.contains(x) ==> requests@.contains(x),
            forall|x: usize| right@.contains(x) ==> requests@.contains(x),
            left@ == requests@.take(k as int).filter(below(start)),
            right@ == requests@.take(k as int).filter(at_or_above(start)),
        decreases requests.len() - k,
    {
        let r = requests[k];
        proof {
            assert(requests@.take(k + 1) =~= requests@.take(k as int).push(r));
            requests@.take(k as int).lemma_filter_push(r, below(start));
            requests@.take(k as int).lemma_filter_push(r, at_or_above(start));
        }
        let ghost l0 = left@;
        let ghost r0 = right@;
        if r < start {
            left.push(r);
        } else {
            right.push(r);
        }
        proof {
            assert(requests@[k as int] == r);
            assert forall|x: usize| left@.contains(x) implies requests@.contains(x) by {
                if x == r { assert(requests@[k as int] == x); } else {
                    if r < start {
                        let i = choose|i: int| 0 <= i < left@.len() && left@[i] == x;
                        assert(l0[i] == x);
                    }
                }
            }
            assert forall|x: usize| right@.contains(x) implies requests@.contains(x) by {
                if x == r { assert(requests@[k as int] == x); } else {
                    if r >= start {
                        let i = choose|i: int| 0 <= i < right@.len() && right@[i] == x;
                        assert(r0[i] == x);
                    }
                }
            }
        }
        k = k + 1;
    }
    proof {
        assert(requests@.take(k as int) =~= requests@);
    }
    let l = sort_ascending(&left);
    let u = sort_ascending(&right);
    proof {
        if cylinders_ok(requests@) {
            assert forall|i: int| 0 <= i < l@.len() implies l@[i] <= isize::MAX by {
                assert(l@.contains(l@[i]));
                let j = choose|j: int| 0 <= j < requests@.len() && requests@[j] == l@[i];
            }
            assert forall|i: int| 0 <= i < u@.len() implies u@[i] <= isize::MAX by {
                assert(u@.contains(u@[i]));
                let j = choose|j: int| 0 <= j < requests@.len() && requests@[j] == u@[i];
            }
        }
    }
    (l, u)
}

proof fn lemma_seek_seq_concat(from: int, a: Seq<usize>, b: Seq<usize>)
    ensures
        seek_seq(from, a + b) =~= seek_seq(from, a) + seek_seq(ends_at(from, a), b),
        ends_at(from, a + b) == ends_at(ends_at(from, a), b),
{
    if b.len() > 0 {
        assert((a + b).last() == b.last());
    } else {
        assert(a + b =~= a);
    }
}

proof fn lemma_sum3_nonneg(a: Seq<int>, b: Seq<int>, c: Seq<int>)
    requires
        forall|i: int| 0 <= i < a.len() ==> a[i] >= 0,
        forall|i: int| 0 <= i < b.len() ==> b[i] >= 0,
        forall|i: int| 0 <= i < c.len() ==> c[i] >= 0,
    ensures
        sum(a + b + c) == sum(a) + sum(b) + sum(c),
        sum(a) >= 0,
        sum(b) >= 0,
        sum(c) >= 0,
{
    lemma_sum_append(a + b, c);
    lemma_sum_append(a, b);
    lemma_sum_nonneg(a);
    lemma_sum_nonneg(b);
    lemma_sum_nonneg(c);
}

proof fn lemma_cylinders_ok_reverse(s: Seq<usize>)
    requires
        cylinders_ok(s),
    ensures
        cylinders_ok(s.reverse()),
{
    assert forall|i: int| 0 <= i < s.reverse().len() implies s.reverse()[i] <= isize::MAX by {
        assert(s.reverse()[i] == s[s.len() - 1 - i]);
    }
}

/// FCFS disk scheduling: requests are serviced in the order given.
pub fn disk_fcfs(start: usize, requests: &[usize]) -> (r: DiskScheduleResult)
    requires
        start <= isize::MAX,
        cylinders_ok(requests@),
        sum(seek_seq(start as int, requests@)) <= usize::MAX,
    ensures
        r.order@ == requests@,
        ints(r.seek_sequence@) == seek_seq(start as int, requests@),
        r.total_seek_distance == sum(seek_seq(start as int, requests@)),
{
    let mut order: Vec<usize> = Vec::new();
    let mut seeks: Vec<usize> = Vec::new();
    let (_cur, total) = service(requests, start, 0, &mut order, &mut seeks);
    proof {
        assert(order@ =~= requests@);
        assert(ints(seeks@) =~= seek_seq(start as int, requests@));
    }
    DiskScheduleResult { order, total_seek_distance: total, seek_sequence: seeks }
}

/// Index of the first remaining request nearest to `cur`.
fn nearest(cur: usize, rem: &Vec<usize>) -> (i: usize)
    requires
        rem.len() > 0,
    ensures
        is_first_nearest(cur as int, rem@, i as int),
{
    let mut best: usize = 0;
    let mut best_d = abs_diff(cur, rem[0]);
    let mut k: usize = 1;
    while k < rem.len()
        invariant
            0 <= best < k <= rem.len(),
            best_d == dist(cur as int, rem@[best as int] as int),
            forall|j: int| 0 <= j < k ==> best_d <= dist(cur as int, rem@[j] as int),
            forall|j: int| 0 <= j < best ==> dist(cur as int, rem@[j] as int) > best_d,
        decreases rem.len() - k,
    {
        let d = abs_diff(cur, rem[k]);
        if d < best_d {
            best = k;
            best_d = d;
        }
        k = k + 1;
    }
    best
}

proof fn lemma_sstf_len(cur: int, rem: Seq<usize>)
    ensures
        sstf_order(cur, rem).len() == rem.len(),
    decreases rem.len(),
{
    if rem.len() > 0 {
        let i = first_nearest(cur, rem);
        lemma_nearest_exists(cur, rem);
        lemma_sstf_len(rem[i] as int, rem.remove(i));
    }
}

proof fn lemma_nearest_exists(cur: int, rem: Seq<usize>)
    requires
        rem.len() > 0,
    ensures
        is_first_nearest(cur, rem, first_nearest(cur, rem)),
    decreases rem.len(),
{
    if rem.len() == 1 {
        assert(is_first_nearest(cur, rem, 0));
    } else {
        let sub = rem.drop_last();
        lemma_nearest_exists(cur, sub);
        let i = first_nearest(cur, sub);
        let l = rem.len() - 1;
        assert(forall|j: int| 0 <= j < l ==> sub[j] == rem[j]);
        if dist(cur, rem[l] as int) < dist(cur, rem[i] as int) {
            assert(is_first_nearest(cur, rem, l));
        } else {
            assert(is_first_nearest(cur, rem, i));
        }
    }
}

/// SSTF (shortest seek time first) disk scheduling: the head always moves to the
/// nearest pending request; among equally near ones, the earliest in `requests`.
pub fn disk_sstf(start: usize, requests: &[usize]) -> (r: DiskScheduleResult)
    requires
        start <= isize::MAX,
        cylinders_ok(requests@),
        sum(seek_seq(start as int, sstf_order(start as int, requests@))) <= usize::MAX,
    ensures
        r.order@ == sstf_order(start as int, requests@),
        ints(r.seek_sequence@) == seek_seq(start as int, sstf_order(start as int, requests@)),
        r.total_seek_distance == sum(seek_seq(start as int, sstf_order(start as int, requests@))),
{
    let mut remaining: Vec<usize> = Vec::new();
    let mut k: usize = 0;
    while k < requests.len()
        invariant
            k <= requests.len(),
            remaining@ == requests@.take(k as int),
        decreases requests.len() - k,
    {
        remaining.push(requests[k]);
        proof { assert(requests@.take(k + 1) =~= requests@.take(k as int).push(requests@[k as int])); }
        k = k + 1;
    }
    proof { assert(requests@.take(k as int) =~= requests@); }
    let ghost full = sstf_order(start as int, requests@);
    let ghost s = seek_seq(start as int, full);
    let mut order: Vec<usize> = Vec::new();
    let mut seeks: Vec<usize> = Vec::new();
    let mut current = start;
    let mut total: usize = 0;
    proof {
        lemma_sstf_len(start as int, requests@);
        lemma_seek_seq_nonneg(start as int, full);
        assert(order@ + sstf_order(current as int, remaining@) =~= full);
        assert(s.take(0) =~= Seq::<int>::empty());
    }
    while remaining.len() > 0
        invariant
            full == sstf_order(start as int, requests@),
            s == seek_seq(start as int, full),
            forall|i: int| 0 <= i < s.len() ==> s[i] >= 0,
            sum(s) <= usize::MAX,
            start <= isize::MAX,
            current <= isize::MAX,
            forall|i: int| 0 <= i < remaining@.len() ==> remaining@[i] <= isize::MAX,
            order@ + sstf_order(current as int, remaining@) == full,
            order@.len() + remaining@.len() == full.len(),
            current == ends_at(start as int, order@),
            ints(seeks@) == s.take(order@.len() as int),
            total == sum(s.take(order@.len() as int)),
        decreases remaining.len(),
    {
        let idx = nearest(current, &remaining);
        let ghost rem0 = remaining@;
        let ghost ord0 = order@;
        proof {
            lemma_first_nearest_unique(current as int, rem0, idx as int);
        }
        let next = remaining.remove(idx);
        let d = abs_diff(current, next);
        proof {
            let n = ord0.len() as int;
            assert(sstf_order(current as int, rem0) =~= seq![next] + sstf_order(next as int, remaining@));
            assert(full =~= ord0.push(next) + sstf_order(next as int, remaining@));
            assert(full[n] == next);
            assert(full.take(n) =~= ord0);
            assert(s[n] == d);
            assert(s.take(n + 1) =~= s.take(n).push(d as int));
            assert(s.take(n + 1).drop_last() =~= s.take(n));
            lemma_sum_prefix_le(s, n + 1);
        }
        let ghost prev = seeks@;
        seeks.push(d);
        total = total + d;
        order.push(next);
        current = next;
        proof {
            assert(ints(seeks@) =~= ints(prev).push(d as int));
            assert(order@ + sstf_order(current as int, remaining@) =~= full);
        }
    }
    proof {
        assert(order@ =~= full);
        assert(s.take(order@.len() as int) =~= s);
    }
    DiskScheduleResult { order, total_seek_distance: total, seek_sequence: seeks }
}

/// SCAN (elevator) disk scheduling: the head sweeps in `direction` (true: towards
/// higher cylinders) servicing requests, turns at the end of the disk, and sweeps back.
pub fn disk_scan(
    start: usize,
    requests: &[usize],
    max_cylinder: usize,
    direction: bool,
) -> (r: DiskScheduleResult)
    requires
        start <= isize::MAX,
        cylinders_ok(requests@),
        direction && lower_sorted(start, requests@).len() > 0 ==> max_cylinder <= isize::MAX,
        sum(seek_seq(start as int, scan_head_path(start, requests@, max_cylinder, direction)))
            <= usize::MAX,
    ensures
        r.order@ == scan_order(start, requests@, direction),
        ints(r.seek_sequence@) == seek_seq(
            start as int,
            scan_head_path(start, requests@, max_cylinder, direction),
        ),
        r.total_seek_distance == sum(
            seek_seq(start as int, scan_head_path(start, requests@, max_cylinder, direction)),
        ),
{
    let (left, right) = split_sorted(start, requests);
    let left_rev = reversed(&left);
    let ghost head = scan_head_path(start, requests@, max_cylinder, direction);
    let mut order: Vec<usize> = Vec::new();
    let mut seeks: Vec<usize> = Vec::new();
    proof {
        lemma_cylinders_ok_reverse(left@);
    }
    if direction {
        let ghost turn: Seq<usize> = if left.len() > 0 { seq![max_cylinder] } else { Seq::empty() };
        let ghost e1 = ends_at(start as int, right@);
        let ghost e2 = ends_at(e1, turn);
        proof {
            assert(head =~= right@ + turn + left_rev@);
            lemma_seek_seq_concat(start as int, right@ + turn, left_rev@);
            lemma_seek_seq_concat(start as int, right@, turn);
            lemma_seek_seq_nonneg(start as int, right@);
            lemma_seek_seq_nonneg(e1, turn);
            lemma_seek_seq_nonneg(e2, left_rev@);
            lemma_sum3_nonneg(seek_seq(start as int, right@), seek_seq(e1, turn), seek_seq(e2, left_rev@));
        }
        let (cur, tot) = service(&right, start, 0, &mut order, &mut seeks);
        let mut cur = cur;
        let mut tot = tot;
        if left.len() > 0 {
            let d = abs_diff(cur, max_cylinder);
            proof {
                assert(seek_seq(e1, turn) =~= seq![d as int]);
                assert(seq![d as int].drop_last() =~= Seq::<int>::empty());
                assert(sum(seq![d as int]) == sum(Seq::<int>::empty()) + d);
                assert(sum(seek_seq(e1, turn)) == d);
            }
            tot = tot + d;
            seeks.push(d);
            cur = max_cylinder;
        } else {
            proof { assert(seek_seq(e1, turn) =~= Seq::<int>::empty()); }
        }
        let (_c, t) = service(&left_rev, cur, tot, &mut order, &mut seeks);
        proof {
            assert(order@ =~= scan_order(start, requests@, direction));
            assert(ints(seeks@) =~= seek_seq(start as int, right@) + seek_seq(e1, turn) + seek_seq(e2, left_rev@));
        }
        DiskScheduleResult { order, total_seek_distance: t, seek_sequence: seeks }
    } else {
        let ghost turn: Seq<usize> = if right.len() > 0 { seq![0usize] } else { Seq::empty() };
        let ghost e1 = ends_at(start as int, left_rev@);
        let ghost e2 = ends_at(e1, turn);
        proof {
            assert(head =~= left_rev@ + turn + right@);
            lemma_seek_seq_concat(start as int, left_rev@ + turn, right@);
            lemma_seek_seq_concat(start as int, left_rev@, turn);
            lemma_seek_seq_nonneg(start as int, left_rev@);
            lemma_seek_seq_nonneg(e1, turn);
            lemma_seek_seq_nonneg(e2, right@);
            lemma_sum3_nonneg(seek_seq(start as int, left_rev@), seek_seq(e1, turn), seek_seq(e2, right@));
        }
        let (cur, tot) = service(&left_rev, start, 0, &mut order, &mut seeks);
        let mut cur = cur;
        let mut tot = tot;
        if right.len() > 0 {
            let d = cur;
            proof {
                assert(seek_seq(e1, turn) =~= seq![d as int]);
                assert(seq![d as int].drop_last() =~= Seq::<int>::empty());
                assert(sum(seq![d as int]) == sum(Seq::<int>::empty()) + d);
                assert(sum(seek_seq(e1, turn)) == d);
            }
            tot = tot + d;
            seeks.push(d);
            cur = 0;
        } else {
            proof { assert(seek_seq(e1, turn) =~= Seq::<int>::empty()); }
        }
        let (_c, t) = service(&right, cur, tot, &mut order, &mut seeks);
        proof {
            assert(order@ =~= scan_order(start, requests@, direction));
            assert(ints(seeks@) =~= seek_seq(start as int, left_rev@) + seek_seq(e1, turn) + seek_seq(e2, right@));
        }
        DiskScheduleResult { order, total_seek_distance: t, seek_sequence: seeks }
    }
}

/// C-SCAN disk scheduling: the head sweeps up through the requests at or above
/// `start`, jumps to the top and back to cylinder 0, then sweeps up through the rest.
pub fn disk_cscan(start: usize, requests: &[usize], max_cylinder: usize) -> (r: DiskScheduleResult)
    requires
        start <= isize::MAX,
        cylinders_ok(requests@),
        lower_sorted(start, requests@).len() > 0 ==> max_cylinder <= isize::MAX,
        sum(cscan_seeks(start, requests@, max_cylinder)) <= usize::MAX,
    ensures
        r.order@ == upper_sorted(start, requests@) + lower_sorted(start, requests@),
        ints(r.seek_sequence@) == cscan_seeks(start, requests@, max_cylinder),
        r.total_seek_distance == sum(cscan_seeks(start, requests@, max_cylinder)),
{
    let (left, right) = split_sorted(start, requests);
    let mut order: Vec<usize> = Vec::new();
    let mut seeks: Vec<usize> = Vec::new();
    let ghost e1 = ends_at(start as int, right@);
    let ghost jump: Seq<int> = if left.len() > 0 {
        seq![dist(e1, max_cylinder as int) + max_cylinder]
    } else {
        Seq::empty()
    };
    let ghost tail: Seq<int> = if left.len() > 0 { seek_seq(0, left@) } else { Seq::empty() };
    proof {
        assert(cscan_seeks(start, requests@, max_cylinder) =~= seek_seq(start as int, right@) + jump + tail);
        lemma_seek_seq_nonneg(start as int, right@);
        lemma_seek_seq_nonneg(0, left@);
        lemma_sum3_nonneg(seek_seq(start as int, right@), jump, tail);
    }
    let (cur, tot) = service(&right, start, 0, &mut order, &mut seeks);
    if left.len() > 0 {
        let d = abs_diff(cur, max_cylinder) + max_cylinder;
        proof {
            assert(jump.drop_last() =~= Seq::<int>::empty());
            assert(sum(jump) == sum(Seq::<int>::empty()) + d);
        }
        let tot = tot + d;
        seeks.push(d);
        let (_c, t) = service(&left, 0, tot, &mut order, &mut seeks);
        proof {
            assert(order@ =~= upper_sorted(start, requests@) + lower_sorted(start, requests@));
            assert(ints(seeks@) =~= seek_seq(start as int, right@) + jump + tail);
        }
        DiskScheduleResult { order, total_seek_distance: t, seek_sequence: seeks }
    } else {
        proof {
            assert(left@ =~= Seq::<usize>::empty());
            assert(order@ =~= upper_sorted(start, requests@) + lower_sorted(start, requests@));
            assert(ints(seeks@) =~= cscan_seeks(start, requests@, max_cylinder));
        }
        DiskScheduleResult { order, total_seek_distance: tot, seek_sequence: seeks }
    }
}

proof fn lemma_filter_split(start: usize, s: Seq<usize>)
    ensures
        s.filter(below(start)).to_multiset().add(s.filter(at_or_above(start)).to_multiset()) =~= s.to_multiset(),
    decreases s.len(),
{
    broadcast use vstd::seq_lib::group_to_multiset_ensures;
    reveal(Seq::filter);
    if s.len() > 0 {
        let d = s.drop_last();
        lemma_filter_split(start, d);
        assert(d.push(s.last()) =~= s);
    }
}

proof fn lemma_reverse_multiset(s: Seq<usize>)
    ensures
        s.reverse().to_multiset() =~= s.to_multiset(),
    decreases s.len(),
{
    broadcast use vstd::seq_lib::group_to_multiset_ensures;
    if s.len() > 0 {
        let d = s.drop_last();
        lemma_reverse_multiset(d);
        assert(s.reverse() =~= seq![s.last()] + d.reverse());
        vstd::seq_lib::lemma_multiset_commutative(seq![s.last()], d.reverse());
        assert(seq![s.last()].to_multiset() =~= Seq::<usize>::empty().push(s.last()).to_multiset());
        assert(d.push(s.last()) =~= s);
    }
}

proof fn lemma_sstf_multiset(cur: int, rem: Seq<usize>)
    ensures
        sstf_order(cur, rem).to_multiset() =~= rem.to_multiset(),
    decreases rem.len(),
{
    broadcast use vstd::seq_lib::group_to_multiset_ensures;
    if rem.len() > 0 {
        lemma_nearest_exists(cur, rem);
        let i = first_nearest(cur, rem);
        let rest = sstf_order(rem[i] as int, rem.remove(i));
        lemma_sstf_multiset(rem[i] as int, rem.remove(i));
        vstd::seq_lib::lemma_multiset_commutative(seq![rem[i]], rest);
        assert(seq![rem[i]].to_multiset() =~= Seq::<usize>::empty().push(rem[i]).to_multiset());
        assert(rem.to_multiset().remove(rem[i]).insert(rem[i]) =~= rem.to_multiset());
    }
}

/// Every algorithm services each request exactly as often as it was made: its order is
/// a permutation of the requests.
pub proof fn lemma_disk_serves_all(start: usize, requests: Seq<usize>, direction: bool)
    ensures
        sstf_order(start as int, requests).to_multiset() =~= requests.to_multiset(),
        scan_order(start, requests, direction).to_multiset() =~= requests.to_multiset(),
        (upper_sorted(start, requests) + lower_sorted(start, requests)).to_multiset() =~= requests.to_multiset(),
{
    lemma_sstf_multiset(start as int, requests);
    let lo = requests.filter(below(start));
    let hi = requests.filter(at_or_above(start));
    lemma_usize_le_total();
    lo.lemma_sort_by_ensures(usize_le());
    hi.lemma_sort_by_ensures(usize_le());
    lemma_filter_split(start, requests);
    let left = lower_sorted(start, requests);
    let right = upper_sorted(start, requests);
    lemma_reverse_multiset(left);
    vstd::seq_lib::lemma_multiset_commutative(right, left.reverse());
    vstd::seq_lib::lemma_multiset_commutative(left.reverse(), right);
    vstd::seq_lib::lemma_multiset_commutative(right, left);
    assert(left.to_multiset().add(right.to_multiset()) =~= right.to_multiset().add(left.to_multiset()));
}

proof fn lemma_seek_up(from: int, p: Seq<usize>)
    requires
        forall|i: int, j: int| 0 <= i <= j < p.len() ==> p[i] <= p[j],
        p.len() > 0 ==> from <= p[0],
    ensures
        sum(seek_seq(from, p)) == ends_at(from, p) - from,
    decreases p.len(),
{
    if p.len() > 0 {
        let d = p.drop_last();
        if d.len() > 0 {
            assert(d[0] == p[0]);
        }
        lemma_seek_up(from, d);
        let sp = seek_seq(from, p);
        assert(sp.drop_last() =~= seek_seq(from, d));
        assert(sp.last() == dist(ends_at(from, d), p.last() as int));
        if d.len() > 0 {
            assert(d.last() <= p.last());
        }
    }
}

proof fn lemma_seek_down(from: int, p: Seq<usize>)
    requires
        forall|i: int, j: int| 0 <= i <= j < p.len() ==> p[i] >= p[j],
        p.len() > 0 ==> from >= p[0],
    ensures
        sum(seek_seq(from, p)) == from - ends_at(from, p),
    decreases p.len(),
{
    if p.len() > 0 {
        let d = p.drop_last();
        if d.len() > 0 {
            assert(d[0] == p[0]);
        }
        lemma_seek_down(from, d);
        let sp = seek_seq(from, p);
        assert(sp.drop_last() =~= seek_seq(from, d));
        assert(sp.last() == dist(ends_at(from, d), p.last() as int));
        if d.len() > 0 {
            assert(d.last() >= p.last());
        }
    }
}

/// Facts about the requests split at `start` and sorted.
proof fn lemma_split_facts(start: usize, requests: Seq<usize>)
    ensures
        forall|i: int, j: int| 0 <= i <= j < lower_sorted(start, requests).len() ==> lower_sorted(start, requests)[i] <= lower_sorted(start, requests)[j],
        forall|i: int, j: int| 0 <= i <= j < upper_sorted(start, requests).len() ==> upper_sorted(start, requests)[i] <= upper_sorted(start, requests)[j],
        forall|i: int| 0 <= i < lower_sorted(start, requests).len() ==> #[trigger] lower_sorted(start, requests)[i] < start
            && requests.contains(lower_sorted(start, requests)[i]),
        forall|i: int| 0 <= i < upper_sorted(start, requests).len() ==> #[trigger] upper_sorted(start, requests)[i] >= start
            && requests.contains(upper_sorted(start, requests)[i]),
        forall|r: usize| #[trigger] requests.contains(r) && r < start ==> lower_sorted(start, requests).contains(r),
{
    broadcast use vstd::seq_lib::group_filter_ensures;
    broadcast use vstd::seq_lib::group_to_multiset_ensures;
    let lo = requests.filter(below(start));
    let hi = requests.filter(at_or_above(start));
    lemma_usize_le_total();
    lo.lemma_sort_by_ensures(usize_le());
    hi.lemma_sort_by_ensures(usize_le());
    let l = lower_sorted(start, requests);
    let u = upper_sorted(start, requests);
    assert forall|i: int, j: int| 0 <= i <= j < l.len() implies l[i] <= l[j] by {
        if i < j {
            assert((usize_le())(l[i], l[j]));
        }
    }
    assert forall|i: int, j: int| 0 <= i <= j < u.len() implies u[i] <= u[j] by {
        if i < j {
            assert((usize_le())(u[i], u[j]));
        }
    }
    assert forall|i: int| 0 <= i < l.len() implies #[trigger] l[i] < start && requests.contains(l[i]) by {
        assert(l.contains(l[i]));
        assert(l.to_multiset().count(l[i]) > 0);
        assert(lo.contains(l[i]));
        let k = choose|k: int| 0 <= k < lo.len() && lo[k] == l[i];
        assert((below(start))(lo[k]));
        requests.lemma_filter_contains_rev(below(start), l[i]);
    }
    assert forall|i: int| 0 <= i < u.len() implies #[trigger] u[i] >= start && requests.contains(u[i]) by {
        assert(u.contains(u[i]));
        assert(u.to_multiset().count(u[i]) > 0);
        assert(hi.contains(u[i]));
        let k = choose|k: int| 0 <= k < hi.len() && hi[k] == u[i];
        assert((at_or_above(start))(hi[k]));
        requests.lemma_filter_contains_rev(at_or_above(start), u[i]);
    }
    assert forall|r: usize| #[trigger] requests.contains(r) && r < start implies l.contains(r) by {
        let k = choose|k: int| 0 <= k < requests.len() && requests[k] == r;
        requests.lemma_filter_contains(below(start), k);
        assert(lo.to_multiset().count(r) > 0);
        assert(l.to_multiset().count(r) > 0);
    }
}

/// SCAN moving up with some request below the start always travels to the end of the disk
/// before turning: its total head movement is the way up from `start` to `max_cylinder`
/// plus the way down to the lowest request below `start`, whether or not any request lies
/// at or above the start.
pub proof fn lemma_scan_up_goes_to_end(start: usize, requests: Seq<usize>, max_cylinder: usize, lowest: usize)
    requires
        start <= max_cylinder,
        forall|i: int| 0 <= i < requests.len() ==> #[trigger] requests[i] <= max_cylinder,
        requests.contains(lowest),
        lowest < start,
        forall|r: usize| #[trigger] requests.contains(r) ==> r >= lowest,
    ensures
        sum(seek_seq(start as int, scan_head_path(start, requests, max_cylinder, true)))
            == (max_cylinder - start) + (max_cylinder - lowest),
        scan_head_path(start, requests, max_cylinder, true)[upper_sorted(start, requests).len() as int] == max_cylinder,
{
    lemma_split_facts(start, requests);
    let l = lower_sorted(start, requests);
    let u = upper_sorted(start, requests);
    assert(l.contains(lowest));
    assert(l.len() > 0);
    let up = u + seq![max_cylinder];
    let down = l.reverse();
    let path = scan_head_path(start, requests, max_cylinder, true);
    assert(path == up + down);
    assert forall|i: int| 0 <= i < u.len() implies #[trigger] u[i] <= max_cylinder by {
        let k = choose|k: int| 0 <= k < requests.len() && requests[k] == u[i];
    }
    assert forall|i: int, j: int| 0 <= i <= j < up.len() implies up[i] <= up[j] by {
        if j == u.len() {
            if i < u.len() {
                assert(u[i] <= max_cylinder);
            }
        } else {
            assert(up[i] == u[i] && up[j] == u[j]);
        }
    }
    if u.len() > 0 {
        assert(up[0] == u[0]);
    }
    lemma_seek_up(start as int, up);
    assert(ends_at(start as int, up) == max_cylinder);
    assert forall|i: int, j: int| 0 <= i <= j < down.len() implies down[i] >= down[j] by {
        assert(down[i] == l[l.len() - 1 - i] && down[j] == l[l.len() - 1 - j]);
    }
    assert(down[0] == l[l.len() - 1]);
    assert(l[l.len() - 1] < start);
    lemma_seek_down(max_cylinder as int, down);
    assert(ends_at(max_cylinder as int, down) == l[0]);
    assert(l[0] == lowest) by {
        let k = choose|k: int| 0 <= k < l.len() && l[k] == lowest;
        assert(l[0] <= l[k]);
        assert(requests.contains(l[0]));
    }
    lemma_seek_seq_concat(start as int, up, down);
    lemma_sum_append(seek_seq(start as int, up), seek_seq(max_cylinder as int, down));
    assert(path[u.len() as int] == up[u.len() as int]);
}

} // verus!
