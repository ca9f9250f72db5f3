use vstd::prelude::*;
use vstd::relations::{sorted_by, total_ordering};

verus! {

/// The ascending order on `usize`.
pub open spec fn usize_le() -> spec_fn(usize, usize) -> bool {
    |a: usize, b: usize| a <= b
}

pub proof fn lemma_usize_le_total()
    ensures
        total_ordering(usize_le()),
{
}

/// Sum of a sequence of integers.
pub open spec fn sum(s: Seq<int>) -> int
    decreases s.len(),
{
    if s.len() == 0 {
        0
    } else {
        sum(s.drop_last()) + s.last()
    }
}

pub proof fn lemma_sum_append(a: Seq<int>, b: Seq<int>)
    ensures
        sum(a + b) == sum(a) + sum(b),
    decreases b.len(),
{
    if b.len() == 0 {
        assert(a + b =~= a);
    } else {
        assert((a + b).drop_last() =~= a + b.drop_last());
        lemma_sum_append(a, b.drop_last());
    }
}

pub proof fn lemma_sum_nonneg(s: Seq<int>)
    requires
        forall|i: int| 0 <= i < s.len() ==> s[i] >= 0,
    ensures
        sum(s) >= 0,
    decreases s.len(),
{
    if s.len() > 0 {
        lemma_sum_nonneg(s.drop_last());
    }
}

pub proof fn lemma_sum_update(s: Seq<int>, i: int, v: int)
    requires
        0 <= i < s.len(),
    ensures
        sum(s.update(i, v)) == sum(s) - s[i] + v,
    decreases s.len(),
{
    if i < s.len() - 1 {
        assert(s.update(i, v).drop_last() =~= s.drop_last().update(i, v));
        lemma_sum_update(s.drop_last(), i, v);
    } else {
        assert(s.update(i, v).drop_last() =~= s.drop_last());
    }
}

/// `s` with every occurrence of `x` left out.
pub open spec fn without(s: Seq<usize>, x: usize) -> Seq<usize>
    decreases s.len(),
{
    if s.len() == 0 {
        s
    } else if s.last() == x {
        without(s.drop_last(), x)
    } else {
        without(s.drop_last(), x).push(s.last())
    }
}

pub proof fn lemma_without_contains(s: Seq<usize>, x: usize)
    ensures
        forall|y: usize| #[trigger] without(s, x).contains(y) <==> (s.contains(y) && y != x),
        without(s, x).len() <= s.len(),
        s.no_duplicates() ==> without(s, x).no_duplicates(),
        s.no_duplicates() && s.contains(x) ==> without(s, x).len() == s.len() - 1,
        !s.contains(x) ==> without(s, x) == s,
    decreases s.len(),
{
    if s.len() > 0 {
        let d = s.drop_last();
        lemma_without_contains(d, x);
        assert forall|y: usize| #[trigger] s.contains(y) <==> (d.contains(y) || y == s.last()) by {
            if s.contains(y) {
                let k = choose|k: int| 0 <= k < s.len() && s[k] == y;
                if k < s.len() - 1 {
                    assert(d[k] == y);
                }
            }
            if d.contains(y) {
                let k = choose|k: int| 0 <= k < d.len() && d[k] == y;
                assert(s[k] == y);
            }
        }
        if s.last() != x {
            let w = without(d, x);
            assert forall|y: usize| #[trigger] w.push(s.last()).contains(y) <==> (w.contains(y) || y == s.last()) by {
                if w.push(s.last()).contains(y) {
                    let k = choose|k: int| 0 <= k < w.push(s.last()).len() && w.push(s.last())[k] == y;
                    if k < w.len() {
                        assert(w[k] == y);
                    }
                }
                if w.contains(y) {
                    let k = choose|k: int| 0 <= k < w.len() && w[k] == y;
                    assert(w.push(s.last())[k] == y);
                }
                assert(w.push(s.last())[w.len() as int] == s.last());
            }
            if s.no_duplicates() {
                assert(d.no_duplicates());
                assert(!d.contains(s.last())) by {
                    if d.contains(s.last()) {
                        let k = choose|k: int| 0 <= k < d.len() && d[k] == s.last();
                        assert(s[k] == s[s.len() - 1]);
                    }
                }
                assert(!w.contains(s.last()));
                assert forall|a: int, b: int| 0 <= a < b < w.push(s.last()).len() implies w.push(s.last())[a] != w.push(s.last())[b] by {
                    if b == w.len() {
                        assert(w.contains(w[a]));
                    }
                }
            }
            if !s.contains(x) {
                assert(!d.contains(x));
                assert(w == d);
                assert(w.push(s.last()) =~= s);
            }
        } else {
            if s.no_duplicates() {
                assert(d.no_duplicates());
                assert(!d.contains(x)) by {
                    if d.contains(x) {
                        let k = choose|k: int| 0 <= k < d.len() && d[k] == x;
                        assert(s[k] == s[s.len() - 1]);
                    }
                }
            }
            assert(s.contains(x)) by {
                assert(s[s.len() - 1] == x);
            }
        }
    }
}

/// Leaves every occurrence of `x` out of `v`.
pub fn remove_all(v: &Vec<usize>, x: usize) -> (r: Vec<usize>)
    ensures
        r@ == without(v@, x),
{
    let mut r: Vec<usize> = Vec::new();
    let mut k: usize = 0;
    while k < v.len()
        invariant
            k <= v.len(),
            r@ == without(v@.take(k as int), x),
        decreases v.len() - k,
    {
        proof {
            assert(v@.take(k + 1).drop_last() =~= v@.take(k as int));
        }
        if v[k] != x {
            r.push(v[k]);
        }
        k = k + 1;
    }
    proof {
        assert(v@.take(k as int) =~= v@);
    }
    r
}

/// The first position at or after `i` holding `x`, or -1.
pub open spec fn first_index(s: Seq<usize>, x: usize, i: int) -> int
    decreases s.len() - i,
{
    if i < 0 || i >= s.len() {
        -1
    } else if s[i] == x {
        i
    } else {
        first_index(s, x, i + 1)
    }
}

pub proof fn lemma_first_index(s: Seq<usize>, x: usize, i: int)
    requires
        0 <= i,
    ensures
        first_index(s, x, i) < 0 ==> forall|j: int| i <= j < s.len() ==> #[trigger] s[j] != x,
        first_index(s, x, i) >= 0 ==> {
            let k = first_index(s, x, i);
            &&& i <= k < s.len()
            &&& s[k] == x
            &&& forall|j: int| i <= j < k ==> #[trigger] s[j] != x
        },
    decreases s.len() - i,
{
    if i < s.len() && s[i] != x {
        lemma_first_index(s, x, i + 1);
    }
}

pub proof fn lemma_first_index_contains(s: Seq<usize>, x: usize)
    ensures
        first_index(s, x, 0) >= 0 <==> s.contains(x),
{
    lemma_first_index(s, x, 0);
    if s.contains(x) {
        let k = choose|k: int| 0 <= k < s.len() && s[k] == x;
        assert(s[k] == x);
    }
}

/// The first position of `x` in `v`.
pub fn position_of(v: &Vec<usize>, x: usize) -> (r: Option<usize>)
    ensures
        r matches Some(i) ==> first_index(v@, x, 0) == i,
        r is None ==> first_index(v@, x, 0) < 0,
{
    let mut i: usize = 0;
    while i < v.len()
        invariant
            i <= v@.len(),
            first_index(v@, x, 0) == first_index(v@, x, i as int),
        decreases v@.len() - i,
    {
        if v[i] == x {
            return Some(i);
        }
        i = i + 1;
    }
    None
}

pub proof fn lemma_usize_range_finite_len(n: int)
    requires
        0 <= n <= usize::MAX + 1,
    ensures
        Set::new(|x: usize| x < n).finite(),
        Set::new(|x: usize| x < n).len() == n,
    decreases n,
{
    if n == 0 {
        assert(Set::new(|x: usize| x < n) =~= Set::<usize>::empty());
    } else {
        lemma_usize_range_finite_len(n - 1);
        assert(Set::new(|x: usize| x < n) =~= Set::new(|x: usize| x < n - 1).insert((n - 1) as usize));
    }
}

/// Returns the elements of `v` in ascending order.
pub fn sort_ascending(v: &Vec<usize>) -> (r: Vec<usize>)
    ensures
        r@ == v@.sort_by(usize_le()),
        forall|x: usize| r@.contains(x) ==> v@.contains(x),
{
    let mut res: Vec<usize> = Vec::new();
    let mut i: usize = 0;
    assert(res@ =~= v@.subrange(0, 0));
    while i < v.len()
        invariant
            i <= v.len(),
            sorted_by(res@, usize_le()),
            res@.to_multiset() == v@.subrange(0, i as int).to_multiset(),
        decreases v.len() - i,
    {
        let x = v[i];
        let mut pos: usize = 0;
        while pos < res.len() && res[pos] <= x
            invariant
                pos <= res.len(),
                forall|k: int| 0 <= k < pos ==> res@[k] <= x,
            decreases res.len() - pos,
        {
            pos = pos + 1;
        }
        let ghost old_res = res@;
        res.insert(pos, x);
        proof {
            broadcast use vstd::seq_lib::group_to_multiset_ensures;
            broadcast use vstd::multiset::group_multiset_axioms;
            assert(res@ =~= old_res.insert(pos as int, x));
            assert(res@.remove(pos as int) =~= old_res);
            assert(res@.to_multiset().count(x) > 0) by {
                assert(res@[pos as int] == x);
                assert(res@.contains(x));
            }
            assert(res@.to_multiset() =~= old_res.to_multiset().insert(x));
            assert(v@.subrange(0, i + 1) =~= v@.subrange(0, i as int).push(x));
            assert forall|a: int, b: int| 0 <= a < b < res@.len() implies #[trigger] (usize_le())(
                res@[a],
                res@[b],
            ) by {
                assert((usize_le())(res@[a], res@[b]) == (res@[a] <= res@[b]));
                if b < pos {
                    assert(res@[a] == old_res[a] && res@[b] == old_res[b]);
                    assert((usize_le())(old_res[a], old_res[b]));
                } else if b == pos {
                    assert(res@[a] == old_res[a]);
                } else if a == pos {
                    assert(res@[b] == old_res[b - 1]);
                    assert(!(old_res[pos as int] <= x));
                    if b - 1 > pos {
                        assert((usize_le())(old_res[pos as int], old_res[b - 1]));
                    }
                } else if a < pos {
                    assert(res@[a] == old_res[a] && res@[b] == old_res[b - 1]);
                    assert((usize_le())(old_res[a], old_res[b - 1]));
                } else {
                    assert(res@[a] == old_res[a - 1] && res@[b] == old_res[b - 1]);
                    assert((usize_le())(old_res[a - 1], old_res[b - 1]));
                }
            }
        }
        i = i + 1;
    }
    proof {
        assert(v@.subrange(0, v.len() as int) =~= v@);
        lemma_usize_le_total();
        v@.lemma_sort_by_ensures(usize_le());
        vstd::seq_lib::lemma_sorted_unique(res@, v@.sort_by(usize_le()), usize_le());
    }
    res
}


/// Number of `false` entries.
pub open spec fn count_false(s: Seq<bool>) -> nat
    decreases s.len(),
{
    if s.len() == 0 {
        0
    } else {
        count_false(s.drop_last()) + if s.last() { 0nat } else { 1nat }
    }
}

pub proof fn lemma_count_false_update(s: Seq<bool>, i: int)
    requires
        0 <= i < s.len(),
        !s[i],
    ensures
        count_false(s.update(i, true)) + 1 == count_false(s),
    decreases s.len(),
{
    if i < s.len() - 1 {
        assert(s.update(i, true).drop_last() =~= s.drop_last().update(i, true));
        lemma_count_false_update(s.drop_last(), i);
    } else {
        assert(s.update(i, true).drop_last() =~= s.drop_last());
    }
}

pub proof fn lemma_count_false_exists(s: Seq<bool>)
    requires
        count_false(s) > 0,
    ensures
        exists|i: int| 0 <= i < s.len() && !s[i],
    decreases s.len(),
{
    if !s.last() {
        assert(!s[s.len() - 1]);
    } else {
        lemma_count_false_exists(s.drop_last());
        let i = choose|i: int| 0 <= i < s.drop_last().len() && !s.drop_last()[i];
        assert(!s[i]);
    }
}

pub proof fn lemma_count_false_all(n: nat)
    ensures
        count_false(Seq::new(n, |i: int| false)) == n,
    decreases n,
{
    if n > 0 {
        assert(Seq::new(n, |i: int| false).drop_last() =~= Seq::new((n - 1) as nat, |i: int| false));
        lemma_count_false_all((n - 1) as nat);
    }
}

pub proof fn lemma_count_false_pos(s: Seq<bool>, i: int)
    requires
        0 <= i < s.len(),
        !s[i],
    ensures
        count_false(s) > 0,
    decreases s.len(),
{
    if i < s.len() - 1 {
        lemma_count_false_pos(s.drop_last(), i);
    }
}

/// A vector of `n` copies of `false`.
pub fn all_false(n: usize) -> (r: Vec<bool>)
    ensures
        r@ == Seq::new(n as nat, |i: int| false),
{
    let mut r: Vec<bool> = Vec::new();
    let mut k: usize = 0;
    while k < n
        invariant
            k <= n,
            r@ =~= Seq::new(k as nat, |i: int| false),
        decreases n - k,
    {
        r.push(false);
        k = k + 1;
    }
    r
}

} // verus!
