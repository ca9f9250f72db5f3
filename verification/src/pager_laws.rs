use vstd::prelude::*;
use crate::virtual_memory::{find_frame, lemma_find_frame, pager_access, pager_run, pager_faults};
use crate::page_replacement::{PageReplacement, FifoReplacement, FifoState, run_accesses};
use crate::util::{first_index, lemma_first_index};

verus! {

/// The pager's frames and fill order mirror a FIFO state with the same number of frames:
/// the pager's frame `j` holds FIFO's `j`-th page (the rest are free), and its fill order
/// names the frames of FIFO's queue, oldest first.
pub open spec fn mirrors_fifo(k: int, f: Seq<Option<usize>>, o: Seq<usize>, v: FifoState) -> bool {
    &&& 1 <= k <= usize::MAX
    &&& f.len() == k
    &&& v.capacity == k
    &&& v.frames.len() <= k
    &&& forall|j: int| 0 <= j < k ==> #[trigger] f[j] == if j < v.frames.len() { Some(v.frames[j]) } else { None::<usize> }
    &&& v.frames.no_duplicates()
    &&& o.len() == v.queue.len()
    &&& o.len() == v.frames.len()
    &&& o.no_duplicates()
    &&& forall|t: int| 0 <= t < o.len() ==> (#[trigger] o[t]) < v.frames.len() && v.queue[t] == v.frames[o[t] as int]
}

pub(crate) proof fn lemma_mirror_step(k: int, f: Seq<Option<usize>>, o: Seq<usize>, v: FifoState, p: usize)
    requires
        mirrors_fifo(k, f, o, v),
    ensures
        pager_access(f, o, p).2 == FifoReplacement::step(v, p).1,
        mirrors_fifo(k, pager_access(f, o, p).0, pager_access(f, o, p).1, FifoReplacement::step(v, p).0),
{
    let m = v.frames.len() as int;
    lemma_find_frame(f, Some(p), 0);
    lemma_find_frame(f, None, 0);
    let t = FifoReplacement::step(v, p).0;
    let (f2, o2, _) = pager_access(f, o, p);
    if v.frames.contains(p) {
        let j = choose|j: int| 0 <= j < m && v.frames[j] == p;
        assert(f[j] == Some(p));
    } else {
        assert(find_frame(f, Some(p), 0) < 0) by {
            if find_frame(f, Some(p), 0) >= 0 {
                let j = find_frame(f, Some(p), 0);
                assert(v.frames[j] == p);
            }
        }
        if m < k {
            assert(f[m] == None::<usize>);
            assert(find_frame(f, None, 0) == m) by {
                let j = find_frame(f, None, 0);
                if j != m {
                    assert(j < m);
                    assert(f[j] == Some(v.frames[j]));
                }
            }
            assert(t.frames == v.frames.push(p));
            assert(o2 == o.push(m as usize));
            assert(t.frames.no_duplicates()) by {
                assert forall|a: int, b: int| 0 <= a < b < t.frames.len() implies t.frames[a] != t.frames[b] by {
                    if b == m {
                        assert(v.frames.contains(v.frames[a]));
                    }
                }
            }
            assert(o2.no_duplicates()) by {
                assert forall|a: int, b: int| 0 <= a < b < o2.len() implies o2[a] != o2[b] by {
                    if b == o.len() {
                        assert(o[a] < m);
                    } else {
                        assert(o2[a] == o[a] && o2[b] == o[b]);
                    }
                }
            }
            assert forall|tt: int| 0 <= tt < o2.len() implies (#[trigger] o2[tt]) < t.frames.len() && t.queue[tt] == t.frames[o2[tt] as int] by {
                if tt < o.len() {
                    assert(o2[tt] == o[tt]);
                }
            }
            assert forall|j: int| 0 <= j < k implies #[trigger] f2[j] == if j < t.frames.len() { Some(t.frames[j]) } else { None::<usize> } by {
                if j != m {
                    assert(f2[j] == f[j]);
                }
            }
        } else {
            assert(find_frame(f, None, 0) < 0) by {
                if find_frame(f, None, 0) >= 0 {
                    let j = find_frame(f, None, 0);
                    assert(f[j] == Some(v.frames[j]));
                }
            }
            assert(o.len() > 0);
            let e = o[0];
            let oldest = v.queue[0];
            assert(oldest == v.frames[e as int]);
            lemma_first_index(v.frames, oldest, 0);
            assert(first_index(v.frames, oldest, 0) == e) by {
                let j = first_index(v.frames, oldest, 0);
                if j != e {
                    assert(v.frames[j] == v.frames[e as int]);
                }
            }
            assert(t.frames == v.frames.update(e as int, p));
            assert(t.queue == v.queue.drop_first().push(p));
            assert(o2 == o.drop_first().push(e));
            assert(f2 == f.update(e as int, Some(p)));
            assert(t.frames.no_duplicates()) by {
                assert forall|a: int, b: int| 0 <= a < b < t.frames.len() implies t.frames[a] != t.frames[b] by {
                    if a == e {
                        assert(v.frames.contains(v.frames[b]));
                    } else if b == e {
                        assert(v.frames.contains(v.frames[a]));
                    }
                }
            }
            assert(o2.no_duplicates()) by {
                assert forall|a: int, b: int| 0 <= a < b < o2.len() implies o2[a] != o2[b] by {
                    if b == o2.len() - 1 {
                        assert(o2[a] == o[a + 1]);
                    } else {
                        assert(o2[a] == o[a + 1] && o2[b] == o[b + 1]);
                    }
                }
            }
            assert forall|tt: int| 0 <= tt < o2.len() implies (#[trigger] o2[tt]) < t.frames.len() && t.queue[tt] == t.frames[o2[tt] as int] by {
                if tt < o2.len() - 1 {
                    assert(o2[tt] == o[tt + 1]);
                    assert(o[tt + 1] != e);
                    assert(t.queue[tt] == v.queue[tt + 1]);
                }
            }
        }
    }
}

/// A fresh pager with `k` frames.
pub open spec fn fresh_frames(k: int) -> Seq<Option<usize>> {
    Seq::new(k as nat, |i: int| None::<usize>)
}

/// A fresh FIFO state with `k` frames.
pub open spec fn fifo_fresh(k: int) -> FifoState {
    FifoState { capacity: k, frames: Seq::empty(), faults: 0, queue: Seq::empty() }
}

pub(crate) proof fn lemma_mirror_run(k: int, refs: Seq<usize>)
    requires
        1 <= k <= usize::MAX,
    ensures
        mirrors_fifo(k, pager_run(fresh_frames(k), Seq::empty(), refs).0, pager_run(fresh_frames(k), Seq::empty(), refs).1,
            run_accesses::<FifoReplacement>(fifo_fresh(k), refs)),
        pager_faults(fresh_frames(k), Seq::empty(), refs) == run_accesses::<FifoReplacement>(fifo_fresh(k), refs).faults,
    decreases refs.len(),
{
    if refs.len() > 0 {
        let d = refs.drop_last();
        lemma_mirror_run(k, d);
        let (f, o) = pager_run(fresh_frames(k), Seq::empty(), d);
        let v = run_accesses::<FifoReplacement>(fifo_fresh(k), d);
        lemma_mirror_step(k, f, o, v, refs.last());
    }
}

/// With at least one frame, the demand pager is FIFO replacement: from fresh starts with
/// `k` frames each, after any reference string both hold the same pages, each access
/// faults in the pager exactly when it faults under FIFO, and so the fault counts agree.
pub proof fn lemma_pager_is_fifo(k: int, refs: Seq<usize>, page: usize)
    requires
        1 <= k <= usize::MAX,
    ensures
        pager_faults(fresh_frames(k), Seq::empty(), refs) == run_accesses::<FifoReplacement>(fifo_fresh(k), refs).faults,
        ({
            let (f, o) = pager_run(fresh_frames(k), Seq::empty(), refs);
            let v = run_accesses::<FifoReplacement>(fifo_fresh(k), refs);
            &&& pager_access(f, o, page).2 == FifoReplacement::step(v, page).1
            &&& (find_frame(f, Some(page), 0) >= 0 <==> v.frames.contains(page))
        }),
{
    lemma_mirror_run(k, refs);
    let (f, o) = pager_run(fresh_frames(k), Seq::empty(), refs);
    let v = run_accesses::<FifoReplacement>(fifo_fresh(k), refs);
    lemma_mirror_step(k, f, o, v, page);
    lemma_find_frame(f, Some(page), 0);
    if v.frames.contains(page) {
        let j = choose|j: int| 0 <= j < v.frames.len() && v.frames[j] == page;
        assert(f[j] == Some(page));
    }
    if find_frame(f, Some(page), 0) >= 0 {
        let j = find_frame(f, Some(page), 0);
        assert(v.frames[j] == page);
    }
}

} // verus!
