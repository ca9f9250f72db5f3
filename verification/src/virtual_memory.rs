use vstd::prelude::*;

verus! {

/// Demand paging simulator.
#[derive(Clone, Debug)]
pub struct DemandPager {
    pub num_frames: usize,
    pub frames: Vec<Option<usize>>,
    pub page_faults: usize,
    pub total_accesses: usize,
    /// Occupied frames in the order they were filled: the first is evicted next.
    pub frame_order: Vec<usize>,
}

/// The first frame at or after `i` that holds `content`, or -1.
pub open spec fn find_frame(frames: Seq<Option<usize>>, content: Option<usize>, i: int) -> int
    decreases frames.len() - i,
{
    if i < 0 || i >= frames.len() {
        -1
    } else if frames[i] == content {
        i
    } else {
        find_frame(frames, content, i + 1)
    }
}

pub(crate) proof fn lemma_find_frame(frames: Seq<Option<usize>>, content: Option<usize>, i: int)
    requires
        0 <= i,
    ensures
        find_frame(frames, content, i) < 0 ==> forall|j: int| i <= j < frames.len() ==> #[trigger] frames[j] != content,
        find_frame(frames, content, i) >= 0 ==> {
            let k = find_frame(frames, content, i);
            &&& i <= k < frames.len()
            &&& frames[k] == content
            &&& forall|j: int| i <= j < k ==> #[trigger] frames[j] != content
        },
    decreases frames.len() - i,
{
    if i < frames.len() && frames[i] != content {
        lemma_find_frame(frames, content, i + 1);
    }
}

/// One access: `(frames, fill order, fault)` afterwards. A resident page is a hit;
/// otherwise the page goes into the first free frame, or else replaces the page in
/// the frame filled longest ago.
pub open spec fn pager_access(frames: Seq<Option<usize>>, order: Seq<usize>, page: usize) -> (
    Seq<Option<usize>>,
    Seq<usize>,
    bool,
) {
    if find_frame(frames, Some(page), 0) >= 0 {
        (frames, order, false)
    } else {
        let free = find_frame(frames, None, 0);
        if free >= 0 {
            (frames.update(free, Some(page)), order.push(free as usize), true)
        } else if order.len() > 0 {
            (frames.update(order[0] as int, Some(page)), order.drop_first().push(order[0]), true)
        } else {
            (frames, order, true)
        }
    }
}

/// An access neither overflows its counters nor evicts out of range.
pub open spec fn pager_access_ok(p: DemandPager, page: usize) -> bool {
    &&& p.total_accesses < usize::MAX
    &&& find_frame(p.frames@, Some(page), 0) < 0 ==> p.page_faults < usize::MAX
    &&& find_frame(p.frames@, Some(page), 0) < 0 && find_frame(p.frames@, None, 0) < 0 && p.frame_order@.len() > 0
        ==> p.frame_order@[0] < p.frames@.len()
}

impl DemandPager {
    pub fn new(num_frames: usize) -> (r: Self)
        ensures
            r.num_frames == num_frames,
            r.frames@ == Seq::new(num_frames as nat, |i: int| None::<usize>),
            r.page_faults == 0,
            r.total_accesses == 0,
            r.frame_order@ == Seq::<usize>::empty(),
    {
        DemandPager {
            num_frames,
            frames: empty_frames(num_frames),
            page_faults: 0,
            total_accesses: 0,
            frame_order: Vec::new(),
        }
    }

    fn find(&self, content: Option<usize>) -> (r: Option<usize>)
        ensures
            r matches Some(i) ==> find_frame(self.frames@, content, 0) == i,
            r is None ==> find_frame(self.frames@, content, 0) < 0,
    {
        let mut i: usize = 0;
        while i < self.frames.len()
            invariant
                i <= self.frames@.len(),
                find_frame(self.frames@, content, 0) == find_frame(self.frames@, content, i as int),
            decreases self.frames@.len() - i,
        {
            let same = match (self.frames[i], content) {
                (Some(a), Some(b)) => a == b,
                (None, None) => true,
                _ => false,
            };
            if same {
                return Some(i);
            }
            i = i + 1;
        }
        None
    }

    /// Access a page. Returns true if page fault.
    pub fn access(&mut self, page: usize) -> (fault: bool)
        requires
            pager_access_ok(*old(self), page),
        ensures
            (final(self).frames@, final(self).frame_order@, fault) == pager_access(
                old(self).frames@,
                old(self).frame_order@,
                page,
            ),
            final(self).total_accesses == old(self).total_accesses + 1,
            final(self).page_faults == old(self).page_faults + if fault { 1int } else { 0int },
            final(self).num_frames == old(self).num_frames,
    {
        self.total_accesses = self.total_accesses + 1;
        if self.find(Some(page)).is_some() {
            return false;
        }
        self.page_faults = self.page_faults + 1;
        proof {
            lemma_find_frame(self.frames@, None, 0);
        }
        match self.find(None) {
            Some(idx) => {
                self.frames.set(idx, Some(page));
                self.frame_order.push(idx);
            },
            None => {
                if self.frame_order.len() > 0 {
                    let evict_idx = self.frame_order[0];
                    self.frames.set(evict_idx, Some(page));
                    self.frame_order.remove(0);
                    self.frame_order.push(evict_idx);
                    proof {
                        assert(self.frame_order@ =~= old(self).frame_order@.drop_first().push(evict_idx));
                    }
                }
            },
        }
        true
    }

    /// Process a sequence of page accesses. Returns the page faults and the
    /// accesses counted so far; the fault rate is their ratio.
    pub fn process(&mut self, pages: &[usize]) -> (r: (usize, usize))
        requires
            pager_consistent(old(self).frames@, old(self).frame_order@),
            old(self).total_accesses + pages@.len() <= usize::MAX,
            old(self).page_faults + pages@.len() <= usize::MAX,
        ensures
            pager_consistent(final(self).frames@, final(self).frame_order@),
            (final(self).frames@, final(self).frame_order@) == pager_run(old(self).frames@, old(self).frame_order@, pages@),
            final(self).total_accesses == old(self).total_accesses + pages@.len(),
            final(self).page_faults == old(self).page_faults + pager_faults(old(self).frames@, old(self).frame_order@, pages@),
            final(self).num_frames == old(self).num_frames,
            r == (final(self).page_faults, final(self).total_accesses),
    {
        let mut k: usize = 0;
        let ghost f0 = self.frames@;
        let ghost o0 = self.frame_order@;
        let ghost c0 = self.page_faults;
        let ghost t0 = self.total_accesses;
        proof {
            assert(pages@.take(0) =~= Seq::<usize>::empty());
        }
        while k < pages.len()
            invariant
                k <= pages@.len(),
                t0 + pages@.len() <= usize::MAX,
                c0 + pages@.len() <= usize::MAX,
                pager_consistent(self.frames@, self.frame_order@),
                (self.frames@, self.frame_order@) == pager_run(f0, o0, pages@.take(k as int)),
                self.total_accesses == t0 + k,
                self.page_faults == c0 + pager_faults(f0, o0, pages@.take(k as int)),
                self.num_frames == old(self).num_frames,
            decreases pages@.len() - k,
        {
            proof {
                lemma_pager_faults_bound(f0, o0, pages@.take(k as int));
                lemma_pager_step_ok(self.frames@, self.frame_order@, pages@[k as int]);
                lemma_pager_run_push(f0, o0, pages@.take(k as int), pages@[k as int]);
                assert(pages@.take(k + 1) =~= pages@.take(k as int).push(pages@[k as int]));
                lemma_pager_consistent(self.frames@, self.frame_order@, pages@[k as int]);
                lemma_find_frame(self.frames@, Some(pages@[k as int]), 0);
                lemma_find_frame(self.frames@, None, 0);
            }
            self.access(pages[k]);
            k = k + 1;
        }
        proof {
            assert(pages@.take(k as int) =~= pages@);
        }
        (self.page_faults, self.total_accesses)
    }

    pub fn reset(&mut self)
        ensures
            final(self).num_frames == old(self).num_frames,
            final(self).frames@ == Seq::new(old(self).num_frames as nat, |i: int| None::<usize>),
            final(self).page_faults == 0,
            final(self).total_accesses == 0,
            final(self).frame_order@ == Seq::<usize>::empty(),
    {
        self.frames = empty_frames(self.num_frames);
        self.page_faults = 0;
        self.total_accesses = 0;
        self.frame_order.clear();
    }
}

fn empty_frames(n: usize) -> (r: Vec<Option<usize>>)
    ensures
        r@ == Seq::new(n as nat, |i: int| None::<usize>),
{
    let mut r: Vec<Option<usize>> = Vec::new();
    let mut k: usize = 0;
    while k < n
        invariant
            k <= n,
            r@ =~= Seq::new(k as nat, |i: int| None::<usize>),
        decreases n - k,
    {
        r.push(None);
        k = k + 1;
    }
    r
}

/// The fill order lists exactly the occupied frames, each once.
pub open spec fn pager_consistent(frames: Seq<Option<usize>>, order: Seq<usize>) -> bool {
    &&& order.no_duplicates()
    &&& forall|k: int| 0 <= k < order.len() ==> #[trigger] order[k] < frames.len() && frames[order[k] as int] is Some
    &&& forall|i: int| 0 <= i < frames.len() && #[trigger] frames[i] is Some ==> order.contains(i as usize)
    &&& frames.len() <= usize::MAX
}

/// Frames and fill order after a sequence of accesses.
pub open spec fn pager_run(frames: Seq<Option<usize>>, order: Seq<usize>, pages: Seq<usize>) -> (Seq<Option<usize>>, Seq<usize>)
    decreases pages.len(),
{
    if pages.len() == 0 {
        (frames, order)
    } else {
        let (f, o) = pager_run(frames, order, pages.drop_last());
        let (f2, o2, _) = pager_access(f, o, pages.last());
        (f2, o2)
    }
}

/// Page faults over a sequence of accesses.
pub open spec fn pager_faults(frames: Seq<Option<usize>>, order: Seq<usize>, pages: Seq<usize>) -> int
    decreases pages.len(),
{
    if pages.len() == 0 {
        0
    } else {
        let (f, o) = pager_run(frames, order, pages.drop_last());
        pager_faults(frames, order, pages.drop_last()) + if pager_access(f, o, pages.last()).2 { 1int } else { 0int }
    }
}

proof fn lemma_pager_run_push(frames: Seq<Option<usize>>, order: Seq<usize>, pages: Seq<usize>, p: usize)
    ensures
        pager_run(frames, order, pages.push(p)) == ({
            let (f, o) = pager_run(frames, order, pages);
            let (f2, o2, _) = pager_access(f, o, p);
            (f2, o2)
        }),
        pager_faults(frames, order, pages.push(p)) == pager_faults(frames, order, pages) + if pager_access(
            pager_run(frames, order, pages).0,
            pager_run(frames, order, pages).1,
            p,
        ).2 { 1int } else { 0int },
{
    assert(pages.push(p).drop_last() =~= pages);
}

proof fn lemma_pager_faults_bound(frames: Seq<Option<usize>>, order: Seq<usize>, pages: Seq<usize>)
    ensures
        0 <= pager_faults(frames, order, pages) <= pages.len(),
    decreases pages.len(),
{
    if pages.len() > 0 {
        lemma_pager_faults_bound(frames, order, pages.drop_last());
    }
}

proof fn lemma_pager_step_ok(frames: Seq<Option<usize>>, order: Seq<usize>, page: usize)
    requires
        pager_consistent(frames, order),
    ensures
        order.len() > 0 ==> order[0] < frames.len(),
{
}

/// An access keeps the fill order consistent with the frames, and afterwards the
/// page is resident whenever there is at least one frame.
pub proof fn lemma_pager_consistent(frames: Seq<Option<usize>>, order: Seq<usize>, page: usize)
    requires
        pager_consistent(frames, order),
    ensures
        pager_consistent(pager_access(frames, order, page).0, pager_access(frames, order, page).1),
        frames.len() > 0 ==> find_frame(pager_access(frames, order, page).0, Some(page), 0) >= 0,
        pager_access(frames, order, page).0.len() == frames.len(),
{
    lemma_find_frame(frames, Some(page), 0);
    lemma_find_frame(frames, None, 0);
    let (f2, o2, fault) = pager_access(frames, order, page);
    let hit = find_frame(frames, Some(page), 0);
    let free = find_frame(frames, None, 0);
    if hit < 0 {
        if free >= 0 {
            assert(!order.contains(free as usize)) by {
                if order.contains(free as usize) {
                    let k = choose|k: int| 0 <= k < order.len() && order[k] == free as usize;
                }
            }
            assert forall|a: int, b: int| 0 <= a < b < o2.len() implies o2[a] != o2[b] by {
                if b == order.len() {
                    assert(order.contains(order[a]));
                }
            }
            assert forall|i: int| 0 <= i < f2.len() && #[trigger] f2[i] is Some implies o2.contains(i as usize) by {
                if i == free {
                    assert(o2[order.len() as int] == i as usize);
                } else {
                    assert(order.contains(i as usize));
                    let k = choose|k: int| 0 <= k < order.len() && order[k] == i as usize;
                    assert(o2[k] == i as usize);
                }
            }
            lemma_find_frame(f2, Some(page), 0);
            if find_frame(f2, Some(page), 0) < 0 {
                assert(f2[free] == Some(page));
            }
        } else if order.len() > 0 {
            let v = order[0];
            let d = order.drop_first();
            assert(!d.contains(v)) by {
                if d.contains(v) {
                    let k = choose|k: int| 0 <= k < d.len() && d[k] == v;
                    assert(order[k + 1] == order[0]);
                }
            }
            assert forall|a: int, b: int| 0 <= a < b < o2.len() implies o2[a] != o2[b] by {
                if b == d.len() {
                    assert(d.contains(d[a]));
                } else {
                    assert(o2[a] == order[a + 1] && o2[b] == order[b + 1]);
                }
            }
            assert forall|k: int| 0 <= k < o2.len() implies #[trigger] o2[k] < f2.len() && f2[o2[k] as int] is Some by {
                if k < d.len() {
                    assert(o2[k] == order[k + 1]);
                }
            }
            assert forall|i: int| 0 <= i < f2.len() && #[trigger] f2[i] is Some implies o2.contains(i as usize) by {
                if i == v {
                    assert(o2[d.len() as int] == i as usize);
                } else {
                    assert(frames[i] is Some);
                    assert(order.contains(i as usize));
                    let k = choose|k: int| 0 <= k < order.len() && order[k] == i as usize;
                    assert(k != 0);
                    assert(o2[k - 1] == i as usize);
                }
            }
            lemma_find_frame(f2, Some(page), 0);
            if find_frame(f2, Some(page), 0) < 0 {
                assert(f2[v as int] == Some(page));
            }
        } else {
            if frames.len() > 0 {
                assert(frames[0] != None::<usize>);
                assert(frames[0] is Some);
                assert(order.contains(0usize));
            }
        }
    } else {
        lemma_find_frame(f2, Some(page), 0);
    }
}

/// Page faults never exceed accesses.
pub proof fn lemma_faults_le_accesses(frames: Seq<Option<usize>>, order: Seq<usize>, pages: Seq<usize>)
    ensures
        pager_faults(frames, order, pages) <= pages.len(),
{
    lemma_pager_faults_bound(frames, order, pages);
}

} // verus!
