use vstd::prelude::*;
use crate::util::{first_index, lemma_first_index, lemma_first_index_contains, position_of, without, remove_all};

verus! {

/// Page replacement algorithm trait. Each algorithm has an abstract state (its
/// view) and a transition function that says what one access does to it.
pub trait PageReplacement: View + Sized {
    /// The state after accessing `page`, and whether the access faulted.
    spec fn step(v: Self::V, page: usize) -> (Self::V, bool);

    /// Accessing `page` from `v` neither overflows a counter nor indexes out of range.
    spec fn access_ok(v: Self::V, page: usize) -> bool;

    /// The number of faults counted in `v`.
    spec fn fault_count(v: Self::V) -> int;

    /// The pages in memory in `v`.
    spec fn resident(v: Self::V) -> Seq<usize>;

    /// The algorithm's name.
    spec fn label() -> Seq<char>;

    /// Access a page. Returns true if page fault occurred.
    fn access(&mut self, page: usize) -> (fault: bool)
        requires
            Self::access_ok(old(self)@, page),
        ensures
            (final(self)@, fault) == Self::step(old(self)@, page),
    ;

    /// Get current frames in memory.
    fn frames(&self) -> (r: Vec<usize>)
        ensures
            r@ == Self::resident(self@),
    ;

    /// Get total faults so far.
    fn faults(&self) -> (r: usize)
        ensures
            r == Self::fault_count(self@),
    ;

    /// Name of the algorithm.
    fn name(&self) -> (r: &'static str)
        ensures
            r@ == Self::label(),
    ;
}

/// The state after a sequence of accesses.
pub open spec fn run_accesses<A: PageReplacement>(v: A::V, refs: Seq<usize>) -> A::V
    decreases refs.len(),
{
    if refs.len() == 0 {
        v
    } else {
        A::step(run_accesses::<A>(v, refs.drop_last()), refs.last()).0
    }
}

/// Every access of the sequence is defined.
pub open spec fn accesses_ok<A: PageReplacement>(v: A::V, refs: Seq<usize>) -> bool
    decreases refs.len(),
{
    if refs.len() == 0 {
        true
    } else {
        accesses_ok::<A>(v, refs.drop_last()) && A::access_ok(run_accesses::<A>(v, refs.drop_last()), refs.last())
    }
}

/// Simulate a page replacement algorithm on a reference string. Returns the total
/// number of faults counted afterwards.
pub fn simulate_replacement<A: PageReplacement>(algo: &mut A, references: &[usize]) -> (r: usize)
    requires
        accesses_ok::<A>(old(algo)@, references@),
    ensures
        final(algo)@ == run_accesses::<A>(old(algo)@, references@),
        r == A::fault_count(final(algo)@),
{
    let ghost v0 = algo@;
    let mut k: usize = 0;
    proof {
        assert(references@.take(0) =~= Seq::<usize>::empty());
    }
    while k < references.len()
        invariant
            k <= references@.len(),
            accesses_ok::<A>(v0, references@),
            algo@ == run_accesses::<A>(v0, references@.take(k as int)),
        decreases references@.len() - k,
    {
        proof {
            let t = references@.take(k + 1);
            assert(t.drop_last() =~= references@.take(k as int));
            lemma_accesses_ok_prefix::<A>(v0, references@, k + 1);
        }
        algo.access(references[k]);
        k = k + 1;
    }
    proof {
        assert(references@.take(k as int) =~= references@);
    }
    algo.faults()
}

proof fn lemma_accesses_ok_prefix<A: PageReplacement>(v: A::V, refs: Seq<usize>, k: int)
    requires
        accesses_ok::<A>(v, refs),
        0 <= k <= refs.len(),
    ensures
        accesses_ok::<A>(v, refs.take(k)),
    decreases refs.len(),
{
    if k < refs.len() {
        assert(refs.drop_last().take(k) =~= refs.take(k));
        lemma_accesses_ok_prefix::<A>(v, refs.drop_last(), k);
    } else {
        assert(refs.take(k) =~= refs);
    }
}

fn contains_page(v: &Vec<usize>, page: usize) -> (r: bool)
    ensures
        r == v@.contains(page),
{
    proof {
        lemma_first_index_contains(v@, page);
    }
    position_of(v, page).is_some()
}

/// FIFO page replacement.
#[derive(Clone, Debug)]
pub struct FifoReplacement {
    pub capacity: usize,
    pub frames: Vec<usize>,
    pub faults: usize,
    /// Pages in insertion order.
    pub queue: Vec<usize>,
}

/// The abstract state of FIFO replacement.
pub struct FifoState {
    pub capacity: int,
    pub frames: Seq<usize>,
    pub faults: int,
    pub queue: Seq<usize>,
}

impl View for FifoReplacement {
    type V = FifoState;

    open spec fn view(&self) -> FifoState {
        FifoState {
            capacity: self.capacity as int,
            frames: self.frames@,
            faults: self.faults as int,
            queue: self.queue@,
        }
    }
}

impl FifoReplacement {
    pub fn new(capacity: usize) -> (r: Self)
        ensures
            r@ == (FifoState { capacity: capacity as int, frames: Seq::empty(), faults: 0, queue: Seq::empty() }),
    {
        FifoReplacement { capacity, frames: Vec::new(), faults: 0, queue: Vec::new() }
    }
}

impl PageReplacement for FifoReplacement {
    /// A resident page is a hit. Otherwise the page is added while there is room, or
    /// else replaces (in the oldest page's frame) the page that was brought in first.
    open spec fn step(v: FifoState, page: usize) -> (FifoState, bool) {
        if v.frames.contains(page) {
            (v, false)
        } else if v.frames.len() < v.capacity {
            (FifoState { frames: v.frames.push(page), faults: v.faults + 1, queue: v.queue.push(page), ..v }, true)
        } else {
            let oldest = v.queue[0];
            let pos = first_index(v.frames, oldest, 0);
            let frames = if pos >= 0 { v.frames.update(pos, page) } else { v.frames };
            (FifoState { frames, faults: v.faults + 1, queue: v.queue.drop_first().push(page), ..v }, true)
        }
    }

    open spec fn access_ok(v: FifoState, page: usize) -> bool {
        !v.frames.contains(page) ==> {
            &&& v.faults < usize::MAX
            &&& v.frames.len() >= v.capacity ==> v.queue.len() > 0
        }
    }

    open spec fn fault_count(v: FifoState) -> int {
        v.faults
    }

    open spec fn resident(v: FifoState) -> Seq<usize> {
        v.frames
    }

    open spec fn label() -> Seq<char> {
        "FIFO"@
    }

    fn access(&mut self, page: usize) -> (fault: bool) {
        if contains_page(&self.frames, page) {
            return false;
        }
        self.faults = self.faults + 1;
        if self.frames.len() < self.capacity {
            self.frames.push(page);
            self.queue.push(page);
        } else {
            let oldest = self.queue.remove(0);
            proof {
                lemma_first_index(self.frames@, oldest, 0);
            }
            match position_of(&self.frames, oldest) {
                Some(pos) => {
                    self.frames.set(pos, page);
                },
                None => {},
            }
            self.queue.push(page);
            proof {
                assert(self.queue@ =~= old(self).queue@.drop_first().push(page));
            }
        }
        true
    }

    fn frames(&self) -> (r: Vec<usize>) {
        self.frames.clone()
    }

    fn faults(&self) -> (r: usize) {
        self.faults
    }

    fn name(&self) -> (r: &'static str) {
        "FIFO"
    }
}

/// LRU page replacement.
#[derive(Clone, Debug)]
pub struct LruReplacement {
    pub capacity: usize,
    pub frames: Vec<usize>,
    pub faults: usize,
    /// Pages by recency of use, most recently used at the end.
    pub use_order: Vec<usize>,
}

/// The abstract state of LRU replacement.
pub struct LruState {
    pub capacity: int,
    pub frames: Seq<usize>,
    pub faults: int,
    pub use_order: Seq<usize>,
}

impl View for LruReplacement {
    type V = LruState;

    open spec fn view(&self) -> LruState {
        LruState {
            capacity: self.capacity as int,
            frames: self.frames@,
            faults: self.faults as int,
            use_order: self.use_order@,
        }
    }
}

impl LruReplacement {
    pub fn new(capacity: usize) -> (r: Self)
        ensures
            r@ == (LruState { capacity: capacity as int, frames: Seq::empty(), faults: 0, use_order: Seq::empty() }),
    {
        LruReplacement { capacity, frames: Vec::new(), faults: 0, use_order: Vec::new() }
    }
}

impl PageReplacement for LruReplacement {
    /// A resident page is a hit and becomes the most recently used. Otherwise the page is
    /// added while there is room, or else replaces the least recently used page.
    open spec fn step(v: LruState, page: usize) -> (LruState, bool) {
        if v.frames.contains(page) {
            (LruState { use_order: without(v.use_order, page).push(page), ..v }, false)
        } else if v.frames.len() < v.capacity {
            (LruState { frames: v.frames.push(page), faults: v.faults + 1, use_order: v.use_order.push(page), ..v }, true)
        } else if v.use_order.len() > 0 {
            let lru = v.use_order[0];
            let pos = first_index(v.frames, lru, 0);
            let frames = if pos >= 0 { v.frames.update(pos, page) } else { v.frames };
            (LruState { frames, faults: v.faults + 1, use_order: v.use_order.drop_first().push(page), ..v }, true)
        } else {
            (LruState { faults: v.faults + 1, use_order: v.use_order.push(page), ..v }, true)
        }
    }

    open spec fn access_ok(v: LruState, page: usize) -> bool {
        !v.frames.contains(page) ==> v.faults < usize::MAX
    }

    open spec fn fault_count(v: LruState) -> int {
        v.faults
    }

    open spec fn resident(v: LruState) -> Seq<usize> {
        v.frames
    }

    open spec fn label() -> Seq<char> {
        "LRU"@
    }

    fn access(&mut self, page: usize) -> (fault: bool) {
        if contains_page(&self.frames, page) {
            let mut order = remove_all(&self.use_order, page);
            order.push(page);
            self.use_order = order;
            return false;
        }
        self.faults = self.faults + 1;
        if self.frames.len() < self.capacity {
            self.frames.push(page);
        } else if self.use_order.len() > 0 {
            let lru = self.use_order[0];
            proof {
                lemma_first_index(self.frames@, lru, 0);
            }
            match position_of(&self.frames, lru) {
                Some(pos) => {
                    self.frames.set(pos, page);
                },
                None => {},
            }
            self.use_order.remove(0);
            proof {
                assert(self.use_order@ =~= old(self).use_order@.drop_first());
            }
        }
        self.use_order.push(page);
        true
    }

    fn frames(&self) -> (r: Vec<usize>) {
        self.frames.clone()
    }

    fn faults(&self) -> (r: usize) {
        self.faults
    }

    fn name(&self) -> (r: &'static str) {
        "LRU"
    }
}

/// Clock (Second Chance) page replacement.
#[derive(Clone, Debug)]
pub struct ClockReplacement {
    pub capacity: usize,
    pub frames: Vec<Option<usize>>,
    pub reference_bits: Vec<bool>,
    pub faults: usize,
    pub hand: usize,
}

/// The abstract state of clock replacement.
pub struct ClockState {
    pub capacity: int,
    pub frames: Seq<Option<usize>>,
    pub reference_bits: Seq<bool>,
    pub faults: int,
    pub hand: int,
}

impl View for ClockReplacement {
    type V = ClockState;

    open spec fn view(&self) -> ClockState {
        ClockState {
            capacity: self.capacity as int,
            frames: self.frames@,
            reference_bits: self.reference_bits@,
            faults: self.faults as int,
            hand: self.hand as int,
        }
    }
}

/// The first frame holding `content`, or -1.
pub open spec fn find_slot(frames: Seq<Option<usize>>, content: Option<usize>, i: int) -> int
    decreases frames.len() - i,
{
    if i < 0 || i >= frames.len() {
        -1
    } else if frames[i] == content {
        i
    } else {
        find_slot(frames, content, i + 1)
    }
}

pub(crate) proof fn lemma_find_slot(frames: Seq<Option<usize>>, content: Option<usize>, i: int)
    requires
        0 <= i,
    ensures
        find_slot(frames, content, i) < 0 ==> forall|j: int| i <= j < frames.len() ==> #[trigger] frames[j] != content,
        find_slot(frames, content, i) >= 0 ==> {
            let k = find_slot(frames, content, i);
            &&& i <= k < frames.len()
            &&& frames[k] == content
            &&& forall|j: int| i <= j < k ==> #[trigger] frames[j] != content
        },
    decreases frames.len() - i,
{
    if i < frames.len() && frames[i] != content {
        lemma_find_slot(frames, content, i + 1);
    }
}

/// The clock hand sweep: pages with their reference bit set get a second chance (the
/// bit is cleared and the hand moves on) until a page without one is found. Returns
/// the bits afterwards and the victim frame.
pub open spec fn clock_sweep(bits: Seq<bool>, hand: int, capacity: int, fuel: nat) -> (Seq<bool>, int)
    decreases fuel,
{
    if fuel == 0 || !bits[hand] {
        (bits, hand)
    } else {
        clock_sweep(bits.update(hand, false), (hand + 1) % capacity, capacity, (fuel - 1) as nat)
    }
}

/// Number of set bits.
pub open spec fn count_set(s: Seq<bool>) -> nat
    decreases s.len(),
{
    if s.len() == 0 {
        0
    } else {
        count_set(s.drop_last()) + if s.last() { 1nat } else { 0nat }
    }
}

proof fn lemma_count_set_clear(s: Seq<bool>, i: int)
    requires
        0 <= i < s.len(),
        s[i],
    ensures
        count_set(s.update(i, false)) + 1 == count_set(s),
    decreases s.len(),
{
    if i < s.len() - 1 {
        assert(s.update(i, false).drop_last() =~= s.drop_last().update(i, false));
        lemma_count_set_clear(s.drop_last(), i);
    } else {
        assert(s.update(i, false).drop_last() =~= s.drop_last());
    }
}

pub(crate) proof fn lemma_count_set_le(s: Seq<bool>)
    ensures
        count_set(s) <= s.len(),
    decreases s.len(),
{
    if s.len() > 0 {
        lemma_count_set_le(s.drop_last());
    }
}

/// The sweep ends once no set bit is left, so this much fuel always suffices.
pub open spec fn sweep_fuel(bits: Seq<bool>) -> nat {
    bits.len() + 1
}

pub(crate) proof fn lemma_sweep_stable(bits: Seq<bool>, hand: int, capacity: int, f1: nat, f2: nat)
    requires
        count_set(bits) < f1,
        count_set(bits) < f2,
        0 <= hand < capacity <= bits.len(),
    ensures
        clock_sweep(bits, hand, capacity, f1) == clock_sweep(bits, hand, capacity, f2),
        0 <= clock_sweep(bits, hand, capacity, f1).1 < capacity,
        clock_sweep(bits, hand, capacity, f1).0.len() == bits.len(),
    decreases f1,
{
    if bits[hand] {
        lemma_count_set_clear(bits, hand);
        lemma_sweep_stable(bits.update(hand, false), (hand + 1) % capacity, capacity, (f1 - 1) as nat, (f2 - 1) as nat);
    }
}

impl ClockReplacement {
    pub fn new(capacity: usize) -> (r: Self)
        ensures
            r@ == (ClockState {
                capacity: capacity as int,
                frames: Seq::new(capacity as nat, |i: int| None::<usize>),
                reference_bits: Seq::new(capacity as nat, |i: int| false),
                faults: 0,
                hand: 0,
            }),
    {
        let mut frames: Vec<Option<usize>> = Vec::new();
        let mut reference_bits: Vec<bool> = Vec::new();
        let mut k: usize = 0;
        while k < capacity
            invariant
                k <= capacity,
                frames@ =~= Seq::new(k as nat, |i: int| None::<usize>),
                reference_bits@ =~= Seq::new(k as nat, |i: int| false),
            decreases capacity - k,
        {
            frames.push(None);
            reference_bits.push(false);
            k = k + 1;
        }
        ClockReplacement { capacity, frames, reference_bits, faults: 0, hand: 0 }
    }

    fn find_slot(&self, content: Option<usize>) -> (r: Option<usize>)
        ensures
            r matches Some(i) ==> find_slot(self.frames@, content, 0) == i,
            r is None ==> find_slot(self.frames@, content, 0) < 0,
    {
        let mut i: usize = 0;
        while i < self.frames.len()
            invariant
                i <= self.frames@.len(),
                find_slot(self.frames@, content, 0) == find_slot(self.frames@, content, i as int),
            decreases self.frames@.len() - i,
        {
            let same = match (self.frames[i], content) {
                (Some(a), Some(b)) => a == b,
                (None, None) => true,
                _ => false,
            };
            if same {
                return Some(i);
            }
            i = i + 1;
        }
        None
    }

    fn find_page(&self, page: usize) -> (r: Option<usize>)
        ensures
            r matches Some(i) ==> find_slot(self.frames@, Some(page), 0) == i,
            r is None ==> find_slot(self.frames@, Some(page), 0) < 0,
    {
        self.find_slot(Some(page))
    }

    fn find_free(&self) -> (r: Option<usize>)
        ensures
            r matches Some(i) ==> find_slot(self.frames@, None, 0) == i,
            r is None ==> find_slot(self.frames@, None, 0) < 0,
    {
        self.find_slot(None)
    }
}

/// Present pages in frame order.
pub open spec fn present(frames: Seq<Option<usize>>) -> Seq<usize>
    decreases frames.len(),
{
    if frames.len() == 0 {
        Seq::empty()
    } else {
        match frames.last() {
            Some(p) => present(frames.drop_last()).push(p),
            None => present(frames.drop_last()),
        }
    }
}

impl PageReplacement for ClockReplacement {
    /// A resident page is a hit and gets its reference bit set. Otherwise the page goes
    /// into the first free frame, or else the hand sweeps to a victim (see
    /// `clock_sweep`), which is replaced; the hand then moves past it.
    open spec fn step(v: ClockState, page: usize) -> (ClockState, bool) {
        let idx = find_slot(v.frames, Some(page), 0);
        if idx >= 0 {
            (ClockState { reference_bits: v.reference_bits.update(idx, true), ..v }, false)
        } else {
            let free = find_slot(v.frames, None, 0);
            if free >= 0 {
                (ClockState {
                    frames: v.frames.update(free, Some(page)),
                    reference_bits: v.reference_bits.update(free, true),
                    faults: v.faults + 1,
                    ..v
                }, true)
            } else {
                let (bits, victim) = clock_sweep(v.reference_bits, v.hand, v.capacity, sweep_fuel(v.reference_bits));
                (ClockState {
                    frames: v.frames.update(victim, Some(page)),
                    reference_bits: bits.update(victim, true),
                    faults: v.faults + 1,
                    hand: (victim + 1) % v.capacity,
                    ..v
                }, true)
            }
        }
    }

    open spec fn access_ok(v: ClockState, page: usize) -> bool {
        &&& v.frames.len() <= v.reference_bits.len()
        &&& find_slot(v.frames, Some(page), 0) < 0 ==> v.faults < usize::MAX
        &&& find_slot(v.frames, Some(page), 0) < 0 && find_slot(v.frames, None, 0) < 0 ==> {
            &&& 0 <= v.hand < v.capacity
            &&& v.capacity <= v.frames.len()
        }
    }

    open spec fn fault_count(v: ClockState) -> int {
        v.faults
    }

    open spec fn resident(v: ClockState) -> Seq<usize> {
        present(v.frames)
    }

    open spec fn label() -> Seq<char> {
        "Clock"@
    }

    fn access(&mut self, page: usize) -> (fault: bool) {
        proof {
            lemma_find_slot(self.frames@, Some(page), 0);
            lemma_find_slot(self.frames@, None, 0);
        }
        if let Some(idx) = self.find_page(page) {
            self.reference_bits.set(idx, true);
            return false;
        }
        self.faults = self.faults + 1;
        if let Some(idx) = self.find_free() {
            self.frames.set(idx, Some(page));
            self.reference_bits.set(idx, true);
            return true;
        }
        let ghost fuel = sweep_fuel(self.reference_bits@);
        let ghost goal = clock_sweep(self.reference_bits@, self.hand as int, self.capacity as int, fuel);
        proof {
            lemma_count_set_le(self.reference_bits@);
            lemma_sweep_stable(self.reference_bits@, self.hand as int, self.capacity as int, fuel, (count_set(self.reference_bits@) + 1) as nat);
        }
        loop
            invariant
                self.reference_bits@.len() == old(self).reference_bits@.len(),
                self.frames@ == old(self).frames@,
                self.capacity == old(self).capacity,
                self.faults == old(self).faults + 1,
                0 <= self.hand < self.capacity <= self.frames@.len() <= self.reference_bits@.len(),
                clock_sweep(self.reference_bits@, self.hand as int, self.capacity as int, (count_set(self.reference_bits@) + 1) as nat) == goal,
                goal == clock_sweep(old(self).reference_bits@, old(self).hand as int, old(self).capacity as int, sweep_fuel(old(self).reference_bits@)),
                find_slot(old(self).frames@, Some(page), 0) < 0,
                find_slot(old(self).frames@, None, 0) < 0,
            decreases count_set(self.reference_bits@),
        {
            if !self.reference_bits[self.hand] {
                let victim = self.hand;
                proof {
                    assert(goal == (self.reference_bits@, self.hand as int));
                    assert(goal == clock_sweep(old(self).reference_bits@, old(self).hand as int, old(self).capacity as int, sweep_fuel(old(self).reference_bits@)));
                }
                self.frames.set(victim, Some(page));
                self.reference_bits.set(victim, true);
                self.hand = (self.hand + 1) % self.capacity;
                return true;
            }
            proof {
                lemma_count_set_clear(self.reference_bits@, self.hand as int);
                let nb = self.reference_bits@.update(self.hand as int, false);
                let nh = (self.hand + 1) % (self.capacity as int);
                lemma_count_set_le(nb);
                lemma_sweep_stable(nb, nh, self.capacity as int, (count_set(nb) + 1) as nat, (count_set(self.reference_bits@)) as nat);
            }
            self.reference_bits.set(self.hand, false);
            self.hand = (self.hand + 1) % self.capacity;
        }
    }

    fn frames(&self) -> (r: Vec<usize>) {
        let mut r: Vec<usize> = Vec::new();
        let mut k: usize = 0;
        while k < self.frames.len()
            invariant
                k <= self.frames@.len(),
                r@ == present(self.frames@.take(k as int)),
            decreases self.frames@.len() - k,
        {
            proof {
                assert(self.frames@.take(k + 1).drop_last() =~= self.frames@.take(k as int));
            }
            if let Some(p) = self.frames[k] {
                r.push(p);
            }
            k = k + 1;
        }
        proof {
            assert(self.frames@.take(k as int) =~= self.frames@);
        }
        r
    }

    fn faults(&self) -> (r: usize) {
        self.faults
    }

    fn name(&self) -> (r: &'static str) {
        "Clock"
    }
}

/// Optimal page replacement (needs future knowledge).
#[derive(Clone, Debug)]
pub struct OptimalReplacement {
    pub capacity: usize,
    pub frames: Vec<usize>,
    pub faults: usize,
    /// The reference string.
    pub future: Vec<usize>,
    /// Index of the current reference.
    pub position: usize,
}

/// The abstract state of optimal replacement.
pub struct OptimalState {
    pub capacity: int,
    pub frames: Seq<usize>,
    pub faults: int,
    pub future: Seq<usize>,
    pub position: int,
}

impl View for OptimalReplacement {
    type V = OptimalState;

    open spec fn view(&self) -> OptimalState {
        OptimalState {
            capacity: self.capacity as int,
            frames: self.frames@,
            faults: self.faults as int,
            future: self.future@,
            position: self.position as int,
        }
    }
}

/// The next reference to `page` after `position`, or -1 if it is never used again.
pub open spec fn next_use(future: Seq<usize>, position: int, page: usize) -> int {
    first_index(future, page, position + 1)
}

/// `v` is the frame to evict: the first frame whose page is never used again, or,
/// when every page is used again, the first frame whose page is used farthest ahead.
pub open spec fn is_opt_victim(frames: Seq<usize>, future: Seq<usize>, position: int, v: int) -> bool {
    &&& 0 <= v < frames.len()
    &&& if next_use(future, position, frames[v]) < 0 {
        forall|j: int| 0 <= j < v ==> next_use(future, position, #[trigger] frames[j]) >= 0
    } else {
        &&& forall|j: int| 0 <= j < frames.len() ==> 0 <= next_use(future, position, #[trigger] frames[j])
            <= next_use(future, position, frames[v])
        &&& forall|j: int| 0 <= j < v ==> next_use(future, position, #[trigger] frames[j]) < next_use(
            future,
            position,
            frames[v],
        )
    }
}

pub open spec fn opt_victim(frames: Seq<usize>, future: Seq<usize>, position: int) -> int {
    choose|v: int| is_opt_victim(frames, future, position, v)
}

proof fn lemma_opt_victim_unique(frames: Seq<usize>, future: Seq<usize>, position: int, v: int)
    requires
        is_opt_victim(frames, future, position, v),
    ensures
        opt_victim(frames, future, position) == v,
{
    let w = opt_victim(frames, future, position);
    assert(is_opt_victim(frames, future, position, w));
    if w < v {
        assert(next_use(future, position, frames[w]) >= 0 || next_use(future, position, frames[v]) >= 0);
    } else if w > v {
        assert(next_use(future, position, frames[v]) >= 0 || next_use(future, position, frames[w]) >= 0);
    }
}

impl OptimalReplacement {
    pub fn new(capacity: usize, references: Vec<usize>) -> (r: Self)
        ensures
            r@ == (OptimalState {
                capacity: capacity as int,
                frames: Seq::empty(),
                faults: 0,
                future: references@,
                position: 0,
            }),
    {
        OptimalReplacement { capacity, frames: Vec::new(), faults: 0, future: references, position: 0 }
    }

    fn next_use(&self, page: usize) -> (r: Option<usize>)
        requires
            self.position < usize::MAX,
        ensures
            r matches Some(j) ==> next_use(self.future@, self.position as int, page) == j,
            r is None ==> next_use(self.future@, self.position as int, page) < 0,
    {
        let mut i: usize = self.position + 1;
        while i < self.future.len()
            invariant
                self.position + 1 <= i,
                i <= self.future@.len() || i == self.position + 1,
                first_index(self.future@, page, self.position + 1) == first_index(self.future@, page, i as int),
            decreases self.future@.len() - i,
        {
            if self.future[i] == page {
                return Some(i);
            }
            i = i + 1;
        }
        None
    }
}

impl PageReplacement for OptimalReplacement {
    /// A resident page is a hit. Otherwise the page is added while there is room, or
    /// else replaces the optimal victim (see `is_opt_victim`). Either way the position
    /// advances.
    open spec fn step(v: OptimalState, page: usize) -> (OptimalState, bool) {
        if v.frames.contains(page) {
            (OptimalState { position: v.position + 1, ..v }, false)
        } else if v.frames.len() < v.capacity {
            (OptimalState { frames: v.frames.push(page), faults: v.faults + 1, position: v.position + 1, ..v }, true)
        } else {
            let victim = opt_victim(v.frames, v.future, v.position);
            (OptimalState {
                frames: v.frames.update(victim, page),
                faults: v.faults + 1,
                position: v.position + 1,
                ..v
            }, true)
        }
    }

    open spec fn access_ok(v: OptimalState, page: usize) -> bool {
        &&& v.position < usize::MAX
        &&& !v.frames.contains(page) ==> v.faults < usize::MAX
        &&& !v.frames.contains(page) && v.frames.len() >= v.capacity ==> {
            &&& v.frames.len() > 0
            &&& v.position < v.future.len()
        }
    }

    open spec fn fault_count(v: OptimalState) -> int {
        v.faults
    }

    open spec fn resident(v: OptimalState) -> Seq<usize> {
        v.frames
    }

    open spec fn label() -> Seq<char> {
        "Optimal"@
    }

    fn access(&mut self, page: usize) -> (fault: bool) {
        if contains_page(&self.frames, page) {
            self.position = self.position + 1;
            return false;
        }
        self.faults = self.faults + 1;
        if self.frames.len() < self.capacity {
            self.frames.push(page);
        } else {
            let ghost fr = self.frames@;
            let ghost fu = self.future@;
            let ghost pos = self.position as int;
            let mut evict_idx: usize = 0;
            let mut farthest: Option<usize> = None;
            let mut i: usize = 0;
            let mut never = false;
            while i < self.frames.len() && !never
                invariant
                    self.frames@ == fr,
                    self.future@ == fu,
                    self.position == pos,
                    pos < usize::MAX,
                    i <= fr.len(),
                    fr.len() > 0,
                    never ==> is_opt_victim(fr, fu, pos, evict_idx as int),
                    !never ==> forall|j: int| 0 <= j < i ==> next_use(fu, pos, #[trigger] fr[j]) >= 0,
                    !never && i == 0 ==> farthest is None && evict_idx == 0,
                    !never && i > 0 ==> {
                        &&& farthest matches Some(far) && far == next_use(fu, pos, fr[evict_idx as int])
                        &&& evict_idx < i
                        &&& forall|j: int| 0 <= j < i ==> next_use(fu, pos, #[trigger] fr[j]) <= next_use(fu, pos, fr[evict_idx as int])
                        &&& forall|j: int| 0 <= j < evict_idx ==> next_use(fu, pos, #[trigger] fr[j]) < next_use(fu, pos, fr[evict_idx as int])
                    },
                decreases fr.len() - i + if never { 0int } else { 1int },
            {
                match self.next_use(self.frames[i]) {
                    None => {
                        evict_idx = i;
                        farthest = None;
                        never = true;
                    },
                    Some(next) => {
                        match farthest {
                            Some(far) => {
                                if next > far {
                                    farthest = Some(next);
                                    evict_idx = i;
                                }
                            },
                            None => {
                                farthest = Some(next);
                                evict_idx = i;
                            },
                        }
                        i = i + 1;
                    },
                }
            }
            proof {
                lemma_opt_victim_unique(fr, fu, pos, evict_idx as int);
            }
            self.frames.set(evict_idx, page);
        }
        self.position = self.position + 1;
        true
    }

    fn frames(&self) -> (r: Vec<usize>) {
        self.frames.clone()
    }

    fn faults(&self) -> (r: usize) {
        self.faults
    }

    fn name(&self) -> (r: &'static str) {
        "Optimal"
    }
}

/// A clock access that hits sets the reference bit of the frame holding the page (giving
/// it a second chance before the hand can evict it), keeps every frame, and is no fault.
pub proof fn lemma_clock_hit_sets_bit(v: ClockState, page: usize, i: int)
    requires
        0 <= i < v.frames.len(),
        i < v.reference_bits.len(),
        v.frames[i] == Some(page),
        forall|j: int| 0 <= j < i ==> #[trigger] v.frames[j] != Some(page),
    ensures
        ClockReplacement::step(v, page).0.reference_bits[i],
        ClockReplacement::step(v, page).0.reference_bits.len() == v.reference_bits.len(),
        ClockReplacement::step(v, page).0.frames == v.frames,
        !ClockReplacement::step(v, page).1,
        ClockReplacement::step(v, page).0.faults == v.faults,
{
    lemma_find_slot(v.frames, Some(page), 0);
    let idx = find_slot(v.frames, Some(page), 0);
    assert(idx >= 0);
    assert(idx == i) by {
        if idx < i {
            assert(v.frames[idx] == Some(page));
        }
    }
}

} // verus!
