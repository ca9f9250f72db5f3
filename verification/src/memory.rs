use vstd::prelude::*;
use crate::util::{without, lemma_without_contains, remove_all, lemma_usize_range_finite_len};

verus! {

/// A page table entry.
#[derive(Clone, Copy, Debug)]
pub struct PageTableEntry {
    pub frame_number: usize,
    pub valid: bool,
    pub dirty: bool,
    pub accessed: bool,
}

/// A simple page table simulation.
#[derive(Clone, Debug)]
pub struct PageTable {
    pub entries: Vec<PageTableEntry>,
    pub num_pages: usize,
    pub num_frames: usize,
    pub page_size: usize,
}

/// An entry that maps nothing.
pub open spec fn unmapped_entry() -> PageTableEntry {
    PageTableEntry { frame_number: 0, valid: false, dirty: false, accessed: false }
}

/// The physical address of `addr` under the given table, if it is mapped:
/// page number `addr / page_size`, offset `addr % page_size`.
pub open spec fn translation(
    entries: Seq<PageTableEntry>,
    num_pages: int,
    page_size: int,
    addr: int,
) -> Option<int> {
    let page = addr / page_size;
    if page >= num_pages {
        None
    } else if entries[page].valid {
        Some(entries[page].frame_number * page_size + addr % page_size)
    } else {
        None
    }
}

/// The entries after mapping `page` to `frame` (pages out of range are ignored).
pub open spec fn mapped(entries: Seq<PageTableEntry>, num_pages: int, page: int, frame: usize) -> Seq<PageTableEntry> {
    if page < num_pages {
        entries.update(page, PageTableEntry { frame_number: frame, valid: true, dirty: false, accessed: false })
    } else {
        entries
    }
}

/// The entries after unmapping `page` (pages out of range are ignored).
pub open spec fn unmapped(entries: Seq<PageTableEntry>, num_pages: int, page: int) -> Seq<PageTableEntry> {
    if page < num_pages {
        entries.update(page, PageTableEntry { valid: false, ..entries[page] })
    } else {
        entries
    }
}

impl PageTable {
    pub fn new(num_pages: usize, num_frames: usize, page_size: usize) -> (r: Self)
        ensures
            r.entries@ == Seq::new(num_pages as nat, |i: int| unmapped_entry()),
            r.num_pages == num_pages,
            r.num_frames == num_frames,
            r.page_size == page_size,
    {
        let mut entries: Vec<PageTableEntry> = Vec::new();
        let mut i: usize = 0;
        while i < num_pages
            invariant
                i <= num_pages,
                entries@ =~= Seq::new(i as nat, |j: int| unmapped_entry()),
            decreases num_pages - i,
        {
            entries.push(PageTableEntry { frame_number: 0, valid: false, dirty: false, accessed: false });
            i = i + 1;
        }
        PageTable { entries, num_pages, num_frames, page_size }
    }

    /// Translate a virtual address to a physical address. Returns None on fault.
    pub fn translate(&self, virtual_addr: usize) -> (r: Option<usize>)
        requires
            self.page_size > 0,
            virtual_addr / self.page_size < self.num_pages ==> virtual_addr / self.page_size < self.entries@.len(),
            translation(self.entries@, self.num_pages as int, self.page_size as int, virtual_addr as int) matches Some(a)
                ==> a <= usize::MAX,
        ensures
            r matches Some(a) ==> translation(self.entries@, self.num_pages as int, self.page_size as int, virtual_addr as int)
                == Some(a as int),
            r is None ==> translation(self.entries@, self.num_pages as int, self.page_size as int, virtual_addr as int)
                is None,
    {
        let page = virtual_addr / self.page_size;
        let offset = virtual_addr % self.page_size;
        if page >= self.num_pages {
            return None;
        }
        let entry = self.entries[page];
        if entry.valid {
            proof {
                assert(entry.frame_number * self.page_size + offset <= usize::MAX);
                assert(entry.frame_number * self.page_size <= usize::MAX) by (nonlinear_arith)
                    requires
                        entry.frame_number * self.page_size + offset <= usize::MAX,
                        offset >= 0;
            }
            Some(entry.frame_number * self.page_size + offset)
        } else {
            None
        }
    }

    /// Map a page to a frame.
    pub fn map(&mut self, page: usize, frame: usize)
        requires
            page < old(self).num_pages ==> page < old(self).entries@.len(),
        ensures
            final(self).entries@ == mapped(old(self).entries@, old(self).num_pages as int, page as int, frame),
            final(self).num_pages == old(self).num_pages,
            final(self).num_frames == old(self).num_frames,
            final(self).page_size == old(self).page_size,
    {
        if page < self.num_pages {
            self.entries.set(page, PageTableEntry { frame_number: frame, valid: true, dirty: false, accessed: false });
        }
    }

    /// Unmap a page.
    pub fn unmap(&mut self, page: usize)
        requires
            page < old(self).num_pages ==> page < old(self).entries@.len(),
        ensures
            final(self).entries@ == unmapped(old(self).entries@, old(self).num_pages as int, page as int),
            final(self).num_pages == old(self).num_pages,
            final(self).num_frames == old(self).num_frames,
            final(self).page_size == old(self).page_size,
    {
        if page < self.num_pages {
            let mut e = self.entries[page];
            e.valid = false;
            self.entries.set(page, e);
        }
    }
}

/// Mapping a page makes every address in it translate into the frame, at the same offset.
pub proof fn lemma_translate_after_map(
    entries: Seq<PageTableEntry>,
    num_pages: int,
    page_size: int,
    page: int,
    frame: usize,
    addr: int,
)
    requires
        page_size > 0,
        0 <= page < num_pages,
        page < entries.len(),
        addr >= 0,
        addr / page_size == page,
    ensures
        translation(mapped(entries, num_pages, page, frame), num_pages, page_size, addr) == Some(
            frame * page_size + addr % page_size,
        ),
{
}

/// Unmapping a page makes every address in it fault.
pub proof fn lemma_translate_after_unmap(
    entries: Seq<PageTableEntry>,
    num_pages: int,
    page_size: int,
    page: int,
    addr: int,
)
    requires
        page_size > 0,
        0 <= page < num_pages,
        page < entries.len(),
        addr >= 0,
        addr / page_size == page,
    ensures
        translation(unmapped(entries, num_pages, page), num_pages, page_size, addr) is None,
{
}

/// Mapping or unmapping one page leaves the translation of other pages unchanged.
pub proof fn lemma_map_other_page(
    entries: Seq<PageTableEntry>,
    num_pages: int,
    page_size: int,
    page: int,
    frame: usize,
    addr: int,
)
    requires
        page_size > 0,
        0 <= page,
        num_pages <= entries.len(),
        addr >= 0,
        addr / page_size != page,
    ensures
        translation(mapped(entries, num_pages, page, frame), num_pages, page_size, addr) == translation(
            entries,
            num_pages,
            page_size,
            addr,
        ),
        translation(unmapped(entries, num_pages, page), num_pages, page_size, addr) == translation(
            entries,
            num_pages,
            page_size,
            addr,
        ),
{
}

/// TLB entry.
#[derive(Clone, Copy, Debug)]
pub struct TlbEntry {
    pub page: usize,
    pub frame: usize,
    pub valid: bool,
}

/// Simple TLB simulation.
#[derive(Clone, Debug)]
pub struct Tlb {
    pub entries: Vec<TlbEntry>,
    pub capacity: usize,
    pub hits: u64,
    pub misses: u64,
    /// Indices into `entries`, most recently used last.
    pub lru_order: Vec<usize>,
}

/// `e` is an entry for `page` (and valid, when `valid_only`).
pub open spec fn entry_matches(e: TlbEntry, page: usize, valid_only: bool) -> bool {
    (e.valid || !valid_only) && e.page == page
}

/// The first entry at or after `i` for `page` (only valid entries when `valid_only`), or -1.
pub open spec fn find_entry(entries: Seq<TlbEntry>, page: usize, i: int, valid_only: bool) -> int
    decreases entries.len() - i,
{
    if i < 0 || i >= entries.len() {
        -1
    } else if entry_matches(entries[i], page, valid_only) {
        i
    } else {
        find_entry(entries, page, i + 1, valid_only)
    }
}

/// `lru` after entry `i` is used: moved to the most recent end.
pub open spec fn touch(lru: Seq<usize>, i: usize) -> Seq<usize> {
    without(lru, i).push(i)
}

/// The TLB after inserting `page -> frame`: an entry for the page is updated and made
/// valid; otherwise a new entry is added while there is room; otherwise the least
/// recently used entry is replaced.
pub open spec fn tlb_insert(
    entries: Seq<TlbEntry>,
    lru: Seq<usize>,
    capacity: int,
    page: usize,
    frame: usize,
) -> (Seq<TlbEntry>, Seq<usize>) {
    let i = find_entry(entries, page, 0, false);
    let e = TlbEntry { page, frame, valid: true };
    if i >= 0 {
        (entries.update(i, e), touch(lru, i as usize))
    } else if entries.len() < capacity {
        (entries.push(e), lru.push(entries.len() as usize))
    } else if lru.len() > 0 {
        (entries.update(lru[0] as int, e), lru.drop_first().push(lru[0]))
    } else {
        (entries, lru)
    }
}

/// An insert does not index out of the entries.
pub open spec fn tlb_insert_ok(entries: Seq<TlbEntry>, lru: Seq<usize>, capacity: int, page: usize) -> bool {
    find_entry(entries, page, 0, false) < 0 && entries.len() >= capacity && lru.len() > 0 ==> lru[0] < entries.len()
}

proof fn lemma_find_entry(entries: Seq<TlbEntry>, page: usize, i: int, valid_only: bool)
    requires
        0 <= i,
    ensures
        find_entry(entries, page, i, valid_only) < 0 ==> forall|j: int| i <= j < entries.len() ==>
            !#[trigger] entry_matches(entries[j], page, valid_only),
        find_entry(entries, page, i, valid_only) >= 0 ==> {
            let k = find_entry(entries, page, i, valid_only);
            &&& i <= k < entries.len()
            &&& entry_matches(entries[k], page, valid_only)
            &&& forall|j: int| i <= j < k ==> !#[trigger] entry_matches(entries[j], page, valid_only)
        },
    decreases entries.len() - i,
{
    if i < entries.len() && !entry_matches(entries[i], page, valid_only) {
        lemma_find_entry(entries, page, i + 1, valid_only);
    }
}

impl Tlb {
    pub fn new(capacity: usize) -> (r: Self)
        ensures
            r.entries@ == Seq::<TlbEntry>::empty(),
            r.capacity == capacity,
            r.hits == 0,
            r.misses == 0,
            r.lru_order@ == Seq::<usize>::empty(),
    {
        Tlb { entries: Vec::new(), capacity, hits: 0, misses: 0, lru_order: Vec::new() }
    }

    fn find(&self, page: usize, valid_only: bool) -> (r: Option<usize>)
        ensures
            r matches Some(i) ==> find_entry(self.entries@, page, 0, valid_only) == i,
            r is None ==> find_entry(self.entries@, page, 0, valid_only) < 0,
    {
        let mut i: usize = 0;
        while i < self.entries.len()
            invariant
                i <= self.entries@.len(),
                find_entry(self.entries@, page, 0, valid_only) == find_entry(self.entries@, page, i as int, valid_only),
            decreases self.entries@.len() - i,
        {
            let e = self.entries[i];
            if (e.valid || !valid_only) && e.page == page {
                assert(entry_matches(self.entries@[i as int], page, valid_only));
                return Some(i);
            }
            i = i + 1;
        }
        None
    }

    /// Look up a page in the TLB. Returns frame if hit.
    pub fn lookup(&mut self, page: usize) -> (r: Option<usize>)
        requires
            find_entry(old(self).entries@, page, 0, true) >= 0 ==> old(self).hits < u64::MAX,
            find_entry(old(self).entries@, page, 0, true) < 0 ==> old(self).misses < u64::MAX,
        ensures
            ({
                let i = find_entry(old(self).entries@, page, 0, true);
                &&& final(self).entries@ == old(self).entries@
                &&& final(self).capacity == old(self).capacity
                &&& i >= 0 ==> {
                    &&& r == Some(old(self).entries@[i].frame)
                    &&& final(self).hits == old(self).hits + 1
                    &&& final(self).misses == old(self).misses
                    &&& final(self).lru_order@ == touch(old(self).lru_order@, i as usize)
                }
                &&& i < 0 ==> {
                    &&& r is None
                    &&& final(self).hits == old(self).hits
                    &&& final(self).misses == old(self).misses + 1
                    &&& final(self).lru_order@ == old(self).lru_order@
                }
            }),
    {
        match self.find(page, true) {
            Some(i) => {
                self.hits = self.hits + 1;
                let mut lru = remove_all(&self.lru_order, i);
                lru.push(i);
                self.lru_order = lru;
                proof {
                    lemma_find_entry(self.entries@, page, 0, true);
                }
                Some(self.entries[i].frame)
            },
            None => {
                self.misses = self.misses + 1;
                None
            },
        }
    }

    /// Insert a page->frame mapping into the TLB.
    pub fn insert(&mut self, page: usize, frame: usize)
        requires
            tlb_insert_ok(old(self).entries@, old(self).lru_order@, old(self).capacity as int, page),
        ensures
            (final(self).entries@, final(self).lru_order@) == tlb_insert(
                old(self).entries@,
                old(self).lru_order@,
                old(self).capacity as int,
                page,
                frame,
            ),
            final(self).capacity == old(self).capacity,
            final(self).hits == old(self).hits,
            final(self).misses == old(self).misses,
    {
        let e = TlbEntry { page, frame, valid: true };
        proof {
            lemma_find_entry(self.entries@, page, 0, false);
        }
        match self.find(page, false) {
            Some(i) => {
                self.entries.set(i, e);
                let mut lru = remove_all(&self.lru_order, i);
                lru.push(i);
                self.lru_order = lru;
            },
            None => {
                if self.entries.len() < self.capacity {
                    let idx = self.entries.len();
                    self.entries.push(e);
                    self.lru_order.push(idx);
                } else if self.lru_order.len() > 0 {
                    let lru_idx = self.lru_order[0];
                    self.entries.set(lru_idx, e);
                    self.lru_order.remove(0);
                    self.lru_order.push(lru_idx);
                    proof {
                        assert(self.lru_order@ =~= old(self).lru_order@.drop_first().push(lru_idx));
                    }
                }
            },
        }
    }
}

/// The TLB bookkeeping: within capacity, all entries valid and for distinct pages, and
/// the recency order lists every entry exactly once.
pub open spec fn tlb_consistent(entries: Seq<TlbEntry>, lru: Seq<usize>, capacity: int) -> bool {
    &&& entries.len() <= capacity
    &&& forall|i: int| 0 <= i < entries.len() ==> #[trigger] entries[i].valid
    &&& forall|i: int, j: int| 0 <= i < j < entries.len() ==> #[trigger] entries[i].page != #[trigger] entries[j].page
    &&& lru.len() == entries.len()
    &&& lru.no_duplicates()
    &&& forall|k: int| 0 <= k < lru.len() ==> #[trigger] lru[k] < entries.len()
}

proof fn lemma_lru_full(lru: Seq<usize>, n: int, i: usize)
    requires
        n <= usize::MAX,
        lru.len() == n,
        lru.no_duplicates(),
        forall|k: int| 0 <= k < lru.len() ==> #[trigger] lru[k] < n,
        i < n,
    ensures
        lru.contains(i),
{
    // A duplicate-free sequence of n indices below n holds every index below n.
    let s = lru.to_set();
    lru.unique_seq_to_set();
    let full = Set::new(|x: usize| x < n);
    assert(s.subset_of(full)) by {
        assert forall|x: usize| s.contains(x) implies full.contains(x) by {
            let k = choose|k: int| 0 <= k < lru.len() && lru[k] == x;
        }
    }
    lemma_usize_range_finite_len(n);
    if !s.contains(i) {
        vstd::set_lib::lemma_len_subset(s.insert(i), full);
    }
}

/// Inserting keeps the TLB bookkeeping.
pub proof fn lemma_tlb_insert_consistent(entries: Seq<TlbEntry>, lru: Seq<usize>, capacity: int, page: usize, frame: usize)
    requires
        tlb_consistent(entries, lru, capacity),
        capacity <= usize::MAX,
    ensures
        tlb_insert_ok(entries, lru, capacity, page),
        tlb_consistent(tlb_insert(entries, lru, capacity, page, frame).0, tlb_insert(entries, lru, capacity, page, frame).1, capacity),
{
    let i = find_entry(entries, page, 0, false);
    lemma_find_entry(entries, page, 0, false);
    let (e2, l2) = tlb_insert(entries, lru, capacity, page, frame);
    if i >= 0 {
        lemma_lru_full(lru, entries.len() as int, i as usize);
        lemma_without_contains(lru, i as usize);
        let w = without(lru, i as usize);
        assert(!w.contains(i as usize));
        assert forall|a: int, b: int| 0 <= a < b < l2.len() implies l2[a] != l2[b] by {
            if b == w.len() {
                assert(w.contains(w[a]));
            }
        }
        assert forall|k: int| 0 <= k < l2.len() implies #[trigger] l2[k] < e2.len() by {
            if k < w.len() {
                assert(w.contains(w[k]));
                assert(lru.contains(w[k]));
            }
        }
        assert forall|a: int, b: int| 0 <= a < b < e2.len() implies #[trigger] e2[a].page != #[trigger] e2[b].page by {
            if a != i && b != i {
                assert(entries[a].page != entries[b].page);
            }
        }
    } else if entries.len() < capacity {
        assert(!lru.contains(entries.len() as usize)) by {
            if lru.contains(entries.len() as usize) {
                let k = choose|k: int| 0 <= k < lru.len() && lru[k] == entries.len() as usize;
            }
        }
        assert forall|a: int, b: int| 0 <= a < b < l2.len() implies l2[a] != l2[b] by {
            if b == lru.len() {
                assert(lru.contains(lru[a]));
            }
        }
        assert forall|a: int, b: int| 0 <= a < b < e2.len() implies #[trigger] e2[a].page != #[trigger] e2[b].page by {
            if b == entries.len() {
                assert(!entry_matches(entries[a], page, false));
            }
        }
    } else if lru.len() > 0 {
        let v = lru[0];
        let d = lru.drop_first();
        assert(!d.contains(v)) by {
            if d.contains(v) {
                let k = choose|k: int| 0 <= k < d.len() && d[k] == v;
                assert(lru[k + 1] == lru[0]);
            }
        }
        assert forall|a: int, b: int| 0 <= a < b < l2.len() implies l2[a] != l2[b] by {
            if b == d.len() {
                assert(d.contains(d[a]));
            } else {
                assert(l2[a] == lru[a + 1] && l2[b] == lru[b + 1]);
            }
        }
        assert forall|k: int| 0 <= k < l2.len() implies #[trigger] l2[k] < e2.len() by {
            if k < d.len() {
                assert(l2[k] == lru[k + 1]);
            }
        }
        assert forall|a: int, b: int| 0 <= a < b < e2.len() implies #[trigger] e2[a].page != #[trigger] e2[b].page by {
            if a != v && b != v {
                assert(entries[a].page != entries[b].page);
            } else if a == v {
                assert(!entry_matches(entries[b], page, false));
            } else {
                assert(!entry_matches(entries[a], page, false));
            }
        }
    }
}

/// A lookup keeps the TLB bookkeeping.
pub proof fn lemma_tlb_lookup_consistent(entries: Seq<TlbEntry>, lru: Seq<usize>, capacity: int, page: usize)
    requires
        tlb_consistent(entries, lru, capacity),
        capacity <= usize::MAX,
    ensures
        find_entry(entries, page, 0, true) >= 0 ==> tlb_consistent(entries, touch(lru, find_entry(entries, page, 0, true) as usize), capacity),
{
    let i = find_entry(entries, page, 0, true);
    lemma_find_entry(entries, page, 0, true);
    if i >= 0 {
        let l2 = touch(lru, i as usize);
        lemma_lru_full(lru, entries.len() as int, i as usize);
        lemma_without_contains(lru, i as usize);
        let w = without(lru, i as usize);
        assert forall|a: int, b: int| 0 <= a < b < l2.len() implies l2[a] != l2[b] by {
            if b == w.len() {
                assert(w.contains(w[a]));
            }
        }
        assert forall|k: int| 0 <= k < l2.len() implies #[trigger] l2[k] < entries.len() by {
            if k < w.len() {
                assert(w.contains(w[k]));
                assert(lru.contains(w[k]));
            }
        }
    }
}

/// Read after write: once `page -> frame` is inserted into a TLB with room for at
/// least one entry, looking `page` up hits and yields `frame`.
pub proof fn lemma_tlb_insert_then_lookup(
    entries: Seq<TlbEntry>,
    lru: Seq<usize>,
    capacity: int,
    page: usize,
    frame: usize,
)
    requires
        tlb_consistent(entries, lru, capacity),
        capacity > 0,
        capacity <= usize::MAX,
    ensures
        ({
            let e2 = tlb_insert(entries, lru, capacity, page, frame).0;
            let i = find_entry(e2, page, 0, true);
            i >= 0 && e2[i].frame == frame
        }),
{
    let i = find_entry(entries, page, 0, false);
    lemma_find_entry(entries, page, 0, false);
    lemma_tlb_insert_consistent(entries, lru, capacity, page, frame);
    let e2 = tlb_insert(entries, lru, capacity, page, frame).0;
    let target: int = if i >= 0 {
        i
    } else if entries.len() < capacity {
        entries.len() as int
    } else {
        assert(lru.len() > 0);
        lru[0] as int
    };
    assert(e2[target].page == page && e2[target].valid && e2[target].frame == frame);
    lemma_find_entry(e2, page, 0, true);
    let k = find_entry(e2, page, 0, true);
    if k < 0 {
        assert(!entry_matches(e2[target], page, true));
    } else if k != target {
        assert(e2[k].page == e2[target].page);
    }
}

/// After any insert into a consistent TLB, the most recently used entry is the one for
/// the inserted page, valid and holding the inserted frame; so the next eviction picks
/// that entry only when it is the only one.
pub proof fn lemma_tlb_insert_most_recent(entries: Seq<TlbEntry>, lru: Seq<usize>, capacity: int, page: usize, frame: usize)
    requires
        tlb_consistent(entries, lru, capacity),
        1 <= capacity <= usize::MAX,
    ensures
        ({
            let (e2, l2) = tlb_insert(entries, lru, capacity, page, frame);
            &&& l2.len() > 0
            &&& l2.last() < e2.len()
            &&& e2[l2.last() as int] == (TlbEntry { page, frame, valid: true })
            &&& l2.len() >= 2 ==> l2[0] != l2.last()
        }),
{
    lemma_tlb_insert_consistent(entries, lru, capacity, page, frame);
    let (e2, l2) = tlb_insert(entries, lru, capacity, page, frame);
    let i = find_entry(entries, page, 0, false);
    lemma_find_entry(entries, page, 0, false);
    if i >= 0 {
        assert(l2 == without(lru, i as usize).push(i as usize));
    } else if entries.len() < capacity {
    } else {
        assert(lru.len() > 0);
    }
    if l2.len() >= 2 {
        assert(l2[0] != l2[l2.len() - 1]);
    }
}

} // verus!
