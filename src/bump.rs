//! The allocator engine: header placement, heap growth and shrinking, and
//! reuse of freed blocks through a search strategy.
use vstd::prelude::*;
use crate::align::{align_up, align_word, round_up, word, lemma_round_up};
use crate::block::{Block, Region};
use crate::heap::{Heap, HeapModel};

verus! {

/// Bytes set aside right before each payload for its header.
pub const HEADER_SIZE: usize = 24;

/// Lowest address of the heap region of an allocator made by `new`.
pub const DEFAULT_HEAP_BASE: usize = 0x10000;

/// Bytes by which the heap region of an allocator made by `new` may grow.
pub const DEFAULT_HEAP_CAPACITY: usize = 0x1000000;

/// How a free block is chosen to serve a request.
#[derive(Clone, Copy, Debug, PartialEq, Eq, Structural)]
pub enum SearchMode {
    /// The first free block, from the head of the list, that is large enough.
    FirstFit,
    /// The first large-enough free block at or after the one chosen last,
    /// wrapping round to the head of the list.
    NextFit,
    /// The smallest large-enough free block; the earliest among equals.
    BestFit,
}

impl Default for SearchMode {
    fn default() -> (r: SearchMode)
        ensures
            r == SearchMode::FirstFit,
    {
        SearchMode::FirstFit
    }
}

/// Whether block `b` is free and holds at least `size` bytes.
pub open spec fn fits(b: Block, size: int) -> bool {
    b.is_free && b.size >= size
}

/// No block in `lo..hi` fits `size`.
pub open spec fn none_fit_in(blocks: Seq<Block>, size: int, lo: int, hi: int) -> bool {
    forall|j: int| lo <= j < hi ==> !fits(#[trigger] blocks[j], size)
}

/// `i` is the first block in `lo..hi` that fits `size`.
pub open spec fn first_fit_in(blocks: Seq<Block>, size: int, lo: int, hi: int, i: int) -> bool {
    &&& lo <= i < hi
    &&& fits(blocks[i], size)
    &&& none_fit_in(blocks, size, lo, i)
}

/// `i` is the smallest block that fits `size`, and no earlier block that
/// fits has the same size.
pub open spec fn best_fit_at(blocks: Seq<Block>, size: int, i: int) -> bool {
    &&& 0 <= i < blocks.len()
    &&& fits(blocks[i], size)
    &&& forall|j: int|
        0 <= j < blocks.len() && fits(#[trigger] blocks[j], size) ==> blocks[i].size <= blocks[j].size
            && (j < i ==> blocks[i].size < blocks[j].size)
}

/// `i` is the first block that fits `size` from `start` to the end of the
/// list, or, where none does there, from the head of the list up to `start`.
pub open spec fn next_fit_at(blocks: Seq<Block>, size: int, start: int, i: int) -> bool {
    ||| first_fit_in(blocks, size, start, blocks.len() as int, i)
    ||| none_fit_in(blocks, size, start, blocks.len() as int) && first_fit_in(blocks, size, 0, start, i)
}

/// Region `r` holds a header and the payload of block `b`, above `base`.
pub open spec fn region_ok(base: int, r: Region, b: Block) -> bool {
    &&& base <= r.start
    &&& r.start + HEADER_SIZE <= r.payload
    &&& r.payload + b.size <= r.start + r.reserved
    &&& r.reserved <= isize::MAX
}

/// Bytes a new block of `size` bytes aligned to `align` takes from the heap:
/// its header, its payload and room to align the payload, rounded up to a
/// word; `None` where that exceeds `isize::MAX`.
pub open spec fn reservation(size: int, align: int) -> Option<int> {
    let span = HEADER_SIZE + size + align - 1;
    if span > isize::MAX || round_up(span, word()) > isize::MAX {
        None
    } else {
        Some(round_up(span, word()))
    }
}

/// The payload address of a block whose region starts at `start`: the first
/// address aligned to `align` with room for the header before it.
pub open spec fn payload_at(start: int, align: int) -> int {
    round_up(start + HEADER_SIZE, align)
}

/// `allocate(size, align)` takes `pre` to `post` and returns `r`: a block
/// that the strategy chooses is handed out again; where none fits, a new
/// block is appended at the heap boundary, or nothing changes and `r` is
/// `None` when the heap cannot grow.
pub open spec fn allocation(pre: AllocatorModel, size: int, align: int, post: AllocatorModel, r: Option<usize>) -> bool {
    if exists|i: int| pre.selects(size, i) {
        exists|i: int| #[trigger] pre.selects(size, i) && post == pre.reused(i) && r == Some(pre.regions[i].payload)
    } else {
        match reservation(size, align) {
            None => post == pre && r is None,
            Some(need) => match pre.heap.adjusted(need) {
                None => post == pre && r is None,
                Some(h) => {
                    let p = payload_at(pre.heap.brk, align);
                    post == pre.appended(size, p, need, h) && r == Some(p as usize)
                },
            },
        }
    }
}

/// `deallocate(address)` takes `pre` to `post`: the block whose payload is
/// at `address` is released; with no address, or none that a block holds,
/// nothing changes.
pub open spec fn deallocation(pre: AllocatorModel, address: Option<usize>, post: AllocatorModel) -> bool {
    match address {
        None => post == pre,
        Some(a) => if exists|i: int| 0 <= i < pre.len() && #[trigger] pre.regions[i].payload == a {
            exists|i: int| 0 <= i < pre.len() && #[trigger] pre.regions[i].payload == a && post == pre.released(i)
        } else {
            post == pre
        },
    }
}

/// The abstract state of an allocator.
pub ghost struct AllocatorModel {
    pub heap: HeapModel,
    /// The block headers, oldest first.
    pub blocks: Seq<Block>,
    /// Where each block lives, in the order of `blocks`.
    pub regions: Seq<Region>,
    pub search_mode: SearchMode,
    /// The block chosen by the latest successful next-fit search.
    pub last_search: Option<usize>,
}

impl AllocatorModel {
    pub open spec fn len(self) -> int {
        self.blocks.len() as int
    }

    /// The link that leads to block `k`: `None` past the newest block.
    pub open spec fn link_at(self, k: int) -> Option<usize> {
        if k < self.len() {
            Some(k as usize)
        } else {
            None
        }
    }

    /// Region `i` starts where region `i - 1` ends.
    pub open spec fn adjacent(self, i: int) -> bool {
        self.regions[i].start == self.regions[i - 1].start + self.regions[i - 1].reserved
    }

    pub open spec fn valid(self) -> bool {
        &&& self.heap.valid()
        &&& self.regions.len() == self.blocks.len()
        &&& forall|i: int| 0 <= i < self.len() ==> #[trigger] self.blocks[i].next == self.link_at(i + 1)
        &&& forall|i: int|
            0 <= i < self.len() ==> region_ok(self.heap.base, #[trigger] self.regions[i], self.blocks[i])
        &&& forall|i: int| 0 < i < self.len() ==> #[trigger] self.adjacent(i)
        &&& self.len() > 0 ==> self.regions[self.len() - 1].start + self.regions[self.len() - 1].reserved
            == self.heap.brk
        &&& self.last_search matches Some(s) ==> s < self.len()
        &&& self.search_mode != SearchMode::NextFit ==> self.last_search is None
    }

    /// A state with the same blocks, regions and heap bounds as a valid one,
    /// whose cursor names a block and is set only under next-fit, is valid.
    pub proof fn lemma_same_layout(self, other: AllocatorModel)
        requires
            self.valid(),
            other.heap.valid(),
            other.heap.base == self.heap.base,
            other.heap.brk == self.heap.brk,
            other.blocks == self.blocks,
            other.regions == self.regions,
            other.last_search matches Some(s) ==> s < other.len(),
            other.search_mode != SearchMode::NextFit ==> other.last_search is None,
        ensures
            other.valid(),
    {
        assert forall|i: int| 0 <= i < other.len() implies #[trigger] other.blocks[i].next == other.link_at(i + 1) by {
            assert(self.blocks[i].next == self.link_at(i + 1));
        }
        assert forall|i: int| 0 < i < other.len() implies #[trigger] other.adjacent(i) by {
            assert(self.adjacent(i));
        }
    }

    /// Changing the free flag of one block keeps a valid state valid.
    pub proof fn lemma_flag_change(self, i: int, is_free: bool)
        requires
            self.valid(),
            0 <= i < self.len(),
        ensures
            (AllocatorModel {
                blocks: self.blocks.update(i, Block { is_free, ..self.blocks[i] }),
                ..self
            }).valid(),
    {
        let other = AllocatorModel { blocks: self.blocks.update(i, Block { is_free, ..self.blocks[i] }), ..self };
        assert forall|j: int| 0 <= j < other.len() implies #[trigger] other.blocks[j].next == other.link_at(j + 1)
            && region_ok(other.heap.base, other.regions[j], other.blocks[j]) by {
            assert(self.blocks[j].next == self.link_at(j + 1));
            assert(region_ok(self.heap.base, self.regions[j], self.blocks[j]));
        }
        assert forall|j: int| 0 < j < other.len() implies #[trigger] other.adjacent(j) by {
            assert(self.adjacent(j));
        }
    }

    /// A block the strategy chooses exists and fits the request.
    pub proof fn lemma_selects_fits(self, size: int, i: int)
        requires
            self.valid(),
            self.selects(size, i),
        ensures
            0 <= i < self.len(),
            fits(self.blocks[i], size),
    {
    }

    /// Each strategy chooses at most one block.
    pub proof fn lemma_selects_unique(self, size: int, i: int, k: int)
        requires
            self.valid(),
            self.selects(size, i),
            self.selects(size, k),
        ensures
            i == k,
    {
        self.lemma_selects_fits(size, i);
        self.lemma_selects_fits(size, k);
        if i != k {
            let lo = if i < k { i } else { k };
            let hi = if i < k { k } else { i };
            assert(fits(self.blocks[lo], size));
            assert(fits(self.blocks[hi], size));
        }
    }

    /// The state after block `i` is handed out again.
    pub open spec fn reused(self, i: int) -> AllocatorModel {
        let s = self.searched(i);
        AllocatorModel { blocks: s.blocks.update(i, Block { is_free: false, ..s.blocks[i] }), ..s }
    }

    /// The state after a block of `size` bytes, with its payload at
    /// `payload`, is appended in a region of `need` bytes that starts at the
    /// old boundary; the heap is then `heap`.
    pub open spec fn appended(self, size: int, payload: int, need: int, heap: HeapModel) -> AllocatorModel {
        let n = self.len();
        let linked = if n > 0 {
            self.blocks.update(n - 1, Block { next: Some(n as usize), ..self.blocks[n - 1] })
        } else {
            self.blocks
        };
        AllocatorModel {
            heap,
            blocks: linked.push(Block { size: size as usize, is_free: false, next: None }),
            regions: self.regions.push(
                Region { start: self.heap.brk as usize, payload: payload as usize, reserved: need as usize },
            ),
            ..self
        }
    }

    /// Regions follow one another in list order, and so do payloads.
    pub proof fn lemma_regions_ordered(self, i: int, j: int)
        requires
            self.valid(),
            0 <= i < j < self.len(),
        ensures
            self.regions[i].start + self.regions[i].reserved <= self.regions[j].start,
            self.regions[i].payload < self.regions[j].payload,
        decreases j - i,
    {
        assert(self.adjacent(j));
        assert(region_ok(self.heap.base, self.regions[i], self.blocks[i]));
        assert(region_ok(self.heap.base, self.regions[j], self.blocks[j]));
        assert(region_ok(self.heap.base, self.regions[j - 1], self.blocks[j - 1]));
        if i < j - 1 {
            self.lemma_regions_ordered(i, j - 1);
        }
    }

    /// Region `k` starts at least one header per earlier block above the
    /// heap's base.
    proof fn lemma_start_bound(self, k: int)
        requires
            self.valid(),
            0 <= k < self.len(),
        ensures
            self.regions[k].start >= self.heap.base + HEADER_SIZE * k,
        decreases k,
    {
        assert(region_ok(self.heap.base, self.regions[k], self.blocks[k]));
        if k > 0 {
            assert(self.adjacent(k));
            assert(region_ok(self.heap.base, self.regions[k - 1], self.blocks[k - 1]));
            self.lemma_start_bound(k - 1);
        }
    }

    /// Each block takes at least a header's worth of the heap, so the list
    /// is no longer than the heap allows.
    pub proof fn lemma_len_bound(self)
        requires
            self.valid(),
        ensures
            self.len() * HEADER_SIZE <= self.heap.brk - self.heap.base,
            self.len() <= usize::MAX,
    {
        if self.len() > 0 {
            let k = self.len() - 1;
            self.lemma_start_bound(k);
            assert(region_ok(self.heap.base, self.regions[k], self.blocks[k]));
        }
    }

    /// Every region lies between the heap's base and its boundary.
    pub proof fn lemma_region_in_heap(self, i: int)
        requires
            self.valid(),
            0 <= i < self.len(),
        ensures
            self.heap.base <= self.regions[i].start,
            self.regions[i].start + HEADER_SIZE <= self.regions[i].payload,
            self.regions[i].payload + self.blocks[i].size <= self.regions[i].start + self.regions[i].reserved,
            self.regions[i].start + self.regions[i].reserved <= self.heap.brk,
    {
        assert(region_ok(self.heap.base, self.regions[i], self.blocks[i]));
        if i < self.len() - 1 {
            self.lemma_regions_ordered(i, self.len() - 1);
        }
    }

    /// The state after block `i` is freed: it is marked free, and where it
    /// is the newest block it is unlinked and its region is given back to the
    /// heap.
    pub open spec fn released(self, i: int) -> AllocatorModel {
        if i + 1 < self.len() {
            AllocatorModel { blocks: self.blocks.update(i, Block { is_free: true, ..self.blocks[i] }), ..self }
        } else {
            let rest = self.blocks.take(i);
            let nb = self.heap.brk - self.regions[i].reserved;
            AllocatorModel {
                heap: HeapModel { brk: nb, bytes: self.heap.bytes.take(nb - self.heap.base), ..self.heap },
                blocks: if i > 0 {
                    rest.update(i - 1, Block { next: None, ..rest[i - 1] })
                } else {
                    rest
                },
                regions: self.regions.take(i),
                last_search: if self.last_search == Some(i as usize) {
                    None
                } else {
                    self.last_search
                },
                ..self
            }
        }
    }

    /// Where a next-fit search begins.
    pub open spec fn next_start(self) -> int {
        match self.last_search {
            Some(s) => s as int,
            None => 0,
        }
    }

    /// No block fits `size`.
    pub open spec fn none_fit(self, size: int) -> bool {
        none_fit_in(self.blocks, size, 0, self.len())
    }

    /// The active strategy chooses block `i` for a request of `size` bytes.
    pub open spec fn selects(self, size: int, i: int) -> bool {
        match self.search_mode {
            SearchMode::FirstFit => first_fit_in(self.blocks, size, 0, self.len(), i),
            SearchMode::NextFit => next_fit_at(self.blocks, size, self.next_start(), i),
            SearchMode::BestFit => best_fit_at(self.blocks, size, i),
        }
    }

    /// The state after a search that chose block `i`.
    pub open spec fn searched(self, i: int) -> AllocatorModel {
        AllocatorModel {
            last_search: if self.search_mode == SearchMode::NextFit {
                Some(i as usize)
            } else {
                self.last_search
            },
            ..self
        }
    }
}

/// A bump allocator: blocks are carved from the top of a growable heap
/// region, each behind a header, and freed blocks may be handed out again.
pub struct BumpAllocator {
    heap: Heap,
    blocks: Vec<Block>,
    regions: Vec<Region>,
    search_mode: SearchMode,
    last_search: Option<usize>,
}

impl View for BumpAllocator {
    type V = AllocatorModel;

    closed spec fn view(&self) -> AllocatorModel {
        AllocatorModel {
            heap: self.heap@,
            blocks: self.blocks@,
            regions: self.regions@,
            search_mode: self.search_mode,
            last_search: self.last_search,
        }
    }
}

impl BumpAllocator {
    pub open spec fn wf(&self) -> bool {
        self@.valid()
    }

    /// An empty allocator over `heap`, with the given search strategy.
    pub fn with_heap(heap: Heap, search_mode: SearchMode) -> (r: BumpAllocator)
        requires
            heap.wf(),
        ensures
            r.wf(),
            r@ == (AllocatorModel {
                heap: heap@,
                blocks: Seq::empty(),
                regions: Seq::empty(),
                search_mode,
                last_search: None,
            }),
    {
        BumpAllocator { heap, blocks: Vec::new(), regions: Vec::new(), search_mode, last_search: None }
    }

    /// An empty first-fit allocator over a fresh default heap region.
    pub fn new() -> (r: BumpAllocator)
        ensures
            r.wf(),
            r@.blocks.len() == 0,
            r@.search_mode == SearchMode::FirstFit,
            r@.last_search is None,
            r@.heap == (HeapModel {
                base: DEFAULT_HEAP_BASE as int,
                brk: DEFAULT_HEAP_BASE as int,
                limit: DEFAULT_HEAP_BASE + DEFAULT_HEAP_CAPACITY,
                bytes: Seq::empty(),
            }),
    {
        let heap = Heap::new(DEFAULT_HEAP_BASE, DEFAULT_HEAP_CAPACITY);
        BumpAllocator::with_heap(heap, SearchMode::FirstFit)
    }

    /// An empty allocator with the given strategy over a fresh default heap
    /// region.
    pub fn with_search_mode(search_mode: SearchMode) -> (r: BumpAllocator)
        ensures
            r.wf(),
            r@.blocks.len() == 0,
            r@.search_mode == search_mode,
            r@.last_search is None,
            r@.heap == (HeapModel {
                base: DEFAULT_HEAP_BASE as int,
                brk: DEFAULT_HEAP_BASE as int,
                limit: DEFAULT_HEAP_BASE + DEFAULT_HEAP_CAPACITY,
                bytes: Seq::empty(),
            }),
    {
        let heap = Heap::new(DEFAULT_HEAP_BASE, DEFAULT_HEAP_CAPACITY);
        BumpAllocator::with_heap(heap, search_mode)
    }

    /// The active search strategy.
    pub fn search_mode(&self) -> (r: SearchMode)
        ensures
            r == self@.search_mode,
    {
        self.search_mode
    }

    /// Switches the search strategy; leaving next-fit forgets where its
    /// last search ended.
    pub fn set_search_mode(&mut self, mode: SearchMode)
        requires
            old(self).wf(),
        ensures
            final(self).wf(),
            final(self)@ == (AllocatorModel {
                search_mode: mode,
                last_search: if mode == SearchMode::NextFit {
                    old(self)@.last_search
                } else {
                    None
                },
                ..old(self)@
            }),
    {
        self.search_mode = mode;
        if mode != SearchMode::NextFit {
            self.last_search = None;
        }
        proof {
            old(self)@.lemma_same_layout(self@);
        }
    }

    /// The heap region the allocator draws from.
    pub fn heap(&self) -> (r: &Heap)
        ensures
            r@ == self@.heap,
    {
        &self.heap
    }

    /// The number of blocks in the list.
    pub fn block_count(&self) -> (r: usize)
        ensures
            r == self@.len(),
    {
        self.blocks.len()
    }

    /// The oldest block, if any.
    pub fn first(&self) -> (r: Option<usize>)
        ensures
            r == self@.link_at(0),
    {
        if self.blocks.len() == 0 {
            None
        } else {
            Some(0)
        }
    }

    /// The newest block, if any.
    pub fn last(&self) -> (r: Option<usize>)
        ensures
            r == (if self@.len() == 0 {
                None
            } else {
                Some((self@.len() - 1) as usize)
            }),
    {
        if self.blocks.len() == 0 {
            None
        } else {
            Some(self.blocks.len() - 1)
        }
    }

    /// The header of block `index`.
    pub fn block(&self, index: usize) -> (r: Block)
        requires
            index < self@.len(),
        ensures
            r == self@.blocks[index as int],
    {
        self.blocks[index]
    }

    /// The payload address of block `index`.
    pub fn payload(&self, index: usize) -> (r: usize)
        requires
            self.wf(),
            index < self@.len(),
        ensures
            r == self@.regions[index as int].payload,
    {
        self.regions[index].payload
    }

    /// Marks block `index` free or in use, without giving memory back.
    pub fn mark_block(&mut self, index: usize, is_free: bool)
        requires
            old(self).wf(),
            index < old(self)@.len(),
        ensures
            final(self).wf(),
            final(self)@ == (AllocatorModel {
                blocks: old(self)@.blocks.update(index as int, Block { is_free, ..old(self)@.blocks[index as int] }),
                ..old(self)@
            }),
    {
        proof {
            old(self)@.lemma_flag_change(index as int, is_free);
        }
        let b = self.blocks[index];
        self.blocks.set(index, Block { is_free, ..b });
    }

    /// First-fit: the first free block, from the head of the list, with at
    /// least `size` bytes.
    fn find_free_block_first_fit(&self, size: usize) -> (r: Option<usize>)
        requires
            self.wf(),
        ensures
            match r {
                Some(i) => first_fit_in(self@.blocks, size as int, 0, self@.len(), i as int),
                None => self@.none_fit(size as int),
            },
    {
        let mut current: Option<usize> = self.first();
        let ghost mut k: int = 0;
        while current.is_some()
            invariant
                self.wf(),
                0 <= k <= self@.len(),
                self@.len() == self.blocks.len(),
                current == self@.link_at(k),
                none_fit_in(self@.blocks, size as int, 0, k),
            decreases self@.len() - k,
        {
            let c = current.unwrap();
            if self.blocks[c].is_free && self.blocks[c].size >= size {
                return Some(c);
            }
            current = self.blocks[c].next;
            proof {
                assert(self@.blocks[k].next == self@.link_at(k + 1));
                k = k + 1;
            }
        }
        None
    }

    /// Next-fit: the first free block with at least `size` bytes from where
    /// the previous search ended to the end of the list, then from the head
    /// of the list up to that point. A block found becomes the new starting
    /// point.
    fn find_free_block_next_fit(&mut self, size: usize) -> (r: Option<usize>)
        requires
            old(self).wf(),
            old(self)@.search_mode == SearchMode::NextFit,
        ensures
            final(self).wf(),
            match r {
                Some(i) => next_fit_at(old(self)@.blocks, size as int, old(self)@.next_start(), i as int)
                    && final(self)@ == old(self)@.searched(i as int),
                None => old(self)@.none_fit(size as int) && final(self)@ == old(self)@,
            },
    {
        let ghost s0 = self@.next_start();
        let start: Option<usize> = match self.last_search {
            Some(s) => Some(s),
            None => self.first(),
        };
        let mut current: Option<usize> = start;
        let ghost mut k: int = s0;
        while current.is_some()
            invariant
                self.wf(),
                self@ == old(self)@,
                self.search_mode == SearchMode::NextFit,
                s0 == old(self)@.next_start(),
                0 <= s0 <= k <= self@.len(),
                self@.len() == self.blocks.len(),
                start == self@.link_at(s0),
                current == self@.link_at(k),
                none_fit_in(self@.blocks, size as int, s0, k),
            decreases self@.len() - k,
        {
            let c = current.unwrap();
            if self.blocks[c].is_free && self.blocks[c].size >= size {
                self.last_search = Some(c);
                proof {
                    assert(c as int == k);
                    old(self)@.lemma_same_layout(self@);
                }
                return Some(c);
            }
            current = self.blocks[c].next;
            proof {
                assert(self@.blocks[k].next == self@.link_at(k + 1));
                k = k + 1;
            }
        }
        current = self.first();
        proof {
            k = 0;
        }
        while current.is_some() && current != start
            invariant
                self.wf(),
                self@ == old(self)@,
                self.search_mode == SearchMode::NextFit,
                s0 == old(self)@.next_start(),
                0 <= k <= s0 <= self@.len(),
                self@.len() == self.blocks.len(),
                start == self@.link_at(s0),
                current == self@.link_at(k),
                none_fit_in(self@.blocks, size as int, s0, self@.len()),
                none_fit_in(self@.blocks, size as int, 0, k),
            decreases self@.len() - k,
        {
            let c = current.unwrap();
            if self.blocks[c].is_free && self.blocks[c].size >= size {
                self.last_search = Some(c);
                proof {
                    assert(c as int == k);
                    old(self)@.lemma_same_layout(self@);
                }
                return Some(c);
            }
            current = self.blocks[c].next;
            proof {
                assert(self@.blocks[k].next == self@.link_at(k + 1));
                k = k + 1;
            }
        }
        proof {
            assert(k == s0);
            assert forall|j: int| 0 <= j < self@.len() implies !fits(#[trigger] self@.blocks[j], size as int) by {
                if j < s0 {
                } else {
                }
            }
        }
        None
    }

    /// Best-fit: the smallest free block with at least `size` bytes, the
    /// earliest among equals; a block of exactly `size` bytes ends the scan.
    fn find_free_block_best_fit(&self, size: usize) -> (r: Option<usize>)
        requires
            self.wf(),
        ensures
            match r {
                Some(i) => best_fit_at(self@.blocks, size as int, i as int),
                None => self@.none_fit(size as int),
            },
    {
        let mut best: Option<usize> = None;
        let mut best_size: usize = usize::MAX;
        let mut current: Option<usize> = self.first();
        let ghost mut k: int = 0;
        while current.is_some()
            invariant
                self.wf(),
                0 <= k <= self@.len(),
                self@.len() == self.blocks.len(),
                current == self@.link_at(k),
                best matches None ==> none_fit_in(self@.blocks, size as int, 0, k) && best_size == usize::MAX,
                best matches Some(b) ==> {
                    &&& b < k
                    &&& fits(self@.blocks[b as int], size as int)
                    &&& self@.blocks[b as int].size == best_size
                    &&& forall|j: int|
                        0 <= j < k && fits(#[trigger] self@.blocks[j], size as int) ==> best_size
                            <= self@.blocks[j].size && (j < b ==> best_size < self@.blocks[j].size)
                },
            decreases self@.len() - k,
        {
            let c = current.unwrap();
            let block_size = self.blocks[c].size;
            assert(region_ok(self@.heap.base, self@.regions[k], self@.blocks[k]));
            if self.blocks[c].is_free && block_size >= size && block_size < best_size {
                best = Some(c);
                best_size = block_size;
                if block_size == size {
                    return best;
                }
            }
            current = self.blocks[c].next;
            proof {
                assert(self@.blocks[k].next == self@.link_at(k + 1));
                k = k + 1;
            }
        }
        best
    }

    /// Looks for a free block of at least `size` bytes with the active
    /// strategy.
    pub fn find_free_block(&mut self, size: usize) -> (r: Option<usize>)
        requires
            old(self).wf(),
        ensures
            final(self).wf(),
            match r {
                Some(i) => old(self)@.selects(size as int, i as int) && final(self)@ == old(self)@.searched(i as int),
                None => old(self)@.none_fit(size as int) && final(self)@ == old(self)@,
            },
    {
        match self.search_mode {
            SearchMode::FirstFit => self.find_free_block_first_fit(size),
            SearchMode::NextFit => self.find_free_block_next_fit(size),
            SearchMode::BestFit => self.find_free_block_best_fit(size),
        }
    }

    /// Serves a request for `size` bytes aligned to `align`: a free block
    /// that the active strategy chooses is handed out again; otherwise the
    /// heap grows by the block's reservation and a new block is appended.
    /// Returns the payload address, or `None` where the heap cannot grow.
    pub fn allocate(&mut self, size: usize, align: usize) -> (r: Option<usize>)
        requires
            old(self).wf(),
            align > 0,
        ensures
            final(self).wf(),
            allocation(old(self)@, size as int, align as int, final(self)@, r),
    {
        match self.find_free_block(size) {
            Some(i) => {
                proof {
                    self@.lemma_flag_change(i as int, false);
                }
                let b = self.blocks[i];
                self.blocks.set(i, Block { is_free: false, ..b });
                return Some(self.regions[i].payload);
            },
            None => {},
        }
        proof {
            if exists|i: int| old(self)@.selects(size as int, i) {
                let i = choose|i: int| old(self)@.selects(size as int, i);
                old(self)@.lemma_selects_fits(size as int, i);
            }
        }
        let header: usize = HEADER_SIZE;
        let max: usize = isize::MAX as usize;
        if size > max - header {
            return None;
        }
        if align - 1 > max - header - size {
            return None;
        }
        let span: usize = header + size + (align - 1);
        proof {
            lemma_round_up(span as int, word());
        }
        let need: usize = align_word(span);
        if need > max {
            return None;
        }
        let raw: usize = match self.heap.adjust(need as isize) {
            Some(raw) => raw,
            None => return None,
        };
        proof {
            lemma_round_up(raw + header, align as int);
        }
        let payload: usize = align_up(raw + header, align);
        let n: usize = self.blocks.len();
        if n > 0 {
            let b = self.blocks[n - 1];
            self.blocks.set(n - 1, Block { next: Some(n), ..b });
        }
        self.blocks.push(Block::new(size, false, None));
        self.regions.push(Region { start: raw, payload, reserved: need });
        proof {
            let pre = old(self)@;
            let post = self@;
            assert(post == pre.appended(size as int, payload as int, need as int, post.heap));
            assert forall|j: int| 0 <= j < post.len() implies #[trigger] post.blocks[j].next == post.link_at(j + 1)
                && region_ok(post.heap.base, post.regions[j], post.blocks[j]) by {
                if j < n {
                    assert(pre.blocks[j].next == pre.link_at(j + 1));
                    assert(region_ok(pre.heap.base, pre.regions[j], pre.blocks[j]));
                }
            }
            assert forall|j: int| 0 < j < post.len() implies #[trigger] post.adjacent(j) by {
                if j < n {
                    assert(pre.adjacent(j));
                }
            }
        }
        Some(payload)
    }

    /// The block whose payload starts at `address`, if any.
    pub fn find_block(&self, address: usize) -> (r: Option<usize>)
        requires
            self.wf(),
        ensures
            match r {
                Some(i) => i < self@.len() && self@.regions[i as int].payload == address,
                None => forall|i: int| 0 <= i < self@.len() ==> #[trigger] self@.regions[i].payload != address,
            },
    {
        let mut i: usize = 0;
        while i < self.regions.len()
            invariant
                self.wf(),
                i <= self@.len(),
                self@.len() == self.regions.len(),
                forall|j: int| 0 <= j < i ==> #[trigger] self@.regions[j].payload != address,
            decreases self@.len() - i,
        {
            if self.regions[i].payload == address {
                return Some(i);
            }
            i = i + 1;
        }
        None
    }

    /// Frees the block whose payload starts at `address`. The block is
    /// marked free; where it is the newest block, it is also unlinked and
    /// the heap shrinks by the bytes it reserved. `None`, or an address that
    /// no block holds, changes nothing.
    pub fn deallocate(&mut self, address: Option<usize>)
        requires
            old(self).wf(),
        ensures
            final(self).wf(),
            deallocation(old(self)@, address, final(self)@),
    {
        let a: usize = match address {
            Some(a) => a,
            None => return,
        };
        let i: usize = match self.find_block(a) {
            Some(i) => i,
            None => return,
        };
        proof {
            self@.lemma_flag_change(i as int, true);
        }
        let b = self.blocks[i];
        self.blocks.set(i, Block { is_free: true, ..b });
        if i < self.blocks.len() - 1 {
            return;
        }
        let reserved: usize = self.regions[i].reserved;
        proof {
            let pre = old(self)@;
            assert(region_ok(pre.heap.base, pre.regions[i as int], pre.blocks[i as int]));
        }
        self.blocks.pop();
        self.regions.pop();
        if i > 0 {
            let p = self.blocks[i - 1];
            self.blocks.set(i - 1, Block { next: None, ..p });
        }
        match self.last_search {
            Some(s) => {
                if s == i {
                    self.last_search = None;
                }
            },
            None => {},
        }
        let _ = self.heap.adjust(0 - (reserved as isize));
        proof {
            let pre = old(self)@;
            let post = self@;
            assert(self@.heap.bytes =~= pre.heap.bytes.take(post.heap.brk - pre.heap.base));
            assert(post.blocks =~= pre.released(i as int).blocks);
            assert(post.regions =~= pre.released(i as int).regions);
            assert(post == pre.released(i as int));
            assert forall|j: int| 0 <= j < post.len() implies #[trigger] post.blocks[j].next == post.link_at(j + 1)
                && region_ok(post.heap.base, post.regions[j], post.blocks[j]) by {
                assert(pre.blocks[j].next == pre.link_at(j + 1));
                assert(region_ok(pre.heap.base, pre.regions[j], pre.blocks[j]));
            }
            assert forall|j: int| 0 < j < post.len() implies #[trigger] post.adjacent(j) by {
                assert(pre.adjacent(j));
            }
            if i > 0 {
                assert(pre.adjacent(i as int));
            }
        }
    }

    /// The byte at heap address `addr`.
    pub fn read_byte(&self, addr: usize) -> (r: u8)
        requires
            self.wf(),
            self@.heap.holds(addr as int),
        ensures
            r == self@.heap.byte(addr as int),
    {
        self.heap.read(addr)
    }

    /// Stores `value` at heap address `addr`; the bookkeeping is unchanged.
    pub fn write_byte(&mut self, addr: usize, value: u8)
        requires
            old(self).wf(),
            old(self)@.heap.holds(addr as int),
        ensures
            final(self).wf(),
            final(self)@ == (AllocatorModel {
                heap: HeapModel {
                    bytes: old(self)@.heap.bytes.update(addr - old(self)@.heap.base, value),
                    ..old(self)@.heap
                },
                ..old(self)@
            }),
    {
        self.heap.write(addr, value);
        proof {
            old(self)@.lemma_same_layout(self@);
        }
    }
}

} // verus!
