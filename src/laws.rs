//! Properties of the allocator that relate several calls.
use vstd::prelude::*;
use crate::align::{lemma_round_up, lemma_word_size, round_up, word};
use crate::bump::{
    allocation, deallocation, first_fit_in, fits, none_fit_in, payload_at, reservation, AllocatorModel,
    SearchMode, HEADER_SIZE,
};

verus! {

/// An allocation keeps every existing block where it was, frees none, and
/// leaves the bytes below the old heap boundary as they were; a block it
/// appends is in use. An address it returns is the payload of a block in
/// use that lies entirely below the new boundary.
pub proof fn lemma_allocation_preserves_contents(
    pre: AllocatorModel,
    size: int,
    align: int,
    post: AllocatorModel,
    r: Option<usize>,
)
    requires
        pre.valid(),
        0 <= size,
        align > 0,
        allocation(pre, size, align, post, r),
    ensures
        pre.len() <= post.len(),
        post.search_mode == pre.search_mode,
        post.heap.base == pre.heap.base,
        pre.heap.brk <= post.heap.brk,
        forall|a: int| #[trigger]
            pre.heap.holds(a) ==> post.heap.holds(a) && post.heap.byte(a) == pre.heap.byte(a),
        forall|i: int|
            0 <= i < pre.len() ==> #[trigger] post.regions[i] == pre.regions[i] && post.blocks[i].size
                == pre.blocks[i].size && (post.blocks[i].is_free ==> pre.blocks[i].is_free),
        forall|i: int| pre.len() <= i < post.len() ==> !(#[trigger] post.blocks[i]).is_free,
        r matches Some(a) ==> exists|i: int|
            0 <= i < post.len() && #[trigger] post.regions[i].payload == a && !post.blocks[i].is_free
                && a + post.blocks[i].size <= post.heap.brk,
{
    if exists|i: int| pre.selects(size, i) {
        let i = choose|i: int| #[trigger] pre.selects(size, i) && post == pre.reused(i) && r == Some(
            pre.regions[i].payload,
        );
        pre.lemma_selects_fits(size, i);
        pre.lemma_region_in_heap(i);
        assert(post.regions[i].payload == r->0);
    } else {
        match reservation(size, align) {
            None => {},
            Some(need) => match pre.heap.adjusted(need) {
                None => {},
                Some(h) => {
                    let n = pre.len();
                    let span = HEADER_SIZE + size + align - 1;
                    lemma_word_size();
                    lemma_round_up(span, word());
                    lemma_round_up(pre.heap.brk + HEADER_SIZE, align);
                    assert(post.blocks[n].size == size);
                    assert(post.regions[n].payload == r->0);
                    assert forall|a: int| #[trigger] pre.heap.holds(a) implies post.heap.holds(a)
                        && post.heap.byte(a) == pre.heap.byte(a) by {
                        assert(post.heap.bytes[a - pre.heap.base] == pre.heap.bytes[a - pre.heap.base]);
                    }
                    assert forall|i: int| 0 <= i < pre.len() implies #[trigger] post.regions[i] == pre.regions[i]
                        && post.blocks[i].size == pre.blocks[i].size && (post.blocks[i].is_free
                        ==> pre.blocks[i].is_free) by {}
                },
            },
        }
    }
}

/// An address that `allocate` returns is a multiple of the alignment asked
/// for, wherever the block the strategy would hand out again has such a
/// payload (a reused block keeps its first alignment).
pub proof fn lemma_allocation_aligned(
    pre: AllocatorModel,
    size: int,
    align: int,
    post: AllocatorModel,
    r: Option<usize>,
)
    requires
        pre.valid(),
        0 <= size,
        align > 0,
        allocation(pre, size, align, post, r),
        forall|i: int| #[trigger] pre.selects(size, i) ==> pre.regions[i].payload as int % align == 0,
    ensures
        r matches Some(a) ==> a as int % align == 0,
{
    if exists|i: int| pre.selects(size, i) {
    } else {
        match reservation(size, align) {
            None => {},
            Some(need) => match pre.heap.adjusted(need) {
                None => {},
                Some(h) => {
                    let span = HEADER_SIZE + size + align - 1;
                    lemma_word_size();
                    lemma_round_up(span, word());
                    lemma_round_up(pre.heap.brk + HEADER_SIZE, align);
                },
            },
        }
    }
}

/// Two allocations in a row return ascending addresses, unless the second is
/// served by a free block that was already there.
pub proof fn lemma_successive_allocations_ascend(
    s0: AllocatorModel,
    size1: int,
    align1: int,
    s1: AllocatorModel,
    a1: usize,
    size2: int,
    align2: int,
    s2: AllocatorModel,
    a2: usize,
)
    requires
        s0.valid(),
        s1.valid(),
        0 <= size1,
        0 <= size2,
        align1 > 0,
        align2 > 0,
        allocation(s0, size1, align1, s1, Some(a1)),
        allocation(s1, size2, align2, s2, Some(a2)),
        s0.none_fit(size2),
    ensures
        a1 < a2,
{
    lemma_allocation_preserves_contents(s0, size1, align1, s1, Some(a1));
    assert forall|j: int| 0 <= j < s1.len() implies !fits(#[trigger] s1.blocks[j], size2) by {
        if j < s0.len() {
            assert(!fits(s0.blocks[j], size2));
        }
    }
    if exists|i: int| s1.selects(size2, i) {
        let i = choose|i: int| s1.selects(size2, i);
        s1.lemma_selects_fits(size2, i);
    }
    let span = HEADER_SIZE + size2 + align2 - 1;
    lemma_round_up(s1.heap.brk + HEADER_SIZE, align2);
}

/// Freeing the newest block restores the state before it was allocated, so
/// asking again for the same size and alignment returns the same address
/// (where no free block fits the request).
pub proof fn lemma_free_newest_then_reallocate(
    s0: AllocatorModel,
    size: int,
    align: int,
    s1: AllocatorModel,
    a: usize,
    s2: AllocatorModel,
    s3: AllocatorModel,
    r: Option<usize>,
)
    requires
        s0.valid(),
        s1.valid(),
        0 <= size,
        align > 0,
        s0.none_fit(size),
        allocation(s0, size, align, s1, Some(a)),
        deallocation(s1, Some(a), s2),
        allocation(s2, size, align, s3, r),
    ensures
        s2 == s0,
        s3 == s1,
        r == Some(a),
{
    let n = s0.len();
    if exists|i: int| s0.selects(size, i) {
        let i = choose|i: int| s0.selects(size, i);
        s0.lemma_selects_fits(size, i);
    }
    let need = reservation(size, align)->0;
    let h = s0.heap.adjusted(need)->0;
    lemma_word_size();
    lemma_round_up(HEADER_SIZE + size + align - 1, word());
    assert(s1.regions[n].payload == a);
    assert forall|i: int| 0 <= i < s1.len() && #[trigger] s1.regions[i].payload == a implies i == n by {
        if i < n {
            s1.lemma_regions_ordered(i, n);
        }
    }
    let rel = s1.released(n);
    assert(s2 == rel);
    assert(rel.blocks =~= s0.blocks) by {
        if n > 0 {
            assert(s0.blocks[n - 1].next == s0.link_at(n));
        }
    }
    assert(rel.regions =~= s0.regions);
    assert(rel.heap.bytes =~= s0.heap.bytes);
    assert(rel.heap == s0.heap);
    s1.lemma_len_bound();
    assert(rel.last_search == s0.last_search);
}

/// Under next-fit, a request served by free block `i` followed by a request
/// of the same size served by free block `j` takes two distinct blocks: `j`
/// is the first block after `i` that fits, or, where none after `i` fits,
/// the first one from the head of the list.
pub proof fn lemma_next_fit_moves_on(
    s0: AllocatorModel,
    size: int,
    align: int,
    s1: AllocatorModel,
    r1: Option<usize>,
    s2: AllocatorModel,
    r2: Option<usize>,
    i: int,
    j: int,
)
    requires
        s0.valid(),
        s1.valid(),
        s0.search_mode == SearchMode::NextFit,
        0 <= size,
        align > 0,
        allocation(s0, size, align, s1, r1),
        allocation(s1, size, align, s2, r2),
        s0.selects(size, i),
        s1.selects(size, j),
    ensures
        r1 == Some(s0.regions[i].payload),
        r2 == Some(s0.regions[j].payload),
        i != j,
        r1 != r2,
        first_fit_in(s0.blocks, size, i + 1, s0.len(), j) || (none_fit_in(s0.blocks, size, i + 1, s0.len())
            && first_fit_in(s0.blocks, size, 0, i, j)),
{
    let i1 = choose|k: int| #[trigger] s0.selects(size, k) && s1 == s0.reused(k) && r1 == Some(s0.regions[k].payload);
    s0.lemma_selects_unique(size, i, i1);
    let j1 = choose|k: int| #[trigger] s1.selects(size, k) && s2 == s1.reused(k) && r2 == Some(s1.regions[k].payload);
    s1.lemma_selects_unique(size, j, j1);
    s0.lemma_selects_fits(size, i);
    s1.lemma_selects_fits(size, j);
    s0.lemma_len_bound();
    assert(s1.next_start() == i);
    assert(i != j);
    if i < j {
        s0.lemma_regions_ordered(i, j);
    } else {
        s0.lemma_regions_ordered(j, i);
    }
    if first_fit_in(s1.blocks, size, i, s1.len(), j) {
        assert forall|k: int| i + 1 <= k < j implies !fits(#[trigger] s0.blocks[k], size) by {
            assert(!fits(s1.blocks[k], size));
        }
    } else {
        assert forall|k: int| i + 1 <= k < s0.len() implies !fits(#[trigger] s0.blocks[k], size) by {
            assert(!fits(s1.blocks[k], size));
        }
        assert forall|k: int| 0 <= k < j implies !fits(#[trigger] s0.blocks[k], size) by {
            assert(!fits(s1.blocks[k], size));
        }
    }
}

/// Freeing a block other than the newest marks it free and leaves the heap,
/// its boundary included, as it was.
pub proof fn lemma_free_middle_keeps_heap(pre: AllocatorModel, i: int, post: AllocatorModel)
    requires
        pre.valid(),
        0 <= i < pre.len() - 1,
        deallocation(pre, Some(pre.regions[i].payload), post),
    ensures
        post.heap == pre.heap,
        post.len() == pre.len(),
        post.blocks[i].is_free,
{
    let a = pre.regions[i].payload;
    let k = choose|k: int| 0 <= k < pre.len() && #[trigger] pre.regions[k].payload == a && post == pre.released(k);
    if k != i {
        if k < i {
            pre.lemma_regions_ordered(k, i);
        } else {
            pre.lemma_regions_ordered(i, k);
        }
    }
}

/// Freeing the only block empties the list and lowers the heap boundary by
/// exactly the bytes that block reserved.
pub proof fn lemma_free_sole_block(pre: AllocatorModel, post: AllocatorModel)
    requires
        pre.valid(),
        pre.len() == 1,
        deallocation(pre, Some(pre.regions[0].payload), post),
    ensures
        post.len() == 0,
        post.regions.len() == 0,
        post.last_search is None,
        post.heap.brk == pre.heap.brk - pre.regions[0].reserved,
{
    let k = choose|k: int| 0 <= k < pre.len() && #[trigger] pre.regions[k].payload == pre.regions[0].payload
        && post == pre.released(k);
    assert(k == 0);
}

} // verus!
