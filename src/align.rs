//! Rounding of sizes and addresses up to an alignment boundary.
use vstd::prelude::*;

verus! {

/// The smallest multiple of `alignment` that is not below `value`.
pub open spec fn round_up(value: int, alignment: int) -> int {
    if value % alignment == 0 {
        value
    } else {
        value - value % alignment + alignment
    }
}

/// The machine word size in bytes.
pub open spec fn word() -> int {
    vstd::layout::size_of::<usize>() as int
}

/// `round_up` is a multiple of the alignment, at least the value, and less
/// than one alignment above it.
pub proof fn lemma_round_up(value: int, alignment: int)
    requires
        0 <= value,
        0 < alignment,
    ensures
        round_up(value, alignment) % alignment == 0,
        value <= round_up(value, alignment) < value + alignment,
{
    vstd::arithmetic::div_mod::lemma_fundamental_div_mod(value, alignment);
    vstd::arithmetic::div_mod::lemma_mod_bound(value, alignment);
    let q = value / alignment;
    if value % alignment == 0 {
    } else {
        assert(value - value % alignment + alignment == (q + 1) * alignment) by (nonlinear_arith)
            requires
                value == alignment * q + value % alignment,
        ;
        vstd::arithmetic::div_mod::lemma_mod_multiples_basic(q + 1, alignment);
    }
}

/// The word size is four or eight bytes.
pub proof fn lemma_word_size()
    ensures
        word() == 4 || word() == 8,
{
    broadcast use vstd::layout::layout_of_primitives;
}

/// Rounds `value` up to the nearest multiple of `alignment`.
pub fn align_up(value: usize, alignment: usize) -> (r: usize)
    requires
        alignment > 0,
        round_up(value as int, alignment as int) <= usize::MAX,
    ensures
        r == round_up(value as int, alignment as int),
        r % alignment == 0,
        value <= r < value + alignment,
{
    proof {
        lemma_round_up(value as int, alignment as int);
    }
    let rem: usize = value % alignment;
    if rem == 0 {
        value
    } else {
        value + (alignment - rem)
    }
}

/// The machine word size in bytes.
pub fn word_size() -> (r: usize)
    ensures
        r == word(),
        r == 4 || r == 8,
{
    proof {
        broadcast use vstd::layout::layout_of_primitives;
    }
    core::mem::size_of::<usize>()
}

/// Rounds `value` up to the nearest multiple of the machine word size.
pub fn align_word(value: usize) -> (r: usize)
    requires
        round_up(value as int, word()) <= usize::MAX,
    ensures
        r == round_up(value as int, word()),
        r as int % word() == 0,
        value <= r < value + word(),
{
    let w = word_size();
    align_up(value, w)
}

} // verus!
