//! Capacity validation and wrapped index arithmetic shared by both buffer
//! variants. A capacity is usable when it is a power of two of at least 2;
//! positions on the ring then wrap with a bitmask instead of a modulo.

use vstd::prelude::*;

verus! {

/// Returned when a buffer is constructed with a length that is below 2 or
/// not a power of two.
#[derive(Clone, Copy, Debug, PartialEq, Eq, Structural)]
pub struct InvalidCapacity;

/// A linear storage length is usable as a ring capacity when it is at least 2
/// and an exact power of two, which is when masking it with its predecessor
/// clears every bit.
pub open spec fn is_valid_capacity(len: usize) -> bool {
    len >= 2 && len & ((len - 1) as usize) == 0
}

/// The slot `offset` places beyond `base` on a ring of `cap` slots. For
/// `base < cap` and `offset <= cap` the sum passes the end of the linear
/// storage at most once, so wrapping is one conditional subtraction.
pub open spec fn wrap_index(base: int, offset: int, cap: int) -> int {
    if base + offset < cap {
        base + offset
    } else {
        base + offset - cap
    }
}

/// Check whether `len` can serve as a capacity: at least 2 and an integer
/// power of two, probed by doubling a single set bit until it matches `len`
/// or runs off the top of the word.
pub fn power_of_2(len: usize) -> (r: bool)
    ensures
        r == is_valid_capacity(len),
{
    if len < 2 {
        return false;
    }
    let mut probe: usize = 1;
    proof {
        assert(1usize & ((1usize - 1) as usize) == 0) by (bit_vector);
    }
    loop
        invariant
            len >= 2,
            probe != 0,
            probe & ((probe - 1) as usize) == 0,
            len & ((len - 1) as usize) == 0 ==> probe <= len,
        decreases usize::MAX - probe,
    {
        if probe == len {
            return true;
        }
        let doubled: usize = probe << 1usize;
        if doubled == 0 {
            proof {
                assert(!(len & ((len - 1) as usize) == 0)) by (bit_vector)
                    requires
                        probe != 0,
                        probe & ((probe - 1) as usize) == 0,
                        (probe << 1usize) == 0usize,
                        probe != len,
                        probe <= len || !(len & ((len - 1) as usize) == 0),
                        len >= 2,
                ;
            }
            return false;
        }
        proof {
            assert((probe << 1usize) != 0usize ==> {
                &&& (probe << 1usize) > probe
                &&& (probe << 1usize) & (((probe << 1usize) - 1) as usize) == 0
                &&& (len & ((len - 1) as usize) == 0 && probe <= len && probe != len && len >= 2)
                    ==> (probe << 1usize) <= len
            }) by (bit_vector)
                requires
                    probe != 0,
                    probe & ((probe - 1) as usize) == 0,
            ;
        }
        probe = doubled;
    }
}

/// On a valid ring, masking with `cap - 1` sends a sum of at most `cap` to
/// its wrapped position: sums below `cap` are untouched and `cap` itself
/// becomes 0. This ties the executable bitmask to `wrap_index`.
pub proof fn lemma_mask_wraps_once(x: usize, cap: usize)
    requires
        is_valid_capacity(cap),
        x <= cap,
    ensures
        x & ((cap - 1) as usize) == wrap_index(0, x as int, cap as int),
{
    assert(x & ((cap - 1) as usize) == (if x < cap {
        x
    } else {
        0usize
    })) by (bit_vector)
        requires
            cap >= 2,
            cap & ((cap - 1) as usize) == 0,
            x <= cap,
    ;
}

/// Advancing twice wraps the same way as advancing once by the combined
/// offset, as long as the combined offset stays on the ring.
pub proof fn lemma_wrap_index_twice(base: int, n1: int, n2: int, cap: int)
    requires
        0 <= base < cap,
        0 <= n1,
        0 <= n2,
        n1 + n2 < cap,
    ensures
        wrap_index(wrap_index(base, n1, cap), n2, cap) == wrap_index(base, n1 + n2, cap),
{
}

/// Distinct offsets below `cap` land on distinct slots.
pub proof fn lemma_wrap_index_injective(base: int, o1: int, o2: int, cap: int)
    requires
        0 <= base < cap,
        0 <= o1 < cap,
        0 <= o2 < cap,
        o1 != o2,
    ensures
        wrap_index(base, o1, cap) != wrap_index(base, o2, cap),
{
}

} // verus!
