//! Reading sample buffers that the system hands over.

use vstd::prelude::*;

verus! {

/// How many samples of the given size can be read from a buffer of `bytes` bytes
/// at an address; nothing where there are none, or where the address does not suit
/// their alignment.
pub fn readable_samples(bytes: usize, is_null: bool, address: usize, align: usize, size: usize) -> (r:
    Option<usize>)
    requires
        align > 0,
        size > 0,
    ensures
        r == if bytes == 0 || is_null || address % align != 0 || bytes / size == 0 {
            None
        } else {
            Some(bytes / size)
        },
        r matches Some(n) ==> 0 < n && n * size <= bytes,
{
    if bytes == 0 || is_null {
        return None;
    }
    if address % align != 0 {
        return None;
    }
    let count: usize = bytes / size;
    if count == 0 {
        return None;
    }
    proof {
        vstd::arithmetic::div_mod::lemma_fundamental_div_mod(bytes as int, size as int);
        vstd::arithmetic::mul::lemma_mul_is_commutative(size as int, count as int);
        assert(bytes as int % size as int >= 0);
    }
    Some(count)
}

} // verus!
