//! A slab allocator core for small objects: requests of at most 512 bytes are
//! rounded up to one of 64 size classes (multiples of 8 bytes) and served from
//! 4096-byte pages obtained from an anonymous memory mapping; larger requests
//! are routed, unchanged, to a general-purpose fallback allocator.

use vstd::prelude::*;

pub mod balloc;
pub mod page;
pub mod region;

pub use balloc::{AllocOutcome, Balloc, FreeOutcome, ReallocOutcome};
pub use page::{Head, HeadOwned, Page, PageRef};

verus! {

/// Bytes in one size-class unit; slot sizes are multiples of this.
pub const UNIT_SIZE: usize = 8;

/// Largest size class; classes run 1..=64.
pub const MAX_SMALL_SLOT: usize = 64;

/// Largest request, in bytes, served by the small-object path.
pub const MAX_ALLOC_SIZE: usize = 512;

/// The size class of a request of `size` bytes: the least class whose slot
/// (class * 8 bytes) holds the request, i.e. ceil(size / 8).
pub open spec fn spec_size_class(size: int) -> int {
    (size + 7) / 8
}

/// Computes the size class of a request: ceil(size / 8).
pub fn get_slot_size(size: usize) -> (c: usize)
    requires
        1 <= size,
    ensures
        c == spec_size_class(size as int),
{
    let c = size / UNIT_SIZE + if size % UNIT_SIZE == 0 { 0 } else { 1 };
    proof {
        vstd::arithmetic::div_mod::lemma_fundamental_div_mod(size as int, 8);
        vstd::arithmetic::div_mod::lemma_fundamental_div_mod(size as int + 7, 8);
    }
    c
}

/// Size classing, for requests on the small path: requests with the same
/// rounded-up unit count share a class, a class's slot always holds the
/// request, classes grow with the request, and classes run 1..=64.
pub proof fn lemma_size_class_properties(n: int, m: int)
    requires
        1 <= n <= 512,
        1 <= m <= 512,
    ensures
        (n + 7) / 8 == (m + 7) / 8 ==> spec_size_class(n) == spec_size_class(m),
        spec_size_class(n) * 8 >= n,
        8 * (spec_size_class(n) - 1) < n,
        n <= m ==> spec_size_class(n) <= spec_size_class(m),
        1 <= spec_size_class(n) <= 64,
{
    vstd::arithmetic::div_mod::lemma_fundamental_div_mod(n + 7, 8);
    vstd::arithmetic::div_mod::lemma_mod_division_less_than_divisor(n + 7, 8);
    vstd::arithmetic::div_mod::lemma_div_is_ordered(8, n + 7, 8);
    vstd::arithmetic::div_mod::lemma_div_is_ordered(n + 7, 519, 8);
    if n <= m {
        vstd::arithmetic::div_mod::lemma_div_is_ordered(n + 7, m + 7, 8);
    }
    assert(8int / 8 == 1) by (nonlinear_arith);
    assert(519int / 8 == 64) by (nonlinear_arith);
}

} // verus!
