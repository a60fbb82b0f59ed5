//! Pages made of protection regions: the register values that map one.

use vstd::prelude::*;
use vstd::std_specs::bits::{axiom_u32_trailing_zeros, u32_trailing_zeros};

verus! {

/// The values that the region number, base address, and attribute and size
/// registers get to map a page of `size` bytes at `base_address` as region
/// `region`: the base is cut to a multiple of 32, the size goes in as one
/// less than the number of its trailing zero bits, and the region is
/// enabled. An odd size has no such number and is left out.
pub fn map_page(base_address: u32, size: u32, attributes: u32, region: u32) -> (values: (u32, u32, u32))
    requires
        u32_trailing_zeros(size) >= 1,
    ensures
        values == (
            region,
            base_address & 0xFFFF_FFE0,
            1u32 | (attributes << 24) | (((u32_trailing_zeros(size) - 1) as u32) << 1),
        ),
{
    proof {
        axiom_u32_trailing_zeros(size);
    }
    let zeros: u32 = size.trailing_zeros();
    (region, base_address & 0xFFFF_FFE0, 1u32 | (attributes << 24) | ((zeros - 1) << 1))
}

} // verus!
