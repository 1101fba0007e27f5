//! Binning with the tabix scheme (minimum shift 14, depth 5).
use crate::csi::{bins_below, smallest_bin, valid_region, widen};
use crate::tbi::{DEFAULT_DEPTH, DEFAULT_MIN_SHIFT};
use vstd::prelude::*;

verus! {

/// The largest end the tabix scheme covers: 2^29.
pub const MAX_END: u32 = 1 << 29;

/// The smallest bin holding the zero-based region `[beg, end)`.
pub fn reg2bin(beg: u32, end: u32) -> (r: u32)
    requires
        beg < end <= MAX_END,
    ensures
        r as int == smallest_bin(beg as u64, (end - 1) as u64, DEFAULT_MIN_SHIFT, DEFAULT_DEPTH, 5),
{
    proof {
        lemma_tabix_region(beg, end);
    }
    crate::csi::reg2bin(beg as u64, end as u64, DEFAULT_MIN_SHIFT, DEFAULT_DEPTH)
}

/// Every bin that overlaps the zero-based region `[beg, end)`, level by level.
pub fn reg2bins(beg: u32, end: u32) -> (r: Vec<u32>)
    requires
        beg < end <= MAX_END,
    ensures
        r@.map_values(|b: u32| b as int) == bins_below(
            beg as u64,
            (end - 1) as u64,
            DEFAULT_MIN_SHIFT,
            DEFAULT_DEPTH,
            6,
        ),
{
    proof {
        lemma_tabix_region(beg, end);
    }
    let mut bins: Vec<u16> = Vec::new();
    crate::csi::reg2bins(beg as u64, end as u64, DEFAULT_MIN_SHIFT, DEFAULT_DEPTH, &mut bins);
    let mut r: Vec<u32> = Vec::new();
    let mut i: usize = 0;
    while i < bins.len()
        invariant
            i <= bins@.len(),
            r@.map_values(|b: u32| b as int) == widen(bins@).take(i as int),
        decreases bins.len() - i,
    {
        let ghost before = r@;
        r.push(bins[i] as u32);
        proof {
            assert(r@ == before.push(bins@[i as int] as u32));
            assert(r@.map_values(|b: u32| b as int) =~= before.map_values(|b: u32| b as int).push(bins@[i as int] as int));
            assert(widen(bins@).take(i + 1) =~= widen(bins@).take(i as int).push(bins@[i as int] as int));
        }
        i = i + 1;
    }
    proof {
        assert(widen(bins@).take(i as int) =~= widen(bins@));
        assert(widen(Seq::<u16>::empty()) + bins_below(
            beg as u64,
            (end - 1) as u64,
            DEFAULT_MIN_SHIFT,
            DEFAULT_DEPTH,
            6,
        ) =~= bins_below(beg as u64, (end - 1) as u64, DEFAULT_MIN_SHIFT, DEFAULT_DEPTH, 6));
    }
    r
}

proof fn lemma_tabix_region(beg: u32, end: u32)
    requires
        beg < end <= MAX_END,
    ensures
        valid_region(beg as u64, end as u64, DEFAULT_MIN_SHIFT, DEFAULT_DEPTH),
{
    let e = (end - 1) as u64;
    assert(MAX_END == 0x2000_0000) by (bit_vector);
    assert(e < 0x2000_0000 ==> e >> 29u64 == 0) by (bit_vector);
}

} // verus!
