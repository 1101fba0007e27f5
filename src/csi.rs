//! Hierarchical binning arithmetic of the CSI / tabix index scheme.
use vstd::arithmetic::power2::{lemma_pow2_adds, pow2};
use vstd::bits::lemma_u64_shl_is_mul;
use vstd::prelude::*;

verus! {

/// 8 to the power `l`: the number of bins on level `l`.
pub open spec fn pow8(l: nat) -> nat
    decreases l,
{
    if l == 0 {
        1
    } else {
        8 * pow8((l - 1) as nat)
    }
}

/// Id of the first bin on level `l` (level 0 holds the single bin 0).
pub open spec fn level_offset(l: nat) -> nat
    decreases l,
{
    if l == 0 {
        0
    } else {
        level_offset((l - 1) as nat) + pow8((l - 1) as nat)
    }
}

/// Shift that maps a position to its index on level `l`.
pub open spec fn level_shift(min_shift: u32, depth: u32, l: nat) -> nat {
    (min_shift + 3 * (depth - l)) as nat
}

/// Id of the bin on level `l` that holds position `pos`.
pub open spec fn bin_at(pos: u64, min_shift: u32, depth: u32, l: nat) -> int {
    level_offset(l) + (pos >> (level_shift(min_shift, depth, l) as u64)) as int
}

/// The deepest level `<= l` whose bin holds both `beg` and `last`.
pub open spec fn smallest_bin(beg: u64, last: u64, min_shift: u32, depth: u32, l: nat) -> int
    decreases l,
{
    if l == 0 {
        0
    } else if beg >> (level_shift(min_shift, depth, l) as u64) == last >> (level_shift(
        min_shift,
        depth,
        l,
    ) as u64) {
        bin_at(beg, min_shift, depth, l)
    } else {
        smallest_bin(beg, last, min_shift, depth, (l - 1) as nat)
    }
}

/// Bins of levels `0 .. l` that overlap `[beg, last]`, level by level, ascending.
pub open spec fn bins_below(beg: u64, last: u64, min_shift: u32, depth: u32, l: nat) -> Seq<int>
    decreases l,
{
    if l == 0 {
        Seq::empty()
    } else {
        let k = (l - 1) as nat;
        bins_below(beg, last, min_shift, depth, k) + bin_range(
            bin_at(beg, min_shift, depth, k),
            bin_at(last, min_shift, depth, k),
        )
    }
}

/// The integers `lo ..= hi`.
pub open spec fn bin_range(lo: int, hi: int) -> Seq<int> {
    Seq::new(if hi >= lo { (hi - lo + 1) as nat } else { 0 }, |i: int| lo + i)
}

/// A region and scheme whose bins all exist: the last position lies inside
/// the span `2^(min_shift + 3 depth)` that the scheme covers.
pub open spec fn valid_region(beg: u64, end: u64, min_shift: u32, depth: u32) -> bool {
    &&& beg < end
    &&& min_shift + 3 * depth < 64
    &&& ((end - 1) as u64) >> ((min_shift + 3 * depth) as u64) == 0
}


proof fn lemma_pow8_is_pow2(l: nat)
    ensures
        pow8(l) == pow2(3 * l),
    decreases l,
{
    if l == 0 {
        vstd::arithmetic::power2::lemma2_to64();
    } else {
        lemma_pow8_is_pow2((l - 1) as nat);
        lemma_pow2_adds((3 * (l - 1)) as nat, 3);
        vstd::arithmetic::power2::lemma2_to64();
    }
}

/// `1 << 3l` is `8^l`.
proof fn lemma_pow8_shl(l: nat)
    requires
        3 * l < 64,
    ensures
        (1u64 << ((3 * l) as u64)) as nat == pow8(l),
        pow8(l) <= u64::MAX,
{
    lemma_pow8_is_pow2(l);
    vstd::bits::lemma_u64_pow2_no_overflow(3 * l);
    lemma_u64_shl_is_mul(1, (3 * l) as u64);
}

proof fn lemma_level_offset_closed(l: nat)
    ensures
        7 * level_offset(l) + 1 == pow8(l),
    decreases l,
{
    if l > 0 {
        lemma_level_offset_closed((l - 1) as nat);
    }
}

proof fn lemma_level_offset_mono(a: nat, b: nat)
    requires
        a <= b,
    ensures
        level_offset(a) + pow8(a) <= level_offset(b) + pow8(b),
    decreases b - a,
{
    if a < b {
        lemma_level_offset_mono(a, (b - 1) as nat);
        lemma_pow8_mono((b - 1) as nat);
    }
}

proof fn lemma_pow8_mono(a: nat)
    ensures
        pow8(a) <= pow8(a + 1),
{
}

/// A position inside the span has, on level `l`, an index below `8^l`.
proof fn lemma_index_bound(pos: u64, min_shift: u32, depth: u32, l: nat)
    requires
        l <= depth,
        min_shift + 3 * depth < 64,
        pos >> ((min_shift + 3 * depth) as u64) == 0,
    ensures
        ((pos >> (level_shift(min_shift, depth, l) as u64)) as nat) < pow8(l),
{
    let a = level_shift(min_shift, depth, l) as u64;
    let b = (3 * l) as u64;
    assert((pos >> ((a + b) as u64)) == 0 ==> (pos >> a) < (1u64 << b)) by (bit_vector)
        requires
            a + b < 64,
    ;
    lemma_pow8_shl(l);
}

/// The id of the smallest bin that holds the whole region `[beg, end)`.
pub fn reg2bin(beg: u64, end: u64, min_shift: u32, depth: u32) -> (r: u32)
    requires
        valid_region(beg, end, min_shift, depth),
        depth <= 10,
    ensures
        r as int == smallest_bin(beg, (end - 1) as u64, min_shift, depth, depth as nat),
{
    let last = end - 1;
    let mut l: u32 = depth;
    let mut s: u64 = min_shift as u64;
    proof {
        lemma_pow8_shl(depth as nat);
        lemma_level_offset_closed(depth as nat);
        lemma_level_offset_mono(depth as nat, 10);
        reveal_with_fuel(level_offset, 11);
        reveal_with_fuel(pow8, 11);
        assert(level_offset(10) + pow8(10) == 1227133513);
        let span = (min_shift + 3 * depth) as u64;
        assert(last >> span == 0 && beg >> span == 0) by (bit_vector)
            requires
                beg < end,
                last == end - 1,
                ((end - 1) as u64) >> span == 0,
        ;
    }
    let mut t: u64 = ((1u64 << (depth as u64 * 3)) - 1) / 7;
    proof {
        let lo = level_offset(depth as nat);
        assert((1u64 << (depth as u64 * 3)) == 7 * lo + 1);
        assert((7 * lo + 1 - 1) / 7 == lo) by (nonlinear_arith);
    }
    while l > 0
        invariant
            l <= depth <= 10,
            last == end - 1,
            valid_region(beg, end, min_shift, depth),
            last >> ((min_shift + 3 * depth) as u64) == 0,
            beg >> ((min_shift + 3 * depth) as u64) == 0,
            level_offset(10) + pow8(10) == 1227133513,
            s == level_shift(min_shift, depth, l as nat),
            t == level_offset(l as nat),
            smallest_bin(beg, last, min_shift, depth, depth as nat) == smallest_bin(
                beg,
                last,
                min_shift,
                depth,
                l as nat,
            ),
        decreases l,
    {
        if beg >> s == last >> s {
            proof {
                lemma_index_bound(beg, min_shift, depth, l as nat);
                lemma_level_offset_mono(l as nat, 10);
            }
            return (t + (beg >> s)) as u32;
        }
        l = l - 1;
        s = s + 3;
        proof {
            lemma_pow8_shl(l as nat);
        }
        t = t - (1u64 << (l as u64 * 3));
    }
    0
}


/// The values of `s`, as integers.
pub open spec fn widen(s: Seq<u16>) -> Seq<int> {
    s.map_values(|b: u16| b as int)
}

/// Appends to `bins` every bin of every level that overlaps `[beg, end)`:
/// level by level from the root, ascending within a level.
pub fn reg2bins(beg: u64, end: u64, min_shift: u32, depth: u32, bins: &mut Vec<u16>)
    requires
        valid_region(beg, end, min_shift, depth),
        depth <= 5,
    ensures
        widen(final(bins)@) == widen(old(bins)@) + bins_below(
            beg,
            (end - 1) as u64,
            min_shift,
            depth,
            (depth + 1) as nat,
        ),
{
    let last = end - 1;
    let ghost start = widen(bins@);
    let mut l: u32 = 0;
    let mut t: u64 = 0;
    let mut s: u64 = (min_shift + depth * 3) as u64;
    proof {
        let span = (min_shift + 3 * depth) as u64;
        assert(last >> span == 0 && beg >> span == 0 && beg <= last) by (bit_vector)
            requires
                beg < end,
                last == end - 1,
                ((end - 1) as u64) >> span == 0,
        ;
        lemma_level_offset_mono(depth as nat, 5);
        reveal_with_fuel(level_offset, 6);
        reveal_with_fuel(pow8, 6);
        assert(level_offset(5) + pow8(5) == 37449);
    }
    while l <= depth
        invariant
            depth <= 5,
            last == end - 1,
            beg <= last,
            min_shift + 3 * depth < 64,
            last >> ((min_shift + 3 * depth) as u64) == 0,
            beg >> ((min_shift + 3 * depth) as u64) == 0,
            level_offset(depth as nat) + pow8(depth as nat) <= 37449,
            l <= depth + 1,
            l <= depth ==> s == level_shift(min_shift, depth, l as nat),
            l <= depth ==> t == level_offset(l as nat),
            widen(bins@) == start + bins_below(beg, last, min_shift, depth, l as nat),
        ensures
            l == depth + 1,
        decreases depth + 1 - l,
    {
        proof {
            lemma_index_bound(beg, min_shift, depth, l as nat);
            lemma_index_bound(last, min_shift, depth, l as nat);
            lemma_level_offset_mono(l as nat, depth as nat);
            let sh = s;
            assert(beg <= last ==> beg >> sh <= last >> sh) by (bit_vector);
        }
        let b = t + (beg >> s);
        let e = t + (last >> s);
        let ghost prefix = widen(bins@);
        let mut i: u64 = b;
        while i <= e
            invariant
                b <= i <= e + 1,
                e < 37449,
                widen(bins@) == prefix + Seq::new((i - b) as nat, |k: int| b + k),
            decreases e + 1 - i,
        {
            let ghost before = widen(bins@);
            bins.push(i as u16);
            proof {
                assert(widen(bins@) =~= before.push(i as int));
                assert(Seq::new((i + 1 - b) as nat, |k: int| b + k) =~= Seq::new(
                    (i - b) as nat,
                    |k: int| b + k,
                ).push(i as int));
            }
            i = i + 1;
        }
        proof {
            assert(Seq::new((i - b) as nat, |k: int| b + k) =~= bin_range(b as int, e as int));
            assert(bins_below(beg, last, min_shift, depth, (l + 1) as nat) == bins_below(
                beg,
                last,
                min_shift,
                depth,
                l as nat,
            ) + bin_range(
                bin_at(beg, min_shift, depth, l as nat),
                bin_at(last, min_shift, depth, l as nat),
            ));
            assert(widen(bins@) =~= start + bins_below(
                beg,
                last,
                min_shift,
                depth,
                (l + 1) as nat,
            ));
        }
        if l == depth {
            l = l + 1;
            break;
        }
        proof {
            lemma_pow8_shl(l as nat);
        }
        t = t + (1u64 << (l as u64 * 3));
        s = s - 3;
        l = l + 1;
    }
}


/// `[s, e]` and `r` share a position (closed intervals).
pub open spec fn overlaps(r: (u64, u64), s: u64, e: u64) -> bool {
    r.0 <= e && s <= r.1
}

/// Walking `rs`: the regions that do not overlap `[s, e]`, in order, and the smallest
/// start and largest end among `[s, e]` and the regions that do.
pub open spec fn scan_regions(rs: Seq<(u64, u64)>, s: u64, e: u64) -> (Seq<(u64, u64)>, u64, u64)
    decreases rs.len(),
{
    if rs.len() == 0 {
        (Seq::empty(), s, e)
    } else {
        let (kept, lo, hi) = scan_regions(rs.drop_last(), s, e);
        let r = rs.last();
        if overlaps(r, s, e) {
            (kept, if r.0 < lo {
                r.0
            } else {
                lo
            }, if r.1 > hi {
                r.1
            } else {
                hi
            })
        } else {
            (kept.push(r), lo, hi)
        }
    }
}

/// The regions after inserting `[s, e]`: those it overlaps are replaced by their
/// union with it, which goes last.
pub open spec fn insert_region(rs: Seq<(u64, u64)>, s: u64, e: u64) -> Seq<(u64, u64)> {
    let (kept, lo, hi) = scan_regions(rs, s, e);
    kept.push((lo, hi))
}

/// Merges overlapping regions as they are inserted.
pub struct RegionSimplify {
    regions: Vec<(u64, u64)>,
}

impl RegionSimplify {
    pub closed spec fn view_regions(&self) -> Seq<(u64, u64)> {
        self.regions@
    }

    pub fn new() -> (r: Self)
        ensures
            r.view_regions() == Seq::<(u64, u64)>::empty(),
    {
        RegionSimplify { regions: Vec::new() }
    }

    /// The regions, in the order they were kept.
    pub fn regions(self) -> (r: Vec<(u64, u64)>)
        ensures
            r@ == self.view_regions(),
    {
        self.regions
    }

    /// Inserts `[start, end]`, merging it with every region it overlaps.
    pub fn insert(&mut self, start: u64, end: u64)
        ensures
            final(self).view_regions() == insert_region(old(self).view_regions(), start, end),
    {
        let mut kept: Vec<(u64, u64)> = Vec::new();
        let mut lo = start;
        let mut hi = end;
        let mut i: usize = 0;
        while i < self.regions.len()
            invariant
                i <= self.regions@.len(),
                self.regions@ == old(self).regions@,
                (kept@, lo, hi) == scan_regions(self.regions@.take(i as int), start, end),
            decreases self.regions.len() - i,
        {
            let r = self.regions[i];
            proof {
                assert(self.regions@.take(i + 1).drop_last() =~= self.regions@.take(i as int));
            }
            if r.0 <= end && start <= r.1 {
                if r.0 < lo {
                    lo = r.0;
                }
                if r.1 > hi {
                    hi = r.1;
                }
            } else {
                kept.push(r);
            }
            i = i + 1;
        }
        proof {
            assert(self.regions@.take(i as int) =~= self.regions@);
        }
        kept.push((lo, hi));
        self.regions = kept;
    }
}

} // verus!
