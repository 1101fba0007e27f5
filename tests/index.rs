use bgzip::csi::{reg2bin, reg2bins, RegionSimplify};
use bgzip::tabix;
use bgzip::tbi::{DEFAULT_DEPTH, DEFAULT_MIN_SHIFT};

#[test]
fn test_region_simplify() {
    let mut region_simplify = RegionSimplify::new();
    region_simplify.insert(10, 20);
    region_simplify.insert(20, 30);
    assert_eq!(vec![(10, 30)], region_simplify.regions());

    let mut region_simplify = RegionSimplify::new();
    region_simplify.insert(10, 20);
    region_simplify.insert(20, 30);
    region_simplify.insert(50, 60);
    assert_eq!(vec![(10, 30), (50, 60)], region_simplify.regions());

    let mut region_simplify = RegionSimplify::new();
    region_simplify.insert(10, 20);
    region_simplify.insert(20, 30);
    region_simplify.insert(50, 60);
    region_simplify.insert(0, 5);
    assert_eq!(vec![(10, 30), (50, 60), (0, 5)], region_simplify.regions());

    let mut region_simplify = RegionSimplify::new();
    region_simplify.insert(10, 20);
    region_simplify.insert(20, 30);
    region_simplify.insert(50, 60);
    region_simplify.insert(0, 5);
    region_simplify.insert(5, 10);
    assert_eq!(vec![(50, 60), (0, 30)], region_simplify.regions());

    let mut region_simplify = RegionSimplify::new();
    region_simplify.insert(10, 20);
    region_simplify.insert(20, 30);
    region_simplify.insert(50, 60);
    region_simplify.insert(0, 5);
    region_simplify.insert(5, 10);
    region_simplify.insert(40, 45);
    assert_eq!(vec![(50, 60), (0, 30), (40, 45)], region_simplify.regions());

    let mut region_simplify = RegionSimplify::new();
    region_simplify.insert(10, 20);
    region_simplify.insert(20, 30);
    region_simplify.insert(50, 60);
    region_simplify.insert(0, 5);
    region_simplify.insert(5, 10);
    region_simplify.insert(40, 45);
    region_simplify.insert(30, 50);
    assert_eq!(vec![(0, 60)], region_simplify.regions());
}

fn check_case(start: u64, end: u64, expected_bin: u32, expected_bins: &[u16]) {
    assert_eq!(
        expected_bin,
        reg2bin(start, end, DEFAULT_MIN_SHIFT, DEFAULT_DEPTH)
    );
    let mut bins = Vec::new();
    reg2bins(start, end, DEFAULT_MIN_SHIFT, DEFAULT_DEPTH, &mut bins);
    assert_eq!(expected_bins.to_vec(), bins);
}

#[test]
fn test_reg2bin() {
    check_case(0, 1, 4681, &[0, 1, 9, 73, 585, 4681]);
    check_case(0, 16384, 4681, &[0, 1, 9, 73, 585, 4681]);
    check_case(16384, 32768, 4682, &[0, 1, 9, 73, 585, 4682]);
    check_case(0, 16385, 585, &[0, 1, 9, 73, 585, 4681, 4682]);
    check_case(536870911, 536870912, 37448, &[0, 8, 72, 584, 4680, 37448]);
    check_case(42990000, 42990600, 7304, &[0, 1, 14, 113, 912, 7304]);
}

#[test]
fn reg2bins_spans_levels() {
    let mut bins = Vec::new();
    reg2bins(100000, 200000, DEFAULT_MIN_SHIFT, DEFAULT_DEPTH, &mut bins);
    assert_eq!(
        vec![0, 1, 9, 73, 585, 586, 4687, 4688, 4689, 4690, 4691, 4692, 4693],
        bins
    );
    assert_eq!(73, reg2bin(100000, 200000, DEFAULT_MIN_SHIFT, DEFAULT_DEPTH));
    assert_eq!(9, reg2bin(1000000, 1500000, DEFAULT_MIN_SHIFT, DEFAULT_DEPTH));
}

#[test]
fn reg2bins_appends_to_existing() {
    let mut bins = vec![7u16];
    reg2bins(0, 1, DEFAULT_MIN_SHIFT, DEFAULT_DEPTH, &mut bins);
    assert_eq!(vec![7, 0, 1, 9, 73, 585, 4681], bins);
}

#[test]
fn whole_span_has_root_bin_and_every_bin() {
    assert_eq!(0, reg2bin(0, 1 << 29, DEFAULT_MIN_SHIFT, DEFAULT_DEPTH));
    let mut bins = Vec::new();
    reg2bins(0, 1 << 29, DEFAULT_MIN_SHIFT, DEFAULT_DEPTH, &mut bins);
    assert_eq!(37449, bins.len());
    assert_eq!(37448, *bins.last().unwrap());
}

#[test]
fn tabix_binning_matches_general_scheme() {
    assert_eq!(4681, tabix::reg2bin(0, 1));
    assert_eq!(7304, tabix::reg2bin(42990000, 42990600));
    assert_eq!(vec![0, 1, 14, 113, 912, 7304], tabix::reg2bins(42990000, 42990600));
    assert_eq!(vec![0, 8, 72, 584, 4680, 37448], tabix::reg2bins(536870911, 536870912));
}

#[test]
fn region_simplify_keeps_disjoint_order() {
    let mut r = RegionSimplify::new();
    r.insert(100, 200);
    r.insert(300, 400);
    r.insert(150, 350);
    assert_eq!(vec![(100, 400)], r.regions());
    let mut r = RegionSimplify::new();
    r.insert(5, 5);
    r.insert(6, 7);
    assert_eq!(vec![(5, 5), (6, 7)], r.regions());
}
