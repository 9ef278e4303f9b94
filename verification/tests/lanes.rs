use coolfindpattern::lanes::{covers, equal_lanes, lowest_lane, mask_lanes, MAX_LANES};
use coolfindpattern::probe::{find_pattern, probe, window_accepts, Probe};
use coolfindpattern::{LaneWidth, PreparedPattern};

#[test]
fn equal_lanes_sets_one_bit_per_equal_lane() {
    let window = [1u8, 2, 3, 4, 5];
    assert_eq!(equal_lanes(&window, 1, &[2, 9, 4]), 0b101);
    assert_eq!(equal_lanes(&window, 0, &[2, 9, 4]), 0);
    assert_eq!(equal_lanes(&window, 0, &[1, 2, 3, 4, 5]), 0b11111);
    assert_eq!(equal_lanes(&window, 3, &[]), 0);
}

#[test]
fn equal_lanes_fills_all_sixty_four_bits() {
    assert_eq!(MAX_LANES, 64);
    let window = vec![7u8; 70];
    let lanes = vec![7u8; 64];
    assert_eq!(equal_lanes(&window, 6, &lanes), u64::MAX);
    let mut lanes = vec![0u8; 64];
    lanes[63] = 7;
    assert_eq!(equal_lanes(&window, 0, &lanes), 1u64 << 63);
}

#[test]
fn mask_lanes_packs_booleans() {
    assert_eq!(mask_lanes(&[true, false, true, true]), 0b1101);
    assert_eq!(mask_lanes(&[]), 0);
    assert_eq!(mask_lanes(&[false; 16]), 0);
    assert_eq!(mask_lanes(&[true; 64]), u64::MAX);
}

#[test]
fn covers_tests_the_masked_lanes_only() {
    assert!(covers(0b111, 0b101));
    assert!(covers(0b101, 0b101));
    assert!(!covers(0b011, 0b101));
    assert!(covers(0, 0));
    assert!(covers(0b1000, 0));
    assert!(!covers(0, 1u64 << 63));
}

#[test]
fn lowest_lane_counts_trailing_zeros() {
    assert_eq!(lowest_lane(0), 64);
    assert_eq!(lowest_lane(1), 0);
    assert_eq!(lowest_lane(0b1000), 3);
    assert_eq!(lowest_lane(0b1010_0000), 5);
    assert_eq!(lowest_lane(1u64 << 63), 63);
}

#[test]
fn window_accepts_cell_by_cell() {
    let region = [9u8, 1, 2, 3, 9];
    assert!(window_accepts(&region, 1, &[Some(1), None, Some(3)]));
    assert!(!window_accepts(&region, 0, &[Some(1), None, Some(3)]));
    assert!(window_accepts(&region, 2, &[None, None, None]));
    assert!(window_accepts(&region, 5, &[]));
    assert!(!window_accepts(&region, 4, &[Some(8)]));
}

#[test]
fn find_pattern_returns_the_lowest_offset() {
    let region = [0u8, 5, 5, 5, 0, 5, 5];
    assert_eq!(find_pattern(&region, &[Some(5), Some(5)]), Some(1));
    assert_eq!(find_pattern(&region, &[Some(5), Some(0)]), Some(3));
    assert_eq!(find_pattern(&region, &[Some(5), None, Some(5), Some(5)]), Some(3));
    assert_eq!(find_pattern(&region, &[Some(6)]), None);
    assert_eq!(find_pattern(&region, &[Some(5), Some(5), Some(5), Some(5)]), None);
    assert_eq!(find_pattern(&region[..1], &[Some(0), Some(5)]), None);
    assert_eq!(find_pattern(&region, &[Some(5), Some(5), None]), Some(1));
}

#[test]
fn probe_hits_where_the_pattern_matches() {
    let pattern = [Some(0xDE), Some(0xAD), None, Some(0xBE)];
    let p = PreparedPattern::prepare(&pattern, LaneWidth::W16).unwrap();
    let mut data = vec![0u8; 64];
    data[10] = 0xDE;
    data[11] = 0xAD;
    data[12] = 0x01;
    data[13] = 0xBE;
    assert_eq!(probe(&data, 10, &p), Probe::Hit);
}

#[test]
fn probe_skips_a_window_without_the_first_byte() {
    let pattern = [Some(0xDE), Some(0xAD)];
    let data = vec![0u8; 200];
    let p = PreparedPattern::prepare(&pattern, LaneWidth::W16).unwrap();
    assert_eq!(probe(&data, 0, &p), Probe::Skip(16));
    let p = PreparedPattern::prepare(&pattern, LaneWidth::W32).unwrap();
    assert_eq!(probe(&data, 7, &p), Probe::Skip(32));
    let p = PreparedPattern::prepare(&pattern, LaneWidth::W64).unwrap();
    assert_eq!(probe(&data, 136, &p), Probe::Skip(64));
}

#[test]
fn probe_skips_to_the_first_lane_with_the_first_byte() {
    let pattern = [Some(0xDE), Some(0xAD)];
    let p = PreparedPattern::prepare(&pattern, LaneWidth::W16).unwrap();
    let mut data = vec![0u8; 64];
    data[9] = 0xDE;
    data[12] = 0xDE;
    data[13] = 0xAD;
    assert_eq!(probe(&data, 0, &p), Probe::Skip(9));
    assert_eq!(probe(&data, 8, &p), Probe::Skip(1));
    // lane 0 holds the first byte, the second cell fails
    assert_eq!(probe(&data, 9, &p), Probe::Skip(1));
    assert_eq!(probe(&data, 10, &p), Probe::Skip(2));
    assert_eq!(probe(&data, 12, &p), Probe::Hit);
    assert_eq!(probe(&data, 13, &p), Probe::Skip(16));
}

#[test]
fn probe_compares_every_chunk() {
    let mut pattern: Vec<Option<u8>> = vec![Some(3); 40];
    pattern[16] = None;
    pattern[39] = Some(4);
    let p = PreparedPattern::prepare(&pattern, LaneWidth::W16).unwrap();
    let mut data = vec![3u8; 100];
    data[16] = 0xFF;
    data[39] = 4;
    assert_eq!(probe(&data, 0, &p), Probe::Hit);
    data[38] = 0;
    assert_eq!(probe(&data, 0, &p), Probe::Skip(1));
    data[38] = 3;
    data[17] = 0;
    assert_eq!(probe(&data, 0, &p), Probe::Skip(1));
}
