use coolfindpattern::{LaneWidth, PatternSearcher};

fn naive(data: &[u8], pattern: &[Option<u8>]) -> Vec<usize> {
    let mut found: Vec<usize> = Vec::new();
    if pattern.len() > data.len() {
        return found;
    }
    for o in 0..=data.len() - pattern.len() {
        let mut ok = true;
        for (i, cell) in pattern.iter().enumerate() {
            if let Some(v) = cell {
                if data[o + i] != *v {
                    ok = false;
                }
            }
        }
        if ok {
            found.push(o);
        }
    }
    found
}

fn searched(data: &[u8], pattern: &[Option<u8>], width: LaneWidth) -> Vec<usize> {
    PatternSearcher::with_width(data, pattern, width).unwrap().remaining_matches()
}

struct Noise {
    state: u64,
}

impl Noise {
    fn below(&mut self, n: u64) -> u64 {
        self.state ^= self.state << 13;
        self.state ^= self.state >> 7;
        self.state ^= self.state << 17;
        (self.state >> 11) % n
    }
}

fn check_against_naive(seed: u64, rounds: usize, alphabet: u64, max_hay: u64, max_pat: u64) {
    let mut noise = Noise { state: seed };
    for _ in 0..rounds {
        let hay_len: usize = noise.below(max_hay + 1) as usize;
        let data: Vec<u8> = (0..hay_len).map(|_| noise.below(alphabet) as u8).collect();
        let pat_len: usize = 1 + noise.below(max_pat) as usize;
        let mut pattern: Vec<Option<u8>> = (0..pat_len)
            .map(|_| if noise.below(3) == 0 { None } else { Some(noise.below(alphabet) as u8) })
            .collect();
        let pin: usize = noise.below(pat_len as u64) as usize;
        pattern[pin] = Some(noise.below(alphabet) as u8);
        let want = naive(&data, &pattern);
        assert_eq!(searched(&data, &pattern, LaneWidth::W16), want, "{:?} in {:?}", pattern, data);
        assert_eq!(searched(&data, &pattern, LaneWidth::W32), want, "{:?} in {:?}", pattern, data);
        assert_eq!(searched(&data, &pattern, LaneWidth::W64), want, "{:?} in {:?}", pattern, data);
    }
}

#[test]
fn agrees_with_the_naive_matcher_on_short_patterns() {
    check_against_naive(0x1234_5678_9ABC_DEF1, 400, 2, 200, 6);
}

#[test]
fn agrees_with_the_naive_matcher_on_patterns_of_several_chunks() {
    check_against_naive(0x0F0F_1234_55AA_0001, 300, 2, 400, 80);
}

#[test]
fn agrees_with_the_naive_matcher_on_a_wider_alphabet() {
    check_against_naive(0x7777_0000_1111_2222, 300, 4, 300, 40);
}

#[test]
fn agrees_with_the_naive_matcher_on_a_constant_haystack() {
    check_against_naive(0x4242_4242_4242_4242, 200, 1, 150, 70);
}

#[test]
fn wildcard_in_the_first_lane_of_a_later_chunk_matches_any_byte() {
    // cell 16 opens the second chunk at width 16 and is a wildcard
    let mut pattern: Vec<Option<u8>> = vec![Some(0x41); 16];
    pattern.push(None);
    pattern.push(Some(0x42));
    let mut data = vec![0u8; 100];
    for i in 0..16 {
        data[20 + i] = 0x41;
    }
    data[36] = 0x99;
    data[37] = 0x42;
    assert_eq!(naive(&data, &pattern), vec![20]);
    assert_eq!(searched(&data, &pattern, LaneWidth::W16), vec![20]);
    assert_eq!(searched(&data, &pattern, LaneWidth::W32), vec![20]);
    assert_eq!(searched(&data, &pattern, LaneWidth::W64), vec![20]);
}

#[test]
fn mismatch_in_a_later_chunk_loses_no_match_that_starts_one_byte_on() {
    // 0x41 x 21 then 0x42: the pattern of 20 x 0x41 and 0x42 matches at 1 only
    let mut pattern: Vec<Option<u8>> = vec![Some(0x41); 20];
    pattern.push(Some(0x42));
    let mut data = vec![0x41u8; 21];
    data.push(0x42);
    data.extend(vec![0u8; 60]);
    assert_eq!(naive(&data, &pattern), vec![1]);
    assert_eq!(searched(&data, &pattern, LaneWidth::W16), vec![1]);
    assert_eq!(searched(&data, &pattern, LaneWidth::W32), vec![1]);
    assert_eq!(searched(&data, &pattern, LaneWidth::W64), vec![1]);
}

#[test]
fn widths_give_identical_streams() {
    let mut data = vec![0u8; 1000];
    for at in [0usize, 15, 16, 17, 31, 32, 63, 64, 65, 500, 935, 936, 990, 996] {
        data[at] = 0xDE;
        data[at + 3] = 0xEF;
    }
    let pattern = [None, None, Some(0xDE), None, None, Some(0xEF), None];
    let w16 = searched(&data, &pattern, LaneWidth::W16);
    assert_eq!(w16, vec![13, 14, 15, 29, 30, 61, 62, 63, 498, 933, 934, 988]);
    assert_eq!(searched(&data, &pattern, LaneWidth::W32), w16);
    assert_eq!(searched(&data, &pattern, LaneWidth::W64), w16);
}
