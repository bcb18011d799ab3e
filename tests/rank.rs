use succinct::RankSupport;

#[test]
fn rank() {
    let vec = vec![0b10000000000000001110000000000000u32; 1024];
    let ranker = RankSupport::new(&*vec);

    assert_eq!(1, ranker.rank(0));
    assert_eq!(1, ranker.rank(1));
    assert_eq!(1, ranker.rank(2));
    assert_eq!(1, ranker.rank(7));
    assert_eq!(2, ranker.rank(16));
    assert_eq!(3, ranker.rank(17));
    assert_eq!(4, ranker.rank(18));
    assert_eq!(4, ranker.rank(19));
    assert_eq!(4, ranker.rank(20));

    assert_eq!(16, ranker.rank(4 * 32 - 1));
    assert_eq!(17, ranker.rank(4 * 32));
    assert_eq!(2048, ranker.rank(512 * 32 - 1));
    assert_eq!(2049, ranker.rank(512 * 32));
}

fn next_value(state: &mut u64) -> u64 {
    *state = state.wrapping_mul(6364136223846793005).wrapping_add(1442695040888963407);
    *state
}

// Set bits among positions 0 ..= p, position p being bit 63 - p % 64 of
// word p / 64.
fn brute_rank(words: &[u64], p: u64) -> u64 {
    let word = (p / 64) as usize;
    let off = p % 64;
    let mut total = 0u64;
    for w in &words[..word] {
        total += w.count_ones() as u64;
    }
    for bit in 0..=off {
        total += (words[word] >> (63 - bit)) & 1;
    }
    total
}

#[test]
fn rank_matches_brute_force_on_many_random_bits() {
    let mut state = 12345u64;
    let words: Vec<u64> = (0..(1usize << 14)).map(|_| next_value(&mut state)).collect();
    let n = words.len() as u64 * 64;
    assert!(n >= 1 << 20);
    let ranker = RankSupport::new(&*words);
    let mut positions = vec![0, 1, 63, 64, n / 2, n / 2 + 1, n - 1];
    for _ in 0..200 {
        positions.push(next_value(&mut state) % n);
    }
    for &p in &positions {
        assert_eq!(brute_rank(&words, p), ranker.rank(p), "position {}", p);
    }
}

#[test]
fn rank_is_monotone_across_a_store() {
    let mut state = 7u64;
    let words: Vec<u8> = (0..300).map(|_| (next_value(&mut state) >> 56) as u8).collect();
    let ranker = RankSupport::new(&*words);
    let mut previous = 0;
    for p in 0..(words.len() as u64 * 8) {
        let r = ranker.rank(p);
        assert!(r >= previous);
        assert!(r <= previous + 1);
        previous = r;
    }
}

#[test]
fn rank_of_all_ones_and_all_zeros() {
    let ones = vec![u16::MAX; 64];
    let ranker = RankSupport::new(&*ones);
    assert_eq!(1, ranker.rank(0));
    assert_eq!(1024, ranker.rank(1023));
    assert_eq!(500, ranker.rank(499));

    let zeros = vec![0u64; 3];
    let ranker = RankSupport::new(&*zeros);
    assert_eq!(0, ranker.rank(0));
    assert_eq!(0, ranker.rank(191));
}

#[test]
fn rank_over_a_single_word() {
    let one = vec![0b1000_0001u8];
    let ranker = RankSupport::new(&*one);
    assert_eq!(1, ranker.rank(0));
    assert_eq!(1, ranker.rank(6));
    assert_eq!(2, ranker.rank(7));
}

#[test]
fn rank_over_an_empty_store() {
    let none: Vec<u32> = Vec::new();
    let _ranker = RankSupport::new(&*none);
}
