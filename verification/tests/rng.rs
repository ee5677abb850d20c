use jsonl_peek::rng::{Reservoir, SplitMix64};

#[test]
fn same_seed_reproduces_the_same_sequence() {
    let mut a = SplitMix64::new(1234);
    let mut b = SplitMix64::new(1234);
    for _ in 0..100 {
        assert_eq!(a.next_u64(), b.next_u64());
    }
}

#[test]
fn known_first_outputs() {
    let mut rng = SplitMix64::new(1234567);
    assert_eq!(rng.next_u64(), 6457827717110365317);
    assert_eq!(rng.next_u64(), 3203168211198807973);
    assert_eq!(rng.next_u64(), 9817491932198370423);
}

#[test]
fn different_seeds_diverge() {
    let mut a = SplitMix64::new(1);
    let mut b = SplitMix64::new(2);
    let seq_a: Vec<u64> = (0..8).map(|_| a.next_u64()).collect();
    let seq_b: Vec<u64> = (0..8).map(|_| b.next_u64()).collect();
    assert_ne!(seq_a, seq_b);
}

#[test]
fn below_never_reaches_bound() {
    let mut rng = SplitMix64::new(9001);
    for _ in 0..10_000 {
        assert!(rng.below(7) < 7);
    }
    // A power of two exercises the fast path (no rejection loop) too.
    for _ in 0..10_000 {
        assert!(rng.below(1) == 0);
    }
}

#[test]
fn below_scales_the_word_it_accepts() {
    let mut words = SplitMix64::new(99);
    let mut rng = SplitMix64::new(99);
    let word = words.next_u64();
    assert_eq!(rng.below(1000), ((word as u128 * 1000) >> 64) as u64);
}

#[test]
fn below_rejects_words_of_a_short_range() {
    let bound = (1u64 << 63) + 1;
    let threshold = bound.wrapping_neg() % bound;
    let mut words = SplitMix64::new(5);
    let mut rng = SplitMix64::new(5);
    for _ in 0..50 {
        let want = loop {
            let product = words.next_u64() as u128 * bound as u128;
            if product as u64 >= threshold {
                break (product >> 64) as u64;
            }
        };
        assert_eq!(rng.below(bound), want);
    }
}

#[test]
fn reservoir_keeps_every_item_when_capacity_covers_the_stream() {
    let mut rng = SplitMix64::new(1);
    let mut reservoir = Reservoir::new(10);
    for i in 0..5 {
        reservoir.add(i, &mut rng);
    }
    let mut got = reservoir.into_vec();
    got.sort_unstable();
    assert_eq!(got, vec![0, 1, 2, 3, 4]);
}

#[test]
fn reservoir_never_exceeds_capacity() {
    let mut rng = SplitMix64::new(7);
    let mut reservoir = Reservoir::new(3);
    for i in 0..1000 {
        reservoir.add(i, &mut rng);
    }
    assert_eq!(reservoir.as_slice().len(), 3);
    assert_eq!(reservoir.seen(), 1000);
    assert_eq!(reservoir.capacity(), 3);
}

#[test]
fn zero_capacity_reservoir_stays_empty() {
    let mut rng = SplitMix64::new(3);
    let mut reservoir: Reservoir<u32> = Reservoir::new(0);
    for i in 0..50 {
        reservoir.add(i, &mut rng);
    }
    assert!(reservoir.as_slice().is_empty());
    assert_eq!(reservoir.seen(), 50);
}

#[test]
fn same_seed_gives_the_same_sample() {
    let sample = |seed| {
        let mut rng = SplitMix64::new(seed);
        let mut reservoir = Reservoir::new(4);
        for i in 0..200 {
            reservoir.add(i, &mut rng);
        }
        reservoir.into_vec()
    };
    assert_eq!(sample(42), sample(42));
}

#[test]
fn a_sample_takes_no_item_twice() {
    let mut rng = SplitMix64::new(11);
    let mut reservoir = Reservoir::new(20);
    for i in 0..500u32 {
        reservoir.add(i, &mut rng);
    }
    let mut got = reservoir.into_vec();
    got.sort_unstable();
    got.dedup();
    assert_eq!(got.len(), 20);
}

#[test]
fn every_item_has_roughly_equal_odds_of_survival() {
    // Sample one item out of five, many times over, and check no item is
    // wildly over- or under-represented. This is Algorithm R's whole
    // reason to exist, so it is worth pinning down statistically rather
    // than just checking the capacity invariant.
    const ITEMS: u64 = 5;
    const TRIALS: u64 = 20_000;
    let mut counts = [0u64; ITEMS as usize];
    for seed in 0..TRIALS {
        let mut rng = SplitMix64::new(seed);
        let mut reservoir = Reservoir::new(1);
        for i in 0..ITEMS {
            reservoir.add(i, &mut rng);
        }
        counts[reservoir.as_slice()[0] as usize] += 1;
    }
    let expected = TRIALS / ITEMS;
    for count in counts {
        let low = expected * 8 / 10;
        let high = expected * 12 / 10;
        assert!(
            (low..=high).contains(&count),
            "count {count} outside [{low}, {high}] for expected {expected}"
        );
    }
}

#[test]
fn below_favours_no_value() {
    let mut rng = SplitMix64::new(2024);
    let mut counts = [0u32; 6];
    for _ in 0..60_000 {
        counts[rng.below(6) as usize] += 1;
    }
    assert!(counts.iter().all(|&n| (9_000..=11_000).contains(&n)), "{counts:?}");
}
