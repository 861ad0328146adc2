use jsonl_peek::rng::{Reservoir, SplitMix64};

#[test]
fn same_seed_gives_same_sequence() {
    let mut a = SplitMix64::new(42);
    let mut b = SplitMix64::new(42);
    for _ in 0..100 {
        assert_eq!(a.next_u64(), b.next_u64());
    }
}

#[test]
fn different_seeds_diverge() {
    let mut a = SplitMix64::new(1);
    let mut b = SplitMix64::new(2);
    let seq_a: Vec<u64> = (0..20).map(|_| a.next_u64()).collect();
    let seq_b: Vec<u64> = (0..20).map(|_| b.next_u64()).collect();
    assert_ne!(seq_a, seq_b);
}

#[test]
fn next_below_stays_in_range() {
    let mut rng = SplitMix64::new(7);
    for _ in 0..10_000 {
        assert!(rng.next_below(37) < 37);
    }
}

#[test]
fn next_below_zero_is_zero() {
    let mut rng = SplitMix64::new(7);
    assert_eq!(rng.next_below(0), 0);
}

#[test]
fn reservoir_keeps_everything_under_capacity() {
    let mut r = Reservoir::new(10, 1);
    for i in 0..5 {
        r.consider(i);
    }
    assert_eq!(r.len(), 5);
    assert_eq!(r.into_sorted(), vec![0, 1, 2, 3, 4]);
}

#[test]
fn reservoir_caps_at_capacity() {
    let mut r = Reservoir::new(3, 1);
    for i in 0..1000 {
        r.consider(i);
    }
    assert_eq!(r.len(), 3);
}

#[test]
fn reservoir_output_is_sorted_by_original_position() {
    let mut r = Reservoir::new(3, 99);
    for i in 0..1000 {
        r.consider(i);
    }
    let sample = r.into_sorted();
    let mut sorted = sample.clone();
    sorted.sort_unstable();
    assert_eq!(sample, sorted, "into_sorted should restore stream order");
}

#[test]
fn zero_capacity_keeps_nothing() {
    let mut r: Reservoir<i32> = Reservoir::new(0, 1);
    for i in 0..100 {
        r.consider(i);
    }
    assert!(r.is_empty());
}

#[test]
fn same_seed_gives_same_sample() {
    let items: Vec<i32> = (0..500).collect();
    let sample_a: Vec<i32> = {
        let mut r = Reservoir::new(20, 123);
        for &i in &items {
            r.consider(i);
        }
        r.into_sorted()
    };
    let sample_b: Vec<i32> = {
        let mut r = Reservoir::new(20, 123);
        for &i in &items {
            r.consider(i);
        }
        r.into_sorted()
    };
    assert_eq!(sample_a, sample_b);
}

#[test]
fn sampling_is_roughly_uniform_over_many_trials() {
    // Each of 10 items should end up in a 3-slot reservoir with
    // probability 0.3. Over 20,000 independent reservoirs the observed
    // rate for any single item should land well within a generous
    // tolerance of that.
    let trials = 20_000;
    let n_items = 10u64;
    let capacity = 3;
    let mut hits = 0u64;

    for seed in 0..trials {
        let mut r = Reservoir::new(capacity, seed);
        for i in 0..n_items {
            r.consider(i);
        }
        if r.into_sorted().contains(&0) {
            hits += 1;
        }
    }

    let rate = hits as f64 / trials as f64;
    let expected = capacity as f64 / n_items as f64;
    assert!(
        (rate - expected).abs() < 0.02,
        "expected inclusion rate near {expected}, got {rate}"
    );
}

#[test]
fn splitmix_matches_the_published_sequence_for_seed_zero() {
    let mut rng = SplitMix64::new(0);
    assert_eq!(rng.next_u64(), 0xE220_A839_7B1D_CDAF);
    assert_eq!(rng.next_u64(), 0x6E78_9E6A_A1B9_65F4);
    assert_eq!(rng.next_u64(), 0x06C4_5D18_8009_454F);
}

#[test]
fn next_below_one_is_always_zero() {
    let mut rng = SplitMix64::new(5);
    for _ in 0..100 {
        assert_eq!(rng.next_below(1), 0);
    }
}

#[test]
fn next_below_handles_the_largest_bound() {
    let mut rng = SplitMix64::new(11);
    for _ in 0..100 {
        assert!(rng.next_below(u64::MAX) < u64::MAX);
    }
}

#[test]
fn sample_holds_only_stream_items_in_stream_order() {
    let mut r = Reservoir::new(5, 2024);
    for i in 0..200u32 {
        r.consider(i * 3);
    }
    let sample = r.into_sorted();
    assert_eq!(sample.len(), 5);
    for w in sample.windows(2) {
        assert!(w[0] < w[1]);
    }
    for x in &sample {
        assert_eq!(x % 3, 0);
        assert!(*x < 600);
    }
}

#[test]
fn reservoir_of_exact_capacity_keeps_the_whole_stream() {
    let mut r = Reservoir::new(4, 8);
    for s in ["a", "b", "c", "d"] {
        r.consider(s.to_string());
    }
    assert_eq!(r.len(), 4);
    assert!(!r.is_empty());
    assert_eq!(r.into_sorted(), vec!["a", "b", "c", "d"]);
}

#[test]
fn reservoir_length_follows_the_stream_up_to_capacity() {
    let mut r = Reservoir::new(3, 5);
    assert_eq!(r.len(), 0);
    for n in 0..10u32 {
        r.consider(n);
        let want: usize = if n + 1 < 3 { n as usize + 1 } else { 3 };
        assert_eq!(r.len(), want);
    }
}

#[test]
fn next_below_answers_from_the_first_kept_draw() {
    // With this bound Lemire's method throws away every draw whose low half
    // is below 2^63 - 1, about half of them.
    let bound = (1u64 << 63) + 1;
    let threshold = 0u64.wrapping_sub(bound) % bound;
    assert_eq!(threshold, (1u64 << 63) - 1);
    let mut by_hand = SplitMix64::new(7);
    let mut rng = SplitMix64::new(7);
    for _ in 0..50 {
        let expected = loop {
            let product = by_hand.next_u64() as u128 * bound as u128;
            if product as u64 >= threshold {
                break (product >> 64) as u64;
            }
        };
        assert_eq!(rng.next_below(bound), expected);
        assert_eq!(rng.next_u64(), by_hand.next_u64());
    }
}
