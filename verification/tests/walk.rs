use fast_loaded_dice_roller::coin::{FairCoin, RngCoin, WordSource};
use fast_loaded_dice_roller::walk::{Cursor, Step};
use fast_loaded_dice_roller::Generator;

/// A coin that plays back a list of flips, and counts how many were taken.
struct ScriptedCoin {
    flips: Vec<bool>,
    taken: usize,
}

impl ScriptedCoin {
    fn new(flips: &[bool]) -> Self {
        ScriptedCoin { flips: flips.to_vec(), taken: 0 }
    }
}

impl FairCoin for ScriptedCoin {
    fn flip(&mut self) -> bool {
        let toss = self.flips[self.taken];
        self.taken += 1;
        toss
    }
}

/// A source of words that counts up from a seed through a fixed mixing
/// function, so that every run sees the same flips.
struct MixedCounter {
    state: u64,
}

impl WordSource for MixedCounter {
    fn next_word(&mut self) -> u64 {
        self.state = self.state.wrapping_add(0x9E37_79B9_7F4A_7C15);
        let mut z = self.state;
        z = (z ^ (z >> 30)).wrapping_mul(0xBF58_476D_1CE4_E5B9);
        z = (z ^ (z >> 27)).wrapping_mul(0x94D0_49BB_1331_11EB);
        z ^ (z >> 31)
    }
}

/// A source that hands out the words of a list, then zeros.
struct ListedWords {
    words: Vec<u64>,
    drawn: usize,
}

impl WordSource for ListedWords {
    fn next_word(&mut self) -> u64 {
        let word = self.words.get(self.drawn).copied().unwrap_or(0);
        self.drawn += 1;
        word
    }
}

fn build(weights: &[usize]) -> Generator {
    Generator::new(weights).expect("a valid distribution")
}

#[test]
fn test_two_equal_weights() {
    let generator = build(&[1, 1]);
    assert_eq!(generator.replay(&[false]), Some(0));
    assert_eq!(generator.replay(&[true]), Some(1));
    assert_eq!(generator.replay(&[]), None);

    let mut coin = ScriptedCoin::new(&[false]);
    assert_eq!(generator.sample(&mut coin), Some(0));
    assert_eq!(coin.taken, 1);
    let mut coin = ScriptedCoin::new(&[true]);
    assert_eq!(generator.sample(&mut coin), Some(1));
    assert_eq!(coin.taken, 1);
}

#[test]
fn test_virtual_leaf_restarts_the_walk() {
    // Total 3, depth 2, padding 1: level 0 holds [1], level 1 holds [0, 2],
    // where 2 labels the virtual bucket.
    let generator = build(&[1, 2]);
    assert_eq!(generator.replay(&[false]), Some(1));
    assert_eq!(generator.replay(&[true]), None);
    assert_eq!(generator.replay(&[true, false]), Some(0));
    assert_eq!(generator.replay(&[true, true]), None);
    assert_eq!(generator.replay(&[true, true, false]), Some(1));
    assert_eq!(generator.replay(&[true, true, true, false]), Some(0));
    assert_eq!(generator.replay(&[true, true, true, true, true, true]), None);

    let mut coin = ScriptedCoin::new(&[true, true, true, true, true, false]);
    assert_eq!(generator.sample(&mut coin), Some(0));
    assert_eq!(coin.taken, 6);
}

#[test]
fn test_sampler_gives_up_after_the_restarts_it_was_allowed() {
    // On [1, 2] two heads in a row lead to the virtual leaf.
    let generator = build(&[1, 2]);
    let heads = [true; 12];

    let mut coin = ScriptedCoin::new(&heads);
    assert_eq!(generator.sample_within(&mut coin, 0), None);
    assert_eq!(coin.taken, 2);

    let mut coin = ScriptedCoin::new(&heads);
    assert_eq!(generator.sample_within(&mut coin, 2), None);
    assert_eq!(coin.taken, 6);

    let mut coin = ScriptedCoin::new(&[true, true, true, true, false]);
    assert_eq!(generator.sample_within(&mut coin, 2), Some(1));
    assert_eq!(coin.taken, 5);

    let mut coin = ScriptedCoin::new(&[true, true, true, true, true, false]);
    assert_eq!(generator.sample_within(&mut coin, 2), Some(0));
    assert_eq!(coin.taken, 6);

    // A landing in the first round needs no restart.
    let mut coin = ScriptedCoin::new(&[true, false]);
    assert_eq!(generator.sample_within(&mut coin, 0), Some(0));
    assert_eq!(coin.taken, 2);
}

#[test]
fn test_without_padding_the_sampler_never_gives_up() {
    let generator = build(&[3, 5, 8]);
    for word in 0..16u32 {
        let flips: Vec<bool> = (0..4).map(|k| (word >> k) & 1 == 1).collect();
        let mut coin = ScriptedCoin::new(&flips);
        let drawn = generator.sample_within(&mut coin, 0);
        assert!(drawn.is_some());
        assert_eq!(drawn, generator.replay(&flips));
    }
}

#[test]
fn test_steps_of_the_walk() {
    let generator = build(&[1, 2]);
    let root = Cursor::root();
    assert_eq!(root, Cursor { level: 0, label_index: 0 });
    assert_eq!(generator.step(root, false), Step::Leaf(1));
    let below = Cursor { level: 1, label_index: 0 };
    assert_eq!(generator.step(root, true), Step::Descend(below));
    assert_eq!(generator.step(below, false), Step::Leaf(0));
    assert_eq!(generator.step(below, true), Step::Restart);
}

#[test]
fn test_levels_follow_the_binary_expansions() {
    // Total 10, depth 4, padding 6. In binary, over four positions:
    // 0000, 0001, 0010, 0011, 0100, and 0110 for the padding. So the levels
    // hold [], [4, 5], [2, 3, 5], [1, 3], where 5 labels the virtual bucket.
    let generator = build(&[0, 1, 2, 3, 4]);
    assert_eq!(generator.replay(&[false]), None);
    assert_eq!(generator.replay(&[false, false]), Some(4));
    assert_eq!(generator.replay(&[false, true]), None);
    assert_eq!(generator.replay(&[false, true, false, false]), Some(4));
    assert_eq!(generator.replay(&[true, false]), None);
    assert_eq!(generator.replay(&[true, false, false]), Some(2));
    assert_eq!(generator.replay(&[true, false, true]), Some(3));
    assert_eq!(generator.replay(&[true, true, false]), None);
    assert_eq!(generator.replay(&[true, true, false, false, false]), Some(4));
    assert_eq!(generator.replay(&[true, true, true]), None);
    assert_eq!(generator.replay(&[true, true, true, false]), Some(1));
    assert_eq!(generator.replay(&[true, true, true, true]), Some(3));

    let root = Cursor::root();
    let left = Cursor { level: 1, label_index: 0 };
    let right = Cursor { level: 1, label_index: 1 };
    assert_eq!(generator.step(root, false), Step::Descend(left));
    assert_eq!(generator.step(root, true), Step::Descend(right));
    assert_eq!(generator.step(left, true), Step::Restart);
    assert_eq!(generator.step(right, false), Step::Descend(Cursor { level: 2, label_index: 0 }));
    assert_eq!(generator.step(right, true), Step::Descend(Cursor { level: 2, label_index: 1 }));
    assert_eq!(
        generator.step(Cursor { level: 2, label_index: 1 }, true),
        Step::Descend(Cursor { level: 3, label_index: 0 })
    );
}

#[test]
fn test_flips_after_the_landing_are_ignored() {
    let generator = build(&[0, 1, 2, 3, 4]);
    assert_eq!(generator.replay(&[true, false, true]), Some(3));
    assert_eq!(generator.replay(&[true, false, true, false, false]), Some(3));
    assert_eq!(generator.replay(&[true, false, true, true, true, true, true]), Some(3));
}

#[test]
fn test_same_flips_same_bucket() {
    let generator = build(&[5, 0, 9, 1, 1, 30]);
    let copy = generator.clone();
    let mut source = MixedCounter { state: 7 };
    for _ in 0..200 {
        let word = source.next_word();
        let flips: Vec<bool> = (0..64).map(|k| (word >> k) & 1 == 1).collect();
        let landed = generator.replay(&flips);
        assert_eq!(generator.replay(&flips), landed);
        assert_eq!(copy.replay(&flips), landed);
        if landed.is_some() {
            let mut coin = ScriptedCoin::new(&flips);
            assert_eq!(generator.sample(&mut coin), landed);
            assert_eq!(generator.replay(&flips[..coin.taken]), landed);
            assert_eq!(generator.replay(&flips[..coin.taken - 1]), None);
        }
    }
}

#[test]
fn test_samples_are_buckets_with_positive_weight() {
    let weights = [0, 3, 0, 0, 17, 1, 0];
    let generator = build(&weights);
    let mut coin = RngCoin::new(MixedCounter { state: 1 });
    for _ in 0..10_000 {
        let bucket = generator.sample(&mut coin).expect("the coin is fair");
        assert!(bucket < weights.len());
        assert!(weights[bucket] > 0);
    }
}

#[test]
fn test_without_padding_every_round_lands() {
    // Total 16: no virtual bucket, so four flips always suffice.
    let generator = build(&[3, 5, 8]);
    for word in 0..16u32 {
        let flips: Vec<bool> = (0..4).map(|k| (word >> k) & 1 == 1).collect();
        assert!(generator.replay(&flips).is_some());
    }
}

#[test]
fn test_a_round_is_no_longer_than_the_tree_is_deep() {
    // Total 10, depth 4: after four flips the walk has landed or restarted,
    // so it never stands deeper than level 3.
    let generator = build(&[0, 1, 2, 3, 4]);
    for word in 0..(1u32 << 12) {
        let mut cursor = Cursor::root();
        for k in 0..12 {
            match generator.step(cursor, (word >> k) & 1 == 1) {
                Step::Leaf(bucket) => {
                    assert!((1..=4).contains(&bucket));
                    break;
                }
                Step::Restart => cursor = Cursor::root(),
                Step::Descend(next) => {
                    assert_eq!(next.level, cursor.level + 1);
                    assert!(next.level < 4);
                    cursor = next;
                }
            }
        }
    }
}

#[test]
fn test_paths_to_a_bucket_weigh_what_the_bucket_weighs() {
    // Of the 16 ways to flip four times from the root, `weights[i]` lead to
    // bucket `i` and the padding's six lead back to the root.
    let weights = [0usize, 1, 2, 3, 4];
    let generator = build(&weights);
    let mut landed = [0usize; 5];
    let mut restarted = 0usize;
    for word in 0..16u32 {
        let mut cursor = Cursor::root();
        for k in 0..4 {
            match generator.step(cursor, (word >> k) & 1 == 1) {
                Step::Leaf(bucket) => {
                    landed[bucket] += 1;
                    break;
                }
                Step::Restart => {
                    restarted += 1;
                    break;
                }
                Step::Descend(next) => cursor = next,
            }
        }
    }
    assert_eq!(landed, weights);
    assert_eq!(restarted, 6);
}

#[test]
fn test_frequencies_converge() {
    const ROLL_COUNT: usize = 100_000;
    let weights = [0usize, 1, 2, 3, 4];
    let total: usize = weights.iter().sum();
    let generator = build(&weights);
    let mut coin = RngCoin::new(MixedCounter { state: 2023 });
    let mut histogram = [0usize; 5];
    for _ in 0..ROLL_COUNT {
        histogram[generator.sample(&mut coin).expect("the coin is fair")] += 1;
    }
    assert_eq!(histogram[0], 0);
    // Pearson's statistic over the four buckets that can come out; with
    // three degrees of freedom it stays below 16.27 in 999 of 1000 runs.
    let mut chi_squared = 0.0f64;
    for bucket in 1..5 {
        let expected = (ROLL_COUNT * weights[bucket]) as f64 / total as f64;
        let deviation = histogram[bucket] as f64 - expected;
        chi_squared += deviation * deviation / expected;
    }
    assert!(chi_squared < 16.27, "chi-squared statistic: {chi_squared}");
}

#[test]
fn test_flips_per_sample() {
    const ROLL_COUNT: usize = 100_000;
    struct Counting {
        inner: RngCoin<MixedCounter>,
        flips: usize,
    }
    impl FairCoin for Counting {
        fn flip(&mut self) -> bool {
            self.flips += 1;
            self.inner.flip()
        }
    }
    let weights = [17usize, 200, 1, 0, 93, 255, 8, 8, 64, 130];
    let total: usize = weights.iter().sum();
    assert_eq!(total, 776);
    let generator = build(&weights);
    let mut coin = Counting { inner: RngCoin::new(MixedCounter { state: 99 }), flips: 0 };
    for _ in 0..ROLL_COUNT {
        assert!(generator.sample(&mut coin).is_some());
    }
    let flips_per_sample = coin.flips as f64 / ROLL_COUNT as f64;
    // The total needs ten bits.
    assert!(flips_per_sample < 10.0 + 6.5, "flips per sample: {flips_per_sample}");
    assert!(flips_per_sample < 8.0 * weights.len() as f64 + 7.0);
}

#[test]
fn test_coin_serves_low_bits_first() {
    let source = ListedWords { words: vec![0b1011, u64::MAX, 1 << 63], drawn: 0 };
    let mut coin = RngCoin::new(source);
    let first: Vec<bool> = (0..64).map(|_| coin.flip()).collect();
    assert_eq!(&first[..5], &[true, true, false, true, false]);
    assert!(first[5..].iter().all(|toss| !toss));
    let second: Vec<bool> = (0..64).map(|_| coin.flip()).collect();
    assert!(second.iter().all(|toss| *toss));
    let third: Vec<bool> = (0..64).map(|_| coin.flip()).collect();
    assert!(third[..63].iter().all(|toss| !toss));
    assert!(third[63]);
    // The list is used up: the next word is zero.
    assert!(!coin.flip());
}

#[test]
fn test_coin_drives_the_sampler() {
    // 0b0110 read from the low end: false, true, true, false.
    let generator = build(&[1, 2]);
    let mut coin = RngCoin::new(ListedWords { words: vec![0b0110], drawn: 0 });
    assert_eq!(generator.sample(&mut coin), Some(1));
    // true, true: a restart; then false.
    assert_eq!(generator.sample(&mut coin), Some(1));
    assert_eq!(generator.sample(&mut coin), Some(1));
}

#[test]
fn test_default_coin_draws_from_the_thread() {
    let generator = build(&[1, 1, 1]);
    let mut coin = RngCoin::default();
    for _ in 0..1000 {
        let bucket = generator.sample(&mut coin).expect("the coin is fair");
        assert!(bucket < 3);
    }
}
