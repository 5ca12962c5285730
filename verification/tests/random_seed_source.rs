use rand_core::RngCore;
use rmc::random::{uniform_index, ChainId, SeedSource};

#[test]
fn seed_source_is_reproducible_per_chain() {
    let source = SeedSource::new(42);
    let mut first = source.rng_for(ChainId(7));
    let mut second = source.rng_for(ChainId(7));

    for _ in 0..16 {
        assert_eq!(first.next_u64(), second.next_u64());
    }
}

#[test]
fn seed_source_separates_chain_streams() {
    let source = SeedSource::new(42);
    let mut first = source.rng_for(ChainId(7));
    let mut second = source.rng_for(ChainId(8));

    let first_values = (0..8).map(|_| first.next_u64()).collect::<Vec<_>>();
    let second_values = (0..8).map(|_| second.next_u64()).collect::<Vec<_>>();

    assert_ne!(first_values, second_values);
    assert_ne!(source.seed_for(ChainId(7)), source.seed_for(ChainId(8)));
}

#[test]
fn seed_source_produces_unique_well_diffused_seeds_for_many_chains() {
    let source = SeedSource::new(0x5eed_cafe);
    let seeds = (0..512)
        .map(|chain| source.seed_for(ChainId(chain)))
        .collect::<Vec<_>>();

    for (idx, seed) in seeds.iter().enumerate() {
        assert_eq!(
            seeds.iter().filter(|candidate| *candidate == seed).count(),
            1,
            "duplicate seed for chain {idx}"
        );
    }

    let mut total_distance = 0_u64;
    let mut min_distance = u32::MAX;
    for pair in seeds.windows(2) {
        let distance = hamming_distance(&pair[0], &pair[1]);
        min_distance = min_distance.min(distance);
        total_distance += u64::from(distance);
    }

    let mean_distance = total_distance as f64 / (seeds.len() - 1) as f64;
    assert!(
        min_distance >= 96,
        "adjacent chain seeds diffuse poorly: min_distance={min_distance}"
    );
    assert!(
        (118.0..=138.0).contains(&mean_distance),
        "unexpected adjacent seed diffusion: mean_distance={mean_distance}"
    );
}

fn hamming_distance(first: &[u8; 32], second: &[u8; 32]) -> u32 {
    first
        .iter()
        .zip(second)
        .map(|(lhs, rhs)| (lhs ^ rhs).count_ones())
        .sum()
}

fn splitmix_finalizer(mut x: u64) -> u64 {
    x = x.wrapping_add(0x9e37_79b9_7f4a_7c15);
    x = (x ^ (x >> 30)).wrapping_mul(0xbf58_476d_1ce4_e5b9);
    x = (x ^ (x >> 27)).wrapping_mul(0x94d0_49bb_1331_11eb);
    x ^ (x >> 31)
}

#[test]
fn seed_for_is_four_little_endian_finalizer_words() {
    let source = SeedSource::new(0x1234);
    assert_eq!(source.master(), 0x1234);
    let seed = source.seed_for(ChainId(3));
    let mut state = 0x1234 ^ 3u64.wrapping_mul(0x9e37_79b9_7f4a_7c15);
    for word in 0..4 {
        state = splitmix_finalizer(state);
        assert_eq!(&seed[8 * word..8 * word + 8], &state.to_le_bytes());
    }
}

#[test]
fn uniform_index_is_balanced_for_fixed_seed() {
    let mut rng = SeedSource::new(0x5150).rng_for(ChainId(0));
    let buckets = 7;
    let draws = 70_000;
    let mut counts = vec![0_usize; buckets];

    for _ in 0..draws {
        counts[uniform_index(&mut rng, buckets)] += 1;
    }

    let expected = draws / buckets;
    for (idx, count) in counts.into_iter().enumerate() {
        let diff = count.abs_diff(expected);
        assert!(
            diff < expected / 20,
            "bucket {idx} count {count} differs too much from {expected}"
        );
    }
}

#[test]
fn uniform_index_is_reproducible_and_advances_the_generator() {
    let mut a = SeedSource::new(0x5150).rng_for(ChainId(2));
    let mut b = SeedSource::new(0x5150).rng_for(ChainId(2));
    let xs: Vec<usize> = (0..32).map(|_| uniform_index(&mut a, 1000)).collect();
    let ys: Vec<usize> = (0..32).map(|_| uniform_index(&mut b, 1000)).collect();
    assert_eq!(xs, ys);
    assert!(xs.iter().any(|&x| x != xs[0]));
    assert!(xs.iter().all(|&x| x < 1000));
}

#[test]
fn distinct_masters_give_distinct_seeds_for_one_chain() {
    for chain in 0..16u64 {
        let a = SeedSource::new(1).seed_for(ChainId(chain));
        let b = SeedSource::new(2).seed_for(ChainId(chain));
        assert_ne!(a, b);
    }
}
