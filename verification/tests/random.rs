use mirage_index::faiss_random::{
    faiss_random_level, faiss_shuffle, level_links, FaissMt19937, LevelTable, UNIT_NEGLIGIBLE,
    UNIT_ONE,
};

#[test]
fn test_mt19937_matches_reference_seed() {
    let mut rng = FaissMt19937::new(5489);
    let expected = [
        3_499_211_612,
        581_869_302,
        3_890_346_734,
        3_586_334_585,
        545_404_204,
    ];

    for value in expected {
        assert_eq!(rng.next_u32(), value);
    }
}

#[test]
fn test_faiss_shuffle_is_stable() {
    let mut values = [0, 1, 2, 3, 4, 5, 6, 7];
    let mut rng = FaissMt19937::new(789);
    faiss_shuffle(&mut values, &mut rng);

    assert_eq!(values, [3, 4, 1, 2, 5, 7, 6, 0]);
}

#[test]
fn ten_thousandth_output_of_the_default_seed() {
    let mut rng = FaissMt19937::new(5489);
    let mut last = 0;
    for _ in 0..10_000 {
        last = rng.next_u32();
    }
    // The value that the C++ standard requires of `std::mt19937`.
    assert_eq!(last, 4_123_659_995);
}

#[test]
fn clone_continues_the_same_sequence() {
    let mut rng = FaissMt19937::new(7);
    for _ in 0..700 {
        rng.next_u32();
    }
    let mut copy = rng.clone();
    for _ in 0..700 {
        assert_eq!(rng.next_u32(), copy.next_u32());
    }
}

#[test]
fn rand_int_is_the_draw_modulo_the_bound() {
    let mut rng = FaissMt19937::new(5489);
    assert_eq!(rng.rand_int(1000), 3_499_211_612 % 1000);
    assert_eq!(rng.rand_int(7), 581_869_302 % 7);
    assert_eq!(rng.rand_int(1), 0);
}

#[test]
fn rand_float_is_the_single_precision_quotient() {
    let mut rng = FaissMt19937::new(5489);
    let mut words = FaissMt19937::new(5489);
    for _ in 0..2000 {
        let expected = words.next_u32() as f32 / u32::MAX as f32;
        let units = rng.rand_float();
        assert_eq!(units as f64 / UNIT_ONE as f64, expected as f64);
    }
}

#[test]
fn shuffle_keeps_the_items() {
    let mut values: Vec<u32> = (0..100).collect();
    let mut rng = FaissMt19937::new(1);
    faiss_shuffle(&mut values, &mut rng);
    assert_ne!(values, (0..100).collect::<Vec<u32>>());
    values.sort_unstable();
    assert_eq!(values, (0..100).collect::<Vec<u32>>());

    let mut none: Vec<u32> = Vec::new();
    faiss_shuffle(&mut none, &mut rng);
    assert!(none.is_empty());
}

fn probabilities(m: usize) -> Vec<f32> {
    let level_mult = 1.0_f32 / (m as f32).ln();
    let mut probabilities = Vec::new();
    loop {
        let level = probabilities.len();
        let proba = (-(level as f32) / level_mult).exp() * (1.0 - (-1.0 / level_mult).exp());
        probabilities.push(proba);
        if proba < 1e-9 {
            return probabilities;
        }
    }
}

fn table(m: usize) -> LevelTable {
    let units = probabilities(m)
        .iter()
        .map(|proba| (*proba as f64 * UNIT_ONE as f64) as u64)
        .collect();
    LevelTable::new(m, units).unwrap()
}

fn float_level(m: usize, rng: &mut FaissMt19937) -> usize {
    let level_mult = 1.0_f32 / (m as f32).ln();
    let mut f = rng.next_u32() as f32 / u32::MAX as f32;
    for level in 0usize.. {
        let proba = (-(level as f32) / level_mult).exp() * (1.0 - (-1.0 / level_mult).exp());
        if proba < 1e-9 {
            return level.saturating_sub(1);
        }
        if f < proba {
            return level;
        }
        f -= proba;
    }
    unreachable!()
}

#[test]
fn levels_agree_with_single_precision_arithmetic() {
    for m in [2, 3, 8, 16, 32, 64] {
        let table = table(m);
        let mut rng = FaissMt19937::new(12345);
        let mut words = FaissMt19937::new(12345);
        for _ in 0..20_000 {
            assert_eq!(
                faiss_random_level(m, &table, &mut rng),
                float_level(m, &mut words)
            );
        }
    }
}

#[test]
fn level_table_needs_a_negligible_end() {
    assert!(LevelTable::new(2, Vec::new()).is_none());
    assert!(LevelTable::new(2, vec![UNIT_ONE]).is_none());
    assert!(LevelTable::new(2, vec![UNIT_ONE, UNIT_NEGLIGIBLE]).is_none());
    assert!(LevelTable::new(2, vec![UNIT_ONE, UNIT_NEGLIGIBLE - 1]).is_some());
    let always_zero = LevelTable::new(2, vec![UNIT_NEGLIGIBLE - 1]).unwrap();
    let mut rng = FaissMt19937::new(3);
    assert_eq!(faiss_random_level(2, &always_zero, &mut rng), 0);
}

#[test]
fn graphs_with_up_to_two_links_draw_levels_alike() {
    let mut rngs = [
        FaissMt19937::new(12345),
        FaissMt19937::new(12345),
        FaissMt19937::new(12345),
    ];
    let mut words = FaissMt19937::new(12345);
    let shared = table(level_links(0));
    for _ in 0..2000 {
        let expected = float_level(2, &mut words);
        for m in 0..3 {
            assert_eq!(faiss_random_level(m, &shared, &mut rngs[m]), expected);
        }
    }
    // Each level took one draw.
    let next = words.next_u32();
    for mut rng in rngs {
        assert_eq!(rng.next_u32(), next);
    }
}

#[test]
fn level_probabilities_are_for_two_links_at_least() {
    assert_eq!(level_links(0), 2);
    assert_eq!(level_links(1), 2);
    assert_eq!(level_links(2), 2);
    assert_eq!(level_links(3), 3);
    assert_eq!(level_links(usize::MAX), usize::MAX);
}
