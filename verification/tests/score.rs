use mirage_index::candidate::Candidate;
use mirage_index::score::Score;

fn score(value: f32) -> Score {
    Score::from_bits(value.to_bits())
}

const VALUES: [f32; 12] = [
    f32::NEG_INFINITY,
    -3.5,
    -1.0,
    -f32::MIN_POSITIVE,
    -0.0,
    0.0,
    1.0e-45,
    f32::MIN_POSITIVE,
    1.0,
    2.5,
    f32::INFINITY,
    f32::NAN,
];

#[test]
fn comparison_agrees_with_floating_point() {
    for a in VALUES {
        for b in VALUES {
            assert_eq!(score(a).is_greater(&score(b)), a > b, "{a} > {b}");
        }
    }
}

#[test]
fn total_rank_agrees_with_total_order() {
    let negative_nan = f32::from_bits(f32::NAN.to_bits() | 0x8000_0000);
    let mut values = VALUES.to_vec();
    values.push(negative_nan);
    for a in &values {
        for b in &values {
            assert_eq!(
                score(*a).total_rank().cmp(&score(*b).total_rank()),
                a.total_cmp(b)
            );
        }
    }
}

#[test]
fn bits_are_kept() {
    assert_eq!(score(1.5).to_bits(), 1.5_f32.to_bits());
}

#[test]
fn candidates_stand_closest_first() {
    let near = Candidate { idx: 9, score: score(-1.0), new_flag: true };
    let far = Candidate { idx: 1, score: score(-2.0), new_flag: true };
    let twin = Candidate { idx: 3, score: score(-2.0), new_flag: false };
    assert_eq!(near.cmp_desc(&far), std::cmp::Ordering::Less);
    assert_eq!(far.cmp_desc(&near), std::cmp::Ordering::Greater);
    assert_eq!(far.cmp_desc(&twin), std::cmp::Ordering::Less);
    let same = Candidate { new_flag: false, ..far };
    assert_eq!(far.cmp_desc(&same), std::cmp::Ordering::Equal);
}
