use mocd::operators::{draw_labels, draw_mask, draw_picks};
use mocd::rng::Rng;

#[test]
fn test_first_draws_from_seed_zero() {
    let mut rng = Rng::new(0);
    assert_eq!(rng.next_u64(), 0xE220_A839_7B1D_CDAF);
    assert_eq!(rng.next_u64(), 0x6E78_9E6A_A1B9_65F4);
    assert_eq!(rng.next_u64(), 0x06C4_5D18_8009_454F);
    assert_eq!(rng.state, 0x9E37_79B9_7F4A_7C15u64.wrapping_mul(3));
}

#[test]
fn test_same_seed_same_draws() {
    let mut first = Rng::new(1234);
    let mut second = Rng::new(1234);
    for _ in 0..100 {
        assert_eq!(first.next_u64(), second.next_u64());
    }
    assert_eq!(first, second);
}

#[test]
fn test_below_is_the_draw_modulo_the_bound() {
    let mut rng = Rng::new(0);
    assert_eq!(rng.below(1000), 0xE220_A839_7B1D_CDAFu64 % 1000);
    let mut rng = Rng::new(77);
    for bound in 1..50u64 {
        assert!(rng.below(bound) < bound);
    }
}

#[test]
fn test_chance_at_the_ends_of_the_range() {
    let mut rng = Rng::new(5);
    for _ in 0..100 {
        assert!(!rng.chance(0));
        assert!(rng.chance(1_000_000));
    }
}

#[test]
fn test_chance_follows_the_draw() {
    let mut rng = Rng::new(0);
    let draw = 0xE220_A839_7B1D_CDAFu64 % 1_000_000;
    assert!(rng.chance(draw as u32 + 1));
    let mut rng = Rng::new(0);
    assert!(!rng.chance(draw as u32));
}

#[test]
fn test_draw_mask() {
    let mut rng = Rng::new(3);
    let mask = draw_mask(&mut rng, 40, 500_000);
    let mut again = Rng::new(3);
    let expected: Vec<bool> = (0..40).map(|_| again.chance(500_000)).collect();
    assert_eq!(mask, expected);
    assert_eq!(rng, again);
    assert!(mask.iter().any(|&hit| hit));
    assert!(mask.iter().any(|&hit| !hit));
}

#[test]
fn test_draw_picks_takes_two_draws_each() {
    let mut rng = Rng::new(9);
    let picks = draw_picks(&mut rng, 30, 300_000);
    let mut again = Rng::new(9);
    let mut expected = Vec::new();
    for _ in 0..30 {
        let hit = again.chance(300_000);
        let draw = again.next_u64();
        expected.push(if hit { Some(draw) } else { None });
    }
    assert_eq!(picks, expected);
    assert_eq!(rng, again);
}

#[test]
fn test_draw_labels_stay_below_the_range() {
    let mut rng = Rng::new(11);
    let labels = draw_labels(&mut rng, 200, 7);
    assert_eq!(labels.len(), 200);
    assert!(labels.iter().all(|&label| 0 <= label && label < 7));
    let mut again = Rng::new(11);
    let expected: Vec<i32> = (0..200).map(|_| again.below(7) as i32).collect();
    assert_eq!(labels, expected);
}
