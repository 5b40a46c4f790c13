use apiforma::chunk::Chunk;
use apiforma::relief::{relief_from_draws, RELIEF_DRAWS};

#[test]
fn relief_of_a_single_value_range_is_flat() {
    let w = Chunk::generate_noise(0..=0, 7).expect("small range");
    assert!(w.iter().all(|&v| v == 0));
}

#[test]
fn relief_stays_within_seven_die_sizes() {
    let w = Chunk::generate_noise(-5..=3, 1234).expect("small range");
    assert!(w.iter().all(|&v| v.abs() <= 35));
    assert!(w.iter().any(|&v| v != 0));
}

#[test]
fn relief_is_the_same_for_the_same_seed() {
    let a = Chunk::generate_noise(-100..=100, 99).expect("small range");
    let b = Chunk::generate_noise(-100..=100, 99).expect("small range");
    assert_eq!(a.to_vec(), b.to_vec());
}

#[test]
fn relief_with_a_huge_range_leaves_i32() {
    assert!(Chunk::generate_noise(i32::MIN..=i32::MAX, 5).is_none());
}

#[test]
fn relief_from_known_draws() {
    let draws: Vec<i32> = (0..RELIEF_DRAWS as i32).map(|i| (i * 37) % 201 - 100).collect();
    let g = relief_from_draws(&draws).expect("small draws");
    assert_eq!(g[0], 16);
    assert_eq!(g[1], 23);
    assert_eq!(g[64], -6);
    assert_eq!(g[129 * 64 + 64], 63);
    assert_eq!(g[129 * 127 + 127], 50);
    assert_eq!(g[16639], 49);
    assert_eq!(g[5000], -8);
    assert_eq!((g[128], g[16512], g[16640]), (0, 0, 0));
}

#[test]
fn relief_from_too_few_draws_is_none() {
    assert!(relief_from_draws(&vec![1; 100]).is_none());
}

#[test]
fn relief_of_a_nonnegative_range_is_nonnegative() {
    let w = Chunk::generate_noise(0..=9, 3).expect("small range");
    assert!(w.iter().all(|&v| v >= 0 && v <= 63));
    assert_eq!((w[128], w[16512], w[16640]), (0, 0, 0));
}
