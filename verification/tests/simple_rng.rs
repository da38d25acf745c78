use tilegraph::algorithms::simple_rng::{SimpleRng, INCREMENT, MODULUS, MULTIPLIER};

#[test]
fn generator_follows_the_recurrence() {
    let mut rng = SimpleRng::new(1);
    assert_eq!(rng.usize(), 31801130);
    assert_eq!(rng.usize(), 17961880);
    assert_eq!(rng.usize(), 2498387129);
}

#[test]
fn generator_constants() {
    assert_eq!(MODULUS, 2684435399);
    assert_eq!(MULTIPLIER, 31792125);
    assert_eq!(INCREMENT, 9005);
}

#[test]
fn roll_reduces_the_seed_to_the_interval() {
    let mut rng = SimpleRng::new(12345);
    assert_eq!(rng.roll(1, 7), 5);
    assert_eq!(rng.roll(1, 7), 5);
    assert_eq!(rng.roll(1, 7), 3);
    let mut rng = SimpleRng::new(12345);
    assert_eq!(rng.roll(10, 20), 16);
}

#[test]
fn roll_stays_inside_the_interval() {
    let mut rng = SimpleRng::new(99);
    for _ in 0..1000 {
        let value = rng.roll(3, 9);
        assert!(3 <= value && value < 9);
    }
    for _ in 0..10 {
        assert_eq!(rng.roll(4, 5), 4);
    }
}

#[test]
fn same_seed_gives_the_same_draws() {
    let mut a = SimpleRng::new(2024);
    let mut b = SimpleRng::new(2024);
    for _ in 0..50 {
        assert_eq!(a.roll(0, 1000), b.roll(0, 1000));
    }
}

#[test]
fn greatest_seed_does_not_overflow() {
    let mut rng = SimpleRng::new(u64::MAX as usize);
    assert_eq!(rng.usize(), 1959307094);
}
