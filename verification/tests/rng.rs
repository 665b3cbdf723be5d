use unison2d::rng::Rng;

#[test]
fn deterministic_sequence() {
    let mut a = Rng::new(42);
    let mut b = Rng::new(42);
    for _ in 0..100 {
        assert_eq!(a.next(), b.next());
    }
}

#[test]
fn range_u32_in_bounds() {
    let mut rng = Rng::new(12345);
    for _ in 0..1000 {
        let v = rng.range_u32(10, 20);
        assert!(v >= 10 && v < 20, "out of bounds: {}", v);
    }
}

#[test]
fn zero_seed_does_not_stick() {
    let mut rng = Rng::new(0);
    let first = rng.next();
    let second = rng.next();
    assert_ne!(first, 0);
    assert_ne!(first, second);
}

#[test]
fn xorshift_step_exact_value() {
    // 1 -> 1 ^ (1 << 13) = 8193 -> 8193 ^ (8193 >> 17) = 8193 -> 8193 ^ (8193 << 5) = 270369
    assert_eq!(Rng::new(1).next(), 270369);
    // A zero seed starts from state 1.
    assert_eq!(Rng::new(0).next(), 270369);
}

#[test]
fn range_u32_reduces_the_next_value() {
    let mut rng = Rng::new(1);
    assert_eq!(rng.range_u32(10, 20), 10 + 270369 % 10);
    let mut a = Rng::new(7);
    let mut b = Rng::new(7);
    let raw = a.next();
    assert_eq!(b.range_u32(3, 1000), 3 + raw % 997);
    // The state advances exactly as with `next`.
    assert_eq!(a.next(), b.next());
}

#[test]
fn outputs_never_repeat_immediately() {
    let mut rng = Rng::new(99);
    let mut prev = rng.next();
    for _ in 0..10000 {
        let cur = rng.next();
        assert_ne!(cur, 0);
        assert_ne!(cur, prev);
        prev = cur;
    }
}

#[test]
fn range_ticks_follow_the_raw_sequence() {
    let mut a = unison2d::rng::Rng::new(12345);
    let mut b = unison2d::rng::Rng::new(12345);
    for _ in 0..100 {
        let t = a.range_ticks();
        assert!(t < 10000);
        assert_eq!(t, b.next() % 10000);
    }
}
