use tron_coding_challenge::rand::RNG;

#[test]
fn pcg_outputs_from_seed_42() {
    let mut rng = RNG::new(42);
    assert_eq!(rng.next_u32(), 0);
    assert_eq!(rng.next_u32(), 1971522493);
    assert_eq!(rng.next_u32(), 242089394);
    assert_eq!(rng.state, 7615522811268512075);
}

#[test]
fn pcg_step_from_zero() {
    let mut rng = RNG::new(0);
    assert_eq!(rng.next_u32(), 0);
    assert_eq!(rng.state, 1442695040888963407);
}

#[test]
fn nonzero_draws_skip_zero() {
    let mut rng = RNG::new(42);
    assert_eq!(rng.next_nonzero_u32(), 1971522493);
}

#[test]
fn wide_draws_join_narrow_ones() {
    let mut a = RNG::new(42);
    let hi = a.next_u32() as u64;
    let lo = a.next_u32() as u64;
    let mut b = RNG::new(42);
    assert_eq!(b.next_u64(), (hi << 32) + lo);
    let mut c = RNG::new(7);
    let x = c.next_u64() as u128;
    let y = c.next_u64() as u128;
    let mut d = RNG::new(7);
    assert_eq!(d.next_u128(), (x << 64) + y);
    let mut e = RNG::new(7);
    assert_ne!(e.next_nonzero_u64(), 0);
    assert_ne!(e.next_nonzero_u128(), 0);
}

#[test]
fn a_bit_is_the_parity_of_the_next_draw() {
    let mut a = RNG::new(42);
    let mut b = RNG::new(42);
    for _ in 0..20 {
        assert_eq!(a.next_bool(), b.next_u32() % 2 == 0);
    }
}
