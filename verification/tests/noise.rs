use strolle::noise::Noise;

#[test]
fn seeded_per_pixel() {
    let noise = Noise::new(123, 234, 345);
    assert_eq!(noise.state, 22745128);
}

#[test]
fn sample_sequence() {
    let mut noise = Noise::new(123, 234, 345);
    assert_eq!(noise.sample_int(), 1967935823);
    assert_eq!(noise.state, 218845005);
    assert_eq!(noise.sample_int(), 3825943105);
    assert_eq!(noise.sample_int(), 872854575);
    assert_eq!(noise.state, 2699168627);
}

#[test]
fn seeding_wraps() {
    // the products overflow 32 bits and wrap around
    let noise = Noise::new(0, u32::MAX, 0);
    assert_eq!(noise.state, 48619u32.wrapping_mul(u32::MAX));
}
