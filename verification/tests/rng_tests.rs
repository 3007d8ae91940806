use station_tour::rng::{split_mix_64, Xoshiro256};

#[test]
fn split_mix_matches_reference_vector() {
    // the splitting hash seeded with 0 must reproduce the published
    // reference outputs bit for bit
    let mut x: u64 = 0;
    assert_eq!(split_mix_64(&mut x), 0xe220a8397b1dcdaf);
    assert_eq!(split_mix_64(&mut x), 0x6e789e6aa1b965f4);
    assert_eq!(split_mix_64(&mut x), 0x06c45d188009454f);
}

#[test]
fn split_mix_advances_state() {
    let mut x: u64 = 0;
    split_mix_64(&mut x);
    assert_eq!(x, 0x9e3779b97f4a7c15);
    split_mix_64(&mut x);
    assert_eq!(x, 0x9e3779b97f4a7c15u64.wrapping_mul(2));
}

#[test]
fn xoshiro_known_stream() {
    let mut r = Xoshiro256::new(42);
    assert_eq!(r.next(), 0x15780b2e0c2ec716);
    assert_eq!(r.next(), 0x6104d9866d113a7e);
    assert_eq!(r.next(), 0xae17533239e499a1);
    assert_eq!(r.next(), 0xecb8ad4703b360a1);
    assert_eq!(r.next(), 0xfde6dc7fe2ec5e64);
}

#[test]
fn xoshiro_deterministic_across_instances() {
    let mut a = Xoshiro256::new(123456789);
    let mut b = Xoshiro256::new(123456789);
    for _ in 0..100 {
        assert_eq!(a.next(), b.next());
    }
}

#[test]
fn gen_usize_known_draws_and_range() {
    let mut r = Xoshiro256::new(42);
    let expected = [2usize, 2, 9, 3, 6, 4, 4, 7];
    for &e in expected.iter() {
        let v = r.gen_usize(0, 10);
        assert_eq!(v, e);
    }
    let mut r2 = Xoshiro256::new(7);
    for _ in 0..200 {
        let v = r2.gen_usize(3, 17);
        assert!((3..17).contains(&v));
    }
}

#[test]
fn gen_i32_range() {
    let mut r = Xoshiro256::new(5);
    for _ in 0..200 {
        let v = r.gen_i32(-50, 51);
        assert!((-50..51).contains(&v));
    }
}

#[test]
fn gen_unit_bits_are_fraction_bits() {
    // the draw must equal the next raw word's low 52 bits
    let mut a = Xoshiro256::new(99);
    let mut b = Xoshiro256::new(99);
    for _ in 0..50 {
        let raw = a.next();
        let bits = b.gen_unit_bits();
        assert_eq!(bits, raw & 0xf_ffff_ffff_ffff);
        assert!(bits < (1u64 << 52));
    }
}
