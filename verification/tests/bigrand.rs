use montyrand::bigrand::{biguint_from_random_words, GenSource, RandBigInt, RandomBits, UniformBigInt, UniformBigUint};
use num_bigint::{BigInt, BigUint};

#[test]
fn test_gen_biguint_bit_size() {
    let mut src = GenSource::from_seed(7);
    let limit17 = BigUint::from(1u32) << 17;
    for _ in 0..200 {
        assert!(src.gen_biguint(17) < limit17);
    }
    assert_eq!(src.gen_biguint(0), BigUint::from(0u32));
    let limit32 = BigUint::from(1u64 << 32);
    let limit33 = BigUint::from(1u64 << 33);
    for _ in 0..200 {
        assert!(src.gen_biguint(32) < limit32);
        assert!(src.gen_biguint(33) < limit33);
    }
}

#[test]
fn test_gen_biguint_fills_high_bits() {
    // over a few draws the top bit of a wide request must appear
    let mut src = GenSource::from_seed(11);
    let half = BigUint::from(1u64) << 63;
    let mut seen_high = false;
    for _ in 0..64 {
        if src.gen_biguint(64) >= half {
            seen_high = true;
        }
    }
    assert!(seen_high);
}

#[test]
fn test_sample_below_bound() {
    let mut src = GenSource::from_seed(42);
    let bound = BigUint::from(7u32);
    let mut counts = [0usize; 7];
    for _ in 0..10_000 {
        let v = src.gen_biguint_below(&bound);
        assert!(v < bound);
        let idx: u32 = v.try_into().expect("below seven");
        counts[idx as usize] += 1;
    }
    // roughly uniform over {0,...,6}: each about 1429 of 10,000
    for (i, &c) in counts.iter().enumerate() {
        assert!(c > 1100 && c < 1800, "value {} drawn {} times", i, c);
    }
}

#[test]
fn test_sample_below_zero_fails() {
    let mut src = GenSource::from_seed(1);
    let zero = BigUint::from(0u32);
    assert!(src.try_gen_biguint_below(&zero).is_none());
}

#[test]
fn test_range_unsigned_bounds() {
    let mut src = GenSource::from_seed(5);
    let lo = BigUint::from(10u32);
    let hi = BigUint::from(20u32);
    for _ in 0..2000 {
        let v = src.gen_biguint_range(&lo, &hi);
        assert!(lo <= v && v < hi);
    }
    // a zero lower bound takes the direct bounded-sampling path
    let zero = BigUint::from(0u32);
    let seven = BigUint::from(7u32);
    for _ in 0..2000 {
        let v = src.gen_biguint_range(&zero, &seven);
        assert!(v < seven);
    }
}

#[test]
fn test_range_invalid_fails() {
    let mut src = GenSource::from_seed(3);
    let five = BigUint::from(5u32);
    let seven = BigUint::from(7u32);
    let three = BigUint::from(3u32);
    let ten = BigUint::from(10u32);
    assert!(src.try_gen_biguint_range(&five, &five).is_none());
    assert!(src.try_gen_biguint_range(&seven, &three).is_none());
    assert!(src.try_gen_biguint_range(&ten, &ten).is_none());
    let i5 = BigInt::from(5);
    let i3 = BigInt::from(3);
    assert!(src.try_gen_bigint_range(&i5, &i5).is_none());
    assert!(src.try_gen_bigint_range(&i5, &i3).is_none());
}

#[test]
fn test_range_signed_bounds() {
    let mut src = GenSource::from_seed(9);
    let cases = [(-5, 5), (0, 9), (-9, 0), (-20, -3), (3, 21)];
    for &(l, h) in cases.iter() {
        let lo = BigInt::from(l);
        let hi = BigInt::from(h);
        for _ in 0..500 {
            let v = src.gen_bigint_range(&lo, &hi);
            assert!(lo <= v && v < hi, "{} out of [{}, {})", v, lo, hi);
        }
    }
}

#[test]
fn test_gen_bigint_bounds() {
    let mut src = GenSource::from_seed(13);
    let lim = BigInt::from(1u64 << 10);
    let neg = -lim.clone();
    for _ in 0..2000 {
        let v = src.gen_bigint(10);
        assert!(neg < v && v < lim);
    }
}

#[test]
fn test_gen_bigint_zero_bias() {
    // for two random bits the signed draws land uniformly on the seven
    // values -3..3, so zero appears about 1/7 of the time, not 2/7
    let mut src = GenSource::from_seed(77);
    let trials = 14_000;
    let mut zeros = 0usize;
    let mut ones = 0usize;
    let one = BigInt::from(1);
    for _ in 0..trials {
        let v = src.gen_bigint(2);
        if v == BigInt::from(0) {
            zeros += 1;
        } else if v == one {
            ones += 1;
        }
    }
    assert!(zeros > 1600 && zeros < 2400, "zero drawn {} times", zeros);
    assert!(ones > 1600 && ones < 2400, "one drawn {} times", ones);
}

#[test]
fn test_uniform_biguint() {
    let mut src = GenSource::from_seed(21);
    let s = UniformBigUint::new(BigUint::from(1u32), BigUint::from(5u32));
    let mut seen4 = false;
    for _ in 0..500 {
        let v = s.sample(&mut src);
        assert!(BigUint::from(1u32) <= v && v < BigUint::from(5u32));
        if v == BigUint::from(4u32) {
            seen4 = true;
        }
    }
    assert!(seen4);
    let si = UniformBigUint::new_inclusive(BigUint::from(1u32), BigUint::from(5u32));
    let mut seen5 = false;
    for _ in 0..500 {
        let v = si.sample(&mut src);
        assert!(BigUint::from(1u32) <= v && v <= BigUint::from(5u32));
        if v == BigUint::from(5u32) {
            seen5 = true;
        }
    }
    assert!(seen5);
    let v = UniformBigUint::sample_single(&BigUint::from(2u32), &BigUint::from(4u32), &mut src);
    assert!(BigUint::from(2u32) <= v && v < BigUint::from(4u32));
    assert!(UniformBigUint::try_new(BigUint::from(5u32), BigUint::from(5u32)).is_none());
}

#[test]
fn test_uniform_bigint() {
    let mut src = GenSource::from_seed(23);
    let s = UniformBigInt::new(BigInt::from(-4), BigInt::from(3));
    for _ in 0..500 {
        let v = s.sample(&mut src);
        assert!(BigInt::from(-4) <= v && v < BigInt::from(3));
    }
    let si = UniformBigInt::new_inclusive(BigInt::from(-4), BigInt::from(3));
    let mut seen3 = false;
    for _ in 0..500 {
        let v = si.sample(&mut src);
        assert!(BigInt::from(-4) <= v && v <= BigInt::from(3));
        if v == BigInt::from(3) {
            seen3 = true;
        }
    }
    assert!(seen3);
    let v = UniformBigInt::sample_single(&BigInt::from(-2), &BigInt::from(2), &mut src);
    assert!(BigInt::from(-2) <= v && v < BigInt::from(2));
    assert!(UniformBigInt::try_new(BigInt::from(7), BigInt::from(3)).is_none());
}

#[test]
fn test_random_bits() {
    let mut src = GenSource::from_seed(31);
    let d = RandomBits::new(8);
    let lim = BigUint::from(256u32);
    let ilim = BigInt::from(256);
    let ineg = BigInt::from(-256);
    for _ in 0..500 {
        assert!(d.sample_biguint(&mut src) < lim);
        let v = d.sample_bigint(&mut src);
        assert!(ineg < v && v < ilim);
    }
}

#[test]
fn test_from_random_words_exact() {
    // a whole number of words is used exactly as filled
    let r = biguint_from_random_words(vec![5u32, 7u32], 64);
    assert_eq!(r, BigUint::from(5u64 + (7u64 << 32)));
    // a partial top word keeps its high bits, shifted down into place
    let r = biguint_from_random_words(vec![0xFFFF_FFFFu32, 0xFFFF_FFFFu32], 33);
    assert_eq!(r, BigUint::from(0x1_FFFF_FFFFu64));
    let r = biguint_from_random_words(vec![0xABCD_1234u32], 8);
    assert_eq!(r, BigUint::from(0xABu32));
    // the other words stand unmodified beside a shifted top word
    let r = biguint_from_random_words(vec![0x1111_2222u32, 0x8000_0001u32], 34);
    assert_eq!(r, BigUint::from(0x1111_2222u64 + (0x2u64 << 32)));
    // zero bits take no words and give zero
    let r = biguint_from_random_words(vec![], 0);
    assert_eq!(r, BigUint::from(0u32));
}

#[test]
fn test_from_seed_bytes_deterministic() {
    let seed = [7u8; 32];
    let mut a = GenSource::from_seed_bytes(seed);
    let mut b = GenSource::from_seed_bytes(seed);
    for _ in 0..20 {
        assert_eq!(a.gen_biguint(80), b.gen_biguint(80));
    }
}
