use montyrand::monty::{inv_mod, monty_modpow, try_inv_mod, try_monty_modpow};
use num_bigint::BigUint;

fn naive_modpow(a: u128, e: u128, n: u128) -> u128 {
    assert!(n >= 1);
    let mut acc: u128 = 1 % n;
    let mut i: u128 = 0;
    while i < e {
        acc = (acc * (a % n)) % n;
        i += 1;
    }
    acc
}

#[test]
fn test_inv_mod() {
    let modulus = (u32::MAX as u64) + 1;

    for element in 0..100 {
        let element = element as u32;
        if element % 2 == 0 {
            continue;
        }

        let inverse = inv_mod(element.clone());
        let cmp = (inverse as u64 * element as u64) % modulus;

        assert_eq!(
            cmp as u32, 1,
            "mod_inverse({}, {}) * {} % {} = {}, not 1",
            element, &modulus, element, &modulus, cmp,
        );
    }
}

#[test]
fn test_inv_mod_three() {
    let inverse = inv_mod(3);
    assert_eq!(inverse, 2863311531);
    assert_eq!((inverse as u64 * 3) % (1u64 << 32), 1);
}

#[test]
fn test_try_inv_mod_even_digit() {
    assert!(try_inv_mod(0).is_none());
    assert!(try_inv_mod(4).is_none());
    assert!(try_inv_mod(0xFFFF_FFFE).is_none());
    let r = try_inv_mod(7).expect("7 is odd");
    assert_eq!((r as u64 * 7) % (1u64 << 32), 1);
}

#[test]
fn test_modpow_textbook() {
    let base = BigUint::from(4u32);
    let exp = BigUint::from(13u32);
    let modulus = BigUint::from(497u32);
    let r = monty_modpow(&base, &exp, &modulus);
    assert_eq!(r, BigUint::from(445u32));
}

#[test]
fn test_modpow_zero_exponent() {
    let zero = BigUint::from(0u32);
    let nine = BigUint::from(9u32);
    let one = BigUint::from(1u32);
    assert_eq!(monty_modpow(&nine, &zero, &nine), one);
    assert_eq!(monty_modpow(&zero, &zero, &nine), one);
    // modulo one, even the empty product collapses to zero
    assert_eq!(monty_modpow(&nine, &zero, &one), zero);
}

#[test]
fn test_modpow_zero_base() {
    let zero = BigUint::from(0u32);
    let e = BigUint::from(12u32);
    let n = BigUint::from(21u32);
    assert_eq!(monty_modpow(&zero, &e, &n), zero);
}

#[test]
fn test_modpow_matches_reference() {
    let moduli: [u128; 5] = [3, 5, 497, 3233, 65537];
    let exponents: [u128; 6] = [0, 1, 2, 13, 17, 12345];
    for &n in moduli.iter() {
        for a in [0u128, 1, 2, n - 1, n / 2] {
            for &e in exponents.iter() {
                let expected = naive_modpow(a, e, n);
                let r = monty_modpow(
                    &BigUint::from(a as u64),
                    &BigUint::from(e as u64),
                    &BigUint::from(n as u64),
                );
                assert_eq!(r, BigUint::from(expected as u64), "{}^{} mod {}", a, e, n);
            }
        }
    }
}

#[test]
fn test_modpow_multidigit() {
    // operands past one 32-bit digit exercise the carry propagation
    let a: u128 = 0x1234_5678_9ABC_DEF0;
    let n: u128 = 0xFFFF_FFFF_FFFF_FFC5;
    let e: u128 = 65537;
    let expected = naive_modpow(a, e, n);
    let r = monty_modpow(
        &BigUint::from(a as u64),
        &BigUint::from(e as u64),
        &BigUint::from(n as u64),
    );
    assert_eq!(r, BigUint::from(expected as u64));
}

#[test]
fn test_try_modpow_even_modulus() {
    let base = BigUint::from(3u32);
    let exp = BigUint::from(5u32);
    assert!(try_monty_modpow(&base, &exp, &BigUint::from(4u32)).is_none());
    assert!(try_monty_modpow(&base, &exp, &BigUint::from(0u32)).is_none());
    let r = try_monty_modpow(&base, &exp, &BigUint::from(7u32)).expect("odd modulus");
    assert_eq!(r, BigUint::from(5u32));
}
