use geomath::pow::pgcd;
use geomath::pow::pow;
use geomath::pow::pow_fast;
use geomath::pow::pow_signedbinary_mod;
use geomath::pow::SignedBinary;
use geomath::pow::TriState;

#[test]
fn tpow_fast() {
    for a in [0, 5, 4, 8, 10] {
        for b in [0, 5, 9, 32, 10, 9] {
            println!("Test a={a} b={b}");
            assert_eq!(pow(a, b), pow_fast(a, b))
        }
    }
}

#[test]
fn tpow_trinary() {
    let p = 15168469;
    for a in [5, 4, 8, 6] {
        for b in [15u32, 9, 7, 10, 9] {
            let bsig = SignedBinary::from(b as u128);
            println!("Test a={a} b={b}");
            assert_eq!(pow(a, b) % p, pow_signedbinary_mod(a, bsig, p))
        }
    }
}

#[test]
fn pow_exact_values() {
    assert_eq!(pow(2, 10), 1024);
    assert_eq!(pow(7, 0), 1);
    assert_eq!(pow(0, 5), 0);
    assert_eq!(pow(0, 0), 1);
    assert_eq!(pow(10, 32), 100_000_000_000_000_000_000_000_000_000_000);
}

#[test]
fn pow_fast_exact_values() {
    assert_eq!(pow_fast(3, 5), 243);
    assert_eq!(pow_fast(0, 3), 0);
    assert_eq!(pow_fast(0, 0), 1);
    assert_eq!(pow_fast(1, 100), 1);
    assert_eq!(pow_fast(2, 127), 1u128 << 127);
}

#[test]
fn signed_binary_digits() {
    // 7 = -1 + 8: digits are Neg, Zero, Zero, Pos from the least
    // significant end.
    let s = SignedBinary::from(7);
    assert_eq!(
        s.0,
        vec![TriState::Neg, TriState::Zero, TriState::Zero, TriState::Pos]
    );
    let z = SignedBinary::from(0);
    assert!(z.0.is_empty());
}

#[test]
fn signed_binary_value_round_trip() {
    for val in [0u128, 1, 2, 3, 7, 10, 15, 100, 255, 1 << 40, (1 << 100) - 1] {
        let s = SignedBinary::from(val);
        let mut acc: i128 = 0;
        for d in s.0.iter().rev() {
            acc = 2 * acc
                + match d {
                    TriState::Pos => 1,
                    TriState::Zero => 0,
                    TriState::Neg => -1,
                };
        }
        assert_eq!(acc, val as i128);
    }
}

#[test]
fn signed_binary_chars() {
    let s = SignedBinary::from(7);
    assert_eq!(s.to_chars(), vec!['1', '0', '0', 'T']);
}

#[test]
fn pgcd_bezout_identity() {
    let (g, u, v) = pgcd(240, 46);
    assert_eq!(g, 2);
    assert_eq!(240 * u + 46 * v, g);
    assert!(u.abs() <= 46 && v.abs() <= 240);

    let (g2, u2, v2) = pgcd(7, 13);
    assert_eq!(g2, 1);
    assert_eq!(7 * u2 + 13 * v2, 1);
}

#[test]
fn signed_binary_mod_exact_value() {
    // 5^3 mod 7 == 125 mod 7 == 6
    assert_eq!(pow_signedbinary_mod(5, SignedBinary::from(3), 7), 6);
    // 2^10 mod 1009 == 1024 mod 1009 == 15
    assert_eq!(pow_signedbinary_mod(2, SignedBinary::from(10), 1009), 15);
}
