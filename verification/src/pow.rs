//! Integer exponentiation: a reference power function, a square-and-
//! multiply variant, and modular exponentiation over a signed-binary
//! (non-adjacent-form style) digit expansion.

use vstd::arithmetic::div_mod::lemma_fundamental_div_mod;
use vstd::arithmetic::mul::lemma_mul_inequality;
use vstd::arithmetic::power::lemma_pow_adds;
use vstd::arithmetic::power::lemma_pow_increases;
use vstd::arithmetic::power::lemma_pow_multiplies;
use vstd::arithmetic::power::lemma_pow_positive;
use vstd::math::abs;
use vstd::prelude::*;

verus! {

/// Raises `a` to the `b`-th power by repeated multiplication.
pub fn pow(a: u128, b: u32) -> (r: u128)
    requires
        vstd::arithmetic::power::pow(a as int, b as nat) <= u128::MAX,
    ensures
        r as int == vstd::arithmetic::power::pow(a as int, b as nat),
{
    if a == 0 {
        if b >= 1 {
            proof {
                vstd::arithmetic::power::lemma0_pow(b as nat);
            }
            return 0;
        } else {
            proof {
                vstd::arithmetic::power::lemma_pow0(a as int);
            }
            return 1;
        }
    }
    let mut res: u128 = 1;
    let mut i: u32 = 0;
    proof {
        vstd::arithmetic::power::lemma_pow0(a as int);
    }
    while i < b
        invariant
            0 <= i <= b,
            a >= 1,
            res as int == vstd::arithmetic::power::pow(a as int, i as nat),
            vstd::arithmetic::power::pow(a as int, b as nat) <= u128::MAX,
        decreases b - i,
    {
        proof {
            lemma_pow_increases(a as nat, (i + 1) as nat, b as nat);
            assert(vstd::arithmetic::power::pow(a as int, (i + 1) as nat)
                == vstd::arithmetic::power::pow(a as int, i as nat) * (a as int)) by {
                lemma_pow_adds(a as int, i as nat, 1nat);
                vstd::arithmetic::power::lemma_pow1(a as int);
            }
        }
        res = res * a;
        i = i + 1;
    }
    res
}

/// Square-and-multiply exponentiation; agrees with [`pow`] everywhere.
pub fn pow_fast(a: u128, b: u32) -> (r: u128)
    requires
        vstd::arithmetic::power::pow(a as int, b as nat) <= u128::MAX,
    ensures
        r as int == vstd::arithmetic::power::pow(a as int, b as nat),
{
    let mut a = a;
    let mut b = b;
    if a == 0 {
        if b >= 1 {
            proof {
                vstd::arithmetic::power::lemma0_pow(b as nat);
            }
            return 0;
        } else {
            proof {
                vstd::arithmetic::power::lemma_pow0(a as int);
            }
            return 1;
        }
    }
    let ghost a0 = a as int;
    let ghost b0 = b as nat;
    let mut res: u128 = 1;
    while b > 1
        invariant
            a >= 1,
            res >= 1,
            res as int * vstd::arithmetic::power::pow(a as int, b as nat)
                == vstd::arithmetic::power::pow(a0, b0),
            vstd::arithmetic::power::pow(a0, b0) <= u128::MAX,
        decreases b,
    {
        let ghost total = vstd::arithmetic::power::pow(a0, b0);
        proof {
            lemma_pow_positive(a as int, b as nat);
            lemma_pow_positive(a as int, (b / 2) as nat);
            // a^b == (a*a)^(b/2) * a^(b % 2)
            lemma_pow_multiplies(a as int, 2nat, (b / 2) as nat);
            assert(vstd::arithmetic::power::pow(a as int, 2nat) == (a as int) * (a as int)) by {
                lemma_pow_adds(a as int, 1nat, 1nat);
                vstd::arithmetic::power::lemma_pow1(a as int);
            }
            if b % 2 == 1 {
                assert(2 * ((b / 2) as nat) + 1 == b as nat) by {
                    lemma_fundamental_div_mod(b as int, 2);
                }
                lemma_pow_adds(a as int, (2 * (b / 2)) as nat, 1nat);
                vstd::arithmetic::power::lemma_pow1(a as int);
                // res * a fits: a <= a^b since b >= 1
                lemma_pow_increases(a as nat, 1nat, b as nat);
                vstd::arithmetic::power::lemma_pow1(a as int);
                lemma_mul_inequality(
                    a as int,
                    vstd::arithmetic::power::pow(a as int, b as nat),
                    res as int,
                );
                assert(res as int * (a as int) <= u128::MAX as int) by (nonlinear_arith)
                    requires
                        (a as int) <= vstd::arithmetic::power::pow(a as int, b as nat),
                        res as int >= 1,
                        res as int * vstd::arithmetic::power::pow(a as int, b as nat)
                            <= u128::MAX as int,
                ;
            } else {
                assert(2 * ((b / 2) as nat) == b as nat) by {
                    lemma_fundamental_div_mod(b as int, 2);
                }
            }
            // a * a fits: a^2 <= a^b <= res * a^b
            lemma_pow_increases(a as nat, 2nat, b as nat);
            lemma_mul_inequality(
                1int,
                res as int,
                vstd::arithmetic::power::pow(a as int, b as nat),
            );
        }
        proof {
            assert(res as int * (a as int) >= 1 && (a as int) * (a as int) >= 1)
                by (nonlinear_arith)
                requires
                    res >= 1,
                    a >= 1,
            ;
        }
        let ghost oa = a as int;
        let ghost ob = b as nat;
        let ghost ores = res as int;
        if b % 2 == 1 {
            res = res * a;
        }
        a = a * a;
        b = b / 2;
        proof {
            let na = a as int;
            let nb = b as nat;
            assert(na == oa * oa);
            assert(vstd::arithmetic::power::pow(na, nb) == vstd::arithmetic::power::pow(
                oa,
                (2 * nb) as nat,
            ));
            if ob % 2 == 1 {
                assert(vstd::arithmetic::power::pow(oa, ob) == vstd::arithmetic::power::pow(
                    oa,
                    (2 * nb) as nat,
                ) * oa);
                assert(res as int == ores * oa);
                assert((ores * oa) * vstd::arithmetic::power::pow(na, nb) == ores * (
                vstd::arithmetic::power::pow(na, nb) * oa)) by (nonlinear_arith);
            } else {
                assert(vstd::arithmetic::power::pow(oa, ob) == vstd::arithmetic::power::pow(
                    oa,
                    (2 * nb) as nat,
                ));
            }
        }
    }
    if b == 1 {
        proof {
            vstd::arithmetic::power::lemma_pow1(a as int);
            assert((a as int) * (res as int) == res as int * (a as int)) by (nonlinear_arith);
        }
        a * res
    } else {
        proof {
            vstd::arithmetic::power::lemma_pow0(a as int);
        }
        res
    }
}

/// One signed-binary digit.
#[derive(Debug, Clone, Copy, PartialEq, Eq, Structural)]
pub enum TriState {
    Pos,
    Zero,
    Neg,
}

/// A number expanded in signed-binary digits, least significant first.
#[derive(Debug, Clone, PartialEq, Eq)]
pub struct SignedBinary(pub Vec<TriState>);

/// The numeric weight of one digit.
pub open spec fn tri_val(t: TriState) -> int {
    match t {
        TriState::Pos => 1,
        TriState::Zero => 0,
        TriState::Neg => -1,
    }
}

/// The value a digit string denotes: the weighted sum of its digits
/// under increasing powers of two.
pub open spec fn sb_val(s: Seq<TriState>) -> int
    decreases s.len(),
{
    if s.len() == 0 {
        0
    } else {
        tri_val(s.first()) + 2 * sb_val(s.drop_first())
    }
}

/// One step of the power of two: `2^(k+1) == 2 * 2^k`.
proof fn lemma_pow2_step(k: nat)
    ensures
        vstd::arithmetic::power::pow(2, (k + 1) as nat) == 2 * vstd::arithmetic::power::pow(2, k),
{
    lemma_pow_adds(2, 1nat, k);
    vstd::arithmetic::power::lemma_pow1(2);
}

/// Appending a digit adds its weight at the next power of two.
proof fn lemma_sb_val_push(s: Seq<TriState>, d: TriState)
    ensures
        sb_val(s.push(d)) == sb_val(s) + tri_val(d) * vstd::arithmetic::power::pow(2, s.len()),
    decreases s.len(),
{
    if s.len() == 0 {
        vstd::arithmetic::power::lemma_pow0(2);
        assert(s.push(d).drop_first() =~= Seq::<TriState>::empty());
        assert(s.push(d).first() == d);
        assert(vstd::arithmetic::power::pow(2, s.len()) == 1);
        assert(sb_val(Seq::<TriState>::empty()) == 0);
        assert(sb_val(s) == 0);
        assert(sb_val(s.push(d)) == tri_val(d) + 2 * sb_val(s.push(d).drop_first()));
    } else {
        assert(s.push(d).first() == s.first());
        assert(s.push(d).drop_first() =~= s.drop_first().push(d));
        lemma_sb_val_push(s.drop_first(), d);
        let q = vstd::arithmetic::power::pow(2, s.drop_first().len());
        assert(vstd::arithmetic::power::pow(2, s.len()) == 2 * q) by {
            lemma_pow2_step(s.drop_first().len());
        }
        assert(sb_val(s.push(d)) == tri_val(s.first()) + 2 * sb_val(s.drop_first().push(d)));
        assert(sb_val(s.drop_first().push(d)) == sb_val(s.drop_first()) + tri_val(d) * q);
        assert(sb_val(s) == tri_val(s.first()) + 2 * sb_val(s.drop_first()));
        assert(2 * (sb_val(s.drop_first()) + tri_val(d) * q) == 2 * sb_val(s.drop_first())
            + tri_val(d) * (2 * q)) by (nonlinear_arith);
        assert(sb_val(s.push(d)) == sb_val(s) + tri_val(d) * (2 * q));
        assert(tri_val(d) * (2 * q) == tri_val(d) * vstd::arithmetic::power::pow(2, s.len()));
    }
}

impl SignedBinary {
    /// Expands a number into signed-binary digits, least significant
    /// first: each step emits 1 for a remainder of 1 modulo 4, -1 for a
    /// remainder of 3 (carrying one upward), and 0 otherwise.
    pub fn from(val: u128) -> (s: SignedBinary)
        ensures
            sb_val(s.0@) == val as int,
    {
        let mut v: Vec<TriState> = Vec::new();
        let mut val = val;
        let ghost val0 = val as int;
        proof {
            vstd::arithmetic::power::lemma_pow0(2);
        }
        while val > 0
            invariant
                sb_val(v@) + (val as int) * vstd::arithmetic::power::pow(2, v@.len()) == val0,
            decreases val,
        {
            let ghost k = v@.len();
            let ghost p2 = vstd::arithmetic::power::pow(2, k);
            proof {
                lemma_pow_positive(2, k);
                lemma_pow2_step(k);
                assert(vstd::arithmetic::power::pow(2, k + 1) == 2 * p2);
            }
            let m = val % 4;
            let s = if m == 0 || m == 2 {
                TriState::Zero
            } else if m == 1 {
                TriState::Pos
            } else {
                TriState::Neg
            };
            proof {
                lemma_sb_val_push(v@, s);
            }
            let old_val = val;
            if m == 1 {
                val = val / 2;
                proof {
                    assert(old_val % 2 == 1) by (bit_vector)
                        requires
                            old_val % 4 == 1,
                    ;
                    lemma_fundamental_div_mod(old_val as int, 2);
                    assert(sb_val(v@.push(s)) + (val as int) * (2 * p2) == sb_val(v@) + (
                    old_val as int) * p2) by (nonlinear_arith)
                        requires
                            sb_val(v@.push(s)) == sb_val(v@) + p2,
                            2 * (val as int) == old_val as int - 1,
                    ;
                }
            } else if m == 3 {
                // (val + 1) / 2, written to avoid overflow at the top of
                // the range: val is odd here, so val / 2 + 1 is exact.
                val = val / 2 + 1;
                proof {
                    assert(old_val % 2 == 1) by (bit_vector)
                        requires
                            old_val % 4 == 3,
                    ;
                    lemma_fundamental_div_mod(old_val as int, 2);
                    assert(sb_val(v@.push(s)) + (val as int) * (2 * p2) == sb_val(v@) + (
                    old_val as int) * p2) by (nonlinear_arith)
                        requires
                            sb_val(v@.push(s)) == sb_val(v@) - p2,
                            2 * (val as int) == old_val as int + 1,
                    ;
                }
            } else {
                val = val / 2;
                proof {
                    assert(old_val % 2 == 0) by (bit_vector)
                        requires
                            old_val % 4 == 0 || old_val % 4 == 2,
                    ;
                    lemma_fundamental_div_mod(old_val as int, 2);
                    assert(sb_val(v@.push(s)) + (val as int) * (2 * p2) == sb_val(v@) + (
                    old_val as int) * p2) by (nonlinear_arith)
                        requires
                            sb_val(v@.push(s)) == sb_val(v@),
                            2 * (val as int) == old_val as int,
                    ;
                }
            }
            v.push(s);
        }
        SignedBinary(v)
    }

    /// The digit characters most significant first: '1', '0' and 'T'
    /// for weights 1, 0 and -1.
    pub fn to_chars(&self) -> (r: Vec<char>)
        ensures
            r@.len() == self.0@.len(),
            forall|i: int|
                0 <= i < r@.len() ==> r@[i] == tri_char(self.0@[self.0@.len() - 1 - i]),
    {
        let mut r: Vec<char> = Vec::new();
        let n = self.0.len();
        let mut i: usize = 0;
        while i < n
            invariant
                0 <= i <= n,
                n == self.0@.len(),
                r@.len() == i,
                forall|j: int| 0 <= j < i ==> r@[j] == tri_char(self.0@[n - 1 - j]),
            decreases n - i,
        {
            let c = match self.0[n - 1 - i] {
                TriState::Pos => '1',
                TriState::Zero => '0',
                TriState::Neg => 'T',
            };
            r.push(c);
            i = i + 1;
        }
        r
    }
}

/// The greatest common divisor of two nonnegative integers.
pub open spec fn gcd(a: int, b: int) -> int
    recommends
        a >= 0,
        b >= 0,
    decreases b,
{
    if b <= 0 {
        a
    } else {
        gcd(b, a % b)
    }
}

/// Extended Euclid on positive inputs: returns `(g, u, v)` with
/// `a*u + b*v == g`, `g == gcd(a, b)`, and the classical coefficient
/// bounds `|u| <= b` and `|v| <= a`.
pub fn pgcd(a: i128, b: i128) -> (r: (i128, i128, i128))
    requires
        1 <= a < 0x1_0000_0000_0000_0000,
        1 <= b < 0x1_0000_0000_0000_0000,
    ensures
        a * r.1 + b * r.2 == r.0,
        r.0 == gcd(a as int, b as int),
        1 <= r.0,
        abs(r.1 as int) <= b,
        abs(r.2 as int) <= a,
{
    let mut old_r = a;
    let mut r = b;
    let mut old_u: i128 = 1;
    let mut u: i128 = 0;
    let mut old_v: i128 = 0;
    let mut v: i128 = 1;
    proof {
        assert(abs(1int) == 1 && abs(0int) == 0);
        assert(1 * (b as int) + 0 * (a as int) == b);
        assert(0 * (b as int) + 1 * (a as int) == a);
    }
    while r != 0
        invariant
            1 <= old_r < 0x1_0000_0000_0000_0000,
            0 <= r < 0x1_0000_0000_0000_0000,
            1 <= a < 0x1_0000_0000_0000_0000,
            1 <= b < 0x1_0000_0000_0000_0000,
            a * old_u + b * old_v == old_r,
            a * u + b * v == r,
            gcd(old_r as int, r as int) == gcd(a as int, b as int),
            old_u * u <= 0,
            old_v * v <= 0,
            abs(old_u as int) * r + abs(u as int) * old_r == b,
            abs(old_v as int) * r + abs(v as int) * old_r == a,
            abs(old_u as int) <= b,
            abs(old_v as int) <= a,
        decreases r,
    {
        proof {
            vstd::arithmetic::div_mod::lemma_fundamental_div_mod(old_r as int, r as int);
        }
        let q = ((old_r as u128) / (r as u128)) as i128;
        let new_r = ((old_r as u128) % (r as u128)) as i128;
        let ghost au = abs(u as int) as int;
        let ghost av = abs(v as int) as int;
        let ghost aou = abs(old_u as int) as int;
        let ghost aov = abs(old_v as int) as int;
        proof {
            assert(q as int == (old_r as int) / (r as int));
            assert(new_r as int == (old_r as int) % (r as int));
            assert(0 <= new_r < r);
            assert(q >= 0);
            assert(au == if u as int >= 0 { u as int } else { -(u as int) });
            assert(av == if v as int >= 0 { v as int } else { -(v as int) });
            assert(aou == if old_u as int >= 0 { old_u as int } else { -(old_u as int) });
            assert(aov == if old_v as int >= 0 { old_v as int } else { -(old_v as int) });
            assert(aou * (r as int) >= 0 && aov * (r as int) >= 0) by (nonlinear_arith)
                requires
                    aou >= 0,
                    aov >= 0,
                    r >= 0,
            ;
            // |q * u| <= b and |q * v| <= a, so the updates cannot overflow
            assert(q * au <= b && q * av <= a) by (nonlinear_arith)
                requires
                    au * (old_r as int) <= b,
                    av * (old_r as int) <= a,
                    (r as int) * (q as int) <= old_r as int,
                    q >= 0,
                    r >= 1,
                    au >= 0,
                    av >= 0,
                    old_r >= 1,
                    b >= 1,
                    a >= 1,
            ;
            assert(-(b as int) <= (q as int) * (u as int) <= b as int && -(a as int) <= (q as int)
                * (v as int) <= a as int) by (nonlinear_arith)
                requires
                    q * au <= b,
                    q * av <= a,
                    q >= 0,
                    au == if u as int >= 0 { u as int } else { -(u as int) },
                    av == if v as int >= 0 { v as int } else { -(v as int) },
            ;
        }
        let new_u = old_u - q * u;
        let new_v = old_v - q * v;
        proof {
            let ai = a as int;
            let bi = b as int;
            // Bezout identities carry over to the new remainders
            assert(ai * new_u + bi * new_v == new_r) by (nonlinear_arith)
                requires
                    ai * old_u + bi * old_v == old_r,
                    ai * u + bi * v == r,
                    new_u == old_u - q * u,
                    new_v == old_v - q * v,
                    old_r as int == (r as int) * (q as int) + new_r,
            ;
            // the gcd of the remainder pair is unchanged
            assert(gcd(r as int, new_r as int) == gcd(old_r as int, r as int));
            // signs keep alternating
            assert(u * new_u <= 0 && v * new_v <= 0) by (nonlinear_arith)
                requires
                    old_u * u <= 0,
                    old_v * v <= 0,
                    new_u == old_u - q * u,
                    new_v == old_v - q * v,
                    q >= 0,
            ;
            let anu = abs(new_u as int) as int;
            let anv = abs(new_v as int) as int;
            assert(anu == if new_u as int >= 0 { new_u as int } else { -(new_u as int) });
            assert(anv == if new_v as int >= 0 { new_v as int } else { -(new_v as int) });
            // the coefficient magnitude identity carries over
            assert(au * (new_r as int) + anu * (r as int) == bi) by (nonlinear_arith)
                requires
                    aou * (r as int) + au * (old_r as int) == bi,
                    new_u == old_u - q * u,
                    old_r as int == (r as int) * (q as int) + new_r,
                    old_u * u <= 0,
                    q >= 0,
                    r >= 1,
                    new_r >= 0,
                    au == if u as int >= 0 { u as int } else { -(u as int) },
                    aou == if old_u as int >= 0 { old_u as int } else { -(old_u as int) },
                    anu == if new_u as int >= 0 { new_u as int } else { -(new_u as int) },
            ;
            assert(av * (new_r as int) + anv * (r as int) == ai) by (nonlinear_arith)
                requires
                    aov * (r as int) + av * (old_r as int) == ai,
                    new_v == old_v - q * v,
                    old_r as int == (r as int) * (q as int) + new_r,
                    old_v * v <= 0,
                    q >= 0,
                    r >= 1,
                    new_r >= 0,
                    av == if v as int >= 0 { v as int } else { -(v as int) },
                    aov == if old_v as int >= 0 { old_v as int } else { -(old_v as int) },
                    anv == if new_v as int >= 0 { new_v as int } else { -(new_v as int) },
            ;
            // the bound on the coefficients themselves
            assert(au <= bi && av <= ai) by (nonlinear_arith)
                requires
                    au * (old_r as int) <= bi,
                    av * (old_r as int) <= ai,
                    old_r >= 1,
                    au >= 0,
                    av >= 0,
                    aou * (r as int) >= 0,
                    aov * (r as int) >= 0,
            ;
        }
        old_r = r;
        r = new_r;
        old_u = u;
        u = new_u;
        old_v = v;
        v = new_v;
    }
    (old_r, old_u, old_v)
}

/// Modular exponentiation driven by a signed-binary digit expansion:
/// the running value multiplies in a power of `a` for each positive
/// digit and a power of the modular inverse of `a` for each negative
/// digit, squaring both as it walks the digits.
pub fn pow_signedbinary_mod(a: u128, b: SignedBinary, p: u128) -> (r: u128)
    requires
        1 <= a < 0x1_0000_0000_0000_0000,
        2 <= p < 0x1_0000_0000_0000_0000,
        gcd(a as int, p as int) == 1,
        sb_val(b.0@) >= 0,
    ensures
        r as int == vstd::arithmetic::power::pow(a as int, sb_val(b.0@) as nat) % (p as int),
{
    let ghost m = p as int;
    let (g, u, w) = pgcd(a as i128, p as i128);
    assert(g == 1);
    let inv = ((u + p as i128) as u128) % p;
    let ghost a0 = a as int;
    let ghost v0 = inv as int;
    let ghost bu = u as int;
    let ghost bw = w as int;
    proof {
        // a * inv == 1 modulo p, from the Bezout identity
        assert(a0 * bu + m * bw == 1);
        assert(v0 == (bu + m) % m);
        vstd::arithmetic::div_mod::lemma_mul_mod_noop_right(a0, bu + m, m);
        assert(a0 * (bu + m) == m * (a0 - bw) + 1) by (nonlinear_arith)
            requires
                a0 * bu + m * bw == 1,
        ;
        vstd::arithmetic::div_mod::lemma_mod_multiples_vanish(a0 - bw, 1, m);
        vstd::arithmetic::div_mod::lemma_small_mod(1nat, m as nat);
        assert((a0 * v0) % m == 1);
        vstd::arithmetic::power::lemma_pow0(a0);
        vstd::arithmetic::power::lemma_pow0(v0);
        vstd::arithmetic::power::lemma_pow0(2);
        vstd::arithmetic::power::lemma_pow1(a0);
        vstd::arithmetic::power::lemma_pow1(v0);
        vstd::arithmetic::power::lemma_pow1(2);
        vstd::arithmetic::div_mod::lemma_small_mod(1nat, m as nat);
    }
    let mut res: u128 = 1;
    let mut aa = a;
    let mut vv = inv;
    let ghost mut pe: nat = 0;
    let ghost mut ne: nat = 0;
    let ghost mut ee: nat = 1;
    let n = b.0.len();
    let mut i: usize = 0;
    while i < n
        invariant
            0 <= i <= n,
            n == b.0@.len(),
            2 <= p < 0x1_0000_0000_0000_0000,
            m == p as int,
            a0 == a as int,
            v0 == inv as int,
            res < p,
            aa < 0x1_0000_0000_0000_0000,
            vv < p,
            ee == vstd::arithmetic::power::pow(2, i as nat),
            res as int == (vstd::arithmetic::power::pow(a0, pe) * vstd::arithmetic::power::pow(
                v0,
                ne,
            )) % m,
            (aa as int) % m == vstd::arithmetic::power::pow(a0, ee) % m,
            (vv as int) % m == vstd::arithmetic::power::pow(v0, ee) % m,
            pe - ne == sb_val(b.0@.take(i as int)),
            (a0 * v0) % m == 1,
        decreases n - i,
    {
        let d = b.0[i];
        let ghost pa = vstd::arithmetic::power::pow(a0, pe);
        let ghost pv = vstd::arithmetic::power::pow(v0, ne);
        let ghost ea = vstd::arithmetic::power::pow(a0, ee);
        let ghost ev = vstd::arithmetic::power::pow(v0, ee);
        proof {
            assert(b.0@.take(i as int + 1) =~= b.0@.take(i as int).push(d));
            lemma_sb_val_push(b.0@.take(i as int), d);
        }
        match d {
            TriState::Pos => {
                proof {
                    // res * aa stays congruent to a^(pe+ee) * v^ne
                    vstd::arithmetic::div_mod::lemma_mul_mod_noop_general(pa * pv, aa as int, m);
                    vstd::arithmetic::div_mod::lemma_mul_mod_noop_general(pa * pv, ea, m);
                    lemma_pow_adds(a0, pe, ee);
                    assert((pa * pv) * ea == (pa * ea) * pv) by (nonlinear_arith);
                    assert(res as int * (aa as int) <= u128::MAX as int) by (nonlinear_arith)
                        requires
                            (res as int) >= 0,
                            (res as int) < 0x1_0000_0000_0000_0000,
                            (aa as int) >= 0,
                            (aa as int) < 0x1_0000_0000_0000_0000,
                    ;
                }
                res = (res * aa) % p;
                proof {
                    pe = pe + ee;
                }
            },
            TriState::Zero => {},
            TriState::Neg => {
                proof {
                    vstd::arithmetic::div_mod::lemma_mul_mod_noop_general(pa * pv, vv as int, m);
                    vstd::arithmetic::div_mod::lemma_mul_mod_noop_general(pa * pv, ev, m);
                    lemma_pow_adds(v0, ne, ee);
                    assert((pa * pv) * ev == pa * (pv * ev)) by (nonlinear_arith);
                    assert(res as int * (vv as int) <= u128::MAX as int) by (nonlinear_arith)
                        requires
                            (res as int) >= 0,
                            (res as int) < 0x1_0000_0000_0000_0000,
                            (vv as int) >= 0,
                            (vv as int) < 0x1_0000_0000_0000_0000,
                    ;
                }
                res = (res * vv) % p;
                proof {
                    ne = ne + ee;
                }
            },
        }
        proof {
            // both squarings advance the tracked exponent to 2 * ee
            vstd::arithmetic::div_mod::lemma_mul_mod_noop_general(aa as int, aa as int, m);
            vstd::arithmetic::div_mod::lemma_mul_mod_noop_general(ea, ea, m);
            vstd::arithmetic::div_mod::lemma_mul_mod_noop_general(vv as int, vv as int, m);
            vstd::arithmetic::div_mod::lemma_mul_mod_noop_general(ev, ev, m);
            lemma_pow_adds(a0, ee, ee);
            lemma_pow_adds(v0, ee, ee);
            lemma_pow2_step(i as nat);
            assert(aa as int * (aa as int) <= u128::MAX as int && vv as int * (vv as int)
                <= u128::MAX as int) by (nonlinear_arith)
                requires
                    (aa as int) >= 0,
                            (aa as int) < 0x1_0000_0000_0000_0000,
                    (vv as int) >= 0,
                            (vv as int) < 0x1_0000_0000_0000_0000,
            ;
        }
        aa = (aa * aa) % p;
        vv = (vv * vv) % p;
        proof {
            vstd::arithmetic::div_mod::lemma_small_mod(aa as nat, p as nat);
            vstd::arithmetic::div_mod::lemma_small_mod(vv as nat, p as nat);
            ee = 2 * ee;
        }
        i = i + 1;
    }
    proof {
        assert(b.0@.take(n as int) =~= b.0@);
        let vtot = sb_val(b.0@);
        assert(pe == vtot + ne);
        let pa = vstd::arithmetic::power::pow(a0, pe);
        let pv = vstd::arithmetic::power::pow(v0, ne);
        let pw = vstd::arithmetic::power::pow(a0, vtot as nat);
        lemma_pow_adds(a0, vtot as nat, ne);
        vstd::arithmetic::power::lemma_pow_distributes(a0, v0, ne);
        let px = vstd::arithmetic::power::pow(a0, ne);
        assert(pw * (px * pv) == (pw * px) * pv) by (nonlinear_arith);
        assert(pa == pw * px);
        assert(pa * pv == pw * vstd::arithmetic::power::pow(a0 * v0, ne));
        vstd::arithmetic::div_mod::lemma_mul_mod_noop_general(
            pw,
            vstd::arithmetic::power::pow(a0 * v0, ne),
            m,
        );
        vstd::arithmetic::power::lemma_pow_mod_noop(a0 * v0, ne, m);
        vstd::arithmetic::power::lemma1_pow(ne);
        vstd::arithmetic::div_mod::lemma_small_mod(1nat, m as nat);
        assert(vstd::arithmetic::power::pow((a0 * v0) % m, ne) == 1);
        assert(res as int == ((pw % m) * 1) % m);
        vstd::arithmetic::div_mod::lemma_mod_twice(pw, m);
    }
    res
}

/// The display character of one digit.
pub open spec fn tri_char(t: TriState) -> char {
    match t {
        TriState::Pos => '1',
        TriState::Zero => '0',
        TriState::Neg => 'T',
    }
}

} // verus!
