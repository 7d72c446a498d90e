//! Widening a single precision float to double precision, on the IEEE-754
//! bit patterns.

use vstd::prelude::*;
use vstd::arithmetic::div_mod::{lemma_fundamental_div_mod, lemma_fundamental_div_mod_converse};
use vstd::arithmetic::power2::{
    lemma2_to64, lemma2_to64_rest, lemma_pow2_pos, lemma_pow2_strictly_increases, lemma_pow2_unfold,
    pow2,
};
use vstd::bits::lemma_u64_shr_is_div;

verus! {

/// The implicit leading bit of a normal double's significand.
pub open spec fn hidden_bit() -> nat {
    0x10_0000_0000_0000
}

/// Doubles `m` until it has 53 significant bits, counting the steps.
pub open spec fn normalize(m: nat, shifts: nat) -> (nat, nat)
    decreases 2 * hidden_bit() - m,
{
    if m == 0 || m >= hidden_bit() {
        (m, shifts)
    } else {
        normalize(m * 2, shifts + 1)
    }
}

/// The double with the same value as the single whose bits are `b`: the sign
/// stays; a normal exponent is rebiased from 127 to 1023; the fraction moves
/// to the top of the 52-bit field; a subnormal single is normalised, as every
/// single is a normal double; zero, the infinities and NaN keep their kind
/// and payload.
pub open spec fn widen(b: u32) -> u64 {
    let sign = (b as nat / 0x8000_0000) * 0x8000_0000_0000_0000;
    let exp = b as nat / 0x80_0000 % 0x100;
    let frac = b as nat % 0x80_0000;
    (if exp == 0xff {
        sign + 0x7ff * hidden_bit() + frac * 0x2000_0000
    } else if exp != 0 {
        sign + (exp + 896) * hidden_bit() + frac * 0x2000_0000
    } else if frac == 0 {
        sign
    } else {
        let (m, shifts) = normalize(frac, 0);
        (sign + (926 - shifts) * hidden_bit() + (m - hidden_bit())) as nat
    }) as u64
}

/// Widens single precision bits to the double precision bits of the same
/// value.
pub fn widen_f32_bits(b: u32) -> (r: u64)
    ensures
        r == widen(b),
{
    let sign: u64 = (b / 0x8000_0000) as u64 * 0x8000_0000_0000_0000;
    let exp: u64 = (b / 0x80_0000 % 0x100) as u64;
    let frac: u64 = (b % 0x80_0000) as u64;
    if exp == 0xff {
        sign + 0x7ff * 0x10_0000_0000_0000 + frac * 0x2000_0000
    } else if exp != 0 {
        sign + (exp + 896) * 0x10_0000_0000_0000 + frac * 0x2000_0000
    } else if frac == 0 {
        sign
    } else {
        let mut m: u64 = frac;
        let mut shifts: u64 = 0;
        proof {
            lemma2_to64();
            lemma2_to64_rest();
        }
        while m < 0x10_0000_0000_0000
            invariant
                0 < m < 2 * hidden_bit(),
                m >= pow2(shifts as nat),
                shifts <= 52,
                normalize(m as nat, shifts as nat) == normalize(frac as nat, 0),
            decreases 2 * hidden_bit() - m,
        {
            proof {
                lemma2_to64();
                lemma2_to64_rest();
                lemma_pow2_unfold((shifts + 1) as nat);
                // Below 2^52, `m` has been doubled fewer than 52 times.
                assert(pow2(52) == 0x10_0000_0000_0000);
            }
            m = m * 2;
            shifts = shifts + 1;
        }
        sign + (926 - shifts) * 0x10_0000_0000_0000 + (m - 0x10_0000_0000_0000)
    }
}

/// The single that `narrow_f64_bits` tries for the double `bits`: the sign
/// kept, the exponent rebiased from 1023 to 127, the fraction cut to its top
/// 23 bits, or shifted down into a subnormal where the exponent is below the
/// normal range of singles.
pub open spec fn candidate(bits: u64) -> u32 {
    let sign = bits as nat / 0x8000_0000_0000_0000;
    let e = bits as nat / hidden_bit() % 0x800;
    let f = bits as nat % hidden_bit();
    let (exp, frac) = if e == 0x7ff {
        (0xffnat, f / 0x2000_0000)
    } else if 897 <= e <= 1150 {
        ((e - 896) as nat, f / 0x2000_0000)
    } else if 874 <= e <= 896 {
        (0nat, (hidden_bit() + f) / pow2((926 - e) as nat))
    } else {
        (0nat, 0nat)
    };
    (sign * 0x8000_0000 + exp * 0x80_0000 + frac) as u32
}

proof fn lemma_normalize_shape(m: nat, s: nat)
    requires
        0 < m < 2 * hidden_bit(),
    ensures
        normalize(m, s).1 >= s,
        normalize(m, s).0 == m * pow2((normalize(m, s).1 - s) as nat),
        hidden_bit() <= normalize(m, s).0 < 2 * hidden_bit(),
    decreases 2 * hidden_bit() - m,
{
    lemma2_to64();
    if m >= hidden_bit() {
        assert(normalize(m, s) == (m, s));
        assert(pow2(0) == 1);
        assert(((normalize(m, s).1 - s) as nat) == 0);
        assert(m * pow2(0) == m);
    } else {
        assert(normalize(m, s) == normalize(m * 2, s + 1));
        lemma_normalize_shape(m * 2, s + 1);
        let k = normalize(m, s).1;
        let p1 = pow2((k - (s + 1)) as nat);
        let p = pow2((k - s) as nat);
        lemma_pow2_unfold((k - s) as nat);
        assert(p == 2 * p1);
        assert(normalize(m, s).0 == (m * 2) * p1);
        assert((m * 2) * p1 == m * p) by (nonlinear_arith)
            requires
                p == 2 * p1,
        ;
        assert(normalize(m, s).0 == m * pow2((normalize(m, s).1 - s) as nat));
    }
}

/// Narrowing undoes widening: the candidate for the widening of any single
/// is that single.
proof fn lemma_candidate_inverse(b: u32)
    ensures
        candidate(widen(b)) == b,
{
    let sign = b as nat / 0x8000_0000;
    let exp = b as nat / 0x80_0000 % 0x100;
    let frac = b as nat % 0x80_0000;
    let w = widen(b) as nat;
    let h = hidden_bit();
    lemma2_to64();
    lemma2_to64_rest();
    assert(b as nat == sign * 0x8000_0000 + exp * 0x80_0000 + frac) by {
        lemma_fundamental_div_mod(b as int, 0x80_0000);
        lemma_fundamental_div_mod(b as int / 0x80_0000, 0x100);
    }
    assert(sign <= 1);
    // The double is sign, biased exponent and fraction fields.
    let (e, f) = if exp == 0xff {
        (0x7ffnat, frac * 0x2000_0000)
    } else if exp != 0 {
        ((exp + 896) as nat, frac * 0x2000_0000)
    } else if frac == 0 {
        (0nat, 0nat)
    } else {
        let (m, k) = normalize(frac, 0);
        lemma_normalize_shape(frac, 0);
        if k < 30 {
            lemma_pow2_strictly_increases(k, 29);
            assert(frac * pow2(k) < 0x80_0000 * pow2(29)) by (nonlinear_arith)
                requires
                    frac < 0x80_0000,
                    pow2(k) < pow2(29),
            ;
        }
        if k > 52 {
            if k > 53 {
                lemma_pow2_strictly_increases(53, k);
            }
            assert(frac * pow2(k) >= pow2(k)) by (nonlinear_arith)
                requires
                    frac >= 1,
            ;
        }
        ((926 - k) as nat, (m - h) as nat)
    };
    assert(f < h);
    assert(e < 0x800);
    assert(w == sign * 0x8000_0000_0000_0000 + e * h + f);
    assert(w as nat / 0x8000_0000_0000_0000 == sign) by {
        lemma_fundamental_div_mod_converse(
            w as int,
            0x8000_0000_0000_0000,
            sign as int,
            (e * h + f) as int,
        );
    }
    assert(w as nat / h == sign * 0x800 + e) by {
        lemma_fundamental_div_mod_converse(w as int, h as int, (sign * 0x800 + e) as int, f as int);
    }
    assert(w as nat / h % 0x800 == e) by {
        lemma_fundamental_div_mod_converse(
            (sign * 0x800 + e) as int,
            0x800,
            sign as int,
            e as int,
        );
    }
    assert(w as nat % h == f) by {
        lemma_fundamental_div_mod_converse(w as int, h as int, (sign * 0x800 + e) as int, f as int);
    }
    if exp == 0xff || exp != 0 {
        assert(f / 0x2000_0000 == frac) by {
            lemma_fundamental_div_mod_converse(f as int, 0x2000_0000, frac as int, 0);
        }
    } else if frac != 0 {
        let (m, k) = normalize(frac, 0);
        assert((h + f) / pow2(k) == frac) by {
            lemma_pow2_pos(k);
            lemma_fundamental_div_mod_converse(m as int, pow2(k) as int, frac as int, 0);
        }
    }
}

/// Widening is one-to-one: two singles that widen to the same double are the
/// same single.
pub proof fn lemma_widen_injective(a: u32, b: u32)
    requires
        widen(a) == widen(b),
    ensures
        a == b,
{
    lemma_candidate_inverse(a);
    lemma_candidate_inverse(b);
}

/// The bits of the single whose widening is the double `bits`, if there is
/// one: a double converts to single precision without loss exactly then.
pub fn narrow_f64_bits(bits: u64) -> (r: Option<u32>)
    ensures
        match r {
            Some(b) => widen(b) == bits,
            None => forall|b: u32| widen(b) != bits,
        },
{
    proof {
        lemma2_to64();
        lemma2_to64_rest();
    }
    let sign: u64 = bits / 0x8000_0000_0000_0000;
    let e: u64 = bits / 0x10_0000_0000_0000 % 0x800;
    let f: u64 = bits % 0x10_0000_0000_0000;
    let (exp, frac): (u64, u64) = if e == 0x7ff {
        (0xff, f / 0x2000_0000)
    } else if 897 <= e && e <= 1150 {
        (e - 896, f / 0x2000_0000)
    } else if 874 <= e && e <= 896 {
        proof {
            lemma_u64_shr_is_div((0x10_0000_0000_0000 + f) as u64, (926 - e) as u64);
            lemma_pow2_strictly_increases(29, (926 - e) as nat);
            assert(((hidden_bit() + f) as nat) / pow2((926 - e) as nat) <= ((hidden_bit() + f) as nat)
                / pow2(29)) by {
                vstd::arithmetic::div_mod::lemma_div_is_ordered_by_denominator(
                    (hidden_bit() + f) as int,
                    pow2(29) as int,
                    pow2((926 - e) as nat) as int,
                );
            }
        }
        (0, (0x10_0000_0000_0000 + f) >> (926 - e))
    } else {
        (0, 0)
    };
    let c: u32 = (sign * 0x8000_0000 + exp * 0x80_0000 + frac) as u32;
    assert(c == candidate(bits));
    if widen_f32_bits(c) == bits {
        Some(c)
    } else {
        proof {
            assert forall|b: u32| widen(b) != bits by {
                if widen(b) == bits {
                    lemma_candidate_inverse(b);
                }
            }
        }
        None
    }
}

} // verus!
