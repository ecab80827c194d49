//! Arbitrary-precision unsigned integers, held as little-endian 32-bit digits,
//! and the operations this library takes from `num-bigint` on them.
use num_bigint::BigUint;
use num_traits::{FromPrimitive, ToPrimitive};
use std::str::FromStr;
use vstd::arithmetic::div_mod::*;
use vstd::arithmetic::mul::*;
use vstd::arithmetic::power2::*;
use vstd::prelude::*;

verus! {

/// The value of little-endian base-`2^32` digits.
pub open spec fn digits_value(d: Seq<u32>) -> nat
    decreases d.len(),
{
    if d.len() == 0 {
        0
    } else {
        d[0] as nat + pow2(32) * digits_value(d.subrange(1, d.len() as int))
    }
}

/// Digits without a most significant zero digit: the unique digits of a value.
pub open spec fn normalized(d: Seq<u32>) -> bool {
    d.len() == 0 || d[d.len() - 1] != 0
}

/// Whether a string is a non-empty run of decimal digits.
pub open spec fn is_decimal(s: Seq<char>) -> bool {
    s.len() > 0 && forall|i: int| 0 <= i < s.len() ==> '0' <= #[trigger] s[i] <= '9'
}

/// The value of the first `k` characters of a string of decimal digits.
pub open spec fn decimal_prefix_value(s: Seq<char>, k: nat) -> nat
    decreases k,
{
    if k == 0 {
        0
    } else {
        (decimal_prefix_value(s, (k - 1) as nat) * 10 + (s[k - 1] as int - '0' as int)) as nat
    }
}

/// The value of a string of decimal digits, most significant first.
pub open spec fn decimal_value(s: Seq<char>) -> nat {
    decimal_prefix_value(s, s.len())
}

/// Bitwise AND of two naturals.
pub open spec fn bit_and(a: nat, b: nat) -> nat
    decreases a,
{
    if a == 0 || b == 0 {
        0
    } else {
        2 * bit_and(a / 2, b / 2) + (if a % 2 == 1 && b % 2 == 1 {
            1nat
        } else {
            0nat
        })
    }
}

/// Parses a decimal string with `BigUint::from_str` and returns the digits of
/// the result (`BigUint::to_u32_digits`). On a non-empty string of decimal
/// digits the parse succeeds with the number the string denotes; the digits
/// are the least significant first, with no most significant zero digit.
#[verifier::external_body]
pub(crate) fn parse_decimal(s: &str) -> (r: Option<Vec<u32>>)
    requires
        is_decimal(s@),
    ensures
        r is Some,
        digits_value(r.unwrap()@) == decimal_value(s@),
        normalized(r.unwrap()@),
{
    match BigUint::from_str(s) {
        Ok(b) => Some(b.to_u32_digits()),
        Err(_) => None,
    }
}

/// `BigUint::from_u32`, as digits: always the digits of `x`.
#[verifier::external_body]
pub(crate) fn from_u32(x: u32) -> (r: Option<Vec<u32>>)
    ensures
        r is Some,
        digits_value(r.unwrap()@) == x,
        normalized(r.unwrap()@),
{
    match BigUint::from_u32(x) {
        Some(b) => Some(b.to_u32_digits()),
        None => None,
    }
}

/// `BigUint::from_i32`, as digits: the digits of `x` where `x` is not
/// negative, and nothing where it is.
#[verifier::external_body]
pub(crate) fn from_i32(x: i32) -> (r: Option<Vec<u32>>)
    ensures
        r is Some <==> x >= 0,
        r is Some ==> digits_value(r.unwrap()@) == x && normalized(r.unwrap()@),
{
    match BigUint::from_i32(x) {
        Some(b) => Some(b.to_u32_digits()),
        None => None,
    }
}

/// `BigUint << shift`, on digits: the value times `2^shift`.
#[verifier::external_body]
pub(crate) fn shl(d: Vec<u32>, shift: u32) -> (r: Vec<u32>)
    ensures
        digits_value(r@) == digits_value(d@) * pow2(shift as nat),
        normalized(r@),
{
    (BigUint::new(d) << shift).to_u32_digits()
}

/// `BigUint >> shift`, on digits: the value divided by `2^shift`, rounded down.
#[verifier::external_body]
pub(crate) fn shr(d: Vec<u32>, shift: u32) -> (r: Vec<u32>)
    ensures
        digits_value(r@) == digits_value(d@) / pow2(shift as nat),
        normalized(r@),
{
    (BigUint::new(d) >> shift).to_u32_digits()
}

/// `BigUint & BigUint`, on digits: the bitwise AND of the values.
#[verifier::external_body]
pub(crate) fn bitand(a: Vec<u32>, b: Vec<u32>) -> (r: Vec<u32>)
    ensures
        digits_value(r@) == bit_and(digits_value(a@), digits_value(b@)),
        normalized(r@),
{
    (BigUint::new(a) & BigUint::new(b)).to_u32_digits()
}

/// `BigUint::to_u32`, on digits: the value where it fits in a `u32`, and
/// nothing where it does not.
#[verifier::external_body]
pub(crate) fn to_u32(d: Vec<u32>) -> (r: Option<u32>)
    ensures
        r is Some <==> digits_value(d@) <= u32::MAX,
        r is Some ==> r.unwrap() == digits_value(d@),
{
    BigUint::new(d).to_u32()
}

/// `a AND 2c` is twice `(a / 2) AND c`.
proof fn lemma_bit_and_double(a: nat, c: nat)
    ensures
        bit_and(a, 2 * c) == 2 * bit_and(a / 2, c),
{
    if a == 0 || c == 0 {
        if a / 2 == 0 {
        }
        assert(bit_and(a / 2, c) == 0) by {
            if a / 2 != 0 && c != 0 {
                assert(a != 0);
            }
        }
    } else {
        assert((2 * c) / 2 == c);
        assert((2 * c) % 2 == 0);
    }
}

/// `a AND (b * 2^s)` is `((a / 2^s) AND b) * 2^s`.
proof fn lemma_bit_and_shifted(a: nat, b: nat, s: nat)
    ensures
        bit_and(a, b * pow2(s)) == bit_and(a / pow2(s), b) * pow2(s),
    decreases s,
{
    if s == 0 {
        assert(pow2(0) == 1) by {
            lemma2_to64();
        }
        assert(b * 1 == b);
        assert(a / 1 == a);
    } else {
        let t = (s - 1) as nat;
        lemma_pow2_unfold(s);
        lemma_pow2_pos(t);
        assert(b * pow2(s) == 2 * (b * pow2(t))) by {
            lemma_mul_is_associative(b as int, 2, pow2(t) as int);
            lemma_mul_is_commutative(b as int, 2);
            lemma_mul_is_associative(2, b as int, pow2(t) as int);
        }
        lemma_bit_and_double(a, b * pow2(t));
        lemma_bit_and_shifted(a / 2, b, t);
        assert(a / 2 / pow2(t) == a / pow2(s)) by {
            lemma_div_denominator(a as int, 2, pow2(t) as int);
        }
        assert(2 * (bit_and(a / pow2(s), b) * pow2(t)) == bit_and(a / pow2(s), b) * pow2(s)) by {
            lemma_mul_is_associative(2, bit_and(a / pow2(s), b) as int, pow2(t) as int);
            lemma_mul_is_commutative(2, bit_and(a / pow2(s), b) as int);
            lemma_mul_is_associative(bit_and(a / pow2(s), b) as int, 2, pow2(t) as int);
        }
    }
}

/// AND with `2^w - 1` keeps the low `w` bits.
proof fn lemma_bit_and_low_mask(a: nat, w: nat)
    ensures
        bit_and(a, (pow2(w) - 1) as nat) == a % pow2(w),
    decreases w,
{
    lemma_pow2_pos(w);
    if w == 0 {
        assert(pow2(0) == 1) by {
            lemma2_to64();
        }
    } else {
        let t = (w - 1) as nat;
        lemma_pow2_unfold(w);
        lemma_pow2_pos(t);
        let m = (pow2(w) - 1) as nat;
        assert(m % 2 == 1 && m / 2 == (pow2(t) - 1) as nat);
        lemma_bit_and_low_mask(a / 2, t);
        lemma_mod_breakdown(a as int, 2, pow2(t) as int);
        if a == 0 {
        } else {
            assert(bit_and(a, m) == 2 * bit_and(a / 2, m / 2) + (if a % 2 == 1 {
                1nat
            } else {
                0nat
            }));
        }
    }
}

/// The `w`-bit window of `a` that starts at bit `s`, by AND with a shifted
/// mask and a shift back.
pub proof fn lemma_window_by_mask(a: nat, w: nat, s: nat)
    ensures
        bit_and(a, ((pow2(w) - 1) as nat) * pow2(s)) / pow2(s) == (a / pow2(s)) % pow2(w),
{
    lemma_pow2_pos(s);
    lemma_pow2_pos(w);
    lemma_bit_and_shifted(a, (pow2(w) - 1) as nat, s);
    lemma_bit_and_low_mask(a / pow2(s), w);
    lemma_div_multiples_vanish(bit_and(a / pow2(s), (pow2(w) - 1) as nat) as int, pow2(s) as int);
    lemma_mul_is_commutative(bit_and(a / pow2(s), (pow2(w) - 1) as nat) as int, pow2(s) as int);
}

/// The `width`-bit window of the number with digits `d` that starts at bit
/// `shift`: `(d >> shift) & (2^width - 1)`, computed by a bitwise AND
/// with a mask shifted into place (`mask` is `2^width - 1`).
pub(crate) fn window_of(d: &Vec<u32>, mask: Vec<u32>, width: u32, shift: u32) -> (r: u32)
    requires
        digits_value(mask@) == pow2(width as nat) - 1,
        width < 32,
    ensures
        r == (digits_value(d@) / pow2(shift as nat)) % pow2(width as nat),
{
    let m = shl(mask, shift);
    let a = bitand(d.clone(), m);
    let v = shr(a, shift);
    proof {
        lemma_pow2_pos(width as nat);
        lemma_window_by_mask(digits_value(d@), width as nat, shift as nat);
        lemma_mod_bound((digits_value(d@) / pow2(shift as nat)) as int, pow2(width as nat) as int);
        vstd::bits::lemma_u32_pow2_no_overflow(width as nat);
    }
    let r = to_u32(v);
    r.unwrap()
}

} // verus!
