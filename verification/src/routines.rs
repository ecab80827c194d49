//! The stack effects of the routines of the big-integer library that
//! scripts splice in by reference (see [`Routine`]).
//!
//! A big integer of shape `(n_bits, limb_size)` occupies `n` consecutive
//! stack items, its least significant limb on top; "depth `d`" counts big
//! integers from the top, the top one being at depth `0`. Each routine's
//! effect is given here for the inputs the library documents for it; on
//! other inputs (too few items, limbs out of range, numbers a script cannot
//! hold) the model lets the routine fail.
use crate::bigint::{on_stack, BigIntImpl};
use crate::biguint::digits_value;
use crate::bn254::zipping::zipped;
use crate::script::{bool_num, is_num, Routine};
use vstd::arithmetic::power::*;
use vstd::arithmetic::power2::*;
use vstd::prelude::*;

verus! {

/// The shape named by a routine's size fields.
pub open spec fn shape_of(n_bits: u32, limb_size: u32) -> BigIntImpl {
    BigIntImpl { n_bits, limb_size }
}

/// The `n` items of the big integer at depth `d`, deepest first.
pub open spec fn block(m: Seq<int>, n: nat, d: nat) -> Seq<int> {
    m.subrange(m.len() - (d + 1) * n, m.len() - d * n)
}

/// The stack without the big integer at depth `d`.
pub open spec fn without_block(m: Seq<int>, n: nat, d: nat) -> Seq<int> {
    m.subrange(0, m.len() - (d + 1) * n) + m.subrange(m.len() - d * n, m.len() as int)
}

/// The limbs, least significant first, of `v` in a big integer of shape
/// `s`.
pub open spec fn limbs_of(s: BigIntImpl, v: nat) -> Seq<int> {
    Seq::new(s.limbs(), |i: int| ((v as int) / pow(s.base() as int, i as nat)) % (s.base() as int))
}

/// The items of `v` as a big integer of shape `s`.
pub open spec fn number_items(s: BigIntImpl, v: nat) -> Seq<int> {
    on_stack(limbs_of(s, v))
}

/// Whether the big integer at depth `d` is held by valid limbs of shape
/// `s`.
pub open spec fn valid_at(s: BigIntImpl, m: Seq<int>, d: nat) -> bool {
    &&& (d + 1) * s.limbs() <= m.len()
    &&& s.limbs_ok(on_stack(block(m, s.limbs(), d)))
}

/// The value of the big integer at depth `d`.
pub open spec fn value_at(s: BigIntImpl, m: Seq<int>, d: nat) -> int {
    s.value(on_stack(block(m, s.limbs(), d)))
}

/// The stack without the big integers at the distinct depths `a` and `b`.
pub open spec fn without_two(m: Seq<int>, n: nat, a: nat, b: nat) -> Seq<int> {
    if a < b {
        without_block(without_block(m, n, b), n, a)
    } else {
        without_block(without_block(m, n, a), n, b)
    }
}

/// The effect of a binary routine on the big integers at depths `a` and
/// `b`: both go, and `r` of their values is pushed.
pub open spec fn binary_routine(
    s: BigIntImpl,
    m: Seq<int>,
    al: Seq<int>,
    a: u32,
    b: u32,
    r: spec_fn(int, int) -> Seq<int>,
) -> Option<(Seq<int>, Seq<int>)> {
    if s.shape_ok() && a != b && valid_at(s, m, a as nat) && valid_at(s, m, b as nat) {
        Some(
            (
                without_two(m, s.limbs(), a as nat, b as nat) + r(
                    value_at(s, m, a as nat),
                    value_at(s, m, b as nat),
                ),
                al,
            ),
        )
    } else {
        None
    }
}

/// The effect of a routine on the main and alt stacks.
///
/// - `ToAltStack` / `FromAltStack`: the top big integer moves, limb by
///   limb, to the alt stack and back.
/// - `Copy` / `Roll`: the big integer at the given depth is copied / moved
///   to the top.
/// - `Drop`: the top big integer goes. `PushZero`: zero is pushed.
/// - `Add` / `Sub`: the big integers at depths `a` and `b` go and
///   `a + b` / `a - b` modulo `2^n_bits` is pushed.
/// - `LessThanOrEqual` / `GreaterThan`: the two go and `a <= b` / `a > b`
///   is pushed as `1` or `0`.
/// - `PushU32Le`: the number with the given little-endian 32-bit digits is
///   pushed, where it fits.
/// - `DupZip`: the top big integer is interleaved limb by limb with a copy
///   of the one at depth `a`.
/// - `NDup`: the top item is duplicated `n` times.
/// - `LimbAddCarry`: `{x} {y} {base}` becomes `{base} {carry} {x + y - carry * base}`,
///   with `carry` set where `x + y` reaches `base`.
/// - `LimbAddNoCarry`: `{x} {y}` becomes `x + y`, less `head_offset` where
///   it reaches it.
#[verifier::opaque]
pub open spec fn routine_effect(r: Routine, m: Seq<int>, al: Seq<int>) -> Option<(Seq<int>, Seq<int>)> {
    let len = m.len();
    match r {
        Routine::ToAltStack { n_bits, limb_size } => {
            let n = shape_of(n_bits, limb_size).limbs();
            if shape_of(n_bits, limb_size).shape_ok() && n <= len {
                Some((m.subrange(0, len - n), al + on_stack(m.subrange(len - n, len as int))))
            } else {
                None
            }
        },
        Routine::FromAltStack { n_bits, limb_size } => {
            let n = shape_of(n_bits, limb_size).limbs();
            let al_len = al.len();
            if shape_of(n_bits, limb_size).shape_ok() && n <= al_len {
                Some(
                    (
                        m + on_stack(al.subrange(al_len - n, al_len as int)),
                        al.subrange(0, al_len - n),
                    ),
                )
            } else {
                None
            }
        },
        Routine::Copy { n_bits, limb_size, depth } => {
            let n = shape_of(n_bits, limb_size).limbs();
            if shape_of(n_bits, limb_size).shape_ok() && (depth + 1) * n <= len {
                Some((m + block(m, n, depth as nat), al))
            } else {
                None
            }
        },
        Routine::Roll { n_bits, limb_size, depth } => {
            let n = shape_of(n_bits, limb_size).limbs();
            if shape_of(n_bits, limb_size).shape_ok() && (depth + 1) * n <= len {
                Some((without_block(m, n, depth as nat) + block(m, n, depth as nat), al))
            } else {
                None
            }
        },
        Routine::Drop { n_bits, limb_size } => {
            let n = shape_of(n_bits, limb_size).limbs();
            if shape_of(n_bits, limb_size).shape_ok() && n <= len {
                Some((m.subrange(0, len - n), al))
            } else {
                None
            }
        },
        Routine::PushZero { n_bits, limb_size } => {
            let s = shape_of(n_bits, limb_size);
            if s.shape_ok() {
                Some((m + Seq::new(s.limbs(), |i: int| 0int), al))
            } else {
                None
            }
        },
        Routine::Add { n_bits, limb_size, a, b } => {
            let s = shape_of(n_bits, limb_size);
            binary_routine(
                s,
                m,
                al,
                a,
                b,
                |x: int, y: int| number_items(s, ((x + y) % (pow2(n_bits as nat) as int)) as nat),
            )
        },
        Routine::Sub { n_bits, limb_size, a, b } => {
            let s = shape_of(n_bits, limb_size);
            binary_routine(
                s,
                m,
                al,
                a,
                b,
                |x: int, y: int| number_items(s, ((x - y) % (pow2(n_bits as nat) as int)) as nat),
            )
        },
        Routine::LessThanOrEqual { n_bits, limb_size, a, b } => {
            binary_routine(
                shape_of(n_bits, limb_size),
                m,
                al,
                a,
                b,
                |x: int, y: int| seq![bool_num(x <= y)],
            )
        },
        Routine::GreaterThan { n_bits, limb_size, a, b } => {
            binary_routine(
                shape_of(n_bits, limb_size),
                m,
                al,
                a,
                b,
                |x: int, y: int| seq![bool_num(x > y)],
            )
        },
        Routine::PushU32Le { n_bits, limb_size, digits } => {
            let s = shape_of(n_bits, limb_size);
            if s.shape_ok() && digits_value(digits@) < pow2(n_bits as nat) {
                Some((m + number_items(s, digits_value(digits@)), al))
            } else {
                None
            }
        },
        Routine::DupZip { n_bits, limb_size, a } => {
            let n = shape_of(n_bits, limb_size).limbs();
            if shape_of(n_bits, limb_size).shape_ok() && (a + 1) * n <= len {
                Some((m.subrange(0, len - n) + zipped(block(m, n, 0), block(m, n, a as nat)), al))
            } else {
                None
            }
        },
        Routine::NDup { n } => {
            if len >= 1 {
                Some((m + Seq::new(n as nat, |i: int| m[len - 1]), al))
            } else {
                None
            }
        },
        Routine::LimbAddCarry => {
            if len >= 3 && is_num(m[len - 3]) && is_num(m[len - 2]) && is_num(m[len - 1]) && is_num(
                m[len - 3] + m[len - 2],
            ) {
                let v = m[len - 3] + m[len - 2];
                let base = m[len - 1];
                Some(
                    (
                        m.subrange(0, len - 3).push(base).push(bool_num(base <= v)).push(
                            if base <= v {
                                v - base
                            } else {
                                v
                            },
                        ),
                        al,
                    ),
                )
            } else {
                None
            }
        },
        Routine::LimbAddNoCarry { head_offset } => {
            if len >= 2 && is_num(m[len - 2]) && is_num(m[len - 1]) && is_num(m[len - 2] + m[len - 1])
                && is_num(head_offset as int) {
                let v = m[len - 2] + m[len - 1];
                Some(
                    (
                        m.subrange(0, len - 2).push(
                            if v >= head_offset {
                                v - head_offset
                            } else {
                                v
                            },
                        ),
                        al,
                    ),
                )
            } else {
                None
            }
        },
    }
}

} // verus!
