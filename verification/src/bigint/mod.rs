//! Big integers on the script stack, held as limbs of `limb_size` bits.
//!
//! A big integer of `n_bits` bits occupies `n_limbs` consecutive stack items.
//! The least significant limb is on top; the most significant one, the head,
//! is deepest and holds the remaining `head` bits.
pub mod add;
pub mod decomp;
pub mod doubling;
pub mod laws;
pub mod op_tmul;
pub mod win_loop;

use crate::script::{Op, Routine, Script};
use vstd::arithmetic::power::*;
use vstd::arithmetic::power2::*;
use vstd::prelude::*;

verus! {

/// The shape of a big integer on the stack.
#[derive(Clone, Copy, Debug, PartialEq, Eq)]
pub struct BigIntImpl {
    pub n_bits: u32,
    pub limb_size: u32,
}

/// `ceil(a / b)`.
pub open spec fn ceil_div(a: nat, b: nat) -> nat
    recommends
        b > 0,
{
    ((a + b - 1) / (b as int)) as nat
}

/// The value of limbs given least significant first, in base `base`.
pub open spec fn lsb_value(l: Seq<int>, base: int) -> int
    decreases l.len(),
{
    if l.len() == 0 {
        0
    } else {
        l[0] + base * lsb_value(l.subrange(1, l.len() as int), base)
    }
}

/// The stack items that hold limbs `l` (least significant first): the least
/// significant limb on top.
pub open spec fn on_stack(l: Seq<int>) -> Seq<int> {
    Seq::new(l.len(), |i: int| l[l.len() - 1 - i])
}

impl BigIntImpl {
    /// Whether `l`, least significant first, are the limbs of a big integer
    /// of this shape: each below the base, the head below its bound.
    pub open spec fn limbs_ok(self, l: Seq<int>) -> bool {
        &&& l.len() == self.limbs()
        &&& forall|i: int|
            0 <= i < l.len() ==> 0 <= #[trigger] l[i] < (if i == l.len() - 1 {
                self.head_bound() as int
            } else {
                self.base() as int
            })
    }

    /// A shape that can be computed has at least one limb.
    pub proof fn n_limbs_spec_positive(self)
        requires
            self.shape_ok(),
        ensures
            self.limbs() >= 1,
    {
        vstd::arithmetic::div_mod::lemma_fundamental_div_mod(
            (self.n_bits + self.limb_size - 1) as int,
            self.limb_size as int,
        );
        let a = (self.n_bits + self.limb_size - 1) as int;
        let b = self.limb_size as int;
        assert(a / b >= 1) by (nonlinear_arith)
            requires
                a == b * (a / b) + a % b,
                a % b < b,
                a >= b,
                b > 0,
        ;
    }

    /// The head limb holds between one bit and a full limb.
    pub proof fn lemma_head_bits(self)
        requires
            self.shape_ok(),
        ensures
            0 < self.head_bits() <= self.limb_size,
            self.limbs() >= 1,
    {
        self.n_limbs_spec_positive();
        let r = self.limbs();
        let a = (self.n_bits + self.limb_size - 1) as int;
        let b = self.limb_size as int;
        vstd::arithmetic::div_mod::lemma_fundamental_div_mod(a, b);
        assert((r - 1) * b < self.n_bits && r * b >= self.n_bits) by (nonlinear_arith)
            requires
                a == b * r + a % b,
                0 <= a % b < b,
                a == self.n_bits + b - 1,
        ;
        assert((r - 1) * b == r * b - b) by (nonlinear_arith);
    }

    /// The bounds of the limbs: the head bound is at most the base, the base
    /// is a script number with room for a carry, and together they bound the
    /// value by `2^n_bits`.
    pub proof fn lemma_bounds(self)
        requires
            self.shape_ok(),
            self.limb_size <= 30,
        ensures
            0 < self.head_bound() <= self.base(),
            2 * self.base() - 1 <= 0x7fff_ffff,
            self.head_bound() * pow(self.base() as int, (self.limbs() - 1) as nat) == pow2(
                self.n_bits as nat,
            ),
    {
        self.lemma_head_bits();
        lemma_pow2_pos(self.head_bits() as nat);
        if self.head_bits() < self.limb_size {
            lemma_pow2_strictly_increases(self.head_bits() as nat, self.limb_size as nat);
        }
        assert(self.base() <= 0x4000_0000) by {
            lemma2_to64();
            if self.limb_size < 30 {
                lemma_pow2_strictly_increases(self.limb_size as nat, 30);
            }
        }
        let j = (self.limbs() - 1) as nat;
        lemma_pow2(self.limb_size as nat);
        lemma_pow_multiplies(2, self.limb_size as nat, j);
        lemma_pow2((self.limb_size * j) as nat);
        lemma_pow2_adds(self.head_bits() as nat, (self.limb_size * j) as nat);
        assert(self.head_bits() + self.limb_size * j == self.n_bits) by (nonlinear_arith)
            requires
                self.head_bits() == self.n_bits - (self.limbs() - 1) * self.limb_size,
                j == self.limbs() - 1,
        ;
    }

    /// The value of limbs `l` of this shape.
    pub open spec fn value(self, l: Seq<int>) -> int {
        lsb_value(l, self.base() as int)
    }

    /// Whether the shape can be computed without overflow: positive sizes.
    pub open spec fn shape_ok(self) -> bool {
        &&& 0 < self.limb_size < 32
        &&& 0 < self.n_bits
        &&& self.n_bits + self.limb_size <= u32::MAX
    }

    /// Number of limbs.
    pub open spec fn limbs(self) -> nat {
        ceil_div(self.n_bits as nat, self.limb_size as nat)
    }

    /// Number of bits held by the head limb.
    pub open spec fn head_bits(self) -> int {
        self.n_bits - (self.limbs() - 1) * self.limb_size
    }

    /// The bound of the head limb: `2^head_bits`.
    pub open spec fn head_bound(self) -> nat {
        pow2(self.head_bits() as nat)
    }

    /// The bound of every other limb: `2^limb_size`.
    pub open spec fn base(self) -> nat {
        pow2(self.limb_size as nat)
    }

    /// Number of limbs.
    pub fn n_limbs(&self) -> (r: u32)
        requires
            self.shape_ok(),
        ensures
            r == self.limbs(),
            1 <= r,
            r as int * self.limb_size >= self.n_bits,
            (r - 1) * self.limb_size < self.n_bits,
    {
        let r = (self.n_bits + self.limb_size - 1) / self.limb_size;
        proof {
            let a = self.n_bits + self.limb_size - 1;
            let b = self.limb_size as int;
            vstd::arithmetic::div_mod::lemma_fundamental_div_mod(a, b);
            assert(a == b * r + a % b);
            assert(0 <= a % b < b);
            assert(r >= 1) by (nonlinear_arith)
                requires
                    a == b * r + a % b,
                    a % b < b,
                    a >= b,
                    b > 0,
                    r >= 0,
            ;
            assert(r as int * b == b * r) by (nonlinear_arith);
            assert((r - 1) * b == r * b - b) by (nonlinear_arith);
        }
        r
    }

    /// Number of bits held by the head limb.
    pub fn head(&self) -> (r: u32)
        requires
            self.shape_ok(),
        ensures
            r == self.head_bits(),
            0 < r <= self.limb_size,
    {
        let n = self.n_limbs();
        proof {
            assert((n - 1) * self.limb_size <= n * self.limb_size) by (nonlinear_arith)
                requires
                    n >= 1,
            ;
            assert((n - 1) * self.limb_size == n * self.limb_size - self.limb_size)
                by (nonlinear_arith);
        }
        self.n_bits - (n - 1) * self.limb_size
    }

    /// The bound of the head limb, `2^head`.
    pub fn head_offset(&self) -> (r: u32)
        requires
            self.shape_ok(),
        ensures
            r == self.head_bound(),
            r <= self.base(),
    {
        let h = self.head();
        proof {
            vstd::bits::lemma_u32_pow2_no_overflow(h as nat);
            vstd::bits::lemma_u32_shl_is_mul(1u32, h);
            if h < self.limb_size {
                lemma_pow2_strictly_increases(h as nat, self.limb_size as nat);
            }
        }
        1u32 << h
    }

    /// The bound of a limb, `2^limb_size`.
    pub fn limb_base(&self) -> (r: u32)
        requires
            self.shape_ok(),
        ensures
            r == self.base(),
    {
        proof {
            vstd::bits::lemma_u32_pow2_no_overflow(self.limb_size as nat);
            vstd::bits::lemma_u32_shl_is_mul(1u32, self.limb_size);
        }
        1u32 << self.limb_size
    }

    /// The script of [`BigIntImpl::toaltstack`].
    pub open spec fn toalt_ops(self) -> Seq<Op> {
        seq![Op::Routine(Routine::ToAltStack { n_bits: self.n_bits, limb_size: self.limb_size })]
    }

    /// The script of [`BigIntImpl::fromaltstack`].
    pub open spec fn fromalt_ops(self) -> Seq<Op> {
        seq![Op::Routine(Routine::FromAltStack { n_bits: self.n_bits, limb_size: self.limb_size })]
    }

    /// The script of [`BigIntImpl::copy`].
    pub open spec fn copy_ops(self, depth: u32) -> Seq<Op> {
        seq![Op::Routine(Routine::Copy { n_bits: self.n_bits, limb_size: self.limb_size, depth })]
    }

    /// The script of [`BigIntImpl::roll`].
    pub open spec fn roll_ops(self, depth: u32) -> Seq<Op> {
        seq![Op::Routine(Routine::Roll { n_bits: self.n_bits, limb_size: self.limb_size, depth })]
    }

    /// The script of [`BigIntImpl::drop`].
    pub open spec fn drop_ops(self) -> Seq<Op> {
        seq![Op::Routine(Routine::Drop { n_bits: self.n_bits, limb_size: self.limb_size })]
    }

    /// The script of [`BigIntImpl::push_zero`].
    pub open spec fn push_zero_ops(self) -> Seq<Op> {
        seq![Op::Routine(Routine::PushZero { n_bits: self.n_bits, limb_size: self.limb_size })]
    }

    /// The script of [`BigIntImpl::add`].
    pub open spec fn add_ops(self, a: u32, b: u32) -> Seq<Op> {
        seq![Op::Routine(Routine::Add { n_bits: self.n_bits, limb_size: self.limb_size, a, b })]
    }

    /// The script of [`BigIntImpl::sub`].
    pub open spec fn sub_ops(self, a: u32, b: u32) -> Seq<Op> {
        seq![Op::Routine(Routine::Sub { n_bits: self.n_bits, limb_size: self.limb_size, a, b })]
    }

    /// The script of [`BigIntImpl::lessthanorequal`].
    pub open spec fn lessthanorequal_ops(self, a: u32, b: u32) -> Seq<Op> {
        seq![
            Op::Routine(
                Routine::LessThanOrEqual { n_bits: self.n_bits, limb_size: self.limb_size, a, b },
            ),
        ]
    }

    /// The script of [`BigIntImpl::greaterthan`].
    pub open spec fn greaterthan_ops(self, a: u32, b: u32) -> Seq<Op> {
        seq![
            Op::Routine(
                Routine::GreaterThan { n_bits: self.n_bits, limb_size: self.limb_size, a, b },
            ),
        ]
    }

    /// The script of [`BigIntImpl::push_u32_le`].
    pub open spec fn push_u32_le_ops(self, digits: Vec<u32>) -> Seq<Op> {
        seq![
            Op::Routine(
                Routine::PushU32Le { n_bits: self.n_bits, limb_size: self.limb_size, digits },
            ),
        ]
    }

    /// The script of [`BigIntImpl::dup_zip`].
    pub open spec fn dup_zip_ops(self, a: u32) -> Seq<Op> {
        seq![Op::Routine(Routine::DupZip { n_bits: self.n_bits, limb_size: self.limb_size, a })]
    }

    /// Move the top big integer to the alt stack.
    pub fn toaltstack(&self) -> (r: Script)
        ensures
            r@ == self.toalt_ops(),
    {
        Script::from_ops(
            vec![
                Op::Routine(
                    Routine::ToAltStack { n_bits: self.n_bits, limb_size: self.limb_size },
                ),
            ],
        )
    }

    /// Move the big integer on top of the alt stack back to the main stack.
    pub fn fromaltstack(&self) -> (r: Script)
        ensures
            r@ == self.fromalt_ops(),
    {
        Script::from_ops(
            vec![
                Op::Routine(
                    Routine::FromAltStack { n_bits: self.n_bits, limb_size: self.limb_size },
                ),
            ],
        )
    }

    /// Copy the big integer at `depth` to the top.
    pub fn copy(&self, depth: u32) -> (r: Script)
        ensures
            r@ == self.copy_ops(depth),
    {
        Script::from_ops(
            vec![
                Op::Routine(
                    Routine::Copy { n_bits: self.n_bits, limb_size: self.limb_size, depth },
                ),
            ],
        )
    }

    /// Move the big integer at `depth` to the top.
    pub fn roll(&self, depth: u32) -> (r: Script)
        ensures
            r@ == self.roll_ops(depth),
    {
        Script::from_ops(
            vec![
                Op::Routine(
                    Routine::Roll { n_bits: self.n_bits, limb_size: self.limb_size, depth },
                ),
            ],
        )
    }

    /// Drop the top big integer.
    pub fn drop(&self) -> (r: Script)
        ensures
            r@ == self.drop_ops(),
    {
        Script::from_ops(
            vec![Op::Routine(Routine::Drop { n_bits: self.n_bits, limb_size: self.limb_size })],
        )
    }

    /// Push the big integer zero.
    pub fn push_zero(&self) -> (r: Script)
        ensures
            r@ == self.push_zero_ops(),
    {
        Script::from_ops(
            vec![
                Op::Routine(
                    Routine::PushZero { n_bits: self.n_bits, limb_size: self.limb_size },
                ),
            ],
        )
    }

    /// Add the big integers at depths `a` and `b`.
    pub fn add(&self, a: u32, b: u32) -> (r: Script)
        ensures
            r@ == self.add_ops(a, b),
    {
        Script::from_ops(
            vec![
                Op::Routine(
                    Routine::Add { n_bits: self.n_bits, limb_size: self.limb_size, a, b },
                ),
            ],
        )
    }

    /// Subtract the big integer at depth `b` from the one at depth `a`.
    pub fn sub(&self, a: u32, b: u32) -> (r: Script)
        ensures
            r@ == self.sub_ops(a, b),
    {
        Script::from_ops(
            vec![
                Op::Routine(
                    Routine::Sub { n_bits: self.n_bits, limb_size: self.limb_size, a, b },
                ),
            ],
        )
    }

    /// Compare the big integers at depths `a` and `b` with `<=`.
    pub fn lessthanorequal(&self, a: u32, b: u32) -> (r: Script)
        ensures
            r@ == self.lessthanorequal_ops(a, b),
    {
        Script::from_ops(
            vec![
                Op::Routine(
                    Routine::LessThanOrEqual {
                        n_bits: self.n_bits,
                        limb_size: self.limb_size,
                        a,
                        b,
                    },
                ),
            ],
        )
    }

    /// Compare the big integers at depths `a` and `b` with `>`.
    pub fn greaterthan(&self, a: u32, b: u32) -> (r: Script)
        ensures
            r@ == self.greaterthan_ops(a, b),
    {
        Script::from_ops(
            vec![
                Op::Routine(
                    Routine::GreaterThan { n_bits: self.n_bits, limb_size: self.limb_size, a, b },
                ),
            ],
        )
    }

    /// Push the constant with the given little-endian 32-bit digits.
    pub fn push_u32_le(&self, digits: Vec<u32>) -> (r: Script)
        ensures
            r@ == self.push_u32_le_ops(digits),
    {
        Script::from_ops(
            vec![
                Op::Routine(
                    Routine::PushU32Le {
                        n_bits: self.n_bits,
                        limb_size: self.limb_size,
                        digits,
                    },
                ),
            ],
        )
    }

    /// Interleave the limbs of the top big integer with a copy of those of
    /// the one at depth `a`.
    pub fn dup_zip(&self, a: u32) -> (r: Script)
        ensures
            r@ == self.dup_zip_ops(a),
    {
        Script::from_ops(
            vec![
                Op::Routine(
                    Routine::DupZip { n_bits: self.n_bits, limb_size: self.limb_size, a },
                ),
            ],
        )
    }
}

} // verus!
