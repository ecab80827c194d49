//! Multiplication in the BN254 base field with separate window widths for the
//! multiplier `y` and for the modulus `p`, on a stack of limbs.
use crate::bigint::add::{limb_add_carry, limb_add_nocarry};
use crate::bigint::op_tmul::{
    decomp_bits_ops, decomp_bit_ops, decomp_start_ops, dbl_ops, doubling_nocarry_ops,
    doubling_step_ops, initial_carry_ops,
};
use crate::bigint::ceil_div;
use crate::biguint::{digits_value, normalized};
use crate::bn254::{bn254_modulus, modulus_decimal};
use crate::pseudo::{lemma_op_2mul, op_2mul_ops, OP_2MUL, OP_NDUP};
use crate::script::{executing, is_num, lemma_run_single, repeat, run, st, Op, Routine, Script};
use crate::stack::{lemma_binary, lemma_dup, lemma_run_push, lemma_run_seq};
use vstd::arithmetic::div_mod::*;
use vstd::arithmetic::power2::*;
use vstd::prelude::*;
use vstd::std_specs::bits::{axiom_u32_leading_zeros, u32_leading_zeros};

verus! {

/// Bit `i` of `n`.
pub open spec fn nbit(n: nat, i: nat) -> nat {
    (n / pow2(i)) % 2
}

/// The number of bits of `n`: the least `k` with `n < 2^k`.
pub open spec fn bit_len(n: nat) -> nat
    decreases n,
{
    if n == 0 {
        0
    } else {
        1 + bit_len(n / 2)
    }
}

/// The number of set bits among the lowest `k` bits of `n`.
pub open spec fn bit_count(n: nat, k: nat) -> nat
    decreases k,
{
    if k == 0 {
        0
    } else {
        bit_count(n, (k - 1) as nat) + nbit(n, (k - 1) as nat)
    }
}

/// The doublings of [`NMUL`] over the lowest `k` bits of `n`: a copy of the
/// running multiple is kept for each set bit.
pub open spec fn nmul_doublings(n: nat, k: nat) -> Seq<Op>
    decreases k,
{
    if k == 0 {
        Seq::empty()
    } else {
        nmul_doublings(n, (k - 1) as nat) + (if nbit(n, (k - 1) as nat) == 1 {
            seq![Op::Dup]
        } else {
            Seq::empty()
        }) + op_2mul_ops()
    }
}

/// The script of [`NMUL`]: it multiplies the top stack item by `n`.
pub open spec fn nmul_ops(n: nat) -> Seq<Op> {
    if n == 0 {
        seq![Op::Drop, Op::Push(0)]
    } else {
        nmul_doublings(n, (bit_len(n) - 1) as nat) + repeat(
            seq![Op::Add],
            (bit_count(n, bit_len(n)) - 1) as nat,
        )
    }
}

/// `n` has `k` bits when it lies in `[2^(k-1), 2^k)`.
pub proof fn lemma_bit_len_bounds(n: nat, k: nat)
    requires
        k >= 1,
        pow2((k - 1) as nat) <= n < pow2(k),
    ensures
        bit_len(n) == k,
        nbit(n, (k - 1) as nat) == 1,
    decreases k,
{
    lemma_pow2_unfold(k);
    lemma_pow2_pos((k - 1) as nat);
    if k == 1 {
        assert(pow2(0) == 1) by {
            lemma2_to64();
        }
        assert(n == 1);
        assert(bit_len(0) == 0);
    } else {
        let t = (k - 1) as nat;
        lemma_pow2_unfold(t);
        lemma_bit_len_bounds(n / 2, t);
    }
    let h = pow2((k - 1) as nat);
    lemma_fundamental_div_mod(n as int, h as int);
    assert(n / h == 1) by {
        lemma_div_is_ordered(h as int, n as int, h as int);
        lemma_div_by_multiple_is_strongly_ordered(n as int, 2 * h as int, 2, h as int);
        lemma_div_by_multiple(1, h as int);
        lemma_div_by_multiple(2, h as int);
    }
}

/// The bit length computed from `leading_zeros`.
proof fn lemma_bit_len_leading_zeros(n: u32)
    requires
        n > 0,
    ensures
        32 - u32_leading_zeros(n) == bit_len(n as nat),
        nbit(n as nat, (bit_len(n as nat) - 1) as nat) == 1,
{
    axiom_u32_leading_zeros(n);
    let lz = u32_leading_zeros(n);
    let k = (32 - lz) as nat;
    let t = (31 - lz) as u32;
    assert(((n >> t) & 1u32) != 0u32 ==> (n >> t) >= 1) by (bit_vector);
    vstd::bits::lemma_u32_shr_is_div(n, t);
    lemma_pow2_pos(t as nat);
    assert(n as nat / pow2(t as nat) >= 1);
    assert(pow2(t as nat) <= n) by {
        lemma_fundamental_div_mod(n as int, pow2(t as nat) as int);
        vstd::arithmetic::mul::lemma_mul_inequality(1, n as int / pow2(t as nat) as int, pow2(t as nat) as int);
    }
    if lz >= 1 {
        let v = (32 - lz) as u32;
        vstd::bits::lemma_u32_shr_is_div(n, v);
        lemma_pow2_pos(v as nat);
        assert(n < pow2(v as nat)) by {
            lemma_fundamental_div_mod(n as int, pow2(v as nat) as int);
        }
    } else {
        assert(pow2(32) == 0x1_0000_0000) by {
            lemma2_to64();
        }
    }
    lemma_bit_len_bounds(n as nat, k);
}

/// Multiply the top stack item by `n`, by doubling and adding.
#[allow(non_snake_case)]
pub fn NMUL(n: u32) -> (r: Script)
    ensures
        r@ == nmul_ops(n as nat),
{
    let n_bits = u32::BITS - n.leading_zeros();
    proof {
        axiom_u32_leading_zeros(n);
        if n > 0 {
            lemma_bit_len_leading_zeros(n);
        }
    }
    let mut bits: Vec<u32> = Vec::new();
    let mut i: u32 = 0;
    while i < n_bits
        invariant
            n_bits <= 32,
            i <= n_bits,
            bits@.len() == i,
            forall|j: int| 0 <= j < i ==> bits@[j] as nat == nbit(n as nat, j as nat),
        decreases n_bits - i,
    {
        let b = 1 & (n >> i);
        proof {
            assert(1 & (n >> i) == (n >> i) % 2) by (bit_vector);
            vstd::bits::lemma_u32_shr_is_div(n, i);
        }
        bits.push(b);
        i = i + 1;
    }
    if n_bits == 0 {
        return Script::from_ops(vec![Op::Drop, Op::Push(0)]);
    }
    let ghost bl = bit_len(n as nat);
    let mut s = Script::new();
    let mut i: usize = 0;
    while i < bits.len() - 1
        invariant
            bits@.len() == bl,
            bl >= 1,
            i <= bl - 1,
            forall|j: int| 0 <= j < bl ==> bits@[j] as nat == nbit(n as nat, j as nat),
            s@ == nmul_doublings(n as nat, i as nat),
        decreases bl - 1 - i,
    {
        if bits[i] == 1 {
            s.push_op(Op::Dup);
        }
        s.append(OP_2MUL());
        i = i + 1;
    }
    let mut sum: u32 = 0;
    let mut j: usize = 0;
    while j < bits.len()
        invariant
            bits@.len() == bl,
            bl <= 32,
            j <= bl,
            forall|k: int| 0 <= k < bl ==> bits@[k] as nat == nbit(n as nat, k as nat),
            sum == bit_count(n as nat, j as nat),
            sum <= j,
        decreases bl - j,
    {
        proof {
            lemma_mod_bound((n as nat / pow2(j as nat)) as int, 2);
        }
        sum = sum + bits[j];
        j = j + 1;
    }
    proof {
        assert(sum >= 1);
    }
    let ghost pre = s@;
    let mut k: u32 = 1;
    while k < sum
        invariant
            1 <= k <= sum,
            s@ == pre + repeat(seq![Op::Add], (k - 1) as nat),
        decreases sum - k,
    {
        s.push_op(Op::Add);
        proof {
            assert(s@ == pre + repeat(seq![Op::Add], k as nat));
        }
        k = k + 1;
    }
    s
}


/// Doubling by [`NMUL`] is [`OP_2MUL`].
pub proof fn lemma_nmul_two()
    ensures
        nmul_ops(2) == op_2mul_ops(),
{
    assert(pow2(0) == 1 && pow2(1) == 2 && pow2(2) == 4) by {
        lemma2_to64();
    }
    lemma_bit_len_bounds(2, 2);
    assert(nbit(2, 0) == 0);
    assert(bit_count(2, 2) == 1) by {
        assert(bit_count(2, 0) == 0);
        assert(bit_count(2, 1) == 0);
    }
    assert(nmul_doublings(2, 0) == Seq::<Op>::empty());
    assert(nmul_doublings(2, 1) == op_2mul_ops());
    assert(repeat(seq![Op::Add], 0) == Seq::<Op>::empty());
}

fn limb_doubling_initial_carry() -> (r: Script)
    ensures
        r@ == initial_carry_ops(),
{
    let mut s = Script::from_ops(vec![Op::Swap]);
    s.append(NMUL(2));
    s.append(
        Script::from_ops(
            vec![
                Op::TwoDup,
                Op::LessThanOrEqual,
                Op::Tuck,
                Op::If,
                Op::Push(2),
                Op::Pick,
                Op::Sub,
                Op::EndIf,
            ],
        ),
    );
    proof {
        lemma_nmul_two();
    }
    s
}

fn limb_doubling_step() -> (r: Script)
    ensures
        r@ == doubling_step_ops(),
{
    let mut s = Script::from_ops(vec![Op::Rot]);
    s.append(NMUL(2));
    s.append(
        Script::from_ops(
            vec![
                Op::Add,
                Op::TwoDup,
                Op::LessThanOrEqual,
                Op::Tuck,
                Op::If,
                Op::Push(2),
                Op::Pick,
                Op::Sub,
                Op::EndIf,
            ],
        ),
    );
    proof {
        lemma_nmul_two();
    }
    s
}

fn limb_doubling_nocarry(head_offset: u32) -> (r: Script)
    ensures
        r@ == doubling_nocarry_ops(head_offset),
{
    let mut s = Script::from_ops(vec![Op::Swap]);
    s.append(NMUL(2));
    s.append(
        Script::from_ops(
            vec![
                Op::Add,
                Op::Push(head_offset),
                Op::TwoDup,
                Op::GreaterThanOrEqual,
                Op::If,
                Op::Sub,
                Op::Else,
                Op::Drop,
                Op::EndIf,
            ],
        ),
    );
    proof {
        lemma_nmul_two();
    }
    s
}

/// A big integer on the stack, with the operations of the field multiplier.
#[derive(Clone, Copy, Debug, PartialEq, Eq)]
pub struct BigIntImpl {
    pub n_bits: u32,
    pub limb_size: u32,
}

/// The script of [`BigIntImpl::resize`] from `n_self` to `n_target` limbs.
pub open spec fn resize_ops(n_self: nat, n_target: nat) -> Seq<Op> {
    if n_target == n_self {
        Seq::empty()
    } else if n_target > n_self {
        seq![Op::Push(0), Op::Routine(Routine::NDup { n: (n_target - n_self - 1) as u32 })]
            + repeat(seq![Op::Push((n_target - 1) as u32), Op::Roll], n_self)
    } else {
        repeat(seq![Op::Push(n_target as u32), Op::Roll, Op::Drop], (n_self - n_target) as nat)
    }
}

/// The part of [`BigIntImpl::ref_zip`] for the limbs below `i`.
pub open spec fn ref_zip_steps(b: u32, a: nat, i: nat) -> Seq<Op>
    decreases i,
{
    if i == 0 {
        Seq::empty()
    } else {
        ref_zip_steps(b, a, (i - 1) as nat) + seq![
            Op::Push(b),
            Op::Pick,
            Op::Push((a + i - 1) as u32),
            Op::Roll,
        ]
    }
}

/// The step of [`BigIntImpl::stack_ref_zip`] for limb `i` of `n`.
pub open spec fn stack_ref_zip_step(n: nat, i: nat) -> Seq<Op> {
    (if i > 0 {
        seq![Op::Rot]
    } else {
        Seq::empty()
    }) + seq![Op::Dup, Op::Pick] + (if i < n - 1 {
        seq![Op::Push((n + i) as u32), Op::Roll]
    } else {
        Seq::empty()
    })
}

/// The steps of [`BigIntImpl::stack_ref_zip`] for the limbs below `k`.
pub open spec fn stack_ref_zip_steps(n: nat, k: nat) -> Seq<Op>
    decreases k,
{
    if k == 0 {
        Seq::empty()
    } else {
        stack_ref_zip_steps(n, (k - 1) as nat) + stack_ref_zip_step(n, (k - 1) as nat)
    }
}

/// The step of [`BigIntImpl::ref_add`], for `b <= 1`, adding limb `i`.
pub open spec fn ref_add_step(n: nat, b_depth: nat, head_offset: u32, i: nat) -> Seq<Op> {
    seq![Op::Push((b_depth + 2) as u32), Op::Pick, Op::Add] + if i < n - 1 {
        seq![Op::Swap, Op::Routine(Routine::LimbAddCarry), Op::ToAltStack]
    } else {
        seq![Op::Nip, Op::Routine(Routine::LimbAddNoCarry { head_offset })]
    }
}

/// The steps of [`BigIntImpl::ref_add`], for `b <= 1`, for limbs `1` to `k - 1`.
pub open spec fn ref_add_steps(n: nat, b_depth: nat, head_offset: u32, k: nat) -> Seq<Op>
    decreases k,
{
    if k <= 1 {
        Seq::empty()
    } else {
        ref_add_steps(n, b_depth, head_offset, (k - 1) as nat) + ref_add_step(
            n,
            b_depth,
            head_offset,
            (k - 1) as nat,
        )
    }
}

/// One limb addition of [`BigIntImpl::ref_add_inner`].
pub open spec fn ref_add_inner_step() -> Seq<Op> {
    seq![
        Op::Push(2),
        Op::Pick,
        Op::Pick,
        Op::Add,
        Op::Push(3),
        Op::Roll,
        Op::Add,
        Op::TwoDup,
        Op::LessThanOrEqual,
        Op::Tuck,
        Op::If,
        Op::Push(2),
        Op::Pick,
        Op::Sub,
        Op::EndIf,
        Op::ToAltStack,
    ]
}

/// The script of [`BigIntImpl::ref_add_inner`].
pub open spec fn ref_add_inner_ops(n: nat, base: u32, head_offset: u32) -> Seq<Op> {
    seq![Op::Push(3), Op::Add, Op::Push(base), Op::Push(0)] + repeat(
        ref_add_inner_step(),
        (n - 1) as nat,
    ) + seq![
        Op::Nip,
        Op::Swap,
        Op::Push(2),
        Op::Sub,
        Op::Pick,
        Op::Add,
        Op::Add,
        Op::Push(head_offset),
        Op::TwoDup,
        Op::GreaterThanOrEqual,
        Op::If,
        Op::Sub,
        Op::Else,
        Op::Drop,
        Op::EndIf,
    ] + repeat(seq![Op::FromAltStack], (n - 1) as nat)
}

impl BigIntImpl {
    /// The shape of the big integer.
    pub open spec fn shape(self) -> crate::bigint::BigIntImpl {
        crate::bigint::BigIntImpl { n_bits: self.n_bits, limb_size: self.limb_size }
    }

    /// The shape of the big integer.
    pub fn shape_exec(&self) -> (r: crate::bigint::BigIntImpl)
        ensures
            r == self.shape(),
    {
        crate::bigint::BigIntImpl { n_bits: self.n_bits, limb_size: self.limb_size }
    }

    /// Number of limbs.
    pub open spec fn limbs(self) -> nat {
        self.shape().limbs()
    }

    /// The script of [`BigIntImpl::is_negative`] (with `OP_GREATERTHANOREQUAL`)
    /// and of [`BigIntImpl::is_positive`] (with `OP_LESSTHAN`).
    pub open spec fn sign_test_ops(self, depth: u32, test_op: Op) -> Seq<Op> {
        seq![
            Op::Push(((1 + depth) * self.limbs() - 1) as u32),
            Op::Pick,
            Op::Push((self.shape().head_bound() / 2) as u32),
            test_op,
        ]
    }

    /// The script of [`BigIntImpl::stack_copy`].
    pub open spec fn stack_copy_ops(self) -> Seq<Op> {
        nmul_ops(self.limbs() + 1) + repeat(
            seq![Op::Dup, Op::Pick, Op::Swap],
            (self.limbs() - 1) as nat,
        ) + seq![Op::OneSub, Op::Pick]
    }

    /// The script of [`BigIntImpl::dbl`].
    pub open spec fn dbl_ops(self) -> Seq<Op> {
        dbl_ops(self.limbs(), self.shape().base() as u32, self.shape().head_bound() as u32)
    }

    /// Double the big integer on top of the stack.
    pub fn dbl(&self) -> (r: Script)
        requires
            self.shape().shape_ok(),
            self.limbs() >= 2,
        ensures
            r@ == self.dbl_ops(),
    {
        let c = self.shape_exec();
        let n = c.n_limbs();
        let mut s = Script::new();
        s.push_num(c.limb_base());
        s.append(limb_doubling_initial_carry());
        s.push_op(Op::ToAltStack);
        let ghost pre = s@;
        let mut i: u32 = 0;
        while i < n - 2
            invariant
                n == self.limbs(),
                n >= 2,
                i <= n - 2,
                s@ == pre + repeat(doubling_step_ops() + seq![Op::ToAltStack], i as nat),
            decreases n - 2 - i,
        {
            s.append(limb_doubling_step());
            s.push_op(Op::ToAltStack);
            proof {
                assert(s@ == pre + repeat(doubling_step_ops() + seq![Op::ToAltStack], (i + 1) as nat));
            }
            i = i + 1;
        }
        s.push_op(Op::Nip);
        s.append(limb_doubling_nocarry(c.head_offset()));
        let ghost mid = s@;
        let mut k: u32 = 0;
        while k < n - 1
            invariant
                n == self.limbs(),
                n >= 2,
                k <= n - 1,
                s@ == mid + repeat(seq![Op::FromAltStack], k as nat),
            decreases n - 1 - k,
        {
            s.push_op(Op::FromAltStack);
            proof {
                assert(s@ == mid + repeat(seq![Op::FromAltStack], (k + 1) as nat));
            }
            k = k + 1;
        }
        s
    }

    /// Push `1` where the big integer at `depth` is negative (its head limb
    /// has its top bit set), else `0`.
    pub fn is_negative(&self, depth: u32) -> (r: Script)
        requires
            self.shape().shape_ok(),
            (1 + depth) * self.limbs() <= u32::MAX,
        ensures
            r@ == self.sign_test_ops(depth, Op::GreaterThanOrEqual),
    {
        let c = self.shape_exec();
        let n = c.n_limbs();
        let h = c.head_offset();
        proof {
            assert((1 + depth) * n >= 1 + depth) by (nonlinear_arith)
                requires
                    n >= 1,
            ;
            assert(h >> 1u32 == h / 2) by (bit_vector);
        }
        Script::from_ops(
            vec![Op::Push((1 + depth) * n - 1), Op::Pick, Op::Push(h >> 1), Op::GreaterThanOrEqual],
        )
    }

    /// Push `1` where the big integer at `depth` is positive (its head limb
    /// has its top bit clear), else `0`.
    pub fn is_positive(&self, depth: u32) -> (r: Script)
        requires
            self.shape().shape_ok(),
            (1 + depth) * self.limbs() <= u32::MAX,
        ensures
            r@ == self.sign_test_ops(depth, Op::LessThan),
    {
        let c = self.shape_exec();
        let n = c.n_limbs();
        let h = c.head_offset();
        proof {
            assert((1 + depth) * n >= 1 + depth) by (nonlinear_arith)
                requires
                    n >= 1,
            ;
            assert(h >> 1u32 == h / 2) by (bit_vector);
        }
        Script::from_ops(
            vec![Op::Push((1 + depth) * n - 1), Op::Pick, Op::Push(h >> 1), Op::LessThan],
        )
    }

    /// Resize a non-negative big integer to `t_bits` bits: add zero limbs at
    /// the head, or drop head limbs.
    pub fn resize(&self, t_bits: u32) -> (r: Script)
        requires
            self.shape().shape_ok(),
            0 < t_bits,
            t_bits + self.limb_size <= u32::MAX,
        ensures
            r@ == resize_ops(
                self.limbs(),
                (crate::bigint::BigIntImpl { n_bits: t_bits, limb_size: self.limb_size }).limbs(),
            ),
    {
        let n_limbs_self = self.shape_exec().n_limbs();
        let n_limbs_target = (crate::bigint::BigIntImpl { n_bits: t_bits, limb_size: self.limb_size }).n_limbs();
        if n_limbs_target == n_limbs_self {
            return Script::new();
        } else if n_limbs_target > n_limbs_self {
            let n_limbs_to_add = n_limbs_target - n_limbs_self;
            let mut s = Script::new();
            if n_limbs_to_add > 0 {
                s.push_num(0);
                s.append(OP_NDUP(n_limbs_to_add - 1));
            }
            let ghost pre = s@;
            let mut i: u32 = 0;
            while i < n_limbs_self
                invariant
                    i <= n_limbs_self,
                    n_limbs_target >= 1,
                    s@ == pre + repeat(seq![Op::Push((n_limbs_target - 1) as u32), Op::Roll], i as nat),
                decreases n_limbs_self - i,
            {
                s.append(Script::from_ops(vec![Op::Push(n_limbs_target - 1), Op::Roll]));
                proof {
                    assert(s@ == pre + repeat(seq![Op::Push((n_limbs_target - 1) as u32), Op::Roll], (i + 1) as nat));
                }
                i = i + 1;
            }
            s
        } else {
            let n_limbs_to_remove = n_limbs_self - n_limbs_target;
            let mut s = Script::new();
            let mut i: u32 = 0;
            while i < n_limbs_to_remove
                invariant
                    i <= n_limbs_to_remove,
                    s@ == repeat(seq![Op::Push(n_limbs_target), Op::Roll, Op::Drop], i as nat),
                decreases n_limbs_to_remove - i,
            {
                s.append(Script::from_ops(vec![Op::Push(n_limbs_target), Op::Roll, Op::Drop]));
                proof {
                    assert(s@ == repeat(seq![Op::Push(n_limbs_target), Op::Roll, Op::Drop], (i + 1) as nat));
                }
                i = i + 1;
            }
            s
        }
    }

    /// Copy to the top the `n_limbs` items that lie below depth
    /// `(n_limbs + 1) * d`, where `d` is the number on top of the stack.
    pub fn stack_copy(&self) -> (r: Script)
        requires
            self.shape().shape_ok(),
        ensures
            r@ == self.stack_copy_ops(),
    {
        let n = self.shape_exec().n_limbs();
        let mut s = NMUL(n + 1);
        let ghost pre = s@;
        let mut i: u32 = 0;
        while i < n - 1
            invariant
                i <= n - 1,
                n >= 1,
                s@ == pre + repeat(seq![Op::Dup, Op::Pick, Op::Swap], i as nat),
            decreases n - 1 - i,
        {
            s.append(Script::from_ops(vec![Op::Dup, Op::Pick, Op::Swap]));
            proof {
                assert(s@ == pre + repeat(seq![Op::Dup, Op::Pick, Op::Swap], (i + 1) as nat));
            }
            i = i + 1;
        }
        s.append(Script::from_ops(vec![Op::OneSub, Op::Pick]));
        s
    }

    /// Interleave the limbs of the top big integer with copies of those of
    /// the big integer at depth `b`.
    pub fn ref_zip(&self, b: u32) -> (r: Script)
        requires
            self.shape().shape_ok(),
            (b + 1) * self.limbs() <= u32::MAX,
            2 * self.limbs() <= u32::MAX,
        ensures
            b == 0 ==> r@ == self.shape().dup_zip_ops(0),
            b != 0 ==> r@ == ref_zip_steps(
                ((b + 1) * self.limbs() - 1) as u32,
                (self.limbs() - 1) as nat,
                (self.limbs() - 1) as nat,
            ) + seq![Op::Push(((b + 1) * self.limbs() - 1) as u32), Op::Pick],
    {
        let n = self.shape_exec().n_limbs();
        let a = n - 1;
        if b == 0 {
            self.shape_exec().dup_zip(0)
        } else {
            proof {
                assert((b + 1) * n >= b + 1) by (nonlinear_arith)
                    requires
                        n >= 1,
                ;
            }
            let bb = (b + 1) * n - 1;
            let mut s = Script::new();
            let mut i: u32 = 0;
            while i < n - 1
                invariant
                    n == self.limbs(),
                    n >= 1,
                    2 * n <= u32::MAX,
                    a == n - 1,
                    i <= n - 1,
                    s@ == ref_zip_steps(bb, a as nat, i as nat),
                decreases n - 1 - i,
            {
                s.append(Script::from_ops(vec![Op::Push(bb), Op::Pick, Op::Push(a + i), Op::Roll]));
                i = i + 1;
            }
            s.append(Script::from_ops(vec![Op::Push(bb), Op::Pick]));
            s
        }
    }

    /// Interleave the limbs of the top big integer with copies of those of
    /// the big integer at the depth given on top of the stack.
    pub fn stack_ref_zip(&self) -> (r: Script)
        requires
            self.shape().shape_ok(),
            2 * self.limbs() <= u32::MAX,
        ensures
            r@ == nmul_ops(self.limbs()) + seq![Op::Push(self.limbs() as u32), Op::Add]
                + stack_ref_zip_steps(self.limbs(), self.limbs()) + seq![Op::Nip],
    {
        let n = self.shape_exec().n_limbs();
        let mut s = NMUL(n);
        s.append(Script::from_ops(vec![Op::Push(n), Op::Add]));
        let ghost pre = s@;
        let mut i: u32 = 0;
        while i < n
            invariant
                n == self.limbs(),
                n >= 1,
                2 * n <= u32::MAX,
                i <= n,
                s@ == pre + stack_ref_zip_steps(n as nat, i as nat),
            decreases n - i,
        {
            let ghost before = s@;
            if i > 0 {
                s.push_op(Op::Rot);
            }
            s.append(Script::from_ops(vec![Op::Dup, Op::Pick]));
            if i < n - 1 {
                s.append(Script::from_ops(vec![Op::Push(n + i), Op::Roll]));
            }
            proof {
                assert(s@ == before + stack_ref_zip_step(n as nat, i as nat));
            }
            i = i + 1;
        }
        s.push_op(Op::Nip);
        s
    }

    /// The script of [`BigIntImpl::ref_add`].
    pub open spec fn ref_add_ops(self, b: u32) -> Seq<Op> {
        let n = self.limbs();
        let b_depth = (b * n) as nat;
        let h = self.shape().head_bound() as u32;
        if b > 1 {
            seq![Op::Push(b_depth as u32)] + ref_add_inner_ops(n, self.shape().base() as u32, h)
        } else {
            seq![
                Op::Push(b_depth as u32),
                Op::Pick,
                Op::Push(self.shape().base() as u32),
                Op::Routine(Routine::LimbAddCarry),
                Op::ToAltStack,
            ] + ref_add_steps(n, b_depth, h, n) + repeat(seq![Op::FromAltStack], (n - 1) as nat)
        }
    }

    /// Add the big integer at depth `b` to the top one.
    pub fn ref_add(&self, b: u32) -> (r: Script)
        requires
            self.shape().shape_ok(),
            b * self.limbs() + 2 <= u32::MAX,
        ensures
            r@ == self.ref_add_ops(b),
    {
        let c = self.shape_exec();
        let n = c.n_limbs();
        proof {
            assert(b * n <= b * n + 2);
        }
        let b_depth = b * n;
        if b > 1 {
            let mut s = Script::from_ops(vec![Op::Push(b_depth)]);
            s.append(self.ref_add_inner());
            s
        } else {
            let mut s = Script::from_ops(vec![Op::Push(b_depth), Op::Pick, Op::Push(c.limb_base())]);
            s.append(limb_add_carry());
            s.push_op(Op::ToAltStack);
            let ghost pre = s@;
            let h = c.head_offset();
            let mut i: u32 = 1;
            while i < n
                invariant
                    n == self.limbs(),
                    n >= 1,
                    h == self.shape().head_bound(),
                    b_depth == b * n,
                    b_depth + 2 <= u32::MAX,
                    1 <= i <= n,
                    s@ == pre + ref_add_steps(n as nat, b_depth as nat, h, i as nat),
                decreases n - i,
            {
                let ghost before = s@;
                s.append(Script::from_ops(vec![Op::Push(b_depth + 2), Op::Pick, Op::Add]));
                if i < n - 1 {
                    s.push_op(Op::Swap);
                    s.append(limb_add_carry());
                    s.push_op(Op::ToAltStack);
                } else {
                    s.push_op(Op::Nip);
                    s.append(limb_add_nocarry(h));
                }
                proof {
                    assert(s@ == before + ref_add_step(n as nat, b_depth as nat, h, i as nat));
                }
                i = i + 1;
            }
            let ghost mid = s@;
            let mut k: u32 = 0;
            while k < n - 1
                invariant
                    n >= 1,
                    k <= n - 1,
                    s@ == mid + repeat(seq![Op::FromAltStack], k as nat),
                decreases n - 1 - k,
            {
                s.push_op(Op::FromAltStack);
                proof {
                    assert(s@ == mid + repeat(seq![Op::FromAltStack], (k + 1) as nat));
                }
                k = k + 1;
            }
            s
        }
    }

    /// Add the big integer at the depth given on top of the stack to the top
    /// one.
    pub fn stack_ref_add(&self) -> (r: Script)
        requires
            self.shape().shape_ok(),
        ensures
            r@ == nmul_ops(self.limbs()) + ref_add_inner_ops(
                self.limbs(),
                self.shape().base() as u32,
                self.shape().head_bound() as u32,
            ),
    {
        let n = self.shape_exec().n_limbs();
        let mut s = NMUL(n);
        s.append(self.ref_add_inner());
        s
    }

    /// Add the big integer at the limb depth given on top of the stack to the
    /// top one.
    fn ref_add_inner(&self) -> (r: Script)
        requires
            self.shape().shape_ok(),
        ensures
            r@ == ref_add_inner_ops(
                self.limbs(),
                self.shape().base() as u32,
                self.shape().head_bound() as u32,
            ),
    {
        let c = self.shape_exec();
        let n = c.n_limbs();
        let mut s = Script::from_ops(vec![Op::Push(3), Op::Add, Op::Push(c.limb_base()), Op::Push(0)]);
        let ghost pre = s@;
        let mut i: u32 = 0;
        while i < n - 1
            invariant
                n >= 1,
                i <= n - 1,
                s@ == pre + repeat(ref_add_inner_step(), i as nat),
            decreases n - 1 - i,
        {
            s.append(
                Script::from_ops(
                    vec![
                        Op::Push(2),
                        Op::Pick,
                        Op::Pick,
                        Op::Add,
                        Op::Push(3),
                        Op::Roll,
                        Op::Add,
                        Op::TwoDup,
                        Op::LessThanOrEqual,
                        Op::Tuck,
                        Op::If,
                        Op::Push(2),
                        Op::Pick,
                        Op::Sub,
                        Op::EndIf,
                        Op::ToAltStack,
                    ],
                ),
            );
            proof {
                assert(s@ == pre + repeat(ref_add_inner_step(), (i + 1) as nat));
            }
            i = i + 1;
        }
        s.append(
            Script::from_ops(
                vec![
                    Op::Nip,
                    Op::Swap,
                    Op::Push(2),
                    Op::Sub,
                    Op::Pick,
                    Op::Add,
                    Op::Add,
                    Op::Push(c.head_offset()),
                    Op::TwoDup,
                    Op::GreaterThanOrEqual,
                    Op::If,
                    Op::Sub,
                    Op::Else,
                    Op::Drop,
                    Op::EndIf,
                ],
            ),
        );
        let ghost mid = s@;
        let mut k: u32 = 0;
        while k < n - 1
            invariant
                n >= 1,
                k <= n - 1,
                s@ == mid + repeat(seq![Op::FromAltStack], k as nat),
            decreases n - 1 - k,
        {
            s.push_op(Op::FromAltStack);
            proof {
                assert(s@ == mid + repeat(seq![Op::FromAltStack], (k + 1) as nat));
            }
            k = k + 1;
        }
        s
    }
}


/// The table `{0*z, 1*z, ..., (2^window - 1)*z}` of the multiples of a big
/// integer `z`, for a window width given per table.
#[derive(Clone, Copy, Debug, PartialEq, Eq)]
pub struct LookupTable {
    pub n_bits: u32,
    pub limb_size: u32,
}

/// The opcodes computing entry `j` of a lookup table of entries of shape `w`.
pub open spec fn lookup_entry_ops(w: BigIntImpl, j: nat) -> Seq<Op> {
    if j % 2 == 0 {
        w.shape().copy_ops((j / 2 - 1) as u32) + w.dbl_ops()
    } else {
        w.shape().copy_ops(0) + w.ref_add_ops((j - 1) as u32)
    }
}

/// The opcodes computing entries `2` to `k - 1` of a lookup table.
pub open spec fn lookup_entries_ops(w: BigIntImpl, k: nat) -> Seq<Op>
    decreases k,
{
    if k <= 2 {
        Seq::empty()
    } else {
        lookup_entries_ops(w, (k - 1) as nat) + lookup_entry_ops(w, (k - 1) as nat)
    }
}

impl LookupTable {
    /// Shape of an entry.
    pub open spec fn w(self) -> BigIntImpl {
        BigIntImpl { n_bits: self.n_bits, limb_size: self.limb_size }
    }

    /// Shape of an entry.
    pub fn w_shape(&self) -> (r: BigIntImpl)
        ensures
            r == self.w(),
    {
        BigIntImpl { n_bits: self.n_bits, limb_size: self.limb_size }
    }

    /// Whether tables of this entry shape can be built.
    pub open spec fn table_ok(self) -> bool {
        &&& self.w().shape().shape_ok()
        &&& self.w().limbs() >= 2
        &&& 64 * self.w().limbs() + 2 <= u32::MAX
    }

    /// Number of entries of a table for the given window, besides the entry
    /// for `0`.
    pub fn size(window: u32) -> (r: u32)
        requires
            window < 32,
        ensures
            r == pow2(window as nat) - 1,
    {
        proof {
            vstd::bits::lemma_u32_pow2_no_overflow(window as nat);
            vstd::bits::lemma_u32_shl_is_mul(1u32, window);
        }
        (1u32 << window) - 1
    }

    /// The script of [`LookupTable::drop`].
    pub open spec fn drop_table_ops(self, window: u32) -> Seq<Op> {
        repeat(self.w().shape().drop_ops(), (pow2(window as nat) - 1) as nat)
    }

    /// The script of [`LookupTable::initialize`].
    pub open spec fn initialize_ops(self, window: u32) -> Seq<Op> {
        lookup_entries_ops(self.w(), pow2(window as nat))
    }

    /// Drop the table for the given window on top of the stack.
    fn drop(&self, window: u32) -> (r: Script)
        requires
            window < 32,
        ensures
            r@ == self.drop_table_ops(window),
    {
        let u = self.w_shape().shape_exec();
        proof {
            vstd::bits::lemma_u32_pow2_no_overflow(window as nat);
            vstd::bits::lemma_u32_shl_is_mul(1u32, window);
        }
        let n = 1u32 << window;
        let mut s = Script::new();
        let mut i: u32 = 1;
        while i < n
            invariant
                u == self.w().shape(),
                1 <= i <= n,
                s@ == repeat(u.drop_ops(), (i - 1) as nat),
            decreases n - i,
        {
            s.append(u.drop());
            proof {
                assert(s@ == repeat(u.drop_ops(), i as nat));
            }
            i = i + 1;
        }
        s
    }

    /// Extend `{z}` to the table `{1*z, 2*z, ..., (2^window - 1)*z}`.
    pub fn initialize(&self, window: u32) -> (r: Script)
        requires
            1 <= window <= 6,
            self.table_ok(),
        ensures
            r@ == self.initialize_ops(window),
    {
        let w = self.w_shape();
        let mut s = Script::new();
        proof {
            assert(pow2(1) == 2 && pow2(2) == 4) by {
                lemma2_to64();
            }
            assert(lookup_entries_ops(w, 2) == Seq::<Op>::empty());
        }
        let mut i: u32 = 2;
        while i <= window
            invariant
                w == self.w(),
                self.table_ok(),
                1 <= window <= 6,
                2 <= i <= window + 1,
                s@ == lookup_entries_ops(w, pow2((i - 1) as nat)),
            decreases window + 1 - i,
        {
            proof {
                vstd::bits::lemma_u32_pow2_no_overflow(i as nat);
                vstd::bits::lemma_u32_pow2_no_overflow((i - 1) as nat);
                vstd::bits::lemma_u32_shl_is_mul(1u32, i);
                vstd::bits::lemma_u32_shl_is_mul(1u32, (i - 1) as u32);
                lemma_pow2_unfold(i as nat);
                lemma_pow2_pos((i - 1) as nat);
                lemma2_to64();
                if i > 2 {
                    lemma_pow2_strictly_increases(1, (i - 1) as nat);
                }
                if i < 6 {
                    lemma_pow2_strictly_increases(i as nat, 6);
                }
            }
            let hi = 1u32 << i;
            let mut j: u32 = 1u32 << (i - 1);
            while j < hi
                invariant
                    w == self.w(),
                    self.table_ok(),
                    hi == pow2(i as nat),
                    hi <= 64,
                    2 <= j <= hi,
                    s@ == lookup_entries_ops(w, j as nat),
                decreases hi - j,
            {
                let ghost before = s@;
                if j % 2 == 0 {
                    s.append(w.shape_exec().copy(j / 2 - 1));
                    s.append(w.dbl());
                } else {
                    s.append(w.shape_exec().copy(0));
                    proof {
                        assert((j - 1) * w.limbs() <= 64 * w.limbs()) by (nonlinear_arith)
                            requires
                                j <= 64,
                        ;
                    }
                    s.append(w.ref_add(j - 1));
                }
                proof {
                    assert(s@ == before + lookup_entry_ops(w, j as nat));
                    assert(s@ == lookup_entries_ops(w, (j + 1) as nat));
                }
                j = j + 1;
            }
            i = i + 1;
        }
        s
    }
}


impl BigIntImpl {
    /// The script of [`BigIntImpl::stack_ref_add`].
    pub open spec fn stack_ref_add_ops(self) -> Seq<Op> {
        nmul_ops(self.limbs()) + ref_add_inner_ops(
            self.limbs(),
            self.shape().base() as u32,
            self.shape().head_bound() as u32,
        )
    }
}

/// Reads the windows of `y`, one per call, from the most significant one;
/// `y` lies just below the accumulator of `n_limbs` limbs.
#[derive(Clone, Copy, Debug, PartialEq, Eq)]
pub struct VarWindowScriptGenerator {
    pub n_window: u32,
    pub limb_size: u32,
    pub var_width: u32,
    pub n_limbs: u32,
    /// One more than the window the next call reads, counted from 1 at the
    /// least significant end.
    pub iter: u32,
}

/// The script reading window `iter` (from 1 at the least significant end).
pub open spec fn var_window_ops(g: VarWindowScriptGenerator, iter: int) -> Seq<Op> {
    let lo = g.n_limbs as int;
    let s_bit = iter * g.var_width - 1;
    let e_bit = (iter - 1) * g.var_width;
    let s_limb = s_bit / (g.limb_size as int);
    let e_limb = e_bit / (g.limb_size as int);
    decomp_start_ops(g.n_window, g.limb_size, iter, lo, s_bit, s_limb) + decomp_bits_ops(
        g.limb_size,
        g.var_width,
        s_bit,
        s_limb,
        e_limb,
        lo,
        g.var_width as nat,
    ) + if iter == 1 {
        seq![Op::Drop]
    } else {
        seq![Op::ToAltStack]
    }
}

impl VarWindowScriptGenerator {
    /// Whether a call can be made.
    pub open spec fn next_ok(self) -> bool {
        &&& self.iter >= 2
        &&& 0 < self.limb_size < 32
        &&& 0 < self.var_width
        &&& self.n_limbs + (self.iter - 1) * self.var_width <= u32::MAX
    }

    /// The script reading the next window.
    pub fn next(&mut self) -> (r: Script)
        requires
            old(self).next_ok(),
        ensures
            *final(self) == (VarWindowScriptGenerator { iter: (old(self).iter - 1) as u32, ..*old(self) }),
            r@ == var_window_ops(*old(self), old(self).iter - 1),
    {
        let n_limbs = self.n_limbs;
        let stack_top = n_limbs;
        self.iter = self.iter - 1;
        let iter = self.iter;
        let ls = self.limb_size;
        let w = self.var_width;
        proof {
            assert(iter * w >= 1) by (nonlinear_arith)
                requires
                    iter >= 1,
                    w >= 1,
            ;
            assert((iter - 1) * w <= iter * w) by (nonlinear_arith)
                requires
                    iter >= 1,
            ;
        }
        let s_bit = iter * w - 1;
        let e_bit = (iter - 1) * w;
        proof {
            assert(e_bit <= s_bit) by (nonlinear_arith)
                requires
                    iter >= 1,
                    w >= 1,
                    s_bit == iter * w - 1,
                    e_bit == (iter - 1) * w,
            ;
        }
        let s_limb = s_bit / ls;
        let e_limb = e_bit / ls;
        proof {
            assert(s_limb <= s_bit) by (nonlinear_arith)
                requires
                    ls >= 1,
                    s_limb == s_bit / ls,
            ;
            assert(e_limb <= s_limb) by (nonlinear_arith)
                requires
                    ls >= 1,
                    s_limb == s_bit / ls,
                    e_limb == e_bit / ls,
                    e_bit <= s_bit,
            ;
            assert(w - 1 <= s_bit) by (nonlinear_arith)
                requires
                    iter >= 1,
                    s_bit == iter * w - 1,
            ;
        }
        let mut s = Script::from_ops(vec![Op::Push(0)]);
        if iter == self.n_window {
            s.append(Script::from_ops(vec![Op::Push(stack_top + s_limb + 1), Op::Pick]));
        } else if (s_bit + 1) % ls == 0 {
            s.append(
                Script::from_ops(
                    vec![Op::FromAltStack, Op::Drop, Op::Push(stack_top + s_limb + 1), Op::Pick],
                ),
            );
        } else {
            s.push_op(Op::FromAltStack);
        }
        let ghost g = *old(self);
        let ghost pre = s@;
        assert(pre == decomp_start_ops(
            g.n_window,
            g.limb_size,
            iter as int,
            stack_top as int,
            s_bit as int,
            s_limb as int,
        ));
        let mut i: u32 = 0;
        while i < w
            invariant
                *self == (VarWindowScriptGenerator { iter: (g.iter - 1) as u32, ..g }),
                ls == g.limb_size,
                w == g.var_width,
                0 < ls < 32,
                i <= w,
                w - 1 <= s_bit,
                stack_top + e_limb + 1 <= u32::MAX,
                s@ == pre + decomp_bits_ops(
                    g.limb_size,
                    g.var_width,
                    s_bit as int,
                    s_limb as int,
                    e_limb as int,
                    stack_top as int,
                    i as nat,
                ),
            decreases w - i,
        {
            let ghost before = s@;
            if s_limb > e_limb {
                if i % ls == (s_bit % ls) + 1 {
                    s.append(
                        Script::from_ops(
                            vec![Op::Drop, Op::Push(stack_top + e_limb + 1), Op::Pick],
                        ),
                    );
                }
            }
            let k = (s_bit - i) % ls;
            proof {
                vstd::bits::lemma_u32_pow2_no_overflow(k as nat);
                vstd::bits::lemma_u32_shl_is_mul(1u32, k);
                lemma_pow2_pos(k as nat);
                lemma_nmul_two();
            }
            s.push_op(Op::Tuck);
            s.push_num((1u32 << k) - 1);
            s.append(Script::from_ops(vec![Op::GreaterThan, Op::Tuck, Op::Add]));
            if i < w - 1 {
                s.append(NMUL(2));
            }
            s.append(
                Script::from_ops(
                    vec![Op::Rot, Op::Rot, Op::If, Op::Push(1u32 << k), Op::Sub, Op::EndIf],
                ),
            );
            proof {
                assert(s@ == before + decomp_bit_ops(
                    g.limb_size,
                    g.var_width,
                    s_bit as int,
                    s_limb as int,
                    e_limb as int,
                    stack_top as int,
                    i as int,
                ));
            }
            i = i + 1;
        }
        if iter == 1 {
            s.push_op(Op::Drop);
        } else {
            s.push_op(Op::ToAltStack);
        }
        s
    }
}

/// Multiplication in the BN254 base field: `var_width`-bit windows of the
/// multiplier `y`, `mod_width`-bit windows of the modulus.
#[derive(Clone, Copy, Debug, PartialEq, Eq)]
pub struct Fq {
    pub n_bits: u32,
    pub limb_size: u32,
    pub var_width: u32,
    pub mod_width: u32,
}

/// `n` rounded up to a multiple of `w`.
pub open spec fn round_up(n: nat, w: nat) -> nat {
    ceil_div(n, w) * w
}

impl Fq {
    /// Sizes this multiplier supports: windows of 1 to 6 bits, and widths
    /// whose counts of iterations fit the `i32` counts it returns.
    pub open spec fn params_ok(self) -> bool {
        &&& 0 < self.limb_size < 32
        &&& 1 <= self.var_width <= 6
        &&& 1 <= self.mod_width <= 6
        &&& 0 < self.n_bits
        &&& self.n_bits + 64 <= 0x7fff_ffff
    }

    /// Where the search for the extended width starts: the width rounded up
    /// to both window widths.
    pub open spec fn ext_start(self) -> nat {
        let a = round_up(self.n_bits as nat, self.mod_width as nat);
        let b = round_up(self.n_bits as nat, self.var_width as nat);
        if b > a {
            b
        } else {
            a
        }
    }

    /// Whether `v` is a multiple of both window widths.
    pub open spec fn common(self, v: nat) -> bool {
        v % (self.mod_width as nat) == 0 && v % (self.var_width as nat) == 0
    }

    /// Whether `u` is the extended width: the least multiple of both window
    /// widths from [`Fq::ext_start`] on.
    pub open spec fn is_ext(self, u: nat) -> bool {
        &&& u >= self.ext_start()
        &&& self.common(u)
        &&& forall|v: nat| self.ext_start() <= v < u ==> !#[trigger] self.common(v)
    }

    /// The width of the intermediate numbers.
    pub open spec fn ext(self) -> nat {
        choose|u: nat| self.is_ext(u)
    }

    /// Searching upwards from `u`, where nothing below `u` from the start on
    /// is a common multiple and `bound` is one, finds the extended width.
    proof fn lemma_ext_search(self, u: nat, bound: nat)
        requires
            self.ext_start() <= u <= bound,
            self.common(bound),
            forall|v: nat| self.ext_start() <= v < u ==> !#[trigger] self.common(v),
        ensures
            self.is_ext(self.ext()),
        decreases bound - u,
    {
        if self.common(u) {
            assert(self.is_ext(u));
        } else {
            assert forall|v: nat| self.ext_start() <= v < u + 1 implies !#[trigger] self.common(
                v,
            ) by {
                if v == u {
                } else {
                }
            }
            self.lemma_ext_search(u + 1, bound);
        }
    }

    /// The extended width exists; it is a multiple of both window widths,
    /// at least the width and at least the smaller window width.
    pub proof fn lemma_ext(self)
        requires
            self.params_ok(),
        ensures
            self.is_ext(self.ext()),
            self.n_bits <= self.ext() < self.n_bits + 42,
            self.skip() <= self.ext(),
            self.ext() % (self.mod_width as nat) == 0,
            self.ext() % (self.var_width as nat) == 0,
    {
        let mw = self.mod_width as nat;
        let vw = self.var_width as nat;
        let n = self.n_bits as nat;
        lemma_fundamental_div_mod((n + mw - 1) as int, mw as int);
        lemma_fundamental_div_mod((n + vw - 1) as int, vw as int);
        let qa = ceil_div(n, mw);
        assert(qa * mw >= n) by (nonlinear_arith)
            requires
                n + mw - 1 == mw * qa + (n + mw - 1) % (mw as int),
                (n + mw - 1) % (mw as int) < mw,
        ;
        let start = self.ext_start();
        let l = mw * vw;
        assert(l >= 1) by (nonlinear_arith)
            requires
                mw >= 1,
                vw >= 1,
                l == mw * vw,
        ;
        let c = ceil_div(start, l);
        let bound = c * l;
        lemma_fundamental_div_mod((start + l - 1) as int, l as int);
        assert(bound >= start) by (nonlinear_arith)
            requires
                bound == c * l,
                start + l - 1 == l * c + (start + l - 1) % (l as int),
                (start + l - 1) % (l as int) < l,
        ;
        assert(self.common(bound)) by {
            assert(bound == (c * vw) * mw) by (nonlinear_arith)
                requires
                    bound == c * l,
                    l == mw * vw,
            ;
            assert(bound == (c * mw) * vw) by (nonlinear_arith)
                requires
                    bound == c * l,
                    l == mw * vw,
            ;
            lemma_mod_multiples_basic((c * vw) as int, mw as int);
            lemma_mod_multiples_basic((c * mw) as int, vw as int);
        }
        self.lemma_ext_search(start, bound);
        let e = self.ext();
        // The least common multiple from the start on is at most `bound`.
        assert(e <= bound) by {
            if e > bound {
                assert(!self.common(bound));
            }
        }
        assert(bound < start + l) by (nonlinear_arith)
            requires
                bound == c * l,
                start + l - 1 == l * c + (start + l - 1) % (l as int),
                (start + l - 1) % (l as int) >= 0,
        ;
        assert(l <= 36) by (nonlinear_arith)
            requires
                mw <= 6,
                vw <= 6,
                l == mw * vw,
        ;
        let qb = ceil_div(n, vw);
        assert(qa * mw <= n + mw - 1 && qb * vw <= n + vw - 1) by (nonlinear_arith)
            requires
                n + mw - 1 == mw * qa + (n + mw - 1) % (mw as int),
                (n + mw - 1) % (mw as int) >= 0,
                n + vw - 1 == vw * qb + (n + vw - 1) % (vw as int),
                (n + vw - 1) % (vw as int) >= 0,
        ;
        lemma_fundamental_div_mod(e as int, vw as int);
        lemma_fundamental_div_mod(e as int, mw as int);
        assert(e >= vw && e >= mw) by (nonlinear_arith)
            requires
                e == vw * (e / vw),
                e == mw * (e / mw),
                e >= 1,
                vw >= 1,
                mw >= 1,
        ;
    }

    /// The first iteration of the main loop: the smaller window width.
    pub open spec fn skip(self) -> nat {
        if self.mod_width < self.var_width {
            self.mod_width as nat
        } else {
            self.var_width as nat
        }
    }

    /// Number of limbs of an operand.
    pub fn n_limbs(&self) -> (r: u32)
        requires
            self.params_ok(),
        ensures
            r == self.u().limbs(),
    {
        self.u_shape().shape_exec().n_limbs()
    }

    /// Shape of an operand.
    pub open spec fn u(self) -> BigIntImpl {
        BigIntImpl { n_bits: self.n_bits, limb_size: self.limb_size }
    }

    /// Shape of an operand.
    pub fn u_shape(&self) -> (r: BigIntImpl)
        ensures
            r == self.u(),
    {
        BigIntImpl { n_bits: self.n_bits, limb_size: self.limb_size }
    }

    /// The width of the intermediate numbers: the least multiple of both
    /// window widths that is at least the width rounded up to each of them.
    pub fn ext_n_bits(&self) -> (r: u32)
        requires
            self.params_ok(),
        ensures
            self.is_ext(r as nat),
            r == self.ext(),
            self.n_bits <= r < self.n_bits + 42,
            r >= self.skip(),
    {
        let mw = self.mod_width;
        let vw = self.var_width;
        let a = self.n_bits + mw - 1;
        let qa = a / mw;
        let b = self.n_bits + vw - 1;
        let qb = b / vw;
        proof {
            lemma_fundamental_div_mod(a as int, mw as int);
            assert(qa * mw <= a) by (nonlinear_arith)
                requires
                    a == mw * qa + a % mw,
                    a % mw >= 0,
            ;
            assert(qa * mw + mw > a) by (nonlinear_arith)
                requires
                    a == mw * qa + a % mw,
                    a % mw < mw,
            ;
            lemma_fundamental_div_mod(b as int, vw as int);
            assert(qb * vw <= b) by (nonlinear_arith)
                requires
                    b == vw * qb + b % vw,
                    b % vw >= 0,
            ;
            assert(qb * vw + vw > b) by (nonlinear_arith)
                requires
                    b == vw * qb + b % vw,
                    b % vw < vw,
            ;
        }
        let n_bits_mod_width = qa * mw;
        let n_bits_var_width = qb * vw;
        let mut u = n_bits_mod_width;
        if n_bits_var_width > u {
            u = n_bits_var_width;
        }
        let ghost start = u as nat;
        assert(start == self.ext_start());
        let ghost l = (mw * vw) as nat;
        let ghost bound = ceil_div(start, l) * l;
        proof {
            assert(l >= 1 && l <= 36) by (nonlinear_arith)
                requires
                    1 <= mw <= 6,
                    1 <= vw <= 6,
                    l == mw * vw,
            ;
            lemma_fundamental_div_mod((start + l - 1) as int, l as int);
            assert(bound >= start && bound < start + l) by (nonlinear_arith)
                requires
                    bound == ((start + l - 1) / (l as int)) * l,
                    start + l - 1 == l * ((start + l - 1) / (l as int)) + (start + l - 1) % (l as int),
                    0 <= (start + l - 1) % (l as int) < l,
            ;
            assert(bound % (mw as nat) == 0 && bound % (vw as nat) == 0) by {
                let c = ceil_div(start, l);
                assert(bound == (c * vw) * mw) by (nonlinear_arith)
                    requires
                        bound == c * l,
                        l == mw * vw,
                ;
                assert(bound == (c * mw) * vw) by (nonlinear_arith)
                    requires
                        bound == c * l,
                        l == mw * vw,
                ;
                vstd::arithmetic::div_mod::lemma_mod_multiples_basic((c * vw) as int, mw as int);
                vstd::arithmetic::div_mod::lemma_mod_multiples_basic((c * mw) as int, vw as int);
            }
        }
        while !(u % mw == 0 && u % vw == 0)
            invariant
                mw == self.mod_width,
                vw == self.var_width,
                self.params_ok(),
                start == self.ext_start(),
                start <= u <= bound,
                bound % (mw as nat) == 0 && bound % (vw as nat) == 0,
                bound < start + 36,
                start <= self.n_bits + 6,
                forall|v: nat| start <= v < u ==> !#[trigger] self.common(v),
            decreases bound - u,
        {
            u = u + 1;
        }
        proof {
            assert(self.is_ext(u as nat));
            lemma_fundamental_div_mod(u as int, vw as int);
            assert(u >= vw) by (nonlinear_arith)
                requires
                    u == vw * (u / vw),
                    u >= 1,
                    vw >= 1,
            ;
            let c = choose|x: nat| self.is_ext(x);
            assert(self.is_ext(c));
            if c < u {
            } else if c > u {
                assert(!self.common(u as nat));
            }
        }
        u
    }

    /// The smaller window width.
    pub fn ext_n_bits_skip(&self) -> (r: u32)
        ensures
            r == self.skip(),
    {
        if self.mod_width < self.var_width {
            self.mod_width
        } else {
            self.var_width
        }
    }

    /// The modulus, as little-endian 32-bit digits.
    pub fn modulus() -> (r: Vec<u32>)
        ensures
            digits_value(r@) == bn254_modulus(),
            normalized(r@),
    {
        let s = "21888242871839275222246405745257275088696311157297823662689037894645226208583";
        proof {
            reveal_strlit("21888242871839275222246405745257275088696311157297823662689037894645226208583");
            crate::bn254::lemma_modulus_decimal();
            assert(s@ == modulus_decimal());
        }
        crate::biguint::parse_decimal(s).unwrap()
    }

    /// Window `k` of the modulus cut into `mod_width`-bit windows over the
    /// extended width, the most significant window first.
    pub open spec fn mod_window(self, k: nat) -> nat {
        let n_window = self.ext() / (self.mod_width as nat);
        (bn254_modulus() / pow2((self.mod_width * (n_window - k - 1)) as nat)) % pow2(
            self.mod_width as nat,
        )
    }

    /// Window `index` of the modulus, the most significant window first.
    pub fn get_mod_window(&self, index: u32) -> (r: u32)
        requires
            self.params_ok(),
            index < self.ext() / (self.mod_width as nat),
        ensures
            r == self.mod_window(index as nat),
            r < pow2(self.mod_width as nat),
    {
        let ext = self.ext_n_bits();
        let n_window = ext / self.mod_width;
        proof {
            assert(self.mod_width * (n_window - index - 1) <= self.mod_width * n_window) by (nonlinear_arith)
                requires
                    index < n_window,
            ;
            assert(self.mod_width * n_window <= ext) by (nonlinear_arith)
                requires
                    n_window == ext / self.mod_width,
                    self.mod_width >= 1,
            ;
        }
        let shift_by = self.mod_width * (n_window - index - 1);
        proof {
            vstd::bits::lemma_u32_pow2_no_overflow(self.mod_width as nat);
            vstd::bits::lemma_u32_shl_is_mul(1u32, self.mod_width);
            lemma_pow2_pos(self.mod_width as nat);
            assert(pow2(self.mod_width as nat) <= 64) by {
                lemma2_to64();
                if self.mod_width < 6 {
                    lemma_pow2_strictly_increases(self.mod_width as nat, 6);
                }
            }
        }
        let mask_value = ((1u32 << self.mod_width) - 1) as i32;
        let mask = crate::biguint::from_i32(mask_value).unwrap();
        let m = Self::modulus();
        let r = crate::biguint::window_of(&m, mask, self.mod_width, shift_by);
        proof {
            lemma_mod_bound(
                (bn254_modulus() / pow2(shift_by as nat)) as int,
                pow2(self.mod_width as nat) as int,
            );
        }
        r
    }
}


/// Counting multiples: `i / w` grows by one exactly at the multiples of `w`.
proof fn lemma_div_step(i: nat, w: nat)
    requires
        i >= 1,
        w >= 1,
    ensures
        i / w == ((i - 1) as nat) / w + (if i % w == 0 {
            1int
        } else {
            0int
        }),
{
    lemma_fundamental_div_mod(i as int, w as int);
    lemma_fundamental_div_mod((i - 1) as int, w as int);
    let q = i / w;
    let r = i % w;
    let q1 = ((i - 1) as nat) / w;
    let r1 = ((i - 1) as nat) % w;
    if r == 0 {
        assert(i - 1 == (q - 1) * w + (w - 1)) by (nonlinear_arith)
            requires
                i == w * q + r,
                r == 0,
        ;
        assert(q1 == q - 1 && r1 == w - 1) by {
            lemma_fundamental_div_mod_converse((i - 1) as int, w as int, q - 1, w - 1);
        }
    } else {
        assert(i - 1 == q * w + (r - 1)) by (nonlinear_arith)
            requires
                i == w * q + r,
        ;
        assert(q1 == q && r1 == r - 1) by {
            lemma_fundamental_div_mod_converse((i - 1) as int, w as int, q as int, r - 1);
        }
    }
}

impl Fq {
    /// Shape of the intermediate numbers.
    pub open spec fn tw(self) -> BigIntImpl {
        BigIntImpl { n_bits: self.ext() as u32, limb_size: self.limb_size }
    }

    /// The lookup tables.
    pub open spec fn table(self) -> LookupTable {
        LookupTable { n_bits: self.ext() as u32, limb_size: self.limb_size }
    }

    /// Number of windows of `y`.
    pub open spec fn var_windows(self) -> nat {
        self.ext() / (self.var_width as nat)
    }

    /// The generator of the scripts reading the windows of `y`, before its
    /// first call.
    pub open spec fn var_generator(self) -> VarWindowScriptGenerator {
        VarWindowScriptGenerator {
            n_window: self.var_windows() as u32,
            limb_size: self.limb_size,
            var_width: self.var_width,
            n_limbs: self.tw().limbs() as u32,
            iter: (self.var_windows() + 1) as u32,
        }
    }

    /// Sizes [`Fq::OP_TMUL`] supports: its depths into the tables fit a
    /// `u32`.
    pub open spec fn tmul_ok(self) -> bool {
        &&& self.params_ok()
        &&& self.table().table_ok()
        &&& 128 * self.tw().limbs() + 2 <= u32::MAX
    }

    /// Iteration `i` of the main loop, the modulus part: `z -= q * p[k]`
    /// where `i` ends window `k` of `p` and that window is not zero.
    pub open spec fn mod_step_ops(self, i: nat) -> Seq<Op> {
        let mw = self.mod_width as nat;
        if i % mw == 0 && self.mod_window((i / mw - 1) as nat) != 0 {
            self.tw().ref_add_ops(
                (pow2(self.var_width as nat) + pow2(mw) - self.mod_window(
                    (i / mw - 1) as nat,
                )) as u32,
            )
        } else {
            Seq::empty()
        }
    }

    /// Iteration `i` of the main loop, the multiplier part: `z += x * y[k]`
    /// where `i` ends window `k` of `y`, skipped at run time for a zero window.
    pub open spec fn var_step_ops(self, i: nat) -> Seq<Op> {
        let vw = self.var_width as nat;
        if i % vw == 0 {
            var_window_ops(self.var_generator(), self.var_windows() + 1 - i / vw) + seq![
                Op::Dup,
                Op::Not,
                Op::If,
                Op::Drop,
                Op::Else,
                Op::Push((1 + pow2(vw)) as u32),
                Op::Swap,
                Op::Sub,
            ] + self.tw().stack_ref_add_ops() + seq![Op::EndIf]
        } else {
            Seq::empty()
        }
    }

    /// Iteration `i` of the main loop: subtract, add, then double unless last.
    pub open spec fn step_ops(self, i: nat) -> Seq<Op> {
        self.mod_step_ops(i) + self.var_step_ops(i) + if i < self.ext() {
            self.tw().dbl_ops()
        } else {
            Seq::empty()
        }
    }

    /// The iterations of the main loop below `k`, from [`Fq::skip`] on.
    pub open spec fn loop_ops(self, k: nat) -> Seq<Op>
        decreases k,
    {
        if k <= self.skip() {
            Seq::empty()
        } else {
            self.loop_ops((k - 1) as nat) + self.step_ops((k - 1) as nat)
        }
    }

    /// The numbers of doublings, of additions of `-q * p[k]` and of
    /// additions of `x * y[k]` the iterations below `k` emit.
    pub open spec fn counts(self, k: nat) -> (int, int, int)
        decreases k,
    {
        if k <= self.skip() {
            (0, 0, 0)
        } else {
            let c = self.counts((k - 1) as nat);
            let i = (k - 1) as nat;
            let mw = self.mod_width as nat;
            (
                c.0 + if i < self.ext() {
                    1int
                } else {
                    0int
                },
                c.1 + if i % mw == 0 && self.mod_window((i / mw - 1) as nat) != 0 {
                    1int
                } else {
                    0int
                },
                c.2 + if i % (self.var_width as nat) == 0 {
                    1int
                } else {
                    0int
                },
            )
        }
    }

    /// The iterations below `k` double once each but the last, and add
    /// `x * y[k]` once per window of `y` that has ended.
    proof fn lemma_counts_upto(self, k: nat)
        requires
            self.params_ok(),
            self.skip() <= k <= self.ext() + 1,
        ensures
            self.counts(k).0 == (if k <= self.ext() {
                k - self.skip()
            } else {
                self.ext() - self.skip()
            }),
            self.counts(k).1 == self.nonzero_mod_windows(((k - 1) as nat) / (self.mod_width as nat)),
            self.counts(k).2 == ((k - 1) as nat) / (self.var_width as nat),
        decreases k,
    {
        self.lemma_ext();
        let vw = self.var_width as nat;
        let mw = self.mod_width as nat;
        if k == self.skip() {
            lemma_basic_div((k - 1) as int, vw as int);
            lemma_basic_div((k - 1) as int, mw as int);
        } else {
            self.lemma_counts_upto((k - 1) as nat);
            lemma_div_step((k - 1) as nat, vw);
            lemma_div_step((k - 1) as nat, mw);
            let i = (k - 1) as nat;
            if i % mw == 0 {
                assert(i / mw >= 1);
                assert((i / mw - 1) as nat == ((i - 1) as nat) / mw);
            }
        }
    }

    /// The number of windows of the modulus below `j` that are not zero.
    pub open spec fn nonzero_mod_windows(self, j: nat) -> int
        decreases j,
    {
        if j == 0 {
            0
        } else {
            self.nonzero_mod_windows((j - 1) as nat) + if self.mod_window((j - 1) as nat) != 0 {
                1int
            } else {
                0int
            }
        }
    }

    /// The counts [`Fq::OP_TMUL`] returns: one doubling per iteration but
    /// the last, one addition of `-q * p[k]` per window of the modulus that
    /// is not zero, and one addition of `x * y[k]` per window of `y`.
    pub proof fn lemma_tmul_counts(self)
        requires
            self.params_ok(),
        ensures
            self.counts(self.ext() + 1).0 == self.ext() - self.skip(),
            self.counts(self.ext() + 1).1 == self.nonzero_mod_windows(self.ext() / (self.mod_width as nat)),
            self.counts(self.ext() + 1).2 == self.ext() / (self.var_width as nat),
    {
        self.lemma_ext();
        self.lemma_counts_upto(self.ext() + 1);
    }

    /// The script of [`Fq::OP_TMUL`], where `m1` and `m2` hold the digits of
    /// the modulus.
    pub open spec fn tmul_ops(self, m1: Vec<u32>, m2: Vec<u32>) -> Seq<Op> {
        let u = self.u().shape();
        let w = self.tw().shape();
        let t = self.table();
        let up = resize_ops(self.u().limbs(), self.tw().limbs());
        u.toalt_ops() + u.toalt_ops() + w.copy_ops(0) + w.push_u32_le_ops(m1) + w.greaterthan_ops(
            0,
            1,
        ) + seq![Op::Verify] + up + w.push_zero_ops() + w.sub_ops(0, 1) + t.initialize_ops(
            self.mod_width,
        ) + u.fromalt_ops() + up + t.initialize_ops(self.var_width) + u.fromalt_ops() + up
            + w.push_zero_ops() + self.loop_ops(self.ext() + 1) + w.toalt_ops() + w.drop_ops()
            + t.drop_table_ops(self.var_width) + t.drop_table_ops(self.mod_width)
            + w.fromalt_ops() + w.copy_ops(0) + w.push_u32_le_ops(m2) + w.greaterthan_ops(0, 1)
            + seq![Op::Verify] + resize_ops(self.tw().limbs(), self.u().limbs())
    }

    /// The generator of the scripts reading the windows of `y`.
    fn get_var_window_script_generator(&self) -> (r: VarWindowScriptGenerator)
        requires
            self.params_ok(),
        ensures
            r == self.var_generator(),
    {
        let ext = self.ext_n_bits();
        let n_window = ext / self.var_width;
        let n_limbs = (BigIntImpl { n_bits: ext, limb_size: self.limb_size }).shape_exec().n_limbs();
        VarWindowScriptGenerator {
            n_window,
            limb_size: self.limb_size,
            var_width: self.var_width,
            n_limbs,
            iter: n_window + 1,
        }
    }

    /// Iteration `i` of the main loop of [`Fq::OP_TMUL`], with one for each
    /// kind of operation it emits: a doubling, an addition of a multiple of
    /// `q`, an addition of a multiple of `x`.
    fn tmul_step(
        &self,
        i: u32,
        ext: u32,
        tw: BigIntImpl,
        get_var_window: &mut VarWindowScriptGenerator,
    ) -> (r: (Script, (i32, i32, i32)))
        requires
            self.tmul_ok(),
            ext == self.ext(),
            self.is_ext(ext as nat),
            self.n_bits <= ext < self.n_bits + 42,
            tw == self.tw(),
            self.skip() <= i <= ext,
            *old(get_var_window) == (VarWindowScriptGenerator {
                iter: (self.var_windows() + 1 - ((i - 1) as nat) / (self.var_width as nat)) as u32,
                ..self.var_generator()
            }),
        ensures
            r.0@ == self.step_ops(i as nat),
            r.1.0 == (if i < ext { 1int } else { 0int }),
            r.1.1 == (if i % self.mod_width == 0 && self.mod_window((i / self.mod_width - 1) as nat)
                != 0 {
                1int
            } else {
                0int
            }),
            r.1.2 == (if i % self.var_width == 0 { 1int } else { 0int }),
            *final(get_var_window) == (VarWindowScriptGenerator {
                iter: (self.var_windows() + 1 - (i as nat) / (self.var_width as nat)) as u32,
                ..self.var_generator()
            }),
    {
        let mw = self.mod_width;
        let vw = self.var_width;
        let mut d: (i32, i32, i32) = (0, 0, 0);
        let mut s = Script::new();
        proof {
            vstd::bits::lemma_u32_pow2_no_overflow(vw as nat);
            vstd::bits::lemma_u32_shl_is_mul(1u32, vw);
            vstd::bits::lemma_u32_pow2_no_overflow(mw as nat);
            vstd::bits::lemma_u32_shl_is_mul(1u32, mw);
            lemma2_to64();
            if vw < 6 {
                lemma_pow2_strictly_increases(vw as nat, 6);
            }
            if mw < 6 {
                lemma_pow2_strictly_increases(mw as nat, 6);
            }
            lemma_div_step(i as nat, vw as nat);
            lemma_fundamental_div_mod(i as int, mw as int);
            lemma_fundamental_div_mod(i as int, vw as int);
            lemma_fundamental_div_mod(ext as int, vw as int);
            lemma_fundamental_div_mod(ext as int, mw as int);
            assert(i / mw <= ext / mw) by {
                lemma_div_is_ordered(i as int, ext as int, mw as int);
            }
            assert(i / vw <= ext / vw) by {
                lemma_div_is_ordered(i as int, ext as int, vw as int);
            }
            if i % mw == 0 {
                assert(i / mw >= 1) by (nonlinear_arith)
                    requires
                        i == mw * (i / mw) + i % mw,
                        i % mw == 0,
                        i >= 1,
                ;
            }
        }
        if i % mw == 0 && self.get_mod_window(i / mw - 1) != 0 {
            let win = self.get_mod_window(i / mw - 1);
            proof {
                assert(((1u32 << vw) + (1u32 << mw) - win) * tw.limbs() <= 128 * tw.limbs()) by (nonlinear_arith)
                    requires
                        (1u32 << vw) + (1u32 << mw) - win <= 128,
                ;
            }
            s.append(tw.ref_add((1u32 << vw) + (1u32 << mw) - win));
            d.1 = 1;
        }
        let ghost mid1 = s@;
        if i % vw == 0 {
            proof {
                assert((get_var_window.iter - 1) * vw <= ext) by (nonlinear_arith)
                    requires
                        get_var_window.iter - 1 <= self.var_windows(),
                        self.var_windows() == (ext as nat) / (vw as nat),
                        vw >= 1,
                ;
            }
            s.append(get_var_window.next());
            s.append(
                Script::from_ops(
                    vec![
                        Op::Dup,
                        Op::Not,
                        Op::If,
                        Op::Drop,
                        Op::Else,
                        Op::Push(1 + (1u32 << vw)),
                        Op::Swap,
                        Op::Sub,
                    ],
                ),
            );
            s.append(tw.stack_ref_add());
            s.push_op(Op::EndIf);
            d.2 = 1;
        }
        proof {
            assert(s@ == mid1 + self.var_step_ops(i as nat));
        }
        if i < ext {
            s.append(tw.dbl());
            d.0 = 1;
        }
        (s, d)
    }

    /// The main loop of [`Fq::OP_TMUL`], with its counts of emitted
    /// operations.
    fn tmul_main_loop(
        &self,
        ext: u32,
        skip: u32,
        t: LookupTable,
        get_var_window: &mut VarWindowScriptGenerator,
    ) -> (r: (Script, (i32, i32, i32)))
        requires
            self.tmul_ok(),
            ext == self.ext(),
            self.is_ext(ext as nat),
            self.n_bits <= ext < self.n_bits + 42,
            skip == self.skip(),
            ext >= skip,
            t == self.table(),
            *old(get_var_window) == self.var_generator(),
        ensures
            r.0@ == self.loop_ops(self.ext() + 1),
            r.1.0 == self.counts(self.ext() + 1).0,
            r.1.1 == self.counts(self.ext() + 1).1,
            r.1.2 == self.counts(self.ext() + 1).2,
    {
        let mw = self.mod_width;
        let vw = self.var_width;
        let tw = t.w_shape();
        let mut ops: (i32, i32, i32) = (0, 0, 0);
        let mut s = Script::new();
        proof {
            assert(self.loop_ops(skip as nat) == Seq::<Op>::empty());
            assert(((skip - 1) as nat) / (vw as nat) == 0) by {
                lemma_basic_div((skip - 1) as int, vw as int);
            }
        }
        let mut i: u32 = skip;
        while i <= ext
            invariant
                self.tmul_ok(),
                ext == self.ext(),
                self.is_ext(ext as nat),
                self.n_bits <= ext < self.n_bits + 42,
                skip == self.skip(),
                mw == self.mod_width,
                vw == self.var_width,
                t == self.table(),
                tw == self.tw(),
                skip <= i <= ext + 1,
                *get_var_window == (VarWindowScriptGenerator {
                    iter: (self.var_windows() + 1 - ((i - 1) as nat) / (vw as nat)) as u32,
                    ..self.var_generator()
                }),
                s@ == self.loop_ops(i as nat),
                ops.0 == self.counts(i as nat).0,
                ops.1 == self.counts(i as nat).1,
                ops.2 == self.counts(i as nat).2,
                0 <= ops.0 <= i,
                0 <= ops.1 <= i,
                0 <= ops.2 <= i,
            decreases ext + 1 - i,
        {
            let (step, d) = self.tmul_step(i, ext, tw, get_var_window);
            proof {
                lemma_div_step(i as nat, vw as nat);
            }
            s.append(step);
            ops = (ops.0 + d.0, ops.1 + d.1, ops.2 + d.2);
            i = i + 1;
        }
        (s, ops)
    }

    /// Compute `x * y mod p` from `{q} {x} {y}`, where `q` is the quotient
    /// `x * y / p`: the script checks `q < p` and that the result lies in
    /// `[0, p)`. Also returns the numbers of doublings, of additions of
    /// multiples of `q` and of additions of multiples of `x` it emits.
    #[allow(non_snake_case)]
    pub fn OP_TMUL(&self) -> (r: (Script, (i32, i32, i32)))
        requires
            self.tmul_ok(),
        ensures
            exists|m1: Vec<u32>, m2: Vec<u32>|
                digits_value(m1@) == bn254_modulus() && normalized(m1@) && digits_value(m2@)
                    == bn254_modulus() && normalized(m2@) && r.0@ == self.tmul_ops(m1, m2),
            r.1.0 == self.counts(self.ext() + 1).0,
            r.1.1 == self.counts(self.ext() + 1).1,
            r.1.2 == self.counts(self.ext() + 1).2,
    {
        let mut get_var_window = self.get_var_window_script_generator();
        let mut ops: (i32, i32, i32);
        let ext = self.ext_n_bits();
        let skip = self.ext_n_bits_skip();
        let mw = self.mod_width;
        let vw = self.var_width;
        let u = self.u_shape();
        let t = LookupTable { n_bits: ext, limb_size: self.limb_size };
        let tw = t.w_shape();
        let m1 = Self::modulus();
        let ghost gm1 = m1;
        let mut s = u.shape_exec().toaltstack();
        s.append(u.shape_exec().toaltstack());
        s.append(tw.shape_exec().copy(0));
        s.append(tw.shape_exec().push_u32_le(m1));
        s.append(tw.shape_exec().greaterthan(0, 1));
        s.push_op(Op::Verify);
        s.append(u.resize(ext));
        s.append(tw.shape_exec().push_zero());
        s.append(tw.shape_exec().sub(0, 1));
        s.append(t.initialize(mw));
        s.append(u.shape_exec().fromaltstack());
        s.append(u.resize(ext));
        s.append(t.initialize(vw));
        s.append(u.shape_exec().fromaltstack());
        s.append(u.resize(ext));
        s.append(tw.shape_exec().push_zero());
        let ghost pre = s@;
        let (main, counts) = self.tmul_main_loop(ext, skip, t, &mut get_var_window);
        ops = counts;
        s.append(main);
        s.append(tw.shape_exec().toaltstack());
        s.append(tw.shape_exec().drop());
        s.append(t.drop(vw));
        s.append(t.drop(mw));
        s.append(tw.shape_exec().fromaltstack());
        s.append(tw.shape_exec().copy(0));
        let m2 = Self::modulus();
        let ghost gm2 = m2;
        s.append(tw.shape_exec().push_u32_le(m2));
        s.append(tw.shape_exec().greaterthan(0, 1));
        s.push_op(Op::Verify);
        s.append(tw.resize(self.n_bits));
        proof {
            assert(s@ == self.tmul_ops(gm1, gm2));
        }
        (s, ops)
    }
}


/// The multiples of `x` that the first `k` doublings of [`NMUL`] keep on the
/// stack: `2^i * x` for each set bit `i` below `k`.
pub open spec fn nmul_partials(n: nat, x: int, k: nat) -> Seq<int>
    decreases k,
{
    if k == 0 {
        Seq::empty()
    } else {
        nmul_partials(n, x, (k - 1) as nat) + if nbit(n, (k - 1) as nat) == 1 {
            seq![pow2((k - 1) as nat) * x]
        } else {
            Seq::empty()
        }
    }
}

/// The sum of a sequence of stack items.
pub open spec fn sum(q: Seq<int>) -> int
    decreases q.len(),
{
    if q.len() == 0 {
        0
    } else {
        sum(q.subrange(0, q.len() - 1)) + q[q.len() - 1]
    }
}

/// Every item of a sequence of non-negative items is at most its sum.
proof fn lemma_sum_bounds(q: Seq<int>)
    requires
        forall|i: int| 0 <= i < q.len() ==> 0 <= #[trigger] q[i],
    ensures
        sum(q) >= 0,
        forall|i: int| 0 <= i < q.len() ==> #[trigger] q[i] <= sum(q),
    decreases q.len(),
{
    if q.len() > 0 {
        let p = q.subrange(0, q.len() - 1);
        assert forall|i: int| 0 <= i < p.len() implies 0 <= #[trigger] p[i] by {
            assert(p[i] == q[i]);
        }
        lemma_sum_bounds(p);
        assert forall|i: int| 0 <= i < q.len() implies #[trigger] q[i] <= sum(q) by {
            if i < q.len() - 1 {
                assert(q[i] == p[i]);
            }
        }
    }
}

/// `k` additions fold the top `k + 1` items into their sum.
proof fn lemma_add_chain(m: Seq<int>, a: Seq<int>, q: Seq<int>)
    requires
        q.len() >= 1,
        forall|i: int| 0 <= i < q.len() ==> 0 <= #[trigger] q[i],
        sum(q) <= 0x7fff_ffff,
    ensures
        run(repeat(seq![Op::Add], (q.len() - 1) as nat), st(m + q, a)) == Some(
            st(m.push(sum(q)), a),
        ),
    decreases q.len(),
{
    lemma_sum_bounds(q);
    let n = q.len();
    if n == 1 {
        assert(q.subrange(0, 0) =~= Seq::<int>::empty());
        assert(sum(q.subrange(0, 0)) == 0);
        assert(sum(q) == q[0]);
        assert(m + q =~= m.push(q[0]));
        assert(repeat(seq![Op::Add], 0) == Seq::<Op>::empty());
        assert(run(Seq::<Op>::empty(), st(m + q, a)) == Some(st(m + q, a)));
    } else {
        let r = q.subrange(0, n - 2);
        let x = q[n - 2];
        let y = q[n - 1];
        let q2 = r.push(x + y);
        assert(q.subrange(0, n - 1) =~= r.push(x));
        assert(r.push(x).subrange(0, n - 2) =~= r);
        assert(q2.subrange(0, n - 2) =~= r);
        assert(sum(r.push(x)) == sum(r) + x);
        assert(sum(q) == sum(r.push(x)) + y);
        assert(sum(q2) == sum(r) + (x + y));
        assert(sum(q2) == sum(q));
        assert(forall|i: int| 0 <= i < q2.len() ==> 0 <= #[trigger] q2[i]) by {
            assert forall|i: int| 0 <= i < q2.len() implies 0 <= #[trigger] q2[i] by {
                if i < n - 2 {
                    assert(q2[i] == q[i]);
                }
            }
        }
        let s0 = st(m + q, a);
        assert(m + q =~= (m + r).push(x).push(y));
        lemma_binary(Op::Add, m + r, a, x, y);
        assert((m + r).push(x + y) =~= m + q2);
        lemma_run_single(Op::Add, s0);
        lemma_add_chain(m, a, q2);
        crate::stack::lemma_repeat_front(seq![Op::Add], (n - 2) as nat);
        lemma_run_seq(
            seq![Op::Add],
            repeat(seq![Op::Add], (n - 2) as nat),
            s0,
            st(m + q2, a),
            st(m.push(sum(q)), a),
        );
    }
}

/// `n` lies in `[2^(k-1), 2^k)` where `k` is its number of bits.
proof fn lemma_bit_len_range(n: nat)
    requires
        n > 0,
    ensures
        bit_len(n) >= 1,
        pow2((bit_len(n) - 1) as nat) <= n < pow2(bit_len(n)),
    decreases n,
{
    lemma_pow2_unfold(bit_len(n));
    if n == 1 {
        assert(bit_len(0) == 0);
        assert(pow2(0) == 1 && pow2(1) == 2) by {
            lemma2_to64();
        }
    } else {
        lemma_bit_len_range(n / 2);
        lemma_pow2_unfold((bit_len(n) - 1) as nat);
    }
}

/// The low `k` bits of `n`, bit by bit.
proof fn lemma_low_bits(n: nat, k: nat)
    ensures
        n % pow2(k + 1) == n % pow2(k) + nbit(n, k) * pow2(k),
{
    lemma_pow2_unfold(k + 1);
    lemma_pow2_pos(k);
    lemma_mod_breakdown(n as int, pow2(k) as int, 2);
    vstd::arithmetic::mul::lemma_mul_is_commutative(pow2(k) as int, 2);
    vstd::arithmetic::mul::lemma_mul_is_commutative(pow2(k) as int, nbit(n, k) as int);
}

/// The kept multiples: one per set bit, summing to `x` times the low bits.
proof fn lemma_nmul_partials(n: nat, x: int, k: nat)
    requires
        x >= 0,
    ensures
        nmul_partials(n, x, k).len() == bit_count(n, k),
        sum(nmul_partials(n, x, k)) == x * (n % pow2(k)),
        forall|i: int|
            0 <= i < nmul_partials(n, x, k).len() ==> 0 <= #[trigger] nmul_partials(n, x, k)[i]
                <= pow2(k) * x,
    decreases k,
{
    if k == 0 {
        assert(pow2(0) == 1) by {
            lemma2_to64();
        }
        assert(n % 1 == 0);
        assert(x * 0 == 0);
    } else {
        let t = (k - 1) as nat;
        lemma_nmul_partials(n, x, t);
        lemma_low_bits(n, t);
        lemma_pow2_unfold(k);
        lemma_pow2_pos(t);
        let p = nmul_partials(n, x, t);
        lemma_mod_bound((n / pow2(t)) as int, 2);
        vstd::arithmetic::mul::lemma_mul_nonnegative(pow2(t) as int, x);
        assert(pow2(t) * x <= pow2(k) * x) by {
            vstd::arithmetic::mul::lemma_mul_inequality(pow2(t) as int, pow2(k) as int, x);
        }
        if nbit(n, t) == 1 {
            let q = p + seq![pow2(t) * x];
            assert(q.subrange(0, q.len() - 1) =~= p);
            assert(nbit(n, t) * pow2(t) == pow2(t)) by (nonlinear_arith)
                requires
                    nbit(n, t) == 1,
            ;
            assert(n % pow2(k) == n % pow2(t) + pow2(t));
            assert(sum(q) == sum(p) + pow2(t) * x);
            assert(x * (n % pow2(k)) == x * (n % pow2(t)) + pow2(t) * x) by {
                vstd::arithmetic::mul::lemma_mul_is_distributive_add(
                    x,
                    (n % pow2(t)) as int,
                    pow2(t) as int,
                );
                vstd::arithmetic::mul::lemma_mul_is_commutative(x, pow2(t) as int);
            }
            assert forall|i: int| 0 <= i < q.len() implies 0 <= #[trigger] q[i] <= pow2(k) * x by {
                if i < p.len() {
                    assert(q[i] == p[i]);
                }
            }
        } else {
            assert(p + Seq::<int>::empty() =~= p);
            assert(nbit(n, t) == 0);
            assert(nbit(n, t) * pow2(t) == 0) by (nonlinear_arith)
                requires
                    nbit(n, t) == 0,
            ;
            assert(n % pow2(k) == n % pow2(t));
        }
    }
}

/// The doublings of [`NMUL`] leave the kept multiples under `2^k * x`.
proof fn lemma_nmul_doublings(n: nat, x: int, k: nat, m: Seq<int>, a: Seq<int>)
    requires
        n > 0,
        k < bit_len(n),
        0 <= x,
        n * x <= 0x7fff_ffff,
    ensures
        run(nmul_doublings(n, k), st(m.push(x), a)) == Some(
            st((m + nmul_partials(n, x, k)).push(pow2(k) * x), a),
        ),
    decreases k,
{
    let s0 = st(m.push(x), a);
    if k == 0 {
        assert(pow2(0) == 1) by {
            lemma2_to64();
        }
        assert(m + Seq::<int>::empty() =~= m);
    } else {
        let t = (k - 1) as nat;
        lemma_nmul_doublings(n, x, t, m, a);
        lemma_bit_len_range(n);
        lemma_pow2_unfold(k);
        let v = pow2(t) * x;
        let mm = m + nmul_partials(n, x, t);
        assert(0 <= v <= n * x) by {
            vstd::arithmetic::mul::lemma_mul_nonnegative(pow2(t) as int, x);
            if t < bit_len(n) - 1 {
                lemma_pow2_strictly_increases(t, (bit_len(n) - 1) as nat);
            }
            vstd::arithmetic::mul::lemma_mul_inequality(pow2(t) as int, n as int, x);
        }
        let d = if nbit(n, t) == 1 {
            seq![Op::Dup]
        } else {
            Seq::<Op>::empty()
        };
        let mm2 = m + nmul_partials(n, x, k);
        let s1 = st(mm.push(v), a);
        let s2 = st(mm2.push(v), a);
        if nbit(n, t) == 1 {
            lemma_run_single(Op::Dup, s1);
            lemma_dup(mm, a, v);
            assert(mm.push(v) =~= mm2);
        } else {
            assert(mm =~= mm2);
        }
        assert(run(d, s1) == Some(s2));
        lemma_op_2mul(mm2, a, v);
        assert(2 * v == pow2(k) * x) by {
            vstd::arithmetic::mul::lemma_mul_is_associative(2, pow2(t) as int, x);
        }
        lemma_run_seq(nmul_doublings(n, t), d, s0, s1, s2);
        lemma_run_seq(nmul_doublings(n, t) + d, op_2mul_ops(), s0, s2, st(mm2.push(pow2(k) * x), a));
    }
}

/// `x * r + h * x` is `(h + r) * x`.
proof fn lemma_split_product(s: int, x: int, r: int, h: int, n: int)
    by (nonlinear_arith)
    requires
        s == x * r + h * x,
        n == h + r,
    ensures
        s == n * x,
{
}

/// The items of a stack, negated.
pub open spec fn negated(s: Seq<int>) -> Seq<int> {
    Seq::new(s.len(), |i: int| -s[i])
}

/// Whether a fragment holds only `OP_DUP`, `OP_DROP`, `OP_ADD` and pushes
/// of zero: opcodes that commute with negating every stack item.
pub open spec fn sign_free(ops: Seq<Op>) -> bool {
    forall|i: int|
        0 <= i < ops.len() ==> (#[trigger] ops[i] is Dup || ops[i] is Drop || ops[i] is Add
            || ops[i] == Op::Push(0))
}

/// A sign-free fragment run on negated stacks gives the negated result.
pub proof fn lemma_sign_free_run(ops: Seq<Op>, m: Seq<int>, a: Seq<int>)
    requires
        sign_free(ops),
    ensures
        run(ops, st(negated(m), negated(a))) == match run(ops, st(m, a)) {
            Some(t) => Some(st(negated(t.main), negated(t.alt))),
            None => None,
        },
        run(ops, st(m, a)) matches Some(t) ==> t.conds == Seq::<bool>::empty(),
    decreases ops.len(),
{
    if ops.len() == 0 {
    } else {
        let rest = ops.subrange(1, ops.len() as int);
        assert(sign_free(rest)) by {
            assert forall|i: int| 0 <= i < rest.len() implies (#[trigger] rest[i] is Dup
                || rest[i] is Drop || rest[i] is Add || rest[i] == Op::Push(0)) by {
                assert(rest[i] == ops[i + 1]);
            }
        }
        let op = ops[0];
        assert(op is Dup || op is Drop || op is Add || op == Op::Push(0));
        let n = m.len();
        let nm = negated(m);
        let na = negated(a);
        assert(executing(st(m, a)) && executing(st(nm, na)));
        if op is Dup {
            if n >= 1 {
                assert(negated(m.push(m[n - 1])) =~= nm.push(nm[n - 1]));
                lemma_sign_free_run(rest, m.push(m[n - 1]), a);
            }
        } else if op is Drop {
            if n >= 1 {
                assert(negated(m.subrange(0, n - 1)) =~= nm.subrange(0, n - 1));
                lemma_sign_free_run(rest, m.subrange(0, n - 1), a);
            }
        } else if op is Add {
            if n >= 2 && is_num(m[n - 2]) && is_num(m[n - 1]) {
                let r = m.subrange(0, n - 2).push(m[n - 2] + m[n - 1]);
                assert(negated(r) =~= nm.subrange(0, n - 2).push(nm[n - 2] + nm[n - 1]));
                lemma_sign_free_run(rest, r, a);
            }
        } else {
            assert(negated(m.push(0)) =~= nm.push(0));
            lemma_sign_free_run(rest, m.push(0), a);
        }
    }
}

/// Negating twice gives the stack back.
proof fn lemma_negated_twice(s: Seq<int>)
    ensures
        negated(negated(s)) == s,
{
    assert(negated(negated(s)) =~= s);
}

/// Joining sign-free fragments gives a sign-free fragment.
proof fn lemma_sign_free_join(a: Seq<Op>, b: Seq<Op>)
    requires
        sign_free(a),
        sign_free(b),
    ensures
        sign_free(a + b),
{
    assert forall|i: int| 0 <= i < (a + b).len() implies (#[trigger] (a + b)[i] is Dup
        || (a + b)[i] is Drop || (a + b)[i] is Add || (a + b)[i] == Op::Push(0)) by {
        if i < a.len() {
            assert((a + b)[i] == a[i]);
        } else {
            assert((a + b)[i] == b[i - a.len()]);
        }
    }
}

/// The script of [`NMUL`] is sign-free.
proof fn lemma_nmul_sign_free(n: nat)
    ensures
        sign_free(nmul_ops(n)),
{
    if n == 0 {
        assert(sign_free(seq![Op::Drop, Op::Push(0)]));
    } else {
        lemma_nmul_doublings_sign_free(n, (bit_len(n) - 1) as nat);
        lemma_adds_sign_free((bit_count(n, bit_len(n)) - 1) as nat);
        lemma_sign_free_join(
            nmul_doublings(n, (bit_len(n) - 1) as nat),
            repeat(seq![Op::Add], (bit_count(n, bit_len(n)) - 1) as nat),
        );
    }
}

/// The doublings of [`NMUL`] are sign-free.
proof fn lemma_nmul_doublings_sign_free(n: nat, k: nat)
    ensures
        sign_free(nmul_doublings(n, k)),
    decreases k,
{
    if k > 0 {
        lemma_nmul_doublings_sign_free(n, (k - 1) as nat);
        let d = if nbit(n, (k - 1) as nat) == 1 {
            seq![Op::Dup]
        } else {
            Seq::<Op>::empty()
        };
        assert(sign_free(d));
        assert(sign_free(op_2mul_ops()));
        lemma_sign_free_join(nmul_doublings(n, (k - 1) as nat), d);
        lemma_sign_free_join(nmul_doublings(n, (k - 1) as nat) + d, op_2mul_ops());
    }
}

/// A run of additions is sign-free.
proof fn lemma_adds_sign_free(k: nat)
    ensures
        sign_free(repeat(seq![Op::Add], k)),
    decreases k,
{
    if k > 0 {
        lemma_adds_sign_free((k - 1) as nat);
        assert(sign_free(seq![Op::Add]));
        lemma_sign_free_join(repeat(seq![Op::Add], (k - 1) as nat), seq![Op::Add]);
    }
}

/// [`NMUL`] multiplies the top stack item by `n`, where the product is a
/// script number.
pub proof fn lemma_nmul_computes(n: nat, m: Seq<int>, a: Seq<int>, x: int)
    requires
        -0x7fff_ffff <= n * x <= 0x7fff_ffff,
    ensures
        run(nmul_ops(n), st(m.push(x), a)) == Some(st(m.push(n * x), a)),
{
    if x >= 0 {
        lemma_nmul_computes_nonneg(n, m, a, x);
    } else {
        assert(n * (-x) == -(n * x)) by (nonlinear_arith);
        let nm = negated(m);
        let na = negated(a);
        lemma_nmul_computes_nonneg(n, nm, na, -x);
        lemma_nmul_sign_free(n);
        lemma_sign_free_run(nmul_ops(n), nm.push(-x), na);
        assert(negated(nm.push(-x)) =~= m.push(x)) by {
            lemma_negated_twice(m);
        }
        lemma_negated_twice(a);
        assert(negated(nm.push(n * (-x))) =~= m.push(n * x)) by {
            lemma_negated_twice(m);
        }
    }
}

/// [`NMUL`] on a non-negative item.
proof fn lemma_nmul_computes_nonneg(n: nat, m: Seq<int>, a: Seq<int>, x: int)
    requires
        0 <= x,
        n * x <= 0x7fff_ffff,
    ensures
        run(nmul_ops(n), st(m.push(x), a)) == Some(st(m.push(n * x), a)),
{
    let s0 = st(m.push(x), a);
    if n == 0 {
        let e = Seq::<Op>::empty();
        lemma_run_push(e, Op::Drop, s0);
        crate::stack::lemma_drop(m, a, x);
        lemma_run_push(e.push(Op::Drop), Op::Push(0), s0);
        assert(nmul_ops(0) =~= e.push(Op::Drop).push(Op::Push(0)));
    } else {
        lemma_bit_len_range(n);
        let bl = bit_len(n);
        let t = (bl - 1) as nat;
        lemma_bit_len_bounds(n, bl);
        lemma_nmul_doublings(n, x, t, m, a);
        lemma_nmul_partials(n, x, t);
        let p = nmul_partials(n, x, t);
        let q = p.push(pow2(t) * x);
        assert((m + p).push(pow2(t) * x) =~= m + q);
        assert(q.subrange(0, q.len() - 1) =~= p);
        let d = pow2(t) as int;
        lemma_pow2_pos(t);
        lemma_pow2_unfold(bl);
        lemma_fundamental_div_mod(n as int, d);
        assert((n as int) / d < 2) by {
            lemma_div_by_multiple_is_strongly_ordered(n as int, 2 * d, 2, d);
            lemma_div_by_multiple(2, d);
        }
        assert((n as int) / d >= 1) by {
            lemma_div_is_ordered(d, n as int, d);
            lemma_div_by_multiple(1, d);
        }
        assert(d * ((n as int) / d) == d) by (nonlinear_arith)
            requires
                (n as int) / d == 1,
        ;
        assert(n as int == d + (n as int) % d);
        assert(sum(q) == sum(p) + pow2(t) * x);
        assert((n % pow2(t)) as int == (n as int) % d);
        lemma_split_product(sum(q), x, (n % pow2(t)) as int, pow2(t) as int, n as int);
        assert forall|i: int| 0 <= i < q.len() implies 0 <= #[trigger] q[i] by {
            if i < p.len() {
                assert(q[i] == p[i]);
            } else {
                vstd::arithmetic::mul::lemma_mul_nonnegative(pow2(t) as int, x);
            }
        }
        assert(bit_count(n, bl) == bit_count(n, t) + 1);
        lemma_add_chain(m, a, q);
        lemma_run_seq(
            nmul_doublings(n, t),
            repeat(seq![Op::Add], (bit_count(n, bl) - 1) as nat),
            s0,
            st(m + q, a),
            st(m.push(n * x), a),
        );
    }
}

} // verus!
