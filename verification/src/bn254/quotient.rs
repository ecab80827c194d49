//! The checks of the field multipliers: the quotient they are handed must
//! lie below the modulus, and so must the result they leave.
use crate::bigint::on_stack;
use crate::bn254::bn254_modulus;
use crate::bigint::op_tmul::{tmul_loop_ops, tmul_ops, WinBigIntImpl};
use crate::bn254::fp254_op_tmul::{resize_ops, Fq};
use crate::bn254::laws::lemma_resize_keeps_low_limbs;
use crate::bn254::tables::{lemma_copy_routine, lemma_limbs_of, lemma_on_stack_involution};
use crate::bigint::lsb_value;
use crate::biguint::digits_value;
use crate::routines::{
    block, limbs_of, number_items, routine_effect, valid_at, value_at, without_block, without_two,
};
use crate::script::{bool_num, lemma_run_append, repeat, run, st, step, Op, Routine};
use crate::stack::{lemma_run1, lemma_run2, lemma_run3, lemma_run_seq};
use crate::windows::{lemma_modulus_bits, lemma_pow2_le};
use vstd::arithmetic::power::{lemma_pow_positive, pow};
use vstd::arithmetic::power2::*;
use vstd::prelude::*;

verus! {

/// The opening of [`Fq::OP_TMUL`]: `y` and `x` go to the alt stack, and
/// `q` is compared with the modulus pushed from the digits `m1`.
pub open spec fn quotient_check_ops(f: Fq, m1: Vec<u32>) -> Seq<Op> {
    let u = f.u().shape();
    let w = f.tw().shape();
    u.toalt_ops() + u.toalt_ops() + w.copy_ops(0) + w.push_u32_le_ops(m1) + w.greaterthan_ops(0, 1)
        + seq![Op::Verify]
}

/// The library's move of the top big integer to the alt stack.
pub(crate) proof fn lemma_toalt_routine(s: crate::bigint::BigIntImpl, mm: Seq<int>, l: Seq<int>, a: Seq<int>)
    requires
        s.shape_ok(),
        l.len() == s.limbs(),
    ensures
        step(
            Op::Routine(Routine::ToAltStack { n_bits: s.n_bits, limb_size: s.limb_size }),
            st(mm + on_stack(l), a),
        ) == Some(st(mm, a + l)),
{
    reveal(routine_effect);
    let z = mm + on_stack(l);
    assert(z.subrange(0, z.len() - s.limbs()) =~= mm);
    assert(z.subrange(z.len() - s.limbs(), z.len() as int) =~= on_stack(l));
    lemma_on_stack_involution(l);
}

/// [`Fq::OP_TMUL`] refuses a quotient that is not below the modulus: on
/// `{q} {x} {y}`, each held by valid limbs, its script fails exactly where
/// `q >= p`; otherwise its opening leaves `q` on the stack and `y`, then
/// `x`, on the alt stack.
#[verifier::spinoff_prover]
#[verifier::rlimit(100)]
pub proof fn lemma_fq_checks_quotient(
    f: Fq,
    m1: Vec<u32>,
    m2: Vec<u32>,
    mm: Seq<int>,
    lq: Seq<int>,
    lx: Seq<int>,
    ly: Seq<int>,
    a: Seq<int>,
)
    requires
        f.tmul_ok(),
        f.n_bits >= 254,
        f.limb_size <= 30,
        f.u().limbs() == f.tw().limbs(),
        digits_value(m1@) == bn254_modulus(),
        f.u().shape().limbs_ok(lq),
        f.u().shape().limbs_ok(lx),
        f.u().shape().limbs_ok(ly),
    ensures
        ({
            let s0 = st(mm + on_stack(lq) + on_stack(lx) + on_stack(ly), a);
            &&& f.u().shape().value(lq) >= bn254_modulus() ==> run(f.tmul_ops(m1, m2), s0) is None
            &&& f.u().shape().value(lq) < bn254_modulus() ==> run(quotient_check_ops(f, m1), s0)
                == Some(st(mm + on_stack(lq), a + ly + lx))
            &&& f.tmul_ops(m1, m2) =~= quotient_check_ops(f, m1) + f.tmul_ops(m1, m2).subrange(
                quotient_check_ops(f, m1).len() as int,
                f.tmul_ops(m1, m2).len() as int,
            )
        }),
{
    let u = f.u().shape();
    let w = f.tw().shape();
    let n = u.limbs();
    let p = bn254_modulus();
    f.lemma_ext();
    u.lemma_head_bits();
    w.lemma_head_bits();
    let q = on_stack(lq);
    let s0 = st(mm + q + on_stack(lx) + on_stack(ly), a);
    // The two moves to the alt stack.
    lemma_toalt_routine(u, mm + q + on_stack(lx), ly, a);
    lemma_toalt_routine(u, mm + q, lx, a + ly);
    let s2 = st(mm + q, a + ly + lx);
    lemma_run2(
        Op::Routine(Routine::ToAltStack { n_bits: u.n_bits, limb_size: u.limb_size }),
        Op::Routine(Routine::ToAltStack { n_bits: u.n_bits, limb_size: u.limb_size }),
        s0,
        st(mm + q + on_stack(lx), a + ly),
        s2,
    );
    // The copy of `q`.
    assert((0 + 1) * n == n && 0 * n == 0 && (1 + 1) * n == 2 * n && 1 * n == n) by (nonlinear_arith);
    lemma_copy_routine(w, mm + q, a + ly + lx, 0);
    assert(block(mm + q, n, 0) =~= q);
    let m3 = mm + q + q;
    // The modulus, below `2^ext`.
    lemma_modulus_bits();
    lemma_pow2_le(254, f.ext());
    assert(f.tw().n_bits == f.ext());
    let pm = number_items(w, p);
    let m4 = m3 + pm;
    assert(step(
        Op::Routine(Routine::PushU32Le { n_bits: w.n_bits, limb_size: w.limb_size, digits: m1 }),
        st(m3, a + ly + lx),
    ) == Some(st(m4, a + ly + lx))) by {
        reveal(routine_effect);
    }
    lemma_run2(
        Op::Routine(Routine::Copy { n_bits: w.n_bits, limb_size: w.limb_size, depth: 0 }),
        Op::Routine(Routine::PushU32Le { n_bits: w.n_bits, limb_size: w.limb_size, digits: m1 }),
        s2,
        st(m3, a + ly + lx),
        st(m4, a + ly + lx),
    );
    // The comparison: `p > q`.
    lemma_limbs_of(w, p);
    lemma_on_stack_involution(limbs_of(w, p));
    lemma_on_stack_involution(lq);
    // Limbs valid for the operand are valid for the wider shape.
    assert(w.limbs_ok(lq)) by {
        if u.head_bits() < w.head_bits() {
            lemma_pow2_strictly_increases(u.head_bits() as nat, w.head_bits() as nat);
        }
        assert forall|i: int| 0 <= i < lq.len() implies 0 <= #[trigger] lq[i] < (if i == lq.len() - 1 {
            w.head_bound() as int
        } else {
            w.base() as int
        }) by {}
    }
    let b = bool_num(p > u.value(lq));
    let m5 = mm + q + seq![b];
    assert(step(
        Op::Routine(Routine::GreaterThan { n_bits: w.n_bits, limb_size: w.limb_size, a: 0, b: 1 }),
        st(m4, a + ly + lx),
    ) == Some(st(m5, a + ly + lx))) by {
        reveal(routine_effect);
        assert(pm.len() == n);
        assert(block(m4, n, 0) =~= pm);
        assert(block(m4, n, 1) =~= q);
        assert(without_block(m4, n, 1) =~= mm + q + pm);
        assert(without_block(without_block(m4, n, 1), n, 0) =~= mm + q);
    }
    let first = u.toalt_ops() + u.toalt_ops();
    let mid = w.copy_ops(0) + w.push_u32_le_ops(m1);
    assert(first =~= seq![
        Op::Routine(Routine::ToAltStack { n_bits: u.n_bits, limb_size: u.limb_size }),
        Op::Routine(Routine::ToAltStack { n_bits: u.n_bits, limb_size: u.limb_size }),
    ]);
    assert(mid =~= seq![
        Op::Routine(Routine::Copy { n_bits: w.n_bits, limb_size: w.limb_size, depth: 0 }),
        Op::Routine(Routine::PushU32Le { n_bits: w.n_bits, limb_size: w.limb_size, digits: m1 }),
    ]);
    lemma_run_seq(first, mid, s0, s2, st(m4, a + ly + lx));
    lemma_run1(
        Op::Routine(Routine::GreaterThan { n_bits: w.n_bits, limb_size: w.limb_size, a: 0, b: 1 }),
        st(m4, a + ly + lx),
        st(m5, a + ly + lx),
    );
    lemma_run_seq(first + mid, w.greaterthan_ops(0, 1), s0, st(m4, a + ly + lx), st(m5, a + ly + lx));
    let pre = first + mid + w.greaterthan_ops(0, 1);
    assert(quotient_check_ops(f, m1) == pre + seq![Op::Verify]);
    crate::script::lemma_run_single(Op::Verify, st(m5, a + ly + lx));
    lemma_run_append(pre, seq![Op::Verify], s0);
    assert((mm + q).push(b) =~= m5);
    assert(m5.subrange(0, m5.len() - 1) =~= mm + q);
    // The rest of the script runs after the opening.
    let all = f.tmul_ops(m1, m2);
    let qc = quotient_check_ops(f, m1);
    assert(all =~= qc + all.subrange(qc.len() as int, all.len() as int));
    lemma_run_append(qc, all.subrange(qc.len() as int, all.len() as int), s0);
}

} // verus!

verus! {

/// `n` zero limbs.
pub open spec fn zero_limbs(n: nat) -> Seq<int> {
    Seq::new(n, |i: int| 0int)
}

/// Zero, as a big integer of shape `s`: all limbs zero.
pub proof fn lemma_zero_limbs(s: crate::bigint::BigIntImpl)
    requires
        s.shape_ok(),
        s.limb_size <= 30,
    ensures
        on_stack(zero_limbs(s.limbs())) == zero_limbs(s.limbs()),
        s.limbs_ok(zero_limbs(s.limbs())),
        s.value(zero_limbs(s.limbs())) == 0,
{
    let zeros = zero_limbs(s.limbs());
    lemma_pow2_pos(s.n_bits as nat);
    lemma_pow2_pos(s.limb_size as nat);
    lemma_limbs_of(s, 0);
    assert(limbs_of(s, 0) =~= zeros) by {
        assert forall|i: int| 0 <= i < s.limbs() implies limbs_of(s, 0)[i] == 0 by {
            vstd::arithmetic::power::lemma_pow_positive(s.base() as int, i as nat);
            assert(0int / vstd::arithmetic::power::pow(s.base() as int, i as nat) == 0);
        }
    }
    assert(on_stack(zeros) =~= zeros);
}

/// The close of [`crate::bigint::op_tmul::WinBigIntImpl::OP_TMUL`]: the
/// checks that the result lies in `[0, p)`, then the removal of `y` and of
/// both tables from under it.
pub open spec fn win_close_ops(w: WinBigIntImpl, m: Vec<u32>) -> Seq<Op> {
    let u = w.operand();
    let p = w.table();
    u.copy_ops(0) + u.push_zero_ops() + u.lessthanorequal_ops(0, 1) + seq![Op::Verify] + u.copy_ops(0)
        + u.push_u32_le_ops(m) + u.greaterthan_ops(0, 1) + seq![Op::Verify] + u.toalt_ops()
        + u.drop_ops() + p.drop_table_ops() + p.drop_table_ops() + u.fromalt_ops()
}

/// The library's push of zero.
pub(crate) proof fn lemma_push_zero_routine(u: crate::bigint::BigIntImpl, z: Seq<int>, a: Seq<int>)
    requires
        u.shape_ok(),
    ensures
        step(Op::Routine(Routine::PushZero { n_bits: u.n_bits, limb_size: u.limb_size }), st(z, a))
            == Some(st(z + zero_limbs(u.limbs()), a)),
{
    reveal(routine_effect);
}

/// The library's push of the modulus from its digits `m`.
proof fn lemma_push_modulus_routine(u: crate::bigint::BigIntImpl, m: Vec<u32>, z: Seq<int>, a: Seq<int>)
    requires
        u.shape_ok(),
        u.n_bits >= 254,
        digits_value(m@) == bn254_modulus(),
    ensures
        step(
            Op::Routine(Routine::PushU32Le { n_bits: u.n_bits, limb_size: u.limb_size, digits: m }),
            st(z, a),
        ) == Some(st(z + number_items(u, bn254_modulus()), a)),
{
    lemma_modulus_bits();
    lemma_pow2_le(254, u.n_bits as nat);
    reveal(routine_effect);
}

/// The library's comparison of the modulus, pushed on top, with the big
/// integer held by valid limbs `lz` under it.
#[verifier::spinoff_prover]
#[verifier::rlimit(50)]
proof fn lemma_compare_with_modulus(u: crate::bigint::BigIntImpl, z: Seq<int>, lz: Seq<int>, a: Seq<int>)
    requires
        u.shape_ok(),
        u.n_bits >= 254,
        u.limb_size <= 30,
        u.limbs_ok(lz),
    ensures
        step(
            Op::Routine(Routine::GreaterThan { n_bits: u.n_bits, limb_size: u.limb_size, a: 0, b: 1 }),
            st(z + on_stack(lz) + number_items(u, bn254_modulus()), a),
        ) == Some(st(z.push(bool_num(bn254_modulus() > u.value(lz))), a)),
{
    let n = u.limbs();
    let pv = bn254_modulus();
    let r = u.value(lz);
    let pm = number_items(u, pv);
    let z3 = z + on_stack(lz) + pm;
    let b = bool_num(pv > r);
    u.lemma_head_bits();
    lemma_modulus_bits();
    lemma_pow2_le(254, u.n_bits as nat);
    lemma_limbs_of(u, pv);
    lemma_on_stack_involution(limbs_of(u, pv));
    lemma_on_stack_involution(lz);
    assert((0 + 1) * n == n && 0 * n == 0 && (1 + 1) * n == 2 * n && 1 * n == n) by (nonlinear_arith);
    assert(block(z3, n, 0) =~= pm);
    assert(block(z3, n, 1) =~= on_stack(lz));
    assert(without_block(z3, n, 1) =~= z + pm);
    assert(without_block(without_block(z3, n, 1), n, 0) =~= z);
    assert(valid_at(u, z3, 0) && value_at(u, z3, 0) == pv);
    assert(valid_at(u, z3, 1) && value_at(u, z3, 1) == r);
    assert(without_two(z3, n, 0, 1) == z);
    assert(z + seq![b] =~= z.push(b));
    reveal(routine_effect);
}

/// The library's comparison of zero, pushed on top, with the big integer
/// held by valid limbs `lz` under it: `0 <= r` holds.
#[verifier::spinoff_prover]
#[verifier::rlimit(100)]
proof fn lemma_compare_with_zero(u: crate::bigint::BigIntImpl, z: Seq<int>, lz: Seq<int>, a: Seq<int>)
    requires
        u.shape_ok(),
        u.limb_size <= 30,
        u.limbs_ok(lz),
    ensures
        step(
            Op::Routine(Routine::LessThanOrEqual { n_bits: u.n_bits, limb_size: u.limb_size, a: 0, b: 1 }),
            st(z + on_stack(lz) + zero_limbs(u.limbs()), a),
        ) == Some(st(z.push(1), a)),
{
    let n = u.limbs();
    let zeros = zero_limbs(n);
    let z2 = z + on_stack(lz) + zeros;
    let r = u.value(lz);
    u.lemma_head_bits();
    lemma_zero_limbs(u);
    lemma_on_stack_involution(lz);
    assert((0 + 1) * n == n && 0 * n == 0 && (1 + 1) * n == 2 * n && 1 * n == n) by (nonlinear_arith);
    assert(block(z2, n, 0) =~= zeros);
    assert(block(z2, n, 1) =~= on_stack(lz));
    assert(without_block(z2, n, 1) =~= z + zeros);
    assert(without_block(without_block(z2, n, 1), n, 0) =~= z);
    crate::bn254::tables::lemma_value_below(u, lz);
    assert(valid_at(u, z2, 0) && value_at(u, z2, 0) == 0);
    assert(valid_at(u, z2, 1) && value_at(u, z2, 1) == r);
    assert(without_two(z2, n, 0, 1) == z);
    assert(z + seq![bool_num(0 <= r)] =~= z.push(1));
    reveal(routine_effect);
}

/// The first check of the result `r` held by valid limbs `lz` on top,
/// `0 <= r`, always passes.
#[verifier::spinoff_prover]
#[verifier::rlimit(100)]
proof fn lemma_check_nonneg(u: crate::bigint::BigIntImpl, base: Seq<int>, lz: Seq<int>, a: Seq<int>)
    requires
        u.shape_ok(),
        u.limb_size <= 30,
        u.limbs_ok(lz),
    ensures
        ({
            let z = base + on_stack(lz);
            run(
                u.copy_ops(0) + u.push_zero_ops() + u.lessthanorequal_ops(0, 1) + seq![Op::Verify],
                st(z, a),
            ) == Some(st(z, a))
        }),
{
    let n = u.limbs();
    let z = base + on_stack(lz);
    let zeros = zero_limbs(n);
    let r = u.value(lz);
    u.lemma_head_bits();
    lemma_zero_limbs(u);
    lemma_on_stack_involution(lz);
    assert((0 + 1) * n == n && 0 * n == 0 && (1 + 1) * n == 2 * n && 1 * n == n) by (nonlinear_arith);
    lemma_copy_routine(u, z, a, 0);
    assert(block(z, n, 0) =~= on_stack(lz));
    let z1 = z + on_stack(lz);
    let z2 = z1 + zeros;
    lemma_push_zero_routine(u, z1, a);
    lemma_compare_with_zero(u, z, lz, a);
    lemma_run3(
        Op::Routine(Routine::Copy { n_bits: u.n_bits, limb_size: u.limb_size, depth: 0 }),
        Op::Routine(Routine::PushZero { n_bits: u.n_bits, limb_size: u.limb_size }),
        Op::Routine(Routine::LessThanOrEqual { n_bits: u.n_bits, limb_size: u.limb_size, a: 0, b: 1 }),
        st(z, a),
        st(z1, a),
        st(z2, a),
        st(z.push(1), a),
    );
    crate::script::lemma_run_single(Op::Verify, st(z.push(1), a));
    assert(z.push(1).subrange(0, z.len() as int) =~= z);
    let first = u.copy_ops(0) + u.push_zero_ops() + u.lessthanorequal_ops(0, 1);
    assert(first =~= seq![
        Op::Routine(Routine::Copy { n_bits: u.n_bits, limb_size: u.limb_size, depth: 0 }),
        Op::Routine(Routine::PushZero { n_bits: u.n_bits, limb_size: u.limb_size }),
        Op::Routine(Routine::LessThanOrEqual { n_bits: u.n_bits, limb_size: u.limb_size, a: 0, b: 1 }),
    ]);
    lemma_run_seq(first, seq![Op::Verify], st(z, a), st(z.push(1), a), st(z, a));
}

/// The second check of the result `r` held by valid limbs `lz` of shape
/// `u` on top passes exactly where `r < p`.
#[verifier::spinoff_prover]
#[verifier::rlimit(100)]
proof fn lemma_check_below(
    u: crate::bigint::BigIntImpl,
    m: Vec<u32>,
    base: Seq<int>,
    lz: Seq<int>,
    a: Seq<int>,
)
    requires
        u.shape_ok(),
        u.n_bits >= 254,
        u.limb_size <= 30,
        digits_value(m@) == bn254_modulus(),
        u.limbs_ok(lz),
    ensures
        ({
            let z = base + on_stack(lz);
            run(
                u.copy_ops(0) + u.push_u32_le_ops(m) + u.greaterthan_ops(0, 1) + seq![Op::Verify],
                st(z, a),
            ) == if u.value(lz) < bn254_modulus() {
                Some(st(z, a))
            } else {
                None
            }
        }),
{
    let n = u.limbs();
    let z = base + on_stack(lz);
    let r = u.value(lz);
    let pv = bn254_modulus();
    u.lemma_head_bits();
    lemma_on_stack_involution(lz);
    assert((0 + 1) * n == n && 0 * n == 0 && (1 + 1) * n == 2 * n && 1 * n == n) by (nonlinear_arith);
    lemma_copy_routine(u, z, a, 0);
    assert(block(z, n, 0) =~= on_stack(lz));
    let z1 = z + on_stack(lz);
    lemma_modulus_bits();
    lemma_pow2_le(254, u.n_bits as nat);
    let pm = number_items(u, pv);
    let z3 = z1 + pm;
    lemma_push_modulus_routine(u, m, z1, a);
    let b = bool_num(pv > r);
    lemma_compare_with_modulus(u, z, lz, a);
    lemma_run3(
        Op::Routine(Routine::Copy { n_bits: u.n_bits, limb_size: u.limb_size, depth: 0 }),
        Op::Routine(Routine::PushU32Le { n_bits: u.n_bits, limb_size: u.limb_size, digits: m }),
        Op::Routine(Routine::GreaterThan { n_bits: u.n_bits, limb_size: u.limb_size, a: 0, b: 1 }),
        st(z, a),
        st(z1, a),
        st(z3, a),
        st(z.push(b), a),
    );
    let second = u.copy_ops(0) + u.push_u32_le_ops(m) + u.greaterthan_ops(0, 1);
    assert(second =~= seq![
        Op::Routine(Routine::Copy { n_bits: u.n_bits, limb_size: u.limb_size, depth: 0 }),
        Op::Routine(Routine::PushU32Le { n_bits: u.n_bits, limb_size: u.limb_size, digits: m }),
        Op::Routine(Routine::GreaterThan { n_bits: u.n_bits, limb_size: u.limb_size, a: 0, b: 1 }),
    ]);
    crate::script::lemma_run_single(Op::Verify, st(z.push(b), a));
    assert(z.push(b).subrange(0, z.len() as int) =~= z);
    lemma_run_append(second, seq![Op::Verify], st(z, a));
}

/// [`crate::bigint::op_tmul::WinBigIntImpl::OP_TMUL`] ends by checking its
/// result and clearing what lies under it: from `{q table} {x table} {y}
/// {r}`, with `r` held by valid limbs, its close fails unless `r < p`, and
/// otherwise leaves `{r}` alone, the alt stack as it found it. The close is
/// the end of the multiplier's script.
#[verifier::spinoff_prover]
pub proof fn lemma_win_close_computes(
    w: WinBigIntImpl,
    m: Vec<u32>,
    mm: Seq<int>,
    tq: Seq<int>,
    tx: Seq<int>,
    y: Seq<int>,
    lz: Seq<int>,
    a: Seq<int>,
)
    requires
        w.params_ok(),
        w.n_bits >= 254,
        w.limb_size <= 30,
        w.operand().limbs() == w.table().u().limbs(),
        digits_value(m@) == bn254_modulus(),
        w.operand().limbs_ok(lz),
        y.len() == w.operand().limbs(),
        tq.len() == pow2(w.window as nat) * w.operand().limbs(),
        tx.len() == pow2(w.window as nat) * w.operand().limbs(),
    ensures
        run(win_close_ops(w, m), st(mm + tq + tx + y + on_stack(lz), a)) == if w.operand().value(lz)
            < bn254_modulus() {
            Some(st(mm + on_stack(lz), a))
        } else {
            None
        },
        tmul_ops(w, m) =~= tmul_ops(w, m).subrange(0, tmul_ops(w, m).len() - win_close_ops(w, m).len())
            + win_close_ops(w, m),
{
    let u = w.operand();
    let p = w.table();
    let n = u.limbs();
    let base = mm + tq + tx + y;
    let z = base + on_stack(lz);
    let first = u.copy_ops(0) + u.push_zero_ops() + u.lessthanorequal_ops(0, 1) + seq![Op::Verify];
    let second = u.copy_ops(0) + u.push_u32_le_ops(m) + u.greaterthan_ops(0, 1) + seq![Op::Verify];
    let checks = first + second;
    let clear = u.toalt_ops() + u.drop_ops() + p.drop_table_ops() + p.drop_table_ops() + u.fromalt_ops();
    assert(win_close_ops(w, m) =~= checks + clear);
    lemma_check_nonneg(u, base, lz, a);
    lemma_check_below(u, m, base, lz, a);
    lemma_run_append(first, second, st(z, a));
    lemma_run_append(checks, clear, st(z, a));
    if u.value(lz) < bn254_modulus() {
        u.lemma_head_bits();
        // `r` to the alt stack, then `y` and both tables dropped.
        assert(lz.len() == n);
        lemma_toalt_routine(u, base, lz, a);
        let s1 = st(base, a + lz);
        lemma_run1(Op::Routine(Routine::ToAltStack { n_bits: u.n_bits, limb_size: u.limb_size }), st(z, a), s1);
        crate::bn254::tables::lemma_drops(u, mm + tq + tx, y, a + lz, 1);
        assert(1 * n == n) by (nonlinear_arith);
        let pu = p.u();
        crate::bn254::tables::lemma_drops(pu, mm + tq, tx, a + lz, pow2(w.window as nat));
        crate::bn254::tables::lemma_drops(pu, mm, tq, a + lz, pow2(w.window as nat));
        assert(repeat(u.drop_ops(), 0) =~= Seq::<Op>::empty());
        assert(repeat(u.drop_ops(), 1) =~= repeat(u.drop_ops(), 0) + u.drop_ops());
        assert(repeat(u.drop_ops(), 1) =~= u.drop_ops());
        assert(p.drop_table_ops() == repeat(pu.drop_ops(), pow2(w.window as nat)));
        lemma_run_seq(u.toalt_ops(), u.drop_ops(), st(z, a), s1, st(mm + tq + tx, a + lz));
        lemma_run_seq(
            u.toalt_ops() + u.drop_ops(),
            p.drop_table_ops(),
            st(z, a),
            st(mm + tq + tx, a + lz),
            st(mm + tq, a + lz),
        );
        lemma_run_seq(
            u.toalt_ops() + u.drop_ops() + p.drop_table_ops(),
            p.drop_table_ops(),
            st(z, a),
            st(mm + tq, a + lz),
            st(mm, a + lz),
        );
        assert(step(
            Op::Routine(Routine::FromAltStack { n_bits: u.n_bits, limb_size: u.limb_size }),
            st(mm, a + lz),
        ) == Some(st(mm + on_stack(lz), a))) by {
            reveal(routine_effect);
            let al = a + lz;
            assert(al.subrange(al.len() - n, al.len() as int) =~= lz);
            assert(al.subrange(0, al.len() - n) =~= a);
        }
        lemma_run1(
            Op::Routine(Routine::FromAltStack { n_bits: u.n_bits, limb_size: u.limb_size }),
            st(mm, a + lz),
            st(mm + on_stack(lz), a),
        );
        lemma_run_seq(
            u.toalt_ops() + u.drop_ops() + p.drop_table_ops() + p.drop_table_ops(),
            u.fromalt_ops(),
            st(z, a),
            st(mm, a + lz),
            st(mm + on_stack(lz), a),
        );
    }
    let all = tmul_ops(w, m);
    let pre = u.toalt_ops() + u.toalt_ops() + p.initialize_ops() + u.fromalt_ops() + p.initialize_ops()
        + u.fromalt_ops() + tmul_loop_ops(w, w.windows());
    assert(all =~= pre + win_close_ops(w, m));
    assert(all.subrange(0, all.len() - win_close_ops(w, m).len()) =~= pre);
}


/// Valid limbs of a wider shape whose value fits a narrower shape of the
/// same limb size: their low limbs are valid limbs of the narrower shape,
/// of the same value.
#[verifier::spinoff_prover]
pub proof fn lemma_low_limbs(w: crate::bigint::BigIntImpl, u: crate::bigint::BigIntImpl, l: Seq<int>)
    requires
        w.shape_ok(),
        u.shape_ok(),
        w.limb_size == u.limb_size,
        u.limb_size <= 30,
        u.n_bits <= w.n_bits,
        w.limbs_ok(l),
        w.value(l) < pow2(u.n_bits as nat),
    ensures
        u.limbs() <= w.limbs(),
        u.limbs_ok(l.subrange(0, u.limbs() as int)),
        u.value(l.subrange(0, u.limbs() as int)) == w.value(l),
{
    w.lemma_head_bits();
    u.lemma_head_bits();
    w.lemma_bounds();
    u.lemma_bounds();
    let ls = u.limb_size as int;
    let nu = u.limbs();
    let nw = w.limbs();
    assert(nu <= nw) by (nonlinear_arith)
        requires
            (nu - 1) * ls < u.n_bits,
            u.n_bits <= w.n_bits,
            w.n_bits - (nw - 1) * ls <= ls,
            ls > 0,
    ;
    let b = u.base() as int;
    assert(w.base() == u.base());
    let v = w.value(l);
    let low = l.subrange(0, nu as int);
    let high = l.subrange(nu as int, nw as int);
    assert forall|i: int| 0 <= i < nw implies 0 <= #[trigger] l[i] < b by {}
    crate::bigint::decomp::lemma_lsb_value_split(l, b, nu);
    crate::bigint::doubling::lemma_lsb_value_bound(l, b, nu);
    crate::bigint::doubling::lemma_lsb_value_bound(high, b, high.len());
    assert(high.subrange(0, high.len() as int) =~= high);
    let lo = lsb_value(low, b);
    let hi = lsb_value(high, b);
    let j = (nu - 1) as nat;
    let pj = pow(b, j);
    lemma_pow_positive(b, j);
    assert(pow(b, nu) == b * pj) by {
        reveal(pow);
    }
    let hb = u.head_bound() as int;
    assert(hb * pj == pow2(u.n_bits as nat));
    assert(hb * pj <= b * pj) by (nonlinear_arith)
        requires
            hb <= b,
            pj > 0,
    ;
    assert(v == lo + (b * pj) * hi);
    if hi != 0 {
        assert((b * pj) * hi >= b * pj) by (nonlinear_arith)
            requires
                hi >= 1,
                b * pj > 0,
        ;
        assert(false);
    }
    assert((b * pj) * hi == 0) by (nonlinear_arith)
        requires
            hi == 0,
    ;
    assert(lo == v);
    // The head limb of the low part.
    crate::bigint::decomp::lemma_lsb_value_split(low, b, j);
    crate::bigint::doubling::lemma_lsb_value_bound(low, b, j);
    let top = low.subrange(j as int, nu as int);
    assert(top.subrange(1, 1) =~= Seq::<int>::empty());
    assert(lsb_value(Seq::<int>::empty(), b) == 0);
    assert(lsb_value(top, b) == low[j as int]);
    let hd = low[j as int];
    assert(low.subrange(0, j as int) =~= low.subrange(0, j as int).subrange(0, j as int));
    assert(low.len() == nu);
    assert(v == lsb_value(low.subrange(0, j as int), b) + pj * lsb_value(top, b));
    assert(hd < hb) by (nonlinear_arith)
        requires
            v == lsb_value(low.subrange(0, j as int), b) + pj * hd,
            0 <= lsb_value(low.subrange(0, j as int), b),
            v < hb * pj,
            pj > 0,
    ;
    assert forall|i: int| 0 <= i < low.len() implies 0 <= #[trigger] low[i] < (if i == low.len() - 1 {
        u.head_bound() as int
    } else {
        u.base() as int
    }) by {}
}


/// The close of [`Fq::OP_TMUL`]: the removal of `y` and of both tables
/// from under the result, the check that the result lies below the
/// modulus pushed from the digits `m2`, and its resize back to the
/// operands' width.
pub open spec fn fq_close_ops(f: Fq, m2: Vec<u32>) -> Seq<Op> {
    let w = f.tw().shape();
    let t = f.table();
    w.toalt_ops() + w.drop_ops() + t.drop_table_ops(f.var_width) + t.drop_table_ops(f.mod_width)
        + w.fromalt_ops() + w.copy_ops(0) + w.push_u32_le_ops(m2) + w.greaterthan_ops(0, 1)
        + seq![Op::Verify] + resize_ops(f.tw().limbs(), f.u().limbs())
}

/// [`Fq::OP_TMUL`] ends by clearing what lies under its result and
/// checking it: from `{-q table} {x table} {y} {r}`, with `r` held by valid
/// limbs of the intermediate width, its close fails unless `r < p`, and
/// otherwise leaves `r` alone, in valid limbs of the operands' width, the
/// alt stack as it found it. The close is the end of the multiplier's
/// script.
#[verifier::spinoff_prover]
#[verifier::rlimit(100)]
pub proof fn lemma_fq_close_computes(
    f: Fq,
    m1: Vec<u32>,
    m2: Vec<u32>,
    mm: Seq<int>,
    tq: Seq<int>,
    tx: Seq<int>,
    y: Seq<int>,
    lz: Seq<int>,
    a: Seq<int>,
)
    requires
        f.tmul_ok(),
        f.n_bits >= 254,
        f.limb_size <= 30,
        digits_value(m2@) == bn254_modulus(),
        f.tw().shape().limbs_ok(lz),
        y.len() == f.tw().limbs(),
        tx.len() == (pow2(f.var_width as nat) - 1) * f.tw().limbs(),
        tq.len() == (pow2(f.mod_width as nat) - 1) * f.tw().limbs(),
    ensures
        ({
            let w = f.tw().shape();
            let u = f.u().shape();
            let low = lz.subrange(0, u.limbs() as int);
            &&& run(fq_close_ops(f, m2), st(mm + tq + tx + y + on_stack(lz), a)) == if w.value(lz)
                < bn254_modulus() {
                Some(st(mm + on_stack(low), a))
            } else {
                None
            }
            &&& w.value(lz) < bn254_modulus() ==> u.limbs_ok(low) && u.value(low) == w.value(lz)
        }),
        ({
            let all = f.tmul_ops(m1, m2);
            all =~= all.subrange(0, all.len() - fq_close_ops(f, m2).len()) + fq_close_ops(f, m2)
        }),
{
    let w = f.tw().shape();
    let u = f.u().shape();
    let t = f.table();
    let n = w.limbs();
    let base = mm + tq + tx + y;
    let z = base + on_stack(lz);
    f.lemma_ext();
    w.lemma_head_bits();
    u.lemma_head_bits();
    lemma_pow2_pos(f.var_width as nat);
    lemma_pow2_pos(f.mod_width as nat);
    assert(t.w().shape() == w);
    // `r` to the alt stack, then `y` and both tables dropped.
    lemma_toalt_routine(w, base, lz, a);
    let s1 = st(base, a + lz);
    lemma_run1(Op::Routine(Routine::ToAltStack { n_bits: w.n_bits, limb_size: w.limb_size }), st(z, a), s1);
    assert(1 * n == n) by (nonlinear_arith);
    crate::bn254::tables::lemma_drops(w, mm + tq + tx, y, a + lz, 1);
    assert(repeat(w.drop_ops(), 0) =~= Seq::<Op>::empty());
    assert(repeat(w.drop_ops(), 1) =~= repeat(w.drop_ops(), 0) + w.drop_ops());
    assert(repeat(w.drop_ops(), 1) =~= w.drop_ops());
    crate::bn254::tables::lemma_drops(w, mm + tq, tx, a + lz, (pow2(f.var_width as nat) - 1) as nat);
    crate::bn254::tables::lemma_drops(w, mm, tq, a + lz, (pow2(f.mod_width as nat) - 1) as nat);
    let clear = w.toalt_ops() + w.drop_ops() + t.drop_table_ops(f.var_width) + t.drop_table_ops(
        f.mod_width,
    );
    lemma_run_seq(w.toalt_ops(), w.drop_ops(), st(z, a), s1, st(mm + tq + tx, a + lz));
    lemma_run_seq(
        w.toalt_ops() + w.drop_ops(),
        t.drop_table_ops(f.var_width),
        st(z, a),
        st(mm + tq + tx, a + lz),
        st(mm + tq, a + lz),
    );
    lemma_run_seq(
        w.toalt_ops() + w.drop_ops() + t.drop_table_ops(f.var_width),
        t.drop_table_ops(f.mod_width),
        st(z, a),
        st(mm + tq, a + lz),
        st(mm, a + lz),
    );
    assert(step(
        Op::Routine(Routine::FromAltStack { n_bits: w.n_bits, limb_size: w.limb_size }),
        st(mm, a + lz),
    ) == Some(st(mm + on_stack(lz), a))) by {
        reveal(routine_effect);
        let al = a + lz;
        assert(al.subrange(al.len() - n, al.len() as int) =~= lz);
        assert(al.subrange(0, al.len() - n) =~= a);
    }
    lemma_run1(
        Op::Routine(Routine::FromAltStack { n_bits: w.n_bits, limb_size: w.limb_size }),
        st(mm, a + lz),
        st(mm + on_stack(lz), a),
    );
    lemma_run_seq(clear, w.fromalt_ops(), st(z, a), st(mm, a + lz), st(mm + on_stack(lz), a));
    // The check, then the resize.
    lemma_modulus_bits();
    lemma_pow2_le(254, w.n_bits as nat);
    let check = w.copy_ops(0) + w.push_u32_le_ops(m2) + w.greaterthan_ops(0, 1) + seq![Op::Verify];
    lemma_check_below(w, m2, mm, lz, a);
    let up = resize_ops(f.tw().limbs(), f.u().limbs());
    assert(fq_close_ops(f, m2) =~= (clear + w.fromalt_ops()) + check + up);
    lemma_run_append(clear + w.fromalt_ops(), check, st(z, a));
    lemma_run_append((clear + w.fromalt_ops()) + check, up, st(z, a));
    if w.value(lz) < bn254_modulus() {
        lemma_pow2_le(254, u.n_bits as nat);
        lemma_low_limbs(w, u, lz);
        lemma_resize_keeps_low_limbs(u.limbs(), mm, lz, a);
    }
    let all = f.tmul_ops(m1, m2);
    assert(all.subrange(0, all.len() - fq_close_ops(f, m2).len()) + fq_close_ops(f, m2) =~= all);
}

} // verus!
