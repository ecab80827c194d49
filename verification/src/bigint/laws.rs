//! What [`BigIntImpl::stack_copy`] of the windowed multiplier copies.
use crate::bigint::op_tmul::stack_copy_ops;
use crate::bigint::{on_stack, BigIntImpl};
use crate::pseudo::{lemma_op_2mul, lemma_op_4mul, op_2mul_ops, op_4mul_ops};
use crate::script::{run, st, Op};
use crate::stack::{lemma_binary, lemma_copy_block, lemma_dup, lemma_push, lemma_run1, lemma_run2, lemma_run_seq};
use vstd::prelude::*;

verus! {

/// [`BigIntImpl::stack_copy`] with `d` on top copies the `n_limbs` items
/// whose topmost lies `9 * d` deep.
pub proof fn lemma_stack_copy_computes(n: u32, m: Seq<int>, a: Seq<int>, d: int)
    requires
        n >= 1,
        0 <= d,
        9 * d + n <= m.len(),
        9 * d + n <= 0x7fff_ffff,
    ensures
        run(stack_copy_ops(n), st(m.push(d), a)) == Some(
            st(m + m.subrange(m.len() - 9 * d - n, m.len() - 9 * d), a),
        ),
{
    let s0 = st(m.push(d), a);
    let s1 = st(m.push(d).push(d), a);
    let s2 = st(m.push(d).push(4 * d), a);
    let s3 = st(m.push(d).push(8 * d), a);
    let s4 = st(m.push(9 * d), a);
    let s5 = st(m.push(9 * d).push(n as int), a);
    let v = 9 * d + n;
    let s6 = st(m.push(v), a);
    lemma_dup(m, a, d);
    lemma_run1(Op::Dup, s0, s1);
    lemma_op_4mul(m.push(d), a, d);
    lemma_op_2mul(m.push(d), a, 4 * d);
    lemma_binary(Op::Add, m, a, d, 8 * d);
    lemma_run1(Op::Add, s3, s4);
    lemma_push(m.push(9 * d), a, n);
    lemma_binary(Op::Add, m, a, 9 * d, n as int);
    lemma_run2(Op::Push(n), Op::Add, s4, s5, s6);
    lemma_run_seq(seq![Op::Dup], op_4mul_ops(), s0, s1, s2);
    lemma_run_seq(seq![Op::Dup] + op_4mul_ops(), op_2mul_ops(), s0, s2, s3);
    lemma_run_seq(seq![Op::Dup] + op_4mul_ops() + op_2mul_ops(), seq![Op::Add], s0, s3, s4);
    let pre = seq![Op::Dup] + op_4mul_ops() + op_2mul_ops() + seq![Op::Add];
    lemma_run_seq(pre, seq![Op::Push(n), Op::Add], s0, s4, s6);
    lemma_copy_block(m, a, v, n as nat);
    let tail = crate::script::repeat(seq![Op::Dup, Op::Pick, Op::Swap], (n - 1) as nat) + seq![
        Op::OneSub,
        Op::Pick,
    ];
    lemma_run_seq(pre + seq![Op::Push(n), Op::Add], tail, s0, s6, st(m + m.subrange(m.len() - v, m.len() - v + n), a));
    assert(stack_copy_ops(n) =~= pre + seq![Op::Push(n), Op::Add] + tail);
}

/// With nine limbs, [`BigIntImpl::stack_copy`] with `d` on top copies the
/// big integer `d` deep (the top one being `0` deep) to the top.
pub proof fn lemma_stack_copy_nine_limbs(
    bi: BigIntImpl,
    m: Seq<int>,
    l: Seq<int>,
    rest: Seq<int>,
    a: Seq<int>,
    d: int,
)
    requires
        bi.limbs() == 9,
        l.len() == 9,
        0 <= d,
        rest.len() == 9 * d,
        9 * d + 9 <= 0x7fff_ffff,
    ensures
        run(stack_copy_ops(bi.limbs() as u32), st((m + on_stack(l) + rest).push(d), a)) == Some(
            st(m + on_stack(l) + rest + on_stack(l), a),
        ),
{
    let mm = m + on_stack(l) + rest;
    lemma_stack_copy_computes(9, mm, a, d);
    assert(mm.subrange(mm.len() - 9 * d - 9, mm.len() - 9 * d) =~= on_stack(l));
}

} // verus!
