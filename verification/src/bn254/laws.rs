//! What the limb scripts of the field multiplier compute.
use crate::bigint::doubling::{doubled, lemma_dbl_computes};
use crate::bigint::on_stack;
use crate::bn254::fp254_op_tmul::{lemma_nmul_computes, resize_ops, BigIntImpl};
use crate::routines::routine_effect;
use crate::script::{binary_result, bool_num, repeat, run, st, step, Op, Routine};
use crate::stack::{
    lemma_binary, lemma_copy_block, lemma_pick, lemma_push, lemma_roll, lemma_run3,
    lemma_run_repeat_succ, lemma_run_seq, lemma_run4,
};
use vstd::arithmetic::power2::*;
use vstd::prelude::*;

verus! {

/// The head limb of a big integer's limbs, compared with half the head
/// bound by `test_op`, for the big integer lying `depth` big integers deep.
proof fn lemma_sign_test(
    bi: BigIntImpl,
    depth: u32,
    test_op: Op,
    m: Seq<int>,
    l: Seq<int>,
    rest: Seq<int>,
    a: Seq<int>,
)
    requires
        bi.shape().shape_ok(),
        bi.shape().limbs_ok(l),
        rest.len() == depth * bi.limbs(),
        (1 + depth) * bi.limbs() <= 0x7fff_ffff,
        test_op == Op::GreaterThanOrEqual || test_op == Op::LessThan,
    ensures
        run(bi.sign_test_ops(depth, test_op), st(m + on_stack(l) + rest, a)) == Some(
            st(
                (m + on_stack(l) + rest).push(
                    binary_result(test_op, l[l.len() - 1], (bi.shape().head_bound() / 2) as int),
                ),
                a,
            ),
        ),
{
    let n = bi.limbs();
    bi.shape().lemma_head_bits();
    let mm = m + on_stack(l) + rest;
    let d = (1 + depth) * n - 1;
    assert((1 + depth) * n >= 1) by (nonlinear_arith)
        requires
            n >= 1,
    ;
    assert((1 + depth) * n == depth * n + n) by (nonlinear_arith);
    let h = bi.shape().head_bound();
    assert(h <= 0x8000_0000) by {
        let hb = bi.shape().head_bits() as nat;
        lemma2_to64();
        bi.shape().lemma_head_bits();
        if hb < 31 {
            lemma_pow2_strictly_increases(hb, 31);
        }
    }
    let x = l[l.len() - 1];
    assert(0 <= x < h);
    let hh = (h / 2) as int;
    let s0 = st(mm, a);
    let s1 = st(mm.push(d as int), a);
    let s2 = st(mm.push(x), a);
    let s3 = st(mm.push(x).push(hh), a);
    let s4 = st(mm.push(binary_result(test_op, x, hh)), a);
    lemma_push(mm, a, d as u32);
    lemma_pick(mm, a, d as int);
    assert(mm[mm.len() - 1 - d] == x);
    lemma_push(mm.push(x), a, hh as u32);
    lemma_binary(test_op, mm, a, x, hh);
    lemma_run4(Op::Push(d as u32), Op::Pick, Op::Push(hh as u32), test_op, s0, s1, s2, s3, s4);
}

/// [`BigIntImpl::is_negative`] pushes `1` exactly where the head limb of the
/// big integer `depth` deep has its top bit set.
pub proof fn lemma_is_negative_computes(
    bi: BigIntImpl,
    depth: u32,
    m: Seq<int>,
    l: Seq<int>,
    rest: Seq<int>,
    a: Seq<int>,
)
    requires
        bi.shape().shape_ok(),
        bi.shape().limbs_ok(l),
        rest.len() == depth * bi.limbs(),
        (1 + depth) * bi.limbs() <= 0x7fff_ffff,
    ensures
        run(bi.sign_test_ops(depth, Op::GreaterThanOrEqual), st(m + on_stack(l) + rest, a))
            == Some(
            st(
                (m + on_stack(l) + rest).push(
                    bool_num(l[l.len() - 1] >= bi.shape().head_bound() / 2),
                ),
                a,
            ),
        ),
{
    lemma_sign_test(bi, depth, Op::GreaterThanOrEqual, m, l, rest, a);
}

/// [`BigIntImpl::is_positive`] pushes `1` exactly where the head limb of the
/// big integer `depth` deep has its top bit clear.
pub proof fn lemma_is_positive_computes(
    bi: BigIntImpl,
    depth: u32,
    m: Seq<int>,
    l: Seq<int>,
    rest: Seq<int>,
    a: Seq<int>,
)
    requires
        bi.shape().shape_ok(),
        bi.shape().limbs_ok(l),
        rest.len() == depth * bi.limbs(),
        (1 + depth) * bi.limbs() <= 0x7fff_ffff,
    ensures
        run(bi.sign_test_ops(depth, Op::LessThan), st(m + on_stack(l) + rest, a)) == Some(
            st(
                (m + on_stack(l) + rest).push(
                    bool_num(l[l.len() - 1] < bi.shape().head_bound() / 2),
                ),
                a,
            ),
        ),
{
    lemma_sign_test(bi, depth, Op::LessThan, m, l, rest, a);
}

/// `j` rounds of the shrinking resize drop the limbs `t` to `t + j - 1`.
proof fn lemma_resize_rounds(t: nat, m: Seq<int>, l: Seq<int>, a: Seq<int>, j: nat)
    requires
        t + j <= l.len(),
        t <= 0x7fff_ffff,
    ensures
        run(
            repeat(seq![Op::Push(t as u32), Op::Roll, Op::Drop], j),
            st(m + on_stack(l), a),
        ) == Some(
            st(m + on_stack(l.subrange(0, t as int) + l.subrange(t + j as int, l.len() as int)), a),
        ),
    decreases j,
{
    let n = l.len() as int;
    if j == 0 {
        assert(l.subrange(0, t as int) + l.subrange(t as int, n) =~= l);
    } else {
        let k = (j - 1) as nat;
        lemma_resize_rounds(t, m, l, a, k);
        let q = l.subrange(0, t as int) + l.subrange(t + k as int, n);
        let mm = m + on_stack(q);
        let i = mm.len() - 1 - t;
        let x = q[t as int];
        let q2 = l.subrange(0, t as int) + l.subrange(t + j as int, n);
        let s0 = st(mm, a);
        let s1 = st(mm.push(t as int), a);
        let s2 = st(mm.remove(i).push(mm[i]), a);
        let s3 = st(m + on_stack(q2), a);
        lemma_push(mm, a, t as u32);
        lemma_roll(mm, a, t as int);
        assert(mm[i] == x);
        assert(mm.remove(i) =~= m + on_stack(q2));
        crate::stack::lemma_drop(m + on_stack(q2), a, x);
        lemma_run3(Op::Push(t as u32), Op::Roll, Op::Drop, s0, s1, s2, s3);
        lemma_run_repeat_succ(seq![Op::Push(t as u32), Op::Roll, Op::Drop], k, s0);
        lemma_run_repeat_succ(seq![Op::Push(t as u32), Op::Roll, Op::Drop], k, st(m + on_stack(l), a));
    }
}

/// [`BigIntImpl::resize`] to no more limbs keeps the `t` least significant
/// limbs of a big integer on top of the stack.
pub proof fn lemma_resize_keeps_low_limbs(t: nat, m: Seq<int>, l: Seq<int>, a: Seq<int>)
    requires
        t <= l.len(),
        t <= 0x7fff_ffff,
    ensures
        run(resize_ops(l.len(), t), st(m + on_stack(l), a)) == Some(
            st(m + on_stack(l.subrange(0, t as int)), a),
        ),
{
    let n = l.len();
    if t == n {
        assert(l.subrange(0, n as int) =~= l);
    } else {
        lemma_resize_rounds(t, m, l, a, (n - t) as nat);
        assert(l.subrange(0, t as int) + l.subrange(n as int, n as int) =~= l.subrange(0, t as int));
    }
}

/// `j` rounds of `OP_ROLL` at depth `x.len() - 1` turn the top items `x`
/// round by `j`: the deepest `j` of them end on top.
proof fn lemma_roll_rounds(m: Seq<int>, x: Seq<int>, a: Seq<int>, j: nat)
    requires
        j <= x.len(),
        1 <= x.len() <= 0x7fff_ffff,
    ensures
        run(repeat(seq![Op::Push((x.len() - 1) as u32), Op::Roll], j), st(m + x, a)) == Some(
            st(m + x.subrange(j as int, x.len() as int) + x.subrange(0, j as int), a),
        ),
    decreases j,
{
    let n = x.len() as int;
    if j == 0 {
        assert(m + x.subrange(0, n) + x.subrange(0, 0) =~= m + x);
    } else {
        let k = (j - 1) as nat;
        lemma_roll_rounds(m, x, a, k);
        let mm = m + x.subrange(k as int, n) + x.subrange(0, k as int);
        let d = n - 1;
        let i = mm.len() - 1 - d;
        assert(i == m.len());
        assert(mm[i] == x[k as int]);
        let s0 = st(mm, a);
        let s1 = st(mm.push(d), a);
        let s2 = st(mm.remove(i).push(mm[i]), a);
        lemma_push(mm, a, d as u32);
        lemma_roll(mm, a, d);
        assert(mm.remove(i).push(mm[i]) =~= m + x.subrange(j as int, n) + x.subrange(0, j as int));
        crate::stack::lemma_run2(Op::Push(d as u32), Op::Roll, s0, s1, s2);
        lemma_run_repeat_succ(seq![Op::Push(d as u32), Op::Roll], k, st(m + x, a));
    }
}

/// [`BigIntImpl::resize`] to `t` more limbs than the limbs `l` of a big
/// integer on top of the stack: it pushes a zero, duplicates it `t - 1`
/// times and rolls the limbs back over the zeros, so that the same limbs
/// end on top with `t` zero limbs above the head.
pub proof fn lemma_resize_grow_computes(t: nat, m: Seq<int>, l: Seq<int>, a: Seq<int>)
    requires
        l.len() + t <= 0x7fff_ffff,
        t >= 1,
    ensures
        run(resize_ops(l.len(), l.len() + t), st(m + on_stack(l), a)) == Some(
            st(m + on_stack(l + Seq::new(t, |i: int| 0int)), a),
        ),
{
    let z = Seq::new(t, |i: int| 0int);
    let x = on_stack(l) + z;
    let ml = m + on_stack(l);
    let rolls = repeat(seq![Op::Push((l.len() + t - 1) as u32), Op::Roll], l.len());
    let start = seq![Op::Push(0), Op::Routine(Routine::NDup { n: (t - 1) as u32 })];
    // The zeros.
    lemma_push(ml, a, 0);
    assert(step(Op::Routine(Routine::NDup { n: (t - 1) as u32 }), st(ml.push(0), a)) == Some(
        st(m + x, a),
    )) by {
        reveal(routine_effect);
        assert(ml.push(0) + Seq::new((t - 1) as nat, |i: int| ml.push(0)[ml.push(0).len() - 1])
            =~= m + x);
    }
    crate::stack::lemma_run2(
        Op::Push(0),
        Op::Routine(Routine::NDup { n: (t - 1) as u32 }),
        st(ml, a),
        st(ml.push(0), a),
        st(m + x, a),
    );
    // The rolls.
    lemma_roll_rounds(m, x, a, l.len());
    assert(x.subrange(l.len() as int, x.len() as int) + x.subrange(0, l.len() as int) =~= on_stack(
        l + z,
    ));
    assert(m + x.subrange(l.len() as int, x.len() as int) + x.subrange(0, l.len() as int) =~= m
        + on_stack(l + z));
    lemma_run_seq(start, rolls, st(ml, a), st(m + x, a), st(m + on_stack(l + z), a));
}

/// [`BigIntImpl::stack_copy`] with `d >= 1` on top copies the `n_limbs`
/// items that lie `(n_limbs + 1) * d` deep and above.
pub proof fn lemma_stack_copy_computes(bi: BigIntImpl, m: Seq<int>, a: Seq<int>, d: int)
    requires
        bi.shape().shape_ok(),
        1 <= d,
        (bi.limbs() + 1) * d <= m.len(),
        (bi.limbs() + 1) * d <= 0x7fff_ffff,
    ensures
        run(bi.stack_copy_ops(), st(m.push(d), a)) == Some(
            st(
                m + m.subrange(
                    m.len() - (bi.limbs() + 1) * d,
                    m.len() - (bi.limbs() + 1) * d + bi.limbs(),
                ),
                a,
            ),
        ),
{
    let n = bi.limbs();
    let v = (n + 1) * d;
    lemma_nmul_computes(n + 1, m, a, d);
    assert(v >= n) by (nonlinear_arith)
        requires
            d >= 1,
            v == (n + 1) * d,
    ;
    crate::bigint::BigIntImpl::n_limbs_spec_positive(bi.shape());
    lemma_copy_block(m, a, v, n);
    lemma_run_seq(
        crate::bn254::fp254_op_tmul::nmul_ops(n + 1),
        repeat(seq![Op::Dup, Op::Pick, Op::Swap], (n - 1) as nat) + seq![Op::OneSub, Op::Pick],
        st(m.push(d), a),
        st(m.push(v), a),
        st(m + m.subrange(m.len() - v, m.len() - v + n), a),
    );
    assert(bi.stack_copy_ops() =~= crate::bn254::fp254_op_tmul::nmul_ops(n + 1) + (repeat(
        seq![Op::Dup, Op::Pick, Op::Swap],
        (n - 1) as nat,
    ) + seq![Op::OneSub, Op::Pick]));
}

/// [`BigIntImpl::dbl`] replaces the big integer on top of the stack by valid
/// limbs of twice its value modulo `2^n_bits`.
pub proof fn lemma_fp254_dbl_computes(bi: BigIntImpl, l: Seq<int>, m: Seq<int>, a: Seq<int>)
    requires
        bi.shape().shape_ok(),
        bi.limbs() >= 2,
        bi.limb_size <= 30,
        bi.shape().limbs_ok(l),
    ensures
        run(bi.dbl_ops(), st(m + on_stack(l), a)) == Some(
            st(
                m + on_stack(doubled(l, bi.shape().base() as int, bi.shape().head_bound() as int)),
                a,
            ),
        ),
        bi.shape().limbs_ok(doubled(l, bi.shape().base() as int, bi.shape().head_bound() as int)),
        bi.shape().value(doubled(l, bi.shape().base() as int, bi.shape().head_bound() as int)) == (2
            * bi.shape().value(l)) % (pow2(bi.n_bits as nat) as int),
{
    lemma_dbl_computes(bi.shape(), l, m, a);
}


/// [`BigIntImpl::resize`] to more limbs, then back: the stacks end as they
/// were.
pub proof fn lemma_resize_round_trip(t: nat, m: Seq<int>, l: Seq<int>, a: Seq<int>)
    requires
        l.len() + t <= 0x7fff_ffff,
    ensures
        run(
            resize_ops(l.len(), l.len() + t) + resize_ops(l.len() + t, l.len()),
            st(m + on_stack(l), a),
        ) == Some(st(m + on_stack(l), a)),
{
    let n = l.len();
    if t == 0 {
        assert(resize_ops(n, n) + resize_ops(n, n) =~= Seq::<Op>::empty());
    } else {
        let lz = l + Seq::new(t, |i: int| 0int);
        lemma_resize_grow_computes(t, m, l, a);
        lemma_resize_keeps_low_limbs(n, m, lz, a);
        assert(lz.subrange(0, n as int) =~= l);
        assert(lz.len() == n + t);
        lemma_run_seq(
            resize_ops(n, n + t),
            resize_ops(n + t, n),
            st(m + on_stack(l), a),
            st(m + on_stack(lz), a),
            st(m + on_stack(l), a),
        );
    }
}

} // verus!
