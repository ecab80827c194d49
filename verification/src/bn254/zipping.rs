//! What the zipping scripts of the field multiplier compute: the limbs of
//! the top big integer interleaved with copies of those of a deeper one.
use crate::bn254::fp254_op_tmul::{
    lemma_nmul_computes, nmul_ops, ref_zip_steps, stack_ref_zip_step, stack_ref_zip_steps,
    BigIntImpl,
};
use crate::routines::{block, routine_effect};
use crate::script::{binary_result, run, st, step, Op, Routine};
use crate::stack::{
    lemma_binary, lemma_dup, lemma_nip, lemma_pick, lemma_push, lemma_roll, lemma_rot, lemma_run1,
    lemma_run2, lemma_run4, lemma_run_seq,
};
use vstd::prelude::*;

verus! {

/// `y` and `x` interleaved item by item, `y[0] x[0] y[1] x[1] ...`: each
/// item of `y` under the matching item of `x`.
pub open spec fn zipped(y: Seq<int>, x: Seq<int>) -> Seq<int> {
    Seq::new(2 * y.len(), |j: int| if j % 2 == 0 { y[j / 2] } else { x[j / 2] })
}

/// The interleaving after `k` rounds of [`BigIntImpl::ref_zip`]:
/// `x[0] y[1] x[1] y[2] ... x[k - 1] y[k]`.
spec fn zip_partial(y: Seq<int>, x: Seq<int>, k: nat) -> Seq<int> {
    Seq::new(2 * k, |j: int| if j % 2 == 0 { x[j / 2] } else { y[j / 2 + 1] })
}

/// The stack after `k` rounds of [`BigIntImpl::ref_zip`] on `m`, where `y`
/// is the top `n` items of `m` and `x` the `n` items it copies.
#[verifier::opaque]
spec fn ref_zip_state(m: Seq<int>, y: Seq<int>, x: Seq<int>, n: nat, k: nat) -> Seq<int> {
    m.subrange(0, m.len() - n) + seq![y[0]] + y.subrange(k + 1int, n as int) + zip_partial(y, x, k)
}

/// One round of [`BigIntImpl::ref_zip`]: copy `x[i]` up and roll `y[i + 1]`
/// over it.
proof fn lemma_ref_zip_round(m: Seq<int>, a: Seq<int>, n: nat, b: nat, i: nat)
    requires
        n >= 2,
        b >= 1,
        i + 2 <= n,
        (b + 1) * n <= m.len(),
        (b + 1) * n <= 0x7fff_ffff,
    ensures
        ({
            let y = m.subrange(m.len() - n, m.len() as int);
            let x = m.subrange(m.len() - (b + 1) * n, m.len() - b * n);
            run(
                seq![
                    Op::Push(((b + 1) * n - 1) as u32),
                    Op::Pick,
                    Op::Push((n - 1 + i) as u32),
                    Op::Roll,
                ],
                st(ref_zip_state(m, y, x, n, i), a),
            ) == Some(st(ref_zip_state(m, y, x, n, i + 1), a))
        }),
{
    reveal(ref_zip_state);
    reveal(stack_zip_state);
    let len = m.len();
    let y = m.subrange(len - n, len as int);
    let x = m.subrange(len - (b + 1) * n, len - b * n);
    let s = ref_zip_state(m, y, x, n, i);
    let bb = (b + 1) * n - 1;
    assert((b + 1) * n == b * n + n) by (nonlinear_arith);
    assert(b * n >= n) by (nonlinear_arith)
        requires
            b >= 1,
    ;
    assert(s.len() == len + i);
    let r = m.subrange(0, len - n);
    // The copy: `x[i]` lies in the untouched part below `y`.
    let pi = s.len() - 1 - bb;
    assert(pi == len - (b + 1) * n + i);
    assert(pi < r.len());
    assert(s[pi] == r[pi]);
    assert(s[pi] == x[i as int]);
    let s1 = s.push(x[i as int]);
    // The roll: `y[i + 1]` lies just above `y[0]`.
    let d = (n - 1 + i) as int;
    let ri = s1.len() - 1 - d;
    assert(ri == len - n + 1);
    assert(s1[ri] == y[i + 1int]);
    let s2 = s1.remove(ri).push(s1[ri]);
    assert(s2 =~= ref_zip_state(m, y, x, n, i + 1));
    lemma_push(s, a, bb as u32);
    lemma_pick(s, a, bb as int);
    lemma_push(s1, a, d as u32);
    lemma_roll(s1, a, d);
    lemma_run4(
        Op::Push(bb as u32),
        Op::Pick,
        Op::Push(d as u32),
        Op::Roll,
        st(s, a),
        st(s.push(bb as int), a),
        st(s1, a),
        st(s1.push(d), a),
        st(s2, a),
    );
}

/// The first `k` rounds of [`BigIntImpl::ref_zip`].
proof fn lemma_ref_zip_rounds(m: Seq<int>, a: Seq<int>, n: nat, b: nat, k: nat)
    requires
        n >= 1,
        b >= 1,
        k + 1 <= n,
        (b + 1) * n <= m.len(),
        (b + 1) * n <= 0x7fff_ffff,
    ensures
        ({
            let y = m.subrange(m.len() - n, m.len() as int);
            let x = m.subrange(m.len() - (b + 1) * n, m.len() - b * n);
            run(ref_zip_steps(((b + 1) * n - 1) as u32, (n - 1) as nat, k), st(m, a)) == Some(
                st(ref_zip_state(m, y, x, n, k), a),
            )
        }),
    decreases k,
{
    let len = m.len();
    let y = m.subrange(len - n, len as int);
    let x = m.subrange(len - (b + 1) * n, len - b * n);
    assert((b + 1) * n == b * n + n) by (nonlinear_arith);
    if k == 0 {
        assert(ref_zip_state(m, y, x, n, 0) =~= m) by {
            reveal(ref_zip_state);
        }
        assert(run(Seq::<Op>::empty(), st(m, a)) == Some(st(m, a)));
    } else {
        lemma_ref_zip_rounds(m, a, n, b, (k - 1) as nat);
        lemma_ref_zip_round(m, a, n, b, (k - 1) as nat);
        let bb = ((b + 1) * n - 1) as u32;
        assert((n - 1) as nat + k - 1 == n - 1 + (k - 1));
        lemma_run_seq(
            ref_zip_steps(bb, (n - 1) as nat, (k - 1) as nat),
            seq![Op::Push(bb), Op::Pick, Op::Push((n - 1 + (k - 1)) as u32), Op::Roll],
            st(m, a),
            st(ref_zip_state(m, y, x, n, (k - 1) as nat), a),
            st(ref_zip_state(m, y, x, n, k), a),
        );
    }
}

/// [`BigIntImpl::ref_zip`] with `b >= 1` interleaves the top big integer
/// `y` with a copy of the one `b` big integers deep, `x`, limb by limb from
/// the most significant: each limb of `y` under the matching limb of `x`.
pub proof fn lemma_ref_zip_computes(bi: BigIntImpl, m: Seq<int>, a: Seq<int>, b: u32)
    requires
        bi.shape().shape_ok(),
        b >= 1,
        (b + 1) * bi.limbs() <= m.len(),
        (b + 1) * bi.limbs() <= 0x7fff_ffff,
    ensures
        ({
            let n = bi.limbs();
            let len = m.len();
            let bb = ((b + 1) * n - 1) as u32;
            run(
                ref_zip_steps(bb, (n - 1) as nat, (n - 1) as nat) + seq![Op::Push(bb), Op::Pick],
                st(m, a),
            ) == Some(
                st(
                    m.subrange(0, len - n) + zipped(
                        m.subrange(len - n, len as int),
                        m.subrange(len - (b + 1) * n, len - b * n),
                    ),
                    a,
                ),
            )
        }),
{
    let n = bi.limbs();
    crate::bigint::BigIntImpl::n_limbs_spec_positive(bi.shape());
    let len = m.len();
    let y = m.subrange(len - n, len as int);
    let x = m.subrange(len - (b + 1) * n, len - b * n);
    let bb = (b + 1) * n - 1;
    assert((b + 1) * n == b * n + n) by (nonlinear_arith);
    assert(b * n >= n) by (nonlinear_arith)
        requires
            b >= 1,
    ;
    lemma_ref_zip_rounds(m, a, n, b as nat, (n - 1) as nat);
    let s = ref_zip_state(m, y, x, n, (n - 1) as nat);
    let pi = s.len() - 1 - bb;
    assert(s.len() == len + n - 1 && s[pi] == x[n - 1]
        && s.push(x[n - 1]) =~= m.subrange(0, len - n) + zipped(y, x)) by {
        reveal(ref_zip_state);
        assert(s.len() == len + n - 1);
        assert(pi == len - (b + 1) * n + n - 1);
        assert(s[pi] == x[n - 1]);
        assert(s.push(x[n - 1]) =~= m.subrange(0, len - n) + zipped(y, x));
    }
    lemma_push(s, a, bb as u32);
    lemma_pick(s, a, bb as int);
    lemma_run2(Op::Push(bb as u32), Op::Pick, st(s, a), st(s.push(bb as int), a), st(s.push(x[n - 1]), a));
    lemma_run_seq(
        ref_zip_steps(bb as u32, (n - 1) as nat, (n - 1) as nat),
        seq![Op::Push(bb as u32), Op::Pick],
        st(m, a),
        st(s, a),
        st(s.push(x[n - 1]), a),
    );
}

/// [`BigIntImpl::ref_zip`] with `b == 0` zips the top big integer with a
/// copy of itself (the library's `dup_zip` routine): each limb is followed
/// by a copy of it.
pub proof fn lemma_ref_zip_self(bi: BigIntImpl, m: Seq<int>, a: Seq<int>)
    requires
        bi.shape().shape_ok(),
        bi.limbs() <= m.len(),
    ensures
        ({
            let n = bi.limbs();
            let len = m.len();
            let y = m.subrange(len - n, len as int);
            run(bi.shape().dup_zip_ops(0), st(m, a)) == Some(
                st(m.subrange(0, len - n) + zipped(y, y), a),
            )
        }),
{
    let n = bi.limbs();
    let len = m.len();
    let r = Routine::DupZip { n_bits: bi.n_bits, limb_size: bi.limb_size, a: 0 };
    assert(step(Op::Routine(r), st(m, a)) == Some(
        st(m.subrange(0, len - n) + zipped(m.subrange(len - n, len as int), m.subrange(len - n, len as int)), a),
    )) by {
        reveal(routine_effect);
        assert(block(m, n, 0) =~= m.subrange(len - n, len as int));
    }
    lemma_run1(
        Op::Routine(r),
        st(m, a),
        st(m.subrange(0, len - n) + zipped(m.subrange(len - n, len as int), m.subrange(len - n, len as int)), a),
    );
}

/// The stack between rounds of [`BigIntImpl::stack_ref_zip`]: before the
/// first, `m` with the depth `v` on top; after round `k`, the depth sits
/// under the last pair `x[k - 1] y[k]`.
#[verifier::opaque]
spec fn stack_zip_state(m: Seq<int>, y: Seq<int>, x: Seq<int>, n: nat, v: int, k: nat) -> Seq<int> {
    if k == 0 {
        m.push(v)
    } else {
        m.subrange(0, m.len() - n) + seq![y[0]] + y.subrange(k + 1int, n as int) + zip_partial(
            y,
            x,
            (k - 1) as nat,
        ) + seq![v, x[k - 1], y[k as int]]
    }
}

/// The start of a round of [`BigIntImpl::stack_ref_zip`]: the rotation
/// that brings the depth back to the top (none before the first round).
proof fn lemma_stack_zip_rotate(m: Seq<int>, a: Seq<int>, n: nat, v: int, i: nat)
    requires
        1 <= i < n,
        n <= m.len(),
    ensures
        ({
            let y = m.subrange(m.len() - n, m.len() as int);
            let x = m.subrange(m.len() - v, m.len() - v + n);
            run(seq![Op::Rot], st(stack_zip_state(m, y, x, n, v, i), a)) == Some(
                st(ref_zip_state(m, y, x, n, i).push(v), a),
            )
        }),
{
    reveal(ref_zip_state);
    reveal(stack_zip_state);
    let len = m.len();
    let y = m.subrange(len - n, len as int);
    let x = m.subrange(len - v, len - v + n);
    let base = m.subrange(0, len - n) + seq![y[0]] + y.subrange(i + 1int, n as int) + zip_partial(
        y,
        x,
        (i - 1) as nat,
    );
    assert(stack_zip_state(m, y, x, n, v, i) =~= base.push(v).push(x[i - 1]).push(y[i as int]));
    lemma_rot(base, a, v, x[i - 1], y[i as int]);
    assert(base.push(x[i - 1]).push(y[i as int]).push(v) =~= ref_zip_state(m, y, x, n, i).push(v));
    lemma_run1(
        Op::Rot,
        st(base.push(v).push(x[i - 1]).push(y[i as int]), a),
        st(ref_zip_state(m, y, x, n, i).push(v), a),
    );
}

/// The copy of a round of [`BigIntImpl::stack_ref_zip`]: `x[i]` comes up
/// over the depth.
proof fn lemma_stack_zip_copy(m: Seq<int>, a: Seq<int>, n: nat, d: nat, i: nat)
    requires
        d >= 1,
        i < n,
        (d + 1) * n <= m.len(),
        (d + 1) * n <= 0x7fff_ffff,
    ensures
        ({
            let v = ((d + 1) * n) as int;
            let y = m.subrange(m.len() - n, m.len() as int);
            let x = m.subrange(m.len() - v, m.len() - v + n);
            run(seq![Op::Dup, Op::Pick], st(ref_zip_state(m, y, x, n, i).push(v), a)) == Some(
                st(ref_zip_state(m, y, x, n, i).push(v).push(x[i as int]), a),
            )
        }),
{
    reveal(ref_zip_state);
    reveal(stack_zip_state);
    let len = m.len();
    let v = ((d + 1) * n) as int;
    let y = m.subrange(len - n, len as int);
    let x = m.subrange(len - v, len - v + n);
    assert((d + 1) * n == d * n + n) by (nonlinear_arith);
    assert(d * n >= n) by (nonlinear_arith)
        requires
            d >= 1,
    ;
    let u = ref_zip_state(m, y, x, n, i);
    assert(u.len() == len + i);
    let p = u.push(v);
    let pi = p.len() - 1 - v;
    assert(pi == len + i - v);
    assert(pi < len - n);
    assert(p[pi] == x[i as int]);
    lemma_dup(u, a, v as int);
    lemma_pick(p, a, v as int);
    lemma_run2(Op::Dup, Op::Pick, st(p, a), st(p.push(v as int), a), st(p.push(x[i as int]), a));
}

/// The roll of a round of [`BigIntImpl::stack_ref_zip`] other than the
/// last: `y[i + 1]` comes up over `x[i]`.
proof fn lemma_stack_zip_roll(m: Seq<int>, a: Seq<int>, n: nat, v: int, i: nat)
    requires
        i + 1 < n,
        n <= m.len(),
        n + i <= 0x7fff_ffff,
    ensures
        ({
            let y = m.subrange(m.len() - n, m.len() as int);
            let x = m.subrange(m.len() - v, m.len() - v + n);
            run(
                seq![Op::Push((n + i) as u32), Op::Roll],
                st(ref_zip_state(m, y, x, n, i).push(v).push(x[i as int]), a),
            ) == Some(st(stack_zip_state(m, y, x, n, v, i + 1), a))
        }),
{
    reveal(ref_zip_state);
    reveal(stack_zip_state);
    let len = m.len();
    let y = m.subrange(len - n, len as int);
    let x = m.subrange(len - v, len - v + n);
    let u = ref_zip_state(m, y, x, n, i);
    let p = u.push(v).push(x[i as int]);
    assert(p.len() == len + i + 2);
    let ri = p.len() - 1 - (n + i);
    assert(ri == len - n + 1);
    assert(p[ri] == y[i + 1int]);
    let q = p.remove(ri).push(p[ri]);
    assert(q =~= stack_zip_state(m, y, x, n, v, i + 1));
    lemma_push(p, a, (n + i) as u32);
    lemma_roll(p, a, (n + i) as int);
    lemma_run2(
        Op::Push((n + i) as u32),
        Op::Roll,
        st(p, a),
        st(p.push((n + i) as int), a),
        st(q, a),
    );
}

/// Before the first round of [`BigIntImpl::stack_ref_zip`] the stack is
/// `m` with the depth on top.
proof fn lemma_stack_zip_start(m: Seq<int>, y: Seq<int>, x: Seq<int>, n: nat, v: int)
    requires
        1 <= n <= m.len(),
        y == m.subrange(m.len() - n, m.len() as int),
    ensures
        stack_zip_state(m, y, x, n, v, 0) == m.push(v),
        ref_zip_state(m, y, x, n, 0).push(v) == m.push(v),
{
    reveal(ref_zip_state);
    reveal(stack_zip_state);
    assert(ref_zip_state(m, y, x, n, 0) =~= m);
}

/// The rotation that starts round `i` of [`BigIntImpl::stack_ref_zip`],
/// none for the first round.
spec fn stack_zip_rot(i: nat) -> Seq<Op> {
    if i > 0 {
        seq![Op::Rot]
    } else {
        Seq::empty()
    }
}

/// The rotation and copy of round `i` of [`BigIntImpl::stack_ref_zip`].
proof fn lemma_stack_zip_rotate_copy(m: Seq<int>, a: Seq<int>, n: nat, d: nat, i: nat)
    requires
        d >= 1,
        i < n,
        (d + 1) * n <= m.len(),
        (d + 1) * n <= 0x7fff_ffff,
    ensures
        ({
            let v = ((d + 1) * n) as int;
            let y = m.subrange(m.len() - n, m.len() as int);
            let x = m.subrange(m.len() - v, m.len() - v + n);
            run(stack_zip_rot(i) + seq![Op::Dup, Op::Pick], st(stack_zip_state(m, y, x, n, v, i), a))
                == Some(st(ref_zip_state(m, y, x, n, i).push(v).push(x[i as int]), a))
        }),
{
    let len = m.len();
    let v = ((d + 1) * n) as int;
    let y = m.subrange(len - n, len as int);
    let x = m.subrange(len - v, len - v + n);
    assert((d + 1) * n >= 2 * n) by (nonlinear_arith)
        requires
            d >= 1,
    ;
    let s_i = stack_zip_state(m, y, x, n, v, i);
    let p = ref_zip_state(m, y, x, n, i).push(v);
    if i == 0 {
        lemma_stack_zip_start(m, y, x, n, v);
        assert(run(Seq::<Op>::empty(), st(s_i, a)) == Some(st(p, a)));
    } else {
        lemma_stack_zip_rotate(m, a, n, v, i);
    }
    lemma_stack_zip_copy(m, a, n, d, i);
    lemma_run_seq(
        stack_zip_rot(i),
        seq![Op::Dup, Op::Pick],
        st(s_i, a),
        st(p, a),
        st(p.push(x[i as int]), a),
    );
}

/// The first `k` rounds of [`BigIntImpl::stack_ref_zip`], short of the
/// last one.
proof fn lemma_stack_zip_rounds(m: Seq<int>, a: Seq<int>, n: nat, d: nat, k: nat)
    requires
        d >= 1,
        k < n,
        (d + 1) * n <= m.len(),
        (d + 1) * n <= 0x7fff_ffff,
    ensures
        ({
            let v = ((d + 1) * n) as int;
            let y = m.subrange(m.len() - n, m.len() as int);
            let x = m.subrange(m.len() - v, m.len() - v + n);
            run(stack_ref_zip_steps(n, k), st(m.push(v), a)) == Some(
                st(stack_zip_state(m, y, x, n, v, k), a),
            )
        }),
    decreases k,
{
    let len = m.len();
    let v = ((d + 1) * n) as int;
    let y = m.subrange(len - n, len as int);
    let x = m.subrange(len - v, len - v + n);
    assert((d + 1) * n >= 2 * n) by (nonlinear_arith)
        requires
            d >= 1,
    ;
    if k == 0 {
        lemma_stack_zip_start(m, y, x, n, v);
        assert(run(Seq::<Op>::empty(), st(m.push(v), a)) == Some(st(m.push(v), a)));
    } else {
        let i = (k - 1) as nat;
        lemma_stack_zip_rounds(m, a, n, d, i);
        let s_i = stack_zip_state(m, y, x, n, v, i);
        let p1 = ref_zip_state(m, y, x, n, i).push(v).push(x[i as int]);
        lemma_stack_zip_rotate_copy(m, a, n, d, i);
        lemma_stack_zip_roll(m, a, n, v, i);
        lemma_run_seq(
            stack_zip_rot(i) + seq![Op::Dup, Op::Pick],
            seq![Op::Push((n + i) as u32), Op::Roll],
            st(s_i, a),
            st(p1, a),
            st(stack_zip_state(m, y, x, n, v, k), a),
        );
        assert(stack_ref_zip_step(n, i) =~= stack_zip_rot(i) + seq![Op::Dup, Op::Pick] + seq![
            Op::Push((n + i) as u32),
            Op::Roll,
        ]);
        lemma_run_seq(
            stack_ref_zip_steps(n, i),
            stack_ref_zip_step(n, i),
            st(m.push(v), a),
            st(s_i, a),
            st(stack_zip_state(m, y, x, n, v, k), a),
        );
    }
}

/// All rounds of [`BigIntImpl::stack_ref_zip`]: the last one copies
/// `x[n - 1]` and leaves the depth under it.
proof fn lemma_stack_zip_all(m: Seq<int>, a: Seq<int>, n: nat, d: nat)
    requires
        d >= 1,
        n >= 1,
        (d + 1) * n <= m.len(),
        (d + 1) * n <= 0x7fff_ffff,
    ensures
        ({
            let v = ((d + 1) * n) as int;
            let y = m.subrange(m.len() - n, m.len() as int);
            let x = m.subrange(m.len() - v, m.len() - v + n);
            run(stack_ref_zip_steps(n, n), st(m.push(v), a)) == Some(
                st(ref_zip_state(m, y, x, n, (n - 1) as nat).push(v).push(x[n - 1]), a),
            )
        }),
{
    let len = m.len();
    let v = ((d + 1) * n) as int;
    let y = m.subrange(len - n, len as int);
    let x = m.subrange(len - v, len - v + n);
    let i = (n - 1) as nat;
    lemma_stack_zip_rounds(m, a, n, d, i);
    lemma_stack_zip_rotate_copy(m, a, n, d, i);
    assert(stack_ref_zip_step(n, i) =~= stack_zip_rot(i) + seq![Op::Dup, Op::Pick]);
    lemma_run_seq(
        stack_ref_zip_steps(n, i),
        stack_ref_zip_step(n, i),
        st(m.push(v), a),
        st(stack_zip_state(m, y, x, n, v, i), a),
        st(ref_zip_state(m, y, x, n, i).push(v).push(x[i as int]), a),
    );
}

/// After the rounds, dropping the depth leaves the zipped limbs.
proof fn lemma_stack_zip_end(m: Seq<int>, a: Seq<int>, n: nat, v: int)
    requires
        1 <= n <= m.len(),
        n <= v <= m.len(),
    ensures
        ({
            let y = m.subrange(m.len() - n, m.len() as int);
            let x = m.subrange(m.len() - v, m.len() - v + n);
            run(
                seq![Op::Nip],
                st(ref_zip_state(m, y, x, n, (n - 1) as nat).push(v).push(x[n - 1]), a),
            ) == Some(st(m.subrange(0, m.len() - n) + zipped(y, x), a))
        }),
{
    reveal(ref_zip_state);
    let len = m.len();
    let y = m.subrange(len - n, len as int);
    let x = m.subrange(len - v, len - v + n);
    let u = ref_zip_state(m, y, x, n, (n - 1) as nat);
    lemma_nip(u, a, v, x[n - 1]);
    assert(u.push(x[n - 1]) =~= m.subrange(0, len - n) + zipped(y, x));
    lemma_run1(Op::Nip, st(u.push(v).push(x[n - 1]), a), st(u.push(x[n - 1]), a));
}

/// [`BigIntImpl::stack_ref_zip`] with `d >= 1` on top interleaves the top
/// big integer `y` with a copy of the one `d` big integers deep, `x`, limb
/// by limb from the most significant: each limb of `y` under the matching
/// limb of `x`.
pub proof fn lemma_stack_ref_zip_computes(bi: BigIntImpl, m: Seq<int>, a: Seq<int>, d: int)
    requires
        bi.shape().shape_ok(),
        d >= 1,
        (d + 1) * bi.limbs() <= m.len(),
        (d + 1) * bi.limbs() <= 0x7fff_ffff,
    ensures
        ({
            let n = bi.limbs();
            let len = m.len();
            run(
                nmul_ops(n) + seq![Op::Push(n as u32), Op::Add] + stack_ref_zip_steps(n, n)
                    + seq![Op::Nip],
                st(m.push(d), a),
            ) == Some(
                st(
                    m.subrange(0, len - n) + zipped(
                        m.subrange(len - n, len as int),
                        m.subrange(len - (d + 1) * n, len - d * n),
                    ),
                    a,
                ),
            )
        }),
{
    let n = bi.limbs();
    crate::bigint::BigIntImpl::n_limbs_spec_positive(bi.shape());
    let dn = d as nat;
    let len = m.len();
    let v = ((dn + 1) * n) as int;
    let y = m.subrange(len - n, len as int);
    let x = m.subrange(len - v, len - v + n);
    assert(v == dn * n + n && n * d == dn * n && v >= n) by (nonlinear_arith)
        requires
            v == (dn + 1) * n,
            dn == d,
            dn >= 1,
    ;
    assert(x =~= m.subrange(len - (d + 1) * n, len - d * n));
    // The depth in limbs: `d * n + n`.
    lemma_nmul_computes(n, m, a, d);
    lemma_push(m.push(n * d), a, n as u32);
    lemma_binary(Op::Add, m, a, n * d, n as int);
    assert(binary_result(Op::Add, n * d, n as int) == v);
    lemma_run2(
        Op::Push(n as u32),
        Op::Add,
        st(m.push(n * d), a),
        st(m.push(n * d).push(n as int), a),
        st(m.push(v), a),
    );
    let pre = nmul_ops(n) + seq![Op::Push(n as u32), Op::Add];
    lemma_run_seq(
        nmul_ops(n),
        seq![Op::Push(n as u32), Op::Add],
        st(m.push(d), a),
        st(m.push(n * d), a),
        st(m.push(v), a),
    );
    let p1 = ref_zip_state(m, y, x, n, (n - 1) as nat).push(v).push(x[n - 1]);
    lemma_stack_zip_all(m, a, n, dn);
    lemma_stack_zip_end(m, a, n, v);
    let fin = m.subrange(0, len - n) + zipped(y, x);
    lemma_run_seq(stack_ref_zip_steps(n, n), seq![Op::Nip], st(m.push(v), a), st(p1, a), st(fin, a));
    lemma_run_seq(
        pre,
        stack_ref_zip_steps(n, n) + seq![Op::Nip],
        st(m.push(d), a),
        st(m.push(v), a),
        st(fin, a),
    );
    assert(pre + stack_ref_zip_steps(n, n) + seq![Op::Nip] =~= pre + (stack_ref_zip_steps(n, n)
        + seq![Op::Nip]));
}

} // verus!
