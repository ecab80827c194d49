//! What the adders of the field multiplier compute: the sum of two big
//! integers on the stack, modulo `2^n_bits`.
use crate::bigint::doubling::{
    carry_of, head_reduce_ops, lemma_carry_tail, lemma_from_alt_all, lemma_head_reduce,
    lemma_lsb_value_push, lemma_on_stack_split, reduce_once, carry_tail_ops,
};
use crate::bigint::{lsb_value, on_stack};
use crate::bn254::fp254_op_tmul::{
    lemma_nmul_computes, nmul_ops, ref_add_inner_ops, ref_add_inner_step, ref_add_step,
    ref_add_steps, BigIntImpl,
};
use crate::routines::routine_effect;
use crate::script::{is_num, repeat, run, st, step, Op, Routine};
use crate::stack::{
    lemma_binary, lemma_nip, lemma_pick, lemma_push, lemma_roll, lemma_run1, lemma_run2,
    lemma_run3, lemma_run4, lemma_run_repeat_succ, lemma_run_seq, lemma_swap, lemma_to_alt,
};
use vstd::arithmetic::div_mod::*;
use vstd::arithmetic::power::*;
use vstd::arithmetic::power2::*;
use vstd::prelude::*;

verus! {

/// The carry into limb `k` when adding limbs `x` and `y` (least significant
/// first) in base `b`.
pub open spec fn add_carry(x: Seq<int>, y: Seq<int>, b: int, k: nat) -> int
    decreases k,
{
    if k == 0 {
        0
    } else {
        carry_of(x[k - 1] + y[k - 1] + add_carry(x, y, b, (k - 1) as nat), b)
    }
}

/// The limbs of the sum of `x` and `y`: every limb below the base `b`, the
/// head reduced below `h`.
pub open spec fn added(x: Seq<int>, y: Seq<int>, b: int, h: int) -> Seq<int> {
    Seq::new(
        x.len(),
        |i: int|
            reduce_once(
                x[i] + y[i] + add_carry(x, y, b, i as nat),
                if i < x.len() - 1 {
                    b
                } else {
                    h
                },
            ),
    )
}

/// Carries are `0` or `1`.
pub proof fn lemma_add_carry_bit(x: Seq<int>, y: Seq<int>, b: int, k: nat)
    ensures
        0 <= add_carry(x, y, b, k) <= 1,
    decreases k,
{
    if k > 0 {
        lemma_add_carry_bit(x, y, b, (k - 1) as nat);
    }
}

/// Whether `x` and `y` are limbs below `b`, their heads below `h <= b`,
/// with `2b - 1` a script number.
pub open spec fn add_ready(x: Seq<int>, y: Seq<int>, b: int, h: int) -> bool {
    &&& x.len() >= 1
    &&& y.len() == x.len()
    &&& 0 < h <= b
    &&& 2 * b - 1 <= 0x7fff_ffff
    &&& forall|i: int|
        0 <= i < x.len() ==> 0 <= #[trigger] x[i] < (if i == x.len() - 1 {
            h
        } else {
            b
        })
    &&& forall|i: int|
        0 <= i < y.len() ==> 0 <= #[trigger] y[i] < (if i == y.len() - 1 {
            h
        } else {
            b
        })
}

/// One round of the adder: the limb `x` of the top operand, under the
/// depth `d3`, the base `b` and the carry `c`, is added to the limb `y`
/// found `d3` deep and to the carry.
proof fn lemma_inner_step(w: Seq<int>, al: Seq<int>, x: int, d3: int, b: int, c: int, y: int)
    requires
        0 <= d3 < w.len() + 4,
        w.push(x).push(d3).push(b).push(c)[w.len() + 3 - d3] == y,
        is_num(d3),
        is_num(b),
        is_num(c),
        is_num(x),
        is_num(y),
        is_num(c + y),
        is_num(c + y + x),
    ensures
        run(ref_add_inner_step(), st(w.push(x).push(d3).push(b).push(c), al)) == Some(
            st(w.push(d3).push(b).push(carry_of(c + y + x, b)), al.push(reduce_once(c + y + x, b))),
        ),
{
    let z = w.push(x).push(d3).push(b).push(c);
    let s0 = st(z, al);
    let s1 = st(z.push(2), al);
    let s2 = st(z.push(d3), al);
    let s3 = st(z.push(y), al);
    let s4 = st(w.push(x).push(d3).push(b).push(c + y), al);
    lemma_push(z, al, 2);
    lemma_pick(z, al, 2);
    lemma_pick(z, al, d3);
    lemma_binary(Op::Add, w.push(x).push(d3).push(b), al, c, y);
    lemma_run4(Op::Push(2), Op::Pick, Op::Pick, Op::Add, s0, s1, s2, s3, s4);
    let z4 = w.push(x).push(d3).push(b).push(c + y);
    let s5 = st(z4.push(3), al);
    let s6 = st(w.push(d3).push(b).push(c + y).push(x), al);
    let s7 = st(w.push(d3).push(b).push(c + y + x), al);
    lemma_push(z4, al, 3);
    lemma_roll(z4, al, 3);
    assert(z4.remove(z4.len() - 1 - 3) =~= w.push(d3).push(b).push(c + y));
    lemma_binary(Op::Add, w.push(d3).push(b), al, c + y, x);
    lemma_run3(Op::Push(3), Op::Roll, Op::Add, s4, s5, s6, s7);
    let v = c + y + x;
    lemma_carry_tail(w.push(d3), al, b, v);
    let s8 = st(w.push(d3).push(b).push(carry_of(v, b)).push(reduce_once(v, b)), al);
    let s9 = st(w.push(d3).push(b).push(carry_of(v, b)), al.push(reduce_once(v, b)));
    lemma_to_alt(w.push(d3).push(b).push(carry_of(v, b)), al, reduce_once(v, b));
    lemma_run1(Op::ToAltStack, s8, s9);
    let p1 = seq![Op::Push(2), Op::Pick, Op::Pick, Op::Add];
    let p2 = seq![Op::Push(3), Op::Roll, Op::Add];
    lemma_run_seq(p1, p2, s0, s4, s7);
    lemma_run_seq(p1 + p2, carry_tail_ops(), s0, s7, s8);
    lemma_run_seq(p1 + p2 + carry_tail_ops(), seq![Op::ToAltStack], s0, s8, s9);
    assert(ref_add_inner_step() =~= p1 + p2 + carry_tail_ops() + seq![Op::ToAltStack]);
}

/// The first `j` rounds of the adder, for the top operand `x` and the
/// operand `y` lying under `mid` and `x`.
proof fn lemma_inner_steps(
    m: Seq<int>,
    y: Seq<int>,
    mid: Seq<int>,
    x: Seq<int>,
    al: Seq<int>,
    b: int,
    h: int,
    d: int,
    j: nat,
)
    requires
        add_ready(x, y, b, h),
        j <= x.len() - 1,
        d == x.len() + mid.len(),
        d + 3 <= 0x7fff_ffff,
    ensures
        run(
            repeat(ref_add_inner_step(), j),
            st((m + on_stack(y) + mid + on_stack(x)).push(d + 3).push(b).push(0), al),
        ) == Some(
            st(
                (m + on_stack(y) + mid + on_stack(x.subrange(j as int, x.len() as int))).push(
                    d + 3,
                ).push(b).push(add_carry(x, y, b, j)),
                al + added(x, y, b, h).subrange(0, j as int),
            ),
        ),
    decreases j,
{
    let n = x.len() as int;
    let xx = m + on_stack(y) + mid;
    let r = added(x, y, b, h);
    if j == 0 {
        assert(x.subrange(0, n) =~= x);
        assert(al + r.subrange(0, 0) =~= al);
    } else {
        let k = (j - 1) as nat;
        lemma_inner_steps(m, y, mid, x, al, b, h, d, k);
        lemma_on_stack_split(x, k as int);
        let w = xx + on_stack(x.subrange(j as int, n));
        assert(xx + on_stack(x.subrange(k as int, n)) =~= w.push(x[k as int]));
        let c = add_carry(x, y, b, k);
        lemma_add_carry_bit(x, y, b, k);
        let xv = x[k as int];
        let yv = y[k as int];
        let z = w.push(xv).push(d + 3).push(b).push(c);
        assert(w.len() == m.len() + n + mid.len() + (n - j));
        assert(z[w.len() + 3 - (d + 3)] == on_stack(y)[n - 1 - k]);
        assert(on_stack(y)[n - 1 - k] == yv);
        lemma_inner_step(w, al + r.subrange(0, k as int), xv, d + 3, b, c, yv);
        assert(add_carry(x, y, b, j) == carry_of(xv + yv + c, b));
        assert(r[k as int] == reduce_once(xv + yv + c, b));
        assert(c + yv + xv == xv + yv + c);
        assert((al + r.subrange(0, k as int)).push(r[k as int]) =~= al + r.subrange(0, j as int));
        lemma_run_repeat_succ(
            ref_add_inner_step(),
            k,
            st(xx + on_stack(x).push(d + 3).push(b).push(0), al),
        );
        assert((xx + on_stack(x)).push(d + 3).push(b).push(0) =~= xx + on_stack(x).push(d + 3).push(b).push(0)) by {
            assert(xx + on_stack(x).push(d + 3) =~= (xx + on_stack(x)).push(d + 3));
        }
    }
}

/// The close of the adder: the head limbs and the carry, reduced once by the
/// head offset.
proof fn lemma_inner_tail(
    xx: Seq<int>,
    al: Seq<int>,
    xt: int,
    d: int,
    b: int,
    c: int,
    yt: int,
    h: u32,
)
    requires
        0 < d <= xx.len(),
        xx[xx.len() - d] == yt,
        is_num(d + 3),
        is_num(b),
        is_num(c),
        is_num(xt),
        is_num(yt),
        is_num(c + yt),
        is_num(xt + c + yt),
        is_num(h as int),
    ensures
        run(
            seq![
                Op::Nip,
                Op::Swap,
                Op::Push(2),
                Op::Sub,
                Op::Pick,
                Op::Add,
                Op::Add,
            ] + head_reduce_ops(h),
            st(xx.push(xt).push(d + 3).push(b).push(c), al),
        ) == Some(st(xx.push(reduce_once(xt + (c + yt), h as int)), al)),
{
    let s0 = st(xx.push(xt).push(d + 3).push(b).push(c), al);
    let s1 = st(xx.push(xt).push(d + 3).push(c), al);
    let s2 = st(xx.push(xt).push(c).push(d + 3), al);
    let s3 = st(xx.push(xt).push(c).push(d + 3).push(2), al);
    let s4 = st(xx.push(xt).push(c).push(d + 1), al);
    let s5 = st(xx.push(xt).push(c).push(yt), al);
    let s6 = st(xx.push(xt).push(c + yt), al);
    let s7 = st(xx.push(xt + (c + yt)), al);
    lemma_nip(xx.push(xt).push(d + 3), al, b, c);
    lemma_swap(xx.push(xt), al, d + 3, c);
    lemma_push(xx.push(xt).push(c).push(d + 3), al, 2);
    lemma_run3(Op::Nip, Op::Swap, Op::Push(2), s0, s1, s2, s3);
    lemma_binary(Op::Sub, xx.push(xt).push(c), al, d + 3, 2);
    lemma_pick(xx.push(xt).push(c), al, d + 1);
    lemma_binary(Op::Add, xx.push(xt), al, c, yt);
    lemma_binary(Op::Add, xx, al, xt, c + yt);
    lemma_run4(Op::Sub, Op::Pick, Op::Add, Op::Add, s3, s4, s5, s6, s7);
    lemma_head_reduce(xx, al, xt + (c + yt), h);
    let p1 = seq![Op::Nip, Op::Swap, Op::Push(2)];
    let p2 = seq![Op::Sub, Op::Pick, Op::Add, Op::Add];
    lemma_run_seq(p1, p2, s0, s3, s7);
    lemma_run_seq(p1 + p2, head_reduce_ops(h), s0, s7, st(xx.push(reduce_once(xt + (c + yt), h as int)), al));
    assert(seq![Op::Nip, Op::Swap, Op::Push(2), Op::Sub, Op::Pick, Op::Add, Op::Add] =~= p1 + p2);
}

/// The adder replaces the top operand `x` by the limbs [`added`] of the sum
/// of `x` and the operand `y` that lies under `mid`, given the depth `d` of
/// `y` in limbs on top.
#[verifier::rlimit(50)]
pub proof fn lemma_ref_add_inner_runs(
    m: Seq<int>,
    y: Seq<int>,
    mid: Seq<int>,
    x: Seq<int>,
    al: Seq<int>,
    b: u32,
    h: u32,
    d: int,
)
    requires
        add_ready(x, y, b as int, h as int),
        d == x.len() + mid.len(),
        d + 3 <= 0x7fff_ffff,
    ensures
        run(
            ref_add_inner_ops(x.len(), b, h),
            st((m + on_stack(y) + mid + on_stack(x)).push(d), al),
        ) == Some(st(m + on_stack(y) + mid + on_stack(added(x, y, b as int, h as int)), al)),
{
    let n = x.len();
    let bi = b as int;
    let hi = h as int;
    let xx = m + on_stack(y) + mid;
    let w0 = xx + on_stack(x);
    let r = added(x, y, bi, hi);
    let s0 = st(w0.push(d), al);
    let s1 = st(w0.push(d).push(3), al);
    let s2 = st(w0.push(d + 3), al);
    let s3 = st(w0.push(d + 3).push(bi), al);
    let s4 = st(w0.push(d + 3).push(bi).push(0), al);
    lemma_push(w0.push(d), al, 3);
    lemma_binary(Op::Add, w0, al, d, 3);
    lemma_push(w0.push(d + 3), al, b);
    lemma_push(w0.push(d + 3).push(bi), al, 0);
    lemma_run4(Op::Push(3), Op::Add, Op::Push(b), Op::Push(0), s0, s1, s2, s3, s4);
    let j = (n - 1) as nat;
    lemma_inner_steps(m, y, mid, x, al, bi, hi, d, j);
    let rr = r.subrange(0, j as int);
    let c = add_carry(x, y, bi, j);
    lemma_add_carry_bit(x, y, bi, j);
    let xt = x[j as int];
    let yt = y[j as int];
    lemma_on_stack_split(x, j as int);
    assert(x.subrange(j + 1 as int, n as int) =~= Seq::<int>::empty());
    assert(xx + on_stack(x.subrange(j as int, n as int)) =~= xx.push(xt));
    let s5 = st(xx.push(xt).push(d + 3).push(bi).push(c), al + rr);
    assert(xx[xx.len() - d] == on_stack(y)[0]);
    lemma_inner_tail(xx, al + rr, xt, d, bi, c, yt, h);
    let rt = reduce_once(xt + (c + yt), hi);
    assert(r[j as int] == rt);
    let s6 = st(xx.push(rt), al + rr);
    let tail = seq![
        Op::Nip,
        Op::Swap,
        Op::Push(2),
        Op::Sub,
        Op::Pick,
        Op::Add,
        Op::Add,
    ] + head_reduce_ops(h);
    let pre = seq![Op::Push(3), Op::Add, Op::Push(b), Op::Push(0)];
    let loop_ops = repeat(ref_add_inner_step(), j);
    lemma_run_seq(pre, loop_ops, s0, s4, s5);
    lemma_run_seq(pre + loop_ops, tail, s0, s5, s6);
    lemma_from_alt_all(xx.push(rt), al, rr, j);
    assert(rr.subrange(0, 0) =~= Seq::<int>::empty());
    assert(al + Seq::<int>::empty() =~= al);
    assert(xx.push(rt) + Seq::new(j, |i: int| rr[rr.len() - 1 - i]) =~= xx + on_stack(r));
    lemma_run_seq(
        pre + loop_ops + tail,
        repeat(seq![Op::FromAltStack], j),
        s0,
        s6,
        st(xx + on_stack(r), al),
    );
    assert(ref_add_inner_ops(n, b, h) =~= pre + loop_ops + tail + repeat(seq![Op::FromAltStack], j));
}


/// The low `k` limbs of the sum and the carry out of them make the sum of
/// the low `k` limbs of the operands.
proof fn lemma_added_prefix(x: Seq<int>, y: Seq<int>, b: int, h: int, k: nat)
    requires
        x.len() >= 1,
        y.len() == x.len(),
        k <= x.len() - 1,
    ensures
        lsb_value(added(x, y, b, h).subrange(0, k as int), b) + add_carry(x, y, b, k) * pow(b, k)
            == lsb_value(x.subrange(0, k as int), b) + lsb_value(y.subrange(0, k as int), b),
    decreases k,
{
    let r = added(x, y, b, h);
    reveal(pow);
    if k == 0 {
        assert(r.subrange(0, 0) =~= Seq::<int>::empty());
        assert(x.subrange(0, 0) =~= Seq::<int>::empty());
        assert(y.subrange(0, 0) =~= Seq::<int>::empty());
        assert(lsb_value(Seq::<int>::empty(), b) == 0);
    } else {
        let j = (k - 1) as nat;
        lemma_added_prefix(x, y, b, h, j);
        assert(r.subrange(0, k as int) =~= r.subrange(0, j as int).push(r[j as int]));
        assert(x.subrange(0, k as int) =~= x.subrange(0, j as int).push(x[j as int]));
        assert(y.subrange(0, k as int) =~= y.subrange(0, j as int).push(y[j as int]));
        lemma_lsb_value_push(r.subrange(0, j as int), r[j as int], b);
        lemma_lsb_value_push(x.subrange(0, j as int), x[j as int], b);
        lemma_lsb_value_push(y.subrange(0, j as int), y[j as int], b);
        let c = add_carry(x, y, b, j);
        let v = x[j as int] + y[j as int] + c;
        let c2 = add_carry(x, y, b, k);
        assert(c2 == carry_of(v, b));
        assert(r[j as int] == v - c2 * b) by {
            if b <= v {
                assert(c2 == 1);
            } else {
                assert(c2 == 0);
            }
        }
        let pj = pow(b, j);
        assert(pow(b, k) == b * pj);
        assert((v - c2 * b) * pj + c2 * (b * pj) == x[j as int] * pj + y[j as int] * pj + c * pj)
            by (nonlinear_arith)
            requires
                v == x[j as int] + y[j as int] + c,
        ;
    }
}

/// Limbs below `b` make a value below `b^k`.
proof fn lemma_low_bound(q: Seq<int>, b: int, k: nat)
    requires
        k <= q.len(),
        b >= 1,
        forall|i: int| 0 <= i < k ==> 0 <= #[trigger] q[i] < b,
    ensures
        0 <= lsb_value(q.subrange(0, k as int), b) < pow(b, k),
    decreases k,
{
    reveal(pow);
    if k == 0 {
        assert(q.subrange(0, 0) =~= Seq::<int>::empty());
        assert(lsb_value(Seq::<int>::empty(), b) == 0);
    } else {
        let j = (k - 1) as nat;
        lemma_low_bound(q, b, j);
        assert(q.subrange(0, k as int) =~= q.subrange(0, j as int).push(q[j as int]));
        lemma_lsb_value_push(q.subrange(0, j as int), q[j as int], b);
        let pj = pow(b, j);
        let x = q[j as int];
        let v = lsb_value(q.subrange(0, j as int), b);
        assert(0 <= v + x * pj < b * pj) by (nonlinear_arith)
            requires
                0 <= v < pj,
                0 <= x < b,
        ;
    }
}

/// The sum's limbs are valid and its value is the sum of the operands'
/// values modulo the bound `h * b^(n-1)`.
pub proof fn lemma_added_value(x: Seq<int>, y: Seq<int>, b: int, h: int)
    requires
        add_ready(x, y, b, h),
    ensures
        forall|i: int|
            0 <= i < x.len() ==> 0 <= #[trigger] added(x, y, b, h)[i] < (if i == x.len() - 1 {
                h
            } else {
                b
            }),
        lsb_value(added(x, y, b, h), b) == (lsb_value(x, b) + lsb_value(y, b)) % (h * pow(
            b,
            (x.len() - 1) as nat,
        )),
{
    let n = x.len();
    let r = added(x, y, b, h);
    let j = (n - 1) as nat;
    assert forall|i: int| 0 <= i < n implies 0 <= #[trigger] r[i] < (if i == n - 1 {
        h
    } else {
        b
    }) by {
        lemma_add_carry_bit(x, y, b, i as nat);
    }
    lemma_added_prefix(x, y, b, h, j);
    assert(r =~= r.subrange(0, j as int).push(r[j as int]));
    assert(x =~= x.subrange(0, j as int).push(x[j as int]));
    assert(y =~= y.subrange(0, j as int).push(y[j as int]));
    lemma_lsb_value_push(r.subrange(0, j as int), r[j as int], b);
    lemma_lsb_value_push(x.subrange(0, j as int), x[j as int], b);
    lemma_lsb_value_push(y.subrange(0, j as int), y[j as int], b);
    let c = add_carry(x, y, b, j);
    lemma_add_carry_bit(x, y, b, j);
    let v = x[j as int] + y[j as int] + c;
    let g = carry_of(v, h);
    assert(r[j as int] == v - g * h) by {
        if h <= v {
            assert(g == 1);
        } else {
            assert(g == 0);
        }
    }
    let pj = pow(b, j);
    let mm = h * pj;
    let lowr = lsb_value(r.subrange(0, j as int), b);
    let lowx = lsb_value(x.subrange(0, j as int), b);
    let lowy = lsb_value(y.subrange(0, j as int), b);
    assert(lsb_value(r, b) == lsb_value(x, b) + lsb_value(y, b) - g * mm) by (nonlinear_arith)
        requires
            lsb_value(r, b) == lowr + (v - g * h) * pj,
            lsb_value(x, b) == lowx + x[j as int] * pj,
            lsb_value(y, b) == lowy + y[j as int] * pj,
            lowr + c * pj == lowx + lowy,
            v == x[j as int] + y[j as int] + c,
            mm == h * pj,
    ;
    lemma_low_bound(r, b, j);
    assert(pj >= 1) by {
        lemma_pow_positive(b, j);
    }
    let rt = r[j as int];
    assert(0 <= lowr + rt * pj < mm) by (nonlinear_arith)
        requires
            0 <= lowr < pj,
            0 <= rt < h,
            mm == h * pj,
    ;
    assert(0 <= g <= 1);
    lemma_fundamental_div_mod_converse(lsb_value(x, b) + lsb_value(y, b), mm, g, lsb_value(r, b));
}


/// [`BigIntImpl::stack_ref_add`] with `k >= 1` on top adds the big integer
/// lying `k` big integers deep to the top one: it replaces the top one by
/// valid limbs of the sum modulo `2^n_bits`.
pub proof fn lemma_stack_ref_add_computes(
    bi: BigIntImpl,
    m: Seq<int>,
    y: Seq<int>,
    mid: Seq<int>,
    x: Seq<int>,
    al: Seq<int>,
    k: int,
)
    requires
        bi.shape().shape_ok(),
        bi.limb_size <= 30,
        bi.shape().limbs_ok(x),
        bi.shape().limbs_ok(y),
        k >= 1,
        mid.len() == (k - 1) * bi.limbs(),
        k * bi.limbs() + 3 <= 0x7fff_ffff,
    ensures
        run(bi.stack_ref_add_ops(), st((m + on_stack(y) + mid + on_stack(x)).push(k), al)) == Some(
            st(
                m + on_stack(y) + mid + on_stack(
                    added(x, y, bi.shape().base() as int, bi.shape().head_bound() as int),
                ),
                al,
            ),
        ),
        bi.shape().limbs_ok(added(x, y, bi.shape().base() as int, bi.shape().head_bound() as int)),
        bi.shape().value(added(x, y, bi.shape().base() as int, bi.shape().head_bound() as int)) == (
        bi.shape().value(x) + bi.shape().value(y)) % (pow2(bi.n_bits as nat) as int),
{
    let s = bi.shape();
    let n = bi.limbs();
    s.lemma_bounds();
    s.lemma_head_bits();
    let b = s.base() as int;
    let h = s.head_bound() as int;
    assert(add_ready(x, y, b, h));
    let w = m + on_stack(y) + mid + on_stack(x);
    assert(k * n == n + mid.len()) by (nonlinear_arith)
        requires
            mid.len() == (k - 1) * n,
    ;
    assert(0 <= n * k <= 0x7fff_ffff) by (nonlinear_arith)
        requires
            k >= 1,
            k * n + 3 <= 0x7fff_ffff,
    ;
    lemma_nmul_computes(n, w, al, k);
    lemma_ref_add_inner_runs(m, y, mid, x, al, b as u32, h as u32, k * n);
    lemma_run_seq(
        nmul_ops(n),
        ref_add_inner_ops(n, b as u32, h as u32),
        st(w.push(k), al),
        st(w.push(n * k), al),
        st(m + on_stack(y) + mid + on_stack(added(x, y, b, h)), al),
    );
    lemma_added_value(x, y, b, h);
}

/// [`BigIntImpl::ref_add`] with `b > 1` adds the big integer lying `b` big
/// integers deep to the top one, modulo `2^n_bits`.
pub proof fn lemma_ref_add_computes(
    bi: BigIntImpl,
    bd: u32,
    m: Seq<int>,
    y: Seq<int>,
    mid: Seq<int>,
    x: Seq<int>,
    al: Seq<int>,
)
    requires
        bi.shape().shape_ok(),
        bi.limb_size <= 30,
        bi.shape().limbs_ok(x),
        bi.shape().limbs_ok(y),
        bd > 1,
        mid.len() == (bd - 1) * bi.limbs(),
        bd * bi.limbs() + 3 <= 0x7fff_ffff,
    ensures
        run(bi.ref_add_ops(bd), st(m + on_stack(y) + mid + on_stack(x), al)) == Some(
            st(
                m + on_stack(y) + mid + on_stack(
                    added(x, y, bi.shape().base() as int, bi.shape().head_bound() as int),
                ),
                al,
            ),
        ),
        bi.shape().limbs_ok(added(x, y, bi.shape().base() as int, bi.shape().head_bound() as int)),
        bi.shape().value(added(x, y, bi.shape().base() as int, bi.shape().head_bound() as int)) == (
        bi.shape().value(x) + bi.shape().value(y)) % (pow2(bi.n_bits as nat) as int),
{
    let s = bi.shape();
    let n = bi.limbs();
    s.lemma_bounds();
    s.lemma_head_bits();
    let b = s.base() as int;
    let h = s.head_bound() as int;
    assert(add_ready(x, y, b, h));
    let w = m + on_stack(y) + mid + on_stack(x);
    assert(bd * n == n + mid.len()) by (nonlinear_arith)
        requires
            mid.len() == (bd - 1) * n,
    ;
    let d = bd * n;
    lemma_push(w, al, d as u32);
    lemma_run1(Op::Push(d as u32), st(w, al), st(w.push(d as int), al));
    lemma_ref_add_inner_runs(m, y, mid, x, al, b as u32, h as u32, d as int);
    lemma_run_seq(
        seq![Op::Push(d as u32)],
        ref_add_inner_ops(n, b as u32, h as u32),
        st(w, al),
        st(w.push(d as int), al),
        st(m + on_stack(y) + mid + on_stack(added(x, y, b, h)), al),
    );
    lemma_added_value(x, y, b, h);
}

} // verus!

verus! {

/// The library's limb addition with carry: `{x} {y} {base}` becomes
/// `{base} {carry} {x + y - carry * base}`.
pub proof fn lemma_limb_add_carry(w: Seq<int>, al: Seq<int>, x: int, y: int, b: int)
    requires
        is_num(x),
        is_num(y),
        is_num(b),
        is_num(x + y),
    ensures
        step(Op::Routine(Routine::LimbAddCarry), st(w.push(x).push(y).push(b), al)) == Some(
            st(w.push(b).push(carry_of(x + y, b)).push(reduce_once(x + y, b)), al),
        ),
{
    reveal(routine_effect);
    let z = w.push(x).push(y).push(b);
    assert(z.subrange(0, z.len() - 3) =~= w);
}

/// The library's head-limb addition: `{x} {y}` becomes `x + y`, reduced
/// once by the head offset `h`.
pub proof fn lemma_limb_add_nocarry(w: Seq<int>, al: Seq<int>, x: int, y: int, h: u32)
    requires
        is_num(x),
        is_num(y),
        is_num(x + y),
        is_num(h as int),
    ensures
        step(Op::Routine(Routine::LimbAddNoCarry { head_offset: h }), st(w.push(x).push(y), al))
            == Some(st(w.push(reduce_once(x + y, h as int)), al)),
{
    reveal(routine_effect);
    let z = w.push(x).push(y);
    assert(z.subrange(0, z.len() - 2) =~= w);
}

/// The state of [`BigIntImpl::ref_add`] near the top before limb `i`: the
/// limbs of `x` from `i` on, the base and the carry on the main stack, the
/// low `i` limbs of the sum on the alt stack.
spec fn near_state(
    mm: Seq<int>,
    x: Seq<int>,
    y: Seq<int>,
    al: Seq<int>,
    b: int,
    h: int,
    i: nat,
) -> crate::script::State {
    st(
        (mm + on_stack(x.subrange(i as int, x.len() as int))).push(b).push(add_carry(x, y, b, i)),
        al + added(x, y, b, h).subrange(0, i as int),
    )
}

/// The item `d` deep under the limbs of `x` from `i` on.
spec fn near_pick(mm: Seq<int>, x: Seq<int>, i: int, d: int) -> int {
    (mm + on_stack(x.subrange(i, x.len() as int)))[mm.len() + x.len() - i - 1 - d]
}

/// Whether limb `i` of `y` lies `d` deep under the limbs of `x` from `i` on.
spec fn near_picks(mm: Seq<int>, x: Seq<int>, y: Seq<int>, d: int) -> bool {
    &&& 0 <= d <= mm.len()
    &&& forall|i: int| 0 <= i < x.len() ==> #[trigger] near_pick(mm, x, i, d) == y[i]
}

/// The first limb of [`BigIntImpl::ref_add`] near the top.
proof fn lemma_near_first(mm: Seq<int>, x: Seq<int>, y: Seq<int>, al: Seq<int>, b: int, h: int, d: int)
    requires
        add_ready(x, y, b, h),
        x.len() >= 2,
        near_picks(mm, x, y, d),
        d <= 0x7fff_ffff,
    ensures
        run(
            seq![
                Op::Push(d as u32),
                Op::Pick,
                Op::Push(b as u32),
                Op::Routine(Routine::LimbAddCarry),
                Op::ToAltStack,
            ],
            st(mm + on_stack(x), al),
        ) == Some(near_state(mm, x, y, al, b, h, 1)),
{
    let n = x.len() as int;
    let w0 = mm + on_stack(x);
    assert(x.subrange(0, n) =~= x);
    assert(near_pick(mm, x, 0, d) == y[0]);
    assert(w0[mm.len() + n - 1 - d] == y[0]);
    lemma_on_stack_split(x, 0);
    let w1 = mm + on_stack(x.subrange(1, n));
    assert(w0 =~= w1.push(x[0]));
    let v = x[0] + y[0];
    let r = added(x, y, b, h);
    lemma_push(w0, al, d as u32);
    lemma_pick(w0, al, d);
    assert(w0[w0.len() - 1 - d] == y[0]);
    lemma_push(w0.push(y[0]), al, b as u32);
    lemma_limb_add_carry(w1, al, x[0], y[0], b);
    lemma_run4(
        Op::Push(d as u32),
        Op::Pick,
        Op::Push(b as u32),
        Op::Routine(Routine::LimbAddCarry),
        st(w0, al),
        st(w0.push(d), al),
        st(w0.push(y[0]), al),
        st(w0.push(y[0]).push(b), al),
        st(w1.push(b).push(carry_of(v, b)).push(reduce_once(v, b)), al),
    );
    assert(add_carry(x, y, b, 0) == 0);
    assert(add_carry(x, y, b, 1) == carry_of(v, b));
    assert(r[0] == reduce_once(v, b));
    lemma_to_alt(w1.push(b).push(carry_of(v, b)), al, reduce_once(v, b));
    assert(al.push(r[0]) =~= al + r.subrange(0, 1));
    lemma_run1(
        Op::ToAltStack,
        st(w1.push(b).push(carry_of(v, b)).push(reduce_once(v, b)), al),
        near_state(mm, x, y, al, b, h, 1),
    );
    lemma_run_seq(
        seq![Op::Push(d as u32), Op::Pick, Op::Push(b as u32), Op::Routine(Routine::LimbAddCarry)],
        seq![Op::ToAltStack],
        st(w0, al),
        st(w1.push(b).push(carry_of(v, b)).push(reduce_once(v, b)), al),
        near_state(mm, x, y, al, b, h, 1),
    );
    assert(seq![
        Op::Push(d as u32),
        Op::Pick,
        Op::Push(b as u32),
        Op::Routine(Routine::LimbAddCarry),
        Op::ToAltStack,
    ] =~= seq![Op::Push(d as u32), Op::Pick, Op::Push(b as u32), Op::Routine(Routine::LimbAddCarry)]
        + seq![Op::ToAltStack]);
}

/// Limb `i` (neither the first nor the head) of [`BigIntImpl::ref_add`]
/// near the top.
proof fn lemma_near_step(
    mm: Seq<int>,
    x: Seq<int>,
    y: Seq<int>,
    al: Seq<int>,
    b: int,
    h: int,
    d: int,
    i: nat,
)
    requires
        add_ready(x, y, b, h),
        1 <= i < x.len() - 1,
        near_picks(mm, x, y, d),
        d + 2 <= 0x7fff_ffff,
    ensures
        run(ref_add_step(x.len(), d as nat, h as u32, i), near_state(mm, x, y, al, b, h, i)) == Some(
            near_state(mm, x, y, al, b, h, i + 1),
        ),
{
    let n = x.len() as int;
    let r = added(x, y, b, h);
    let c = add_carry(x, y, b, i);
    lemma_add_carry_bit(x, y, b, i);
    let wi = mm + on_stack(x.subrange(i as int, n));
    let w1 = mm + on_stack(x.subrange(i + 1int, n));
    lemma_on_stack_split(x, i as int);
    assert(wi =~= w1.push(x[i as int]));
    let ali = al + r.subrange(0, i as int);
    let z = wi.push(b).push(c);
    assert(near_pick(mm, x, i as int, d) == y[i as int]);
    assert(wi[mm.len() + n - i - 1 - d] == y[i as int]);
    assert(z[z.len() - 1 - (d + 2)] == y[i as int]);
    let yi = y[i as int];
    let xi = x[i as int];
    lemma_push(z, ali, (d + 2) as u32);
    lemma_pick(z, ali, d + 2);
    lemma_binary(Op::Add, wi.push(b), ali, c, yi);
    lemma_run3(
        Op::Push((d + 2) as u32),
        Op::Pick,
        Op::Add,
        st(z, ali),
        st(z.push(d + 2), ali),
        st(z.push(yi), ali),
        st(wi.push(b).push(c + yi), ali),
    );
    lemma_swap(wi, ali, b, c + yi);
    lemma_limb_add_carry(w1, ali, xi, c + yi, b);
    let v = xi + (c + yi);
    let s3 = st(wi.push(b).push(c + yi), ali);
    let s4 = st(wi.push(c + yi).push(b), ali);
    let s5 = st(w1.push(b).push(carry_of(v, b)).push(reduce_once(v, b)), ali);
    let s6 = st(w1.push(b).push(carry_of(v, b)), ali.push(reduce_once(v, b)));
    lemma_to_alt(w1.push(b).push(carry_of(v, b)), ali, reduce_once(v, b));
    lemma_run3(Op::Swap, Op::Routine(Routine::LimbAddCarry), Op::ToAltStack, s3, s4, s5, s6);
    assert(add_carry(x, y, b, i + 1) == carry_of(v, b));
    assert(r[i as int] == reduce_once(v, b));
    assert(ali.push(r[i as int]) =~= al + r.subrange(0, i + 1int));
    lemma_run_seq(
        seq![Op::Push((d + 2) as u32), Op::Pick, Op::Add],
        seq![Op::Swap, Op::Routine(Routine::LimbAddCarry), Op::ToAltStack],
        st(z, ali),
        s3,
        s6,
    );
}

/// The limbs of [`BigIntImpl::ref_add`] near the top from the second up to
/// `k - 1`.
proof fn lemma_near_steps(
    mm: Seq<int>,
    x: Seq<int>,
    y: Seq<int>,
    al: Seq<int>,
    b: int,
    h: int,
    d: int,
    k: nat,
)
    requires
        add_ready(x, y, b, h),
        1 <= k <= x.len() - 1,
        near_picks(mm, x, y, d),
        d + 2 <= 0x7fff_ffff,
    ensures
        run(ref_add_steps(x.len(), d as nat, h as u32, k), near_state(mm, x, y, al, b, h, 1))
            == Some(near_state(mm, x, y, al, b, h, k)),
    decreases k,
{
    if k > 1 {
        let j = (k - 1) as nat;
        lemma_near_steps(mm, x, y, al, b, h, d, j);
        lemma_near_step(mm, x, y, al, b, h, d, j);
        lemma_run_seq(
            ref_add_steps(x.len(), d as nat, h as u32, j),
            ref_add_step(x.len(), d as nat, h as u32, j),
            near_state(mm, x, y, al, b, h, 1),
            near_state(mm, x, y, al, b, h, j),
            near_state(mm, x, y, al, b, h, k),
        );
    }
}

/// The head limb of [`BigIntImpl::ref_add`] near the top.
proof fn lemma_near_last(mm: Seq<int>, x: Seq<int>, y: Seq<int>, al: Seq<int>, b: int, h: int, d: int)
    requires
        add_ready(x, y, b, h),
        x.len() >= 2,
        near_picks(mm, x, y, d),
        d + 2 <= 0x7fff_ffff,
    ensures
        ({
            let n = x.len();
            let r = added(x, y, b, h);
            run(ref_add_step(n, d as nat, h as u32, (n - 1) as nat), near_state(mm, x, y, al, b, h, (n - 1) as nat))
                == Some(st(mm.push(r[n - 1]), al + r.subrange(0, n - 1)))
        }),
{
    let n = x.len() as int;
    let i = n - 1;
    let r = added(x, y, b, h);
    let c = add_carry(x, y, b, i as nat);
    lemma_add_carry_bit(x, y, b, i as nat);
    let wi = mm + on_stack(x.subrange(i, n));
    lemma_on_stack_split(x, i);
    assert(x.subrange(i + 1, n) =~= Seq::<int>::empty());
    assert(wi =~= mm.push(x[i]));
    let ali = al + r.subrange(0, i);
    let z = wi.push(b).push(c);
    assert(near_pick(mm, x, i, d) == y[i]);
    assert(wi[mm.len() + n - i - 1 - d] == y[i]);
    let yi = y[i];
    let xi = x[i];
    lemma_push(z, ali, (d + 2) as u32);
    lemma_pick(z, ali, d + 2);
    lemma_binary(Op::Add, wi.push(b), ali, c, yi);
    lemma_run3(
        Op::Push((d + 2) as u32),
        Op::Pick,
        Op::Add,
        st(z, ali),
        st(z.push(d + 2), ali),
        st(z.push(yi), ali),
        st(wi.push(b).push(c + yi), ali),
    );
    lemma_nip(wi, ali, b, c + yi);
    lemma_limb_add_nocarry(mm, ali, xi, c + yi, h as u32);
    let v = xi + (c + yi);
    lemma_run2(
        Op::Nip,
        Op::Routine(Routine::LimbAddNoCarry { head_offset: h as u32 }),
        st(wi.push(b).push(c + yi), ali),
        st(wi.push(c + yi), ali),
        st(mm.push(reduce_once(v, h)), ali),
    );
    assert(r[i] == reduce_once(v, h));
    lemma_run_seq(
        seq![Op::Push((d + 2) as u32), Op::Pick, Op::Add],
        seq![Op::Nip, Op::Routine(Routine::LimbAddNoCarry { head_offset: h as u32 })],
        st(z, ali),
        st(wi.push(b).push(c + yi), ali),
        st(mm.push(r[i]), ali),
    );
}

/// [`BigIntImpl::ref_add`] near the top, given where the limbs of `y`
/// lie: the top big integer `x` is replaced by the limbs of the sum.
proof fn lemma_near_runs(
    bi: BigIntImpl,
    bd: u32,
    mm: Seq<int>,
    x: Seq<int>,
    y: Seq<int>,
    al: Seq<int>,
)
    requires
        bd <= 1,
        bi.limbs() >= 2,
        add_ready(x, y, bi.shape().base() as int, bi.shape().head_bound() as int),
        x.len() == bi.limbs(),
        near_picks(mm, x, y, (bd * bi.limbs()) as int),
        bd * bi.limbs() + 2 <= 0x7fff_ffff,
        is_num(bi.shape().head_bound() as int),
    ensures
        run(bi.ref_add_ops(bd), st(mm + on_stack(x), al)) == Some(
            st(mm + on_stack(added(x, y, bi.shape().base() as int, bi.shape().head_bound() as int)), al),
        ),
{
    let n = bi.limbs();
    let b = bi.shape().base() as int;
    let h = bi.shape().head_bound() as int;
    let d = (bd * n) as int;
    let r = added(x, y, b, h);
    let first = seq![
        Op::Push(d as u32),
        Op::Pick,
        Op::Push(b as u32),
        Op::Routine(Routine::LimbAddCarry),
        Op::ToAltStack,
    ];
    lemma_near_first(mm, x, y, al, b, h, d);
    lemma_near_steps(mm, x, y, al, b, h, d, (n - 1) as nat);
    lemma_run_seq(
        first,
        ref_add_steps(n, d as nat, h as u32, (n - 1) as nat),
        st(mm + on_stack(x), al),
        near_state(mm, x, y, al, b, h, 1),
        near_state(mm, x, y, al, b, h, (n - 1) as nat),
    );
    lemma_near_last(mm, x, y, al, b, h, d);
    assert(ref_add_steps(n, d as nat, h as u32, n) == ref_add_steps(n, d as nat, h as u32, (n - 1) as nat)
        + ref_add_step(n, d as nat, h as u32, (n - 1) as nat));
    let rr = r.subrange(0, n - 1);
    lemma_run_seq(
        first + ref_add_steps(n, d as nat, h as u32, (n - 1) as nat),
        ref_add_step(n, d as nat, h as u32, (n - 1) as nat),
        st(mm + on_stack(x), al),
        near_state(mm, x, y, al, b, h, (n - 1) as nat),
        st(mm.push(r[n - 1]), al + rr),
    );
    lemma_from_alt_all(mm.push(r[n - 1]), al, rr, (n - 1) as nat);
    assert(rr.subrange(0, 0) =~= Seq::<int>::empty());
    assert(al + Seq::<int>::empty() =~= al);
    assert(mm.push(r[n - 1]) + Seq::new((n - 1) as nat, |i: int| rr[rr.len() - 1 - i]) =~= mm
        + on_stack(r));
    let all = first + ref_add_steps(n, d as nat, h as u32, (n - 1) as nat) + ref_add_step(
        n,
        d as nat,
        h as u32,
        (n - 1) as nat,
    );
    lemma_run_seq(
        all,
        repeat(seq![Op::FromAltStack], (n - 1) as nat),
        st(mm + on_stack(x), al),
        st(mm.push(r[n - 1]), al + rr),
        st(mm + on_stack(r), al),
    );
    assert(bi.ref_add_ops(bd) =~= all + repeat(seq![Op::FromAltStack], (n - 1) as nat));
}

/// [`BigIntImpl::ref_add`] with `b == 1` adds the big integer just under
/// the top one to it, modulo `2^n_bits`, with the library's limb additions.
pub proof fn lemma_ref_add_next_computes(
    bi: BigIntImpl,
    m: Seq<int>,
    y: Seq<int>,
    x: Seq<int>,
    al: Seq<int>,
)
    requires
        bi.shape().shape_ok(),
        bi.limb_size <= 30,
        bi.limbs() >= 2,
        bi.shape().limbs_ok(x),
        bi.shape().limbs_ok(y),
        bi.limbs() + 2 <= 0x7fff_ffff,
    ensures
        run(bi.ref_add_ops(1), st(m + on_stack(y) + on_stack(x), al)) == Some(
            st(
                m + on_stack(y) + on_stack(
                    added(x, y, bi.shape().base() as int, bi.shape().head_bound() as int),
                ),
                al,
            ),
        ),
        bi.shape().value(added(x, y, bi.shape().base() as int, bi.shape().head_bound() as int)) == (
        bi.shape().value(x) + bi.shape().value(y)) % (pow2(bi.n_bits as nat) as int),
{
    let s = bi.shape();
    let n = bi.limbs() as int;
    s.lemma_bounds();
    s.lemma_head_bits();
    let b = s.base() as int;
    let h = s.head_bound() as int;
    assert(add_ready(x, y, b, h));
    let mm = m + on_stack(y);
    assert(near_picks(mm, x, y, n)) by {
        assert forall|i: int| 0 <= i < x.len() implies #[trigger] near_pick(mm, x, i, n) == y[i] by {
            assert((mm + on_stack(x.subrange(i, x.len() as int)))[mm.len() + x.len() - i - 1 - n]
                == mm[mm.len() - 1 - i]);
        }
    }
    lemma_near_runs(bi, 1, mm, x, y, al);
    lemma_added_value(x, y, b, h);
}

/// [`BigIntImpl::ref_add`] with `b == 0` adds the top big integer to
/// itself: it doubles it modulo `2^n_bits`.
pub proof fn lemma_ref_add_self_computes(bi: BigIntImpl, m: Seq<int>, x: Seq<int>, al: Seq<int>)
    requires
        bi.shape().shape_ok(),
        bi.limb_size <= 30,
        bi.limbs() >= 2,
        bi.shape().limbs_ok(x),
    ensures
        run(bi.ref_add_ops(0), st(m + on_stack(x), al)) == Some(
            st(m + on_stack(added(x, x, bi.shape().base() as int, bi.shape().head_bound() as int)), al),
        ),
        bi.shape().value(added(x, x, bi.shape().base() as int, bi.shape().head_bound() as int)) == (
        2 * bi.shape().value(x)) % (pow2(bi.n_bits as nat) as int),
{
    let s = bi.shape();
    s.lemma_bounds();
    s.lemma_head_bits();
    let b = s.base() as int;
    let h = s.head_bound() as int;
    assert(add_ready(x, x, b, h));
    assert(near_picks(m, x, x, 0)) by {
        assert forall|i: int| 0 <= i < x.len() implies #[trigger] near_pick(m, x, i, 0) == x[i] by {
            assert(on_stack(x.subrange(i, x.len() as int))[x.len() - i - 1] == x[i]);
        }
    }
    lemma_near_runs(bi, 0, m, x, x, al);
    lemma_added_value(x, x, b, h);
}


/// [`BigIntImpl::stack_ref_add`] with `bd >= 1` on top does what
/// [`BigIntImpl::ref_add`] with `bd` does without it: both replace the top
/// big integer by the same limbs of its sum with the one `bd` deep.
pub proof fn lemma_stack_ref_add_is_ref_add(
    bi: BigIntImpl,
    bd: u32,
    m: Seq<int>,
    y: Seq<int>,
    mid: Seq<int>,
    x: Seq<int>,
    al: Seq<int>,
)
    requires
        bi.shape().shape_ok(),
        bi.limb_size <= 30,
        bi.limbs() >= 2,
        bi.shape().limbs_ok(x),
        bi.shape().limbs_ok(y),
        bd >= 1,
        mid.len() == (bd - 1) * bi.limbs(),
        bd * bi.limbs() + 3 <= 0x7fff_ffff,
    ensures
        run(bi.stack_ref_add_ops(), st((m + on_stack(y) + mid + on_stack(x)).push(bd as int), al))
            == run(bi.ref_add_ops(bd), st(m + on_stack(y) + mid + on_stack(x), al)),
{
    lemma_stack_ref_add_computes(bi, m, y, mid, x, al, bd as int);
    if bd == 1 {
        assert(mid.len() == 0) by (nonlinear_arith)
            requires
                mid.len() == (bd - 1) * bi.limbs(),
                bd == 1,
        ;
        assert(m + on_stack(y) + mid =~= m + on_stack(y));
        lemma_ref_add_next_computes(bi, m, y, x, al);
    } else {
        lemma_ref_add_computes(bi, bd, m, y, mid, x, al);
    }
}

} // verus!
