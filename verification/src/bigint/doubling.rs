//! What the doubling scripts compute: twice a big integer, modulo `2^n_bits`.
use crate::bigint::op_tmul::{
    dbl_ops, doubling_nocarry_ops, doubling_step_ops, initial_carry_ops,
};
use crate::bigint::{lsb_value, on_stack, BigIntImpl};
use crate::pseudo::{lemma_op_2mul, op_2mul_ops};
use crate::script::{bool_num, is_num, repeat, run, st, Op};
use crate::stack::{
    flow_free, lemma_binary, lemma_from_alt, lemma_if, lemma_if_else, lemma_nip, lemma_pick,
    lemma_push, lemma_rot, lemma_run1, lemma_run3, lemma_run_repeat_succ,
    lemma_run_seq, lemma_swap, lemma_to_alt, lemma_tuck, lemma_two_dup,
};
use vstd::arithmetic::div_mod::*;
use vstd::arithmetic::mul::*;
use vstd::arithmetic::power::*;
use vstd::arithmetic::power2::*;
use vstd::prelude::*;

verus! {

/// The opcodes that turn `{base} {v}` into `{base} {carry} {v - carry*base}`,
/// with `carry` set where `v` reaches `base`.
pub open spec fn carry_tail_ops() -> Seq<Op> {
    seq![
        Op::TwoDup,
        Op::LessThanOrEqual,
        Op::Tuck,
        Op::If,
        Op::Push(2),
        Op::Pick,
        Op::Sub,
        Op::EndIf,
    ]
}

/// `v` reduced once by `b` where it reaches `b`.
pub open spec fn reduce_once(v: int, b: int) -> int {
    if b <= v {
        v - b
    } else {
        v
    }
}

/// The carry of `v` in base `b`: `1` where `v` reaches `b`.
pub open spec fn carry_of(v: int, b: int) -> int {
    bool_num(b <= v)
}

/// The carry tail: `{base} {v}` becomes `{base} {carry} {v - carry*base}`.
pub proof fn lemma_carry_tail(m: Seq<int>, a: Seq<int>, b: int, v: int)
    requires
        is_num(b),
        is_num(v),
    ensures
        run(carry_tail_ops(), st(m.push(b).push(v), a)) == Some(
            st(m.push(b).push(carry_of(v, b)).push(reduce_once(v, b)), a),
        ),
{
    let c = carry_of(v, b);
    let mb = m.push(b);
    let s0 = st(mb.push(v), a);
    let s1 = st(mb.push(v).push(b).push(v), a);
    let s2 = st(mb.push(v).push(c), a);
    let s3 = st(mb.push(c).push(v).push(c), a);
    lemma_two_dup(m, a, b, v);
    lemma_binary(Op::LessThanOrEqual, mb.push(v), a, b, v);
    lemma_tuck(mb, a, v, c);
    lemma_run3(Op::TwoDup, Op::LessThanOrEqual, Op::Tuck, s0, s1, s2, s3);
    let body = seq![Op::Push(2), Op::Pick, Op::Sub];
    assert(flow_free(body));
    let mv = mb.push(c).push(v);
    lemma_if(body, mv, a, c);
    let t0 = st(mv, a);
    let t1 = st(mv.push(2), a);
    let t2 = st(mv.push(b), a);
    let t3 = st(mb.push(c).push(v - b), a);
    lemma_push(mv, a, 2);
    lemma_pick(mv, a, 2);
    assert(mv[mv.len() - 1 - 2] == b);
    lemma_binary(Op::Sub, mb.push(c), a, v, b);
    lemma_run3(Op::Push(2), Op::Pick, Op::Sub, t0, t1, t2, t3);
    let first = seq![Op::TwoDup, Op::LessThanOrEqual, Op::Tuck];
    let block = seq![Op::If] + body + seq![Op::EndIf];
    assert(carry_tail_ops() =~= first + block);
    let fin = st(mb.push(c).push(reduce_once(v, b)), a);
    assert(run(block, s3) == Some(fin));
    lemma_run_seq(first, block, s0, s3, fin);
}

/// The first limb: `{limb} {base}` becomes `{base} {carry} {low}` where
/// `2*limb = carry*base + low`.
pub proof fn lemma_initial_carry(m: Seq<int>, a: Seq<int>, l: int, b: int)
    requires
        is_num(l),
        is_num(2 * l),
        is_num(b),
    ensures
        run(initial_carry_ops(), st(m.push(l).push(b), a)) == Some(
            st(m.push(b).push(carry_of(2 * l, b)).push(reduce_once(2 * l, b)), a),
        ),
{
    let s0 = st(m.push(l).push(b), a);
    let s1 = st(m.push(b).push(l), a);
    let s2 = st(m.push(b).push(2 * l), a);
    lemma_swap(m, a, l, b);
    lemma_run1(Op::Swap, s0, s1);
    lemma_op_2mul(m.push(b), a, l);
    lemma_carry_tail(m, a, b, 2 * l);
    assert(initial_carry_ops() =~= seq![Op::Swap] + op_2mul_ops() + carry_tail_ops());
    lemma_run_seq(seq![Op::Swap], op_2mul_ops(), s0, s1, s2);
    lemma_run_seq(
        seq![Op::Swap] + op_2mul_ops(),
        carry_tail_ops(),
        s0,
        s2,
        st(m.push(b).push(carry_of(2 * l, b)).push(reduce_once(2 * l, b)), a),
    );
}

/// A middle limb: `{limb} {base} {carry}` becomes `{base} {carry'} {low}`
/// where `2*limb + carry = carry'*base + low`.
pub proof fn lemma_doubling_step(m: Seq<int>, a: Seq<int>, l: int, b: int, c: int)
    requires
        is_num(l),
        is_num(2 * l),
        is_num(c),
        is_num(2 * l + c),
        is_num(b),
    ensures
        run(doubling_step_ops(), st(m.push(l).push(b).push(c), a)) == Some(
            st(m.push(b).push(carry_of(2 * l + c, b)).push(reduce_once(2 * l + c, b)), a),
        ),
{
    let s0 = st(m.push(l).push(b).push(c), a);
    let s1 = st(m.push(b).push(c).push(l), a);
    let s2 = st(m.push(b).push(c).push(2 * l), a);
    let s3 = st(m.push(b).push(2 * l + c), a);
    lemma_rot(m, a, l, b, c);
    lemma_run1(Op::Rot, s0, s1);
    lemma_op_2mul(m.push(b).push(c), a, l);
    lemma_binary(Op::Add, m.push(b), a, c, 2 * l);
    lemma_run1(Op::Add, s2, s3);
    lemma_carry_tail(m, a, b, 2 * l + c);
    assert(doubling_step_ops() =~= seq![Op::Rot] + op_2mul_ops() + seq![Op::Add]
        + carry_tail_ops());
    lemma_run_seq(seq![Op::Rot], op_2mul_ops(), s0, s1, s2);
    lemma_run_seq(seq![Op::Rot] + op_2mul_ops(), seq![Op::Add], s0, s2, s3);
    lemma_run_seq(
        seq![Op::Rot] + op_2mul_ops() + seq![Op::Add],
        carry_tail_ops(),
        s0,
        s3,
        st(m.push(b).push(carry_of(2 * l + c, b)).push(reduce_once(2 * l + c, b)), a),
    );
}

/// The opcodes that reduce `{v}` once by `h` where it reaches `h`.
pub open spec fn head_reduce_ops(h: u32) -> Seq<Op> {
    seq![
        Op::Push(h),
        Op::TwoDup,
        Op::GreaterThanOrEqual,
        Op::If,
        Op::Sub,
        Op::Else,
        Op::Drop,
        Op::EndIf,
    ]
}

/// `{v}` becomes `v`, less `h` where it reaches `h`.
pub proof fn lemma_head_reduce(m: Seq<int>, a: Seq<int>, v: int, h: u32)
    requires
        is_num(v),
        is_num(h as int),
    ensures
        run(head_reduce_ops(h), st(m.push(v), a)) == Some(st(m.push(reduce_once(v, h as int)), a)),
{
    let hh = h as int;
    let g = bool_num(v >= hh);
    let s3 = st(m.push(v), a);
    let s4 = st(m.push(v).push(hh), a);
    let s5 = st(m.push(v).push(hh).push(v).push(hh), a);
    let s6 = st(m.push(v).push(hh).push(g), a);
    lemma_push(m.push(v), a, h);
    lemma_two_dup(m, a, v, hh);
    lemma_binary(Op::GreaterThanOrEqual, m.push(v).push(hh), a, v, hh);
    lemma_run3(Op::Push(h), Op::TwoDup, Op::GreaterThanOrEqual, s3, s4, s5, s6);
    let t = seq![Op::Sub];
    let e = seq![Op::Drop];
    assert(flow_free(t));
    assert(flow_free(e));
    lemma_if_else(t, e, m.push(v).push(hh), a, g);
    lemma_binary(Op::Sub, m, a, v, hh);
    lemma_run1(Op::Sub, st(m.push(v).push(hh), a), st(m.push(v - hh), a));
    crate::stack::lemma_drop(m.push(v), a, hh);
    lemma_run1(Op::Drop, st(m.push(v).push(hh), a), st(m.push(v), a));
    let fin = st(m.push(reduce_once(v, hh)), a);
    let block = seq![Op::If] + t + seq![Op::Else] + e + seq![Op::EndIf];
    assert(run(block, s6) == Some(fin));
    let first = seq![Op::Push(h), Op::TwoDup, Op::GreaterThanOrEqual];
    assert(head_reduce_ops(h) =~= first + block);
    lemma_run_seq(first, block, s3, s6, fin);
}

/// The head limb: `{limb} {carry}` becomes `2*limb + carry`, reduced once by
/// `head_offset`.
pub proof fn lemma_doubling_nocarry(m: Seq<int>, a: Seq<int>, l: int, c: int, h: u32)
    requires
        is_num(l),
        is_num(2 * l),
        is_num(c),
        is_num(2 * l + c),
        is_num(h as int),
    ensures
        run(doubling_nocarry_ops(h), st(m.push(l).push(c), a)) == Some(
            st(m.push(reduce_once(2 * l + c, h as int)), a),
        ),
{
    let v = 2 * l + c;
    let s0 = st(m.push(l).push(c), a);
    let s1 = st(m.push(c).push(l), a);
    let s2 = st(m.push(c).push(2 * l), a);
    let s3 = st(m.push(v), a);
    let fin = st(m.push(reduce_once(v, h as int)), a);
    lemma_swap(m, a, l, c);
    lemma_run1(Op::Swap, s0, s1);
    lemma_op_2mul(m.push(c), a, l);
    lemma_binary(Op::Add, m, a, c, 2 * l);
    lemma_run1(Op::Add, s2, s3);
    lemma_head_reduce(m, a, v, h);
    lemma_run_seq(seq![Op::Swap], op_2mul_ops(), s0, s1, s2);
    lemma_run_seq(seq![Op::Swap] + op_2mul_ops(), seq![Op::Add], s0, s2, s3);
    lemma_run_seq(seq![Op::Swap] + op_2mul_ops() + seq![Op::Add], head_reduce_ops(h), s0, s3, fin);
    assert(doubling_nocarry_ops(h) =~= seq![Op::Swap] + op_2mul_ops() + seq![Op::Add]
        + head_reduce_ops(h));
}

/// The carry into limb `k` when doubling limbs `l` (least significant first)
/// in base `b`.
pub open spec fn dbl_carry(l: Seq<int>, b: int, k: nat) -> int
    decreases k,
{
    if k == 0 {
        0
    } else {
        carry_of(2 * l[k - 1] + dbl_carry(l, b, (k - 1) as nat), b)
    }
}

/// The limbs of twice `l`: every limb below the base `b`, the head reduced
/// below `h`.
pub open spec fn doubled(l: Seq<int>, b: int, h: int) -> Seq<int> {
    Seq::new(
        l.len(),
        |i: int|
            reduce_once(
                2 * l[i] + dbl_carry(l, b, i as nat),
                if i < l.len() - 1 {
                    b
                } else {
                    h
                },
            ),
    )
}

/// The limbs from `k` on, on the stack, are those from `k + 1` on under limb `k`.
pub proof fn lemma_on_stack_split(l: Seq<int>, k: int)
    requires
        0 <= k < l.len(),
    ensures
        on_stack(l.subrange(k, l.len() as int)) == on_stack(l.subrange(k + 1, l.len() as int)).push(
            l[k],
        ),
{
    assert(on_stack(l.subrange(k, l.len() as int)) =~= on_stack(
        l.subrange(k + 1, l.len() as int),
    ).push(l[k]));
}

/// Whether `l` are limbs below `b`, the head below `h <= b`, with
/// `2b - 1` a script number.
pub open spec fn dbl_ready(l: Seq<int>, b: int, h: int) -> bool {
    &&& l.len() >= 2
    &&& 0 < h <= b
    &&& 2 * b - 1 <= 0x7fff_ffff
    &&& forall|i: int|
        0 <= i < l.len() ==> 0 <= #[trigger] l[i] < (if i == l.len() - 1 {
            h
        } else {
            b
        })
}

/// Carries are `0` or `1`.
pub proof fn lemma_dbl_carry_bit(l: Seq<int>, b: int, k: nat)
    ensures
        0 <= dbl_carry(l, b, k) <= 1,
    decreases k,
{
    if k > 0 {
        lemma_dbl_carry_bit(l, b, (k - 1) as nat);
    }
}

/// The doubling steps over the middle limbs push their low parts to the alt
/// stack and leave `{base} {carry}` over the limbs still to double.
proof fn lemma_dbl_steps(l: Seq<int>, b: int, h: int, m: Seq<int>, a: Seq<int>, j: nat)
    requires
        dbl_ready(l, b, h),
        j <= l.len() - 2,
    ensures
        run(
            repeat(doubling_step_ops() + seq![Op::ToAltStack], j),
            st(
                (m + on_stack(l.subrange(1, l.len() as int))).push(b).push(dbl_carry(l, b, 1)),
                a.push(doubled(l, b, h)[0]),
            ),
        ) == Some(
            st(
                (m + on_stack(l.subrange(j + 1 as int, l.len() as int))).push(b).push(
                    dbl_carry(l, b, j + 1),
                ),
                a + doubled(l, b, h).subrange(0, j + 1 as int),
            ),
        ),
    decreases j,
{
    let n = l.len();
    let r = doubled(l, b, h);
    if j == 0 {
        assert(a.push(r[0]) =~= a + r.subrange(0, 1));
    } else {
        let k = (j - 1) as nat;
        lemma_dbl_steps(l, b, h, m, a, k);
        lemma_on_stack_split(l, j as int);
        let mm = m + on_stack(l.subrange(j + 1 as int, n as int));
        assert(m + on_stack(l.subrange(j as int, n as int)) =~= mm.push(l[j as int]));
        let c = dbl_carry(l, b, j);
        lemma_dbl_carry_bit(l, b, j);
        let x = l[j as int];
        assert(0 <= x < b);
        lemma_doubling_step(mm, a + r.subrange(0, j as int), x, b, c);
        let v = 2 * x + c;
        assert(dbl_carry(l, b, j + 1) == carry_of(v, b));
        assert(r[j as int] == reduce_once(v, b));
        let f = doubling_step_ops() + seq![Op::ToAltStack];
        let t0 = st(mm.push(x).push(b).push(c), a + r.subrange(0, j as int));
        let t1 = st(mm.push(b).push(carry_of(v, b)).push(r[j as int]), a + r.subrange(0, j as int));
        let t2 = st(mm.push(b).push(carry_of(v, b)), (a + r.subrange(0, j as int)).push(r[j as int]));
        lemma_to_alt(mm.push(b).push(carry_of(v, b)), a + r.subrange(0, j as int), r[j as int]);
        lemma_run1(Op::ToAltStack, t1, t2);
        lemma_run_seq(doubling_step_ops(), seq![Op::ToAltStack], t0, t1, t2);
        assert((a + r.subrange(0, j as int)).push(r[j as int]) =~= a + r.subrange(0, j + 1 as int));
        lemma_run_repeat_succ(f, k, st(
            (m + on_stack(l.subrange(1, n as int))).push(b).push(dbl_carry(l, b, 1)),
            a.push(r[0]),
        ));
    }
}

/// Moving `j` items back from the alt stack reverses them onto the main stack.
pub proof fn lemma_from_alt_all(mm: Seq<int>, a: Seq<int>, q: Seq<int>, j: nat)
    requires
        j <= q.len(),
    ensures
        run(repeat(seq![Op::FromAltStack], j), st(mm, a + q)) == Some(
            st(
                mm + Seq::new(j, |i: int| q[q.len() - 1 - i]),
                a + q.subrange(0, q.len() - j),
            ),
        ),
    decreases j,
{
    if j == 0 {
        assert(mm + Seq::new(0, |i: int| q[q.len() - 1 - i]) =~= mm);
        assert(a + q.subrange(0, q.len() as int) =~= a + q);
    } else {
        let k = (j - 1) as nat;
        lemma_from_alt_all(mm, a, q, k);
        let top = mm + Seq::new(k, |i: int| q[q.len() - 1 - i]);
        let rest = a + q.subrange(0, q.len() - k);
        let x = q[q.len() - j];
        assert(rest =~= (a + q.subrange(0, q.len() - j)).push(x));
        lemma_from_alt(top, a + q.subrange(0, q.len() - j), x);
        assert(top.push(x) =~= mm + Seq::new(j, |i: int| q[q.len() - 1 - i]));
        lemma_run_repeat_succ(seq![Op::FromAltStack], k, st(mm, a + q));
        lemma_run1(Op::FromAltStack, st(top, rest), st(top.push(x), a + q.subrange(0, q.len() - j)));
    }
}

/// The doubling script replaces the limbs `l` on top of the stack by the
/// limbs [`doubled`] of twice their value.
pub proof fn lemma_dbl_runs(l: Seq<int>, b: u32, h: u32, m: Seq<int>, a: Seq<int>)
    requires
        dbl_ready(l, b as int, h as int),
    ensures
        run(dbl_ops(l.len(), b, h), st(m + on_stack(l), a)) == Some(
            st(m + on_stack(doubled(l, b as int, h as int)), a),
        ),
{
    let n = l.len();
    let bi = b as int;
    let hi = h as int;
    let r = doubled(l, bi, hi);
    let s0 = st(m + on_stack(l), a);
    lemma_on_stack_split(l, 0);
    assert(l.subrange(0, n as int) =~= l);
    let m1 = m + on_stack(l.subrange(1, n as int));
    assert(m + on_stack(l) =~= m1.push(l[0]));
    let x0 = l[0];
    assert(0 <= x0 < bi);
    let s1 = st(m1.push(x0).push(bi), a);
    lemma_push(m1.push(x0), a, b);
    lemma_initial_carry(m1, a, x0, bi);
    let c1 = carry_of(2 * x0, bi);
    assert(dbl_carry(l, bi, 0) == 0);
    assert(dbl_carry(l, bi, 1) == c1);
    assert(r[0] == reduce_once(2 * x0, bi));
    let s2 = st(m1.push(bi).push(c1).push(r[0]), a);
    let s3 = st(m1.push(bi).push(c1), a.push(r[0]));
    lemma_to_alt(m1.push(bi).push(c1), a, r[0]);
    let p1 = seq![Op::Push(b)];
    lemma_run1(Op::Push(b), s0, s1);
    lemma_run_seq(p1, initial_carry_ops(), s0, s1, s2);
    lemma_run1(Op::ToAltStack, s2, s3);
    lemma_run_seq(p1 + initial_carry_ops(), seq![Op::ToAltStack], s0, s2, s3);
    let j = (n - 2) as nat;
    lemma_dbl_steps(l, bi, hi, m, a, j);
    let rr = r.subrange(0, n - 1);
    let s4 = st(
        (m + on_stack(l.subrange(n - 1, n as int))).push(bi).push(dbl_carry(l, bi, (n - 1) as nat)),
        a + rr,
    );
    let f = repeat(doubling_step_ops() + seq![Op::ToAltStack], j);
    lemma_run_seq(p1 + initial_carry_ops() + seq![Op::ToAltStack], f, s0, s3, s4);
    let xt = l[n - 1];
    let ct = dbl_carry(l, bi, (n - 1) as nat);
    lemma_dbl_carry_bit(l, bi, (n - 1) as nat);
    assert(m + on_stack(l.subrange(n - 1, n as int)) =~= m.push(xt));
    let s5 = st(m.push(xt).push(ct), a + rr);
    lemma_nip(m.push(xt), a + rr, bi, ct);
    lemma_run1(Op::Nip, s4, s5);
    let pre = p1 + initial_carry_ops() + seq![Op::ToAltStack] + f;
    lemma_run_seq(pre, seq![Op::Nip], s0, s4, s5);
    lemma_doubling_nocarry(m, a + rr, xt, ct, h);
    let rt = reduce_once(2 * xt + ct, hi);
    assert(r[n - 1] == rt);
    let s6 = st(m.push(rt), a + rr);
    lemma_run_seq(pre + seq![Op::Nip], doubling_nocarry_ops(h), s0, s5, s6);
    lemma_from_alt_all(m.push(rt), a, rr, (n - 1) as nat);
    assert(rr.subrange(0, 0) =~= Seq::<int>::empty());
    assert(a + Seq::<int>::empty() =~= a);
    assert(m.push(rt) + Seq::new((n - 1) as nat, |i: int| rr[rr.len() - 1 - i]) =~= m + on_stack(r));
    lemma_run_seq(
        pre + seq![Op::Nip] + doubling_nocarry_ops(h),
        repeat(seq![Op::FromAltStack], (n - 1) as nat),
        s0,
        s6,
        st(m + on_stack(r), a),
    );
    assert(dbl_ops(n, b, h) =~= pre + seq![Op::Nip] + doubling_nocarry_ops(h) + repeat(
        seq![Op::FromAltStack],
        (n - 1) as nat,
    ));
}


/// A new most significant limb adds `x * b^len`.
pub proof fn lemma_lsb_value_push(q: Seq<int>, x: int, b: int)
    ensures
        lsb_value(q.push(x), b) == lsb_value(q, b) + x * pow(b, q.len()),
    decreases q.len(),
{
    reveal(pow);
    if q.len() == 0 {
        assert(q.push(x).subrange(1, 1) =~= Seq::<int>::empty());
        assert(lsb_value(Seq::<int>::empty(), b) == 0);
        assert(pow(b, 0) == 1);
    } else {
        let t = q.subrange(1, q.len() as int);
        assert(q.push(x).subrange(1, q.len() + 1 as int) =~= t.push(x));
        lemma_lsb_value_push(t, x, b);
        assert(pow(b, q.len()) == b * pow(b, t.len()));
        assert(b * (lsb_value(t, b) + x * pow(b, t.len())) == b * lsb_value(t, b) + x * (b * pow(
            b,
            t.len(),
        ))) by (nonlinear_arith);
    }
}

/// The low `k` limbs of the double and the carry out of them make twice the
/// low `k` limbs.
proof fn lemma_doubled_prefix(l: Seq<int>, b: int, h: int, k: nat)
    requires
        k <= l.len() - 1,
        l.len() >= 1,
    ensures
        lsb_value(doubled(l, b, h).subrange(0, k as int), b) + dbl_carry(l, b, k) * pow(b, k) == 2
            * lsb_value(l.subrange(0, k as int), b),
    decreases k,
{
    let r = doubled(l, b, h);
    reveal(pow);
    if k == 0 {
        assert(r.subrange(0, 0) =~= Seq::<int>::empty());
        assert(l.subrange(0, 0) =~= Seq::<int>::empty());
        assert(lsb_value(Seq::<int>::empty(), b) == 0);
    } else {
        let j = (k - 1) as nat;
        lemma_doubled_prefix(l, b, h, j);
        assert(r.subrange(0, k as int) =~= r.subrange(0, j as int).push(r[j as int]));
        assert(l.subrange(0, k as int) =~= l.subrange(0, j as int).push(l[j as int]));
        lemma_lsb_value_push(r.subrange(0, j as int), r[j as int], b);
        lemma_lsb_value_push(l.subrange(0, j as int), l[j as int], b);
        let c = dbl_carry(l, b, j);
        let v = 2 * l[j as int] + c;
        let c2 = dbl_carry(l, b, k);
        assert(c2 == carry_of(v, b));
        assert(r[j as int] == v - c2 * b) by {
            if b <= v {
                assert(c2 == 1);
            } else {
                assert(c2 == 0);
            }
        }
        let pj = pow(b, j);
        assert(pow(b, k) == b * pj);
        assert((v - c2 * b) * pj + c2 * (b * pj) == (2 * l[j as int]) * pj + c * pj)
            by (nonlinear_arith)
            requires
                v == 2 * l[j as int] + c,
        ;
        assert(2 * (lsb_value(l.subrange(0, j as int), b) + l[j as int] * pj) == 2 * lsb_value(
            l.subrange(0, j as int),
            b,
        ) + (2 * l[j as int]) * pj) by (nonlinear_arith);
    }
}

/// Limbs below `b` make a value below `b^k`.
pub proof fn lemma_lsb_value_bound(q: Seq<int>, b: int, k: nat)
    requires
        k <= q.len(),
        b >= 1,
        forall|i: int| 0 <= i < k ==> 0 <= #[trigger] q[i] < b,
    ensures
        0 <= lsb_value(q.subrange(0, k as int), b) < pow(b, k),
    decreases k,
{
    reveal(pow);
    if k == 0 {
        assert(q.subrange(0, 0) =~= Seq::<int>::empty());
        assert(lsb_value(Seq::<int>::empty(), b) == 0);
    } else {
        let j = (k - 1) as nat;
        lemma_lsb_value_bound(q, b, j);
        assert(q.subrange(0, k as int) =~= q.subrange(0, j as int).push(q[j as int]));
        lemma_lsb_value_push(q.subrange(0, j as int), q[j as int], b);
        let pj = pow(b, j);
        let x = q[j as int];
        let v = lsb_value(q.subrange(0, j as int), b);
        assert(0 <= v + x * pj < b * pj) by (nonlinear_arith)
            requires
                0 <= v < pj,
                0 <= x < b,
        ;
    }
}

/// Twice the value, with the head reduced: the double less `g` times the
/// bound `h * b^(n-1)`, for `g` the carry out of the head.
proof fn lemma_doubled_value(l: Seq<int>, b: int, h: int)
    requires
        dbl_ready(l, b, h),
    ensures
        forall|i: int|
            0 <= i < l.len() ==> 0 <= #[trigger] doubled(l, b, h)[i] < (if i == l.len() - 1 {
                h
            } else {
                b
            }),
        lsb_value(doubled(l, b, h), b) == (2 * lsb_value(l, b)) % (h * pow(b, (l.len() - 1) as nat)),
{
    let n = l.len();
    let r = doubled(l, b, h);
    let j = (n - 1) as nat;
    assert forall|i: int| 0 <= i < n implies 0 <= #[trigger] r[i] < (if i == n - 1 {
        h
    } else {
        b
    }) by {
        lemma_dbl_carry_bit(l, b, i as nat);
    }
    lemma_doubled_prefix(l, b, h, j);
    assert(r.subrange(0, n as int) =~= r);
    assert(l.subrange(0, n as int) =~= l);
    assert(r =~= r.subrange(0, j as int).push(r[j as int]));
    assert(l =~= l.subrange(0, j as int).push(l[j as int]));
    lemma_lsb_value_push(r.subrange(0, j as int), r[j as int], b);
    lemma_lsb_value_push(l.subrange(0, j as int), l[j as int], b);
    let c = dbl_carry(l, b, j);
    lemma_dbl_carry_bit(l, b, j);
    let v = 2 * l[j as int] + c;
    let g = carry_of(v, h);
    assert(r[j as int] == v - g * h) by {
        if h <= v {
            assert(g == 1);
        } else {
            assert(g == 0);
        }
    }
    let pj = pow(b, j);
    let mm = h * pj;
    let lowr = lsb_value(r.subrange(0, j as int), b);
    let lowl = lsb_value(l.subrange(0, j as int), b);
    assert(lsb_value(r, b) == lowr + (v - g * h) * pj);
    assert(lsb_value(l, b) == lowl + l[j as int] * pj);
    assert(lsb_value(r, b) == 2 * lsb_value(l, b) - g * mm) by (nonlinear_arith)
        requires
            lsb_value(r, b) == lowr + (v - g * h) * pj,
            lsb_value(l, b) == lowl + l[j as int] * pj,
            lowr + c * pj == 2 * lowl,
            v == 2 * l[j as int] + c,
            mm == h * pj,
    ;
    lemma_lsb_value_bound(r, b, j);
    assert(pj >= 1) by {
        lemma_pow_positive(b, j);
    }
    let rt = r[j as int];
    assert(0 <= lowr + rt * pj < mm) by (nonlinear_arith)
        requires
            0 <= lowr < pj,
            0 <= rt < h,
            mm == h * pj,
    ;
    assert(0 <= g <= 1);
    lemma_fundamental_div_mod_converse(2 * lsb_value(l, b), mm, g, lsb_value(r, b));
}

/// Doubling a big integer: the script replaces its limbs on top of the stack
/// by valid limbs of twice its value modulo `2^n_bits`.
pub proof fn lemma_dbl_computes(bi: BigIntImpl, l: Seq<int>, m: Seq<int>, a: Seq<int>)
    requires
        bi.shape_ok(),
        bi.limbs() >= 2,
        bi.limb_size <= 30,
        bi.limbs_ok(l),
    ensures
        run(
            dbl_ops(bi.limbs(), bi.base() as u32, bi.head_bound() as u32),
            st(m + on_stack(l), a),
        ) == Some(st(m + on_stack(doubled(l, bi.base() as int, bi.head_bound() as int)), a)),
        bi.limbs_ok(doubled(l, bi.base() as int, bi.head_bound() as int)),
        bi.value(doubled(l, bi.base() as int, bi.head_bound() as int)) == (2 * bi.value(l)) % (
        pow2(bi.n_bits as nat) as int),
{
    let b = bi.base() as int;
    let h = bi.head_bound() as int;
    bi.lemma_bounds();
    vstd::bits::lemma_u32_pow2_no_overflow(bi.limb_size as nat);
    assert(dbl_ready(l, b, h));
    lemma_dbl_runs(l, b as u32, h as u32, m, a);
    lemma_doubled_value(l, b, h);
}

} // verus!
