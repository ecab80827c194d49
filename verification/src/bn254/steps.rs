//! What one iteration of the field multiplier's main loop does to the
//! accumulator.
use crate::bigint::on_stack;
use crate::bn254::adding::{added, lemma_ref_add_computes, lemma_stack_ref_add_computes};
use crate::bigint::decomp::{decomp_call_ok, decomp_limb, lemma_var_window_computes, lemma_windows_rebuild};
use crate::bigint::lsb_value;
use crate::bn254::fp254_op_tmul::{var_window_ops, Fq};
use crate::windows::window;
use crate::bn254::tables::{lemma_on_stack_involution, table_entry, table_holds};
use crate::script::{bool_num, lemma_run_append, run, st, Op};
use crate::stack::{
    lemma_binary, lemma_drop, lemma_dup, lemma_if_else_nested, lemma_not, lemma_push, lemma_run1, lemma_run2,
    lemma_run3, lemma_run_seq, lemma_swap,
};
use vstd::arithmetic::power2::*;
use vstd::prelude::*;

verus! {

/// The window of the modulus that iteration `i` of [`Fq::OP_TMUL`]'s main
/// loop subtracts `q` times: `0` where `i` ends no window.
pub open spec fn sub_window(f: Fq, i: nat) -> nat {
    if i % (f.mod_width as nat) == 0 {
        f.mod_window((i / (f.mod_width as nat) - 1) as nat)
    } else {
        0
    }
}

/// The accumulator's limbs after the subtraction part of iteration `i`,
/// whose table of multiples of `-q` lies on `mm`, at `mm_len`.
pub open spec fn sub_step_limbs(f: Fq, i: nat, main: Seq<int>, mm_len: nat, lz: Seq<int>) -> Seq<int> {
    let w = f.tw().shape();
    if sub_window(f, i) != 0 {
        added(lz, table_entry(main, mm_len, w.limbs(), sub_window(f, i)), w.base() as int, w.head_bound() as int)
    } else {
        lz
    }
}

/// The subtraction part of iteration `i` of [`Fq::OP_TMUL`]'s main loop:
/// on `{-q table} {x table} {y} {z}`, where the first table holds the
/// multiples of `zq` (`-q` modulo `2^ext`), it adds to `z` the entry for
/// the window of the modulus that `i` ends, and leaves the rest as it was.
#[verifier::spinoff_prover]
pub proof fn lemma_fq_sub_step_computes(
    f: Fq,
    i: nat,
    mm: Seq<int>,
    tq: Seq<int>,
    zq: int,
    tx: Seq<int>,
    y: Seq<int>,
    lz: Seq<int>,
    a: Seq<int>,
)
    requires
        f.tmul_ok(),
        f.limb_size <= 30,
        table_holds(f.table().w(), mm + tq, mm, zq, pow2(f.mod_width as nat)),
        tx.len() == (pow2(f.var_width as nat) - 1) * f.tw().limbs(),
        y.len() == f.tw().limbs(),
        f.tw().shape().limbs_ok(lz),
        (pow2(f.var_width as nat) + pow2(f.mod_width as nat)) * f.tw().limbs() + 3 <= 0x7fff_ffff,
    ensures
        ({
            let w = f.tw().shape();
            let r = sub_step_limbs(f, i, mm + tq, mm.len(), lz);
            let big = pow2(w.n_bits as nat) as int;
            &&& run(f.mod_step_ops(i), st(mm + tq + tx + y + on_stack(lz), a)) == Some(
                st(mm + tq + tx + y + on_stack(r), a),
            )
            &&& w.limbs_ok(r)
            &&& w.value(r) == (w.value(lz) + (sub_window(f, i) * zq) % big) % big
        }),
{
    let w = f.tw().shape();
    let n = w.limbs();
    let mw = f.mod_width as nat;
    let vw = f.var_width as nat;
    let big = pow2(w.n_bits as nat) as int;
    let k = sub_window(f, i);
    let kq = pow2(mw);
    let kx = pow2(vw);
    lemma_pow2_pos(mw);
    lemma_pow2_pos(vw);
    lemma_pow2_pos(w.n_bits as nat);
    assert(f.table().w() == f.tw());
    crate::bn254::tables::lemma_value_below(w, lz);
    if k == 0 {
        assert(f.mod_step_ops(i) =~= Seq::<Op>::empty());
        assert(w.value(lz) % big == w.value(lz)) by {
            vstd::arithmetic::div_mod::lemma_small_mod(w.value(lz) as nat, big as nat);
        }
        assert(0 * zq == 0);
        vstd::arithmetic::div_mod::lemma_small_mod(0, big as nat);
    } else {
        assert(i % mw == 0);
        assert(k < kq);
        crate::windows::lemma_pow2_le(mw, 6);
        crate::windows::lemma_pow2_le(vw, 6);
        lemma2_to64();
        let bd = (kx + kq - k) as nat;
        assert(bd as u32 == bd);
        assert(bd >= 2);
        assert(f.mod_step_ops(i) == f.tw().ref_add_ops(bd as u32));
        let e = table_entry(mm + tq, mm.len(), n, k);
        assert(w.limbs_ok(e) && w.value(e) == (k * zq) % big);
        let lo = ((k - 1) * n) as int;
        let hi = (k * n) as int;
        assert(0 <= lo <= hi <= tq.len()) by (nonlinear_arith)
            requires
                1 <= k < kq,
                lo == (k - 1) * n,
                hi == k * n,
                (mm + tq).len() == mm.len() + (kq - 1) * n,
                (mm + tq).len() == mm.len() + tq.len(),
        ;
        assert((mm + tq).subrange(mm.len() + (k - 1) * n, (mm.len() + k * n) as int) =~= tq.subrange(
            lo,
            hi,
        ));
        lemma_on_stack_involution(tq.subrange(lo, hi));
        let m = mm + tq.subrange(0, lo);
        let mid = tq.subrange(hi, tq.len() as int) + tx + y;
        assert(m + on_stack(e) + mid =~= mm + tq + tx + y);
        assert(mid.len() == (bd - 1) * n) by (nonlinear_arith)
            requires
                mid.len() == tq.len() - hi + tx.len() + y.len(),
                tq.len() == (kq - 1) * n,
                hi == k * n,
                tx.len() == (kx - 1) * n,
                y.len() == n,
                bd == kx + kq - k,
        ;
        assert(bd * n + 3 <= 0x7fff_ffff) by (nonlinear_arith)
            requires
                (kx + kq) * n + 3 <= 0x7fff_ffff,
                bd <= kx + kq,
        ;
        lemma_ref_add_computes(f.tw(), bd as u32, m, e, mid, lz, a);
    }
}


/// What follows the read of a window `wv` of `y` in iteration `i` of
/// [`Fq::OP_TMUL`]'s main loop: nothing for a zero window, else the entry
/// `wv` of the table of multiples of `x`, `1 + 2^var_width - wv` deep, is
/// added to the accumulator.
pub open spec fn add_window_ops(f: Fq) -> Seq<Op> {
    seq![
        Op::Dup,
        Op::Not,
        Op::If,
        Op::Drop,
        Op::Else,
        Op::Push((1 + pow2(f.var_width as nat)) as u32),
        Op::Swap,
        Op::Sub,
    ] + f.tw().stack_ref_add_ops() + seq![Op::EndIf]
}

/// The accumulator's limbs after the window `wv` of `y` is added `x` times,
/// the table of multiples of `x` lying on `main`'s first `base_len` items.
pub open spec fn add_step_limbs(f: Fq, wv: nat, main: Seq<int>, base_len: nat, lz: Seq<int>) -> Seq<int> {
    let w = f.tw().shape();
    if wv != 0 {
        added(lz, table_entry(main, base_len, w.limbs(), wv), w.base() as int, w.head_bound() as int)
    } else {
        lz
    }
}

/// `{wv}` becomes `{c - wv}`: the depth of entry `wv` of a table whose
/// deepest entry lies `c - 1` deep.
pub(crate) proof fn lemma_depth_of_entry(m: Seq<int>, a: Seq<int>, c: u32, wv: int)
    requires
        0 <= wv <= c <= 0x7fff_ffff,
    ensures
        run(seq![Op::Push(c), Op::Swap, Op::Sub], st(m.push(wv), a)) == Some(st(m.push(c - wv), a)),
{
    lemma_push(m.push(wv), a, c);
    lemma_swap(m, a, wv, c as int);
    lemma_binary(Op::Sub, m, a, c as int, wv);
    lemma_run3(
        Op::Push(c),
        Op::Swap,
        Op::Sub,
        st(m.push(wv), a),
        st(m.push(wv).push(c as int), a),
        st(m.push(c as int).push(wv), a),
        st(m.push(c - wv), a),
    );
}

/// The arm of [`add_window_ops`] taken for a window `wv` that is not zero.
#[verifier::spinoff_prover]
proof fn lemma_add_arm(
    f: Fq,
    wv: nat,
    mm: Seq<int>,
    tx: Seq<int>,
    zx: int,
    y: Seq<int>,
    lz: Seq<int>,
    a: Seq<int>,
)
    requires
        f.tmul_ok(),
        f.limb_size <= 30,
        1 <= wv < pow2(f.var_width as nat),
        table_holds(f.table().w(), mm + tx, mm, zx, pow2(f.var_width as nat)),
        y.len() == f.tw().limbs(),
        f.tw().shape().limbs_ok(lz),
        (pow2(f.var_width as nat) + 1) * f.tw().limbs() + 3 <= 0x7fff_ffff,
    ensures
        ({
            let w = f.tw().shape();
            let r = add_step_limbs(f, wv, mm + tx, mm.len(), lz);
            let big = pow2(w.n_bits as nat) as int;
            &&& run(
                seq![Op::Push((1 + pow2(f.var_width as nat)) as u32), Op::Swap, Op::Sub]
                    + f.tw().stack_ref_add_ops(),
                st((mm + tx + y + on_stack(lz)).push(wv as int), a),
            ) == Some(st(mm + tx + y + on_stack(r), a))
            &&& w.limbs_ok(r)
            &&& w.value(r) == (w.value(lz) + (wv * zx) % big) % big
        }),
{
    let w = f.tw().shape();
    let n = w.limbs();
    let vw = f.var_width as nat;
    let kx = pow2(vw);
    lemma_pow2_pos(vw);
    crate::windows::lemma_pow2_le(vw, 6);
    lemma2_to64();
    assert(f.table().w() == f.tw());
    let big_m = mm + tx + y + on_stack(lz);
    let c = (1 + kx) as int;
    let d = c - wv;
    assert((1 + kx) as u32 == c);
    // `{wv}` becomes `{1 + 2^vw - wv}`.
    lemma_depth_of_entry(big_m, a, c as u32, wv as int);
    // The entry `wv`, `d` big integers deep.
    let e = table_entry(mm + tx, mm.len(), n, wv);
    assert(w.limbs_ok(e));
    let lo = ((wv - 1) * n) as int;
    let hi = (wv * n) as int;
    assert(0 <= lo <= hi <= tx.len()) by (nonlinear_arith)
        requires
            1 <= wv < kx,
            lo == (wv - 1) * n,
            hi == wv * n,
            (mm + tx).len() == mm.len() + (kx - 1) * n,
            (mm + tx).len() == mm.len() + tx.len(),
    ;
    assert((mm + tx).subrange(mm.len() + (wv - 1) * n, (mm.len() + wv * n) as int) =~= tx.subrange(
        lo,
        hi,
    ));
    lemma_on_stack_involution(tx.subrange(lo, hi));
    let m = mm + tx.subrange(0, lo);
    let mid = tx.subrange(hi, tx.len() as int) + y;
    assert(m + on_stack(e) + mid =~= mm + tx + y);
    assert(mid.len() == (d - 1) * n) by (nonlinear_arith)
        requires
            mid.len() == tx.len() - hi + y.len(),
            (mm + tx).len() == mm.len() + (kx - 1) * n,
            (mm + tx).len() == mm.len() + tx.len(),
            hi == wv * n,
            y.len() == n,
            d == 1 + kx - wv,
    ;
    assert(d * n + 3 <= 0x7fff_ffff) by (nonlinear_arith)
        requires
            (kx + 1) * n + 3 <= 0x7fff_ffff,
            1 <= d <= kx + 1,
    ;
    assert(big_m.push(d) == (m + on_stack(e) + mid + on_stack(lz)).push(d));
    lemma_stack_ref_add_computes(f.tw(), m, e, mid, lz, a, d);
    lemma_run_seq(
        seq![Op::Push(c as u32), Op::Swap, Op::Sub],
        f.tw().stack_ref_add_ops(),
        st(big_m.push(wv as int), a),
        st(big_m.push(d), a),
        st(mm + tx + y + on_stack(add_step_limbs(f, wv, mm + tx, mm.len(), lz)), a),
    );
}

/// The addition part of iteration `i` of [`Fq::OP_TMUL`]'s main loop, once
/// the window `wv` of `y` is on top: on `{x table} {y} {z} {wv}`, where the
/// table holds the multiples of `zx` (`x` modulo `2^ext`), it adds to `z`
/// the entry for `wv`, nothing for a zero window, and leaves the rest as it
/// was.
#[verifier::spinoff_prover]
pub proof fn lemma_fq_add_window_computes(
    f: Fq,
    wv: nat,
    mm: Seq<int>,
    tx: Seq<int>,
    zx: int,
    y: Seq<int>,
    lz: Seq<int>,
    a: Seq<int>,
)
    requires
        f.tmul_ok(),
        f.limb_size <= 30,
        wv < pow2(f.var_width as nat),
        table_holds(f.table().w(), mm + tx, mm, zx, pow2(f.var_width as nat)),
        y.len() == f.tw().limbs(),
        f.tw().shape().limbs_ok(lz),
        (pow2(f.var_width as nat) + 1) * f.tw().limbs() + 3 <= 0x7fff_ffff,
    ensures
        ({
            let w = f.tw().shape();
            let r = add_step_limbs(f, wv, mm + tx, mm.len(), lz);
            let big = pow2(w.n_bits as nat) as int;
            &&& run(add_window_ops(f), st((mm + tx + y + on_stack(lz)).push(wv as int), a)) == Some(
                st(mm + tx + y + on_stack(r), a),
            )
            &&& w.limbs_ok(r)
            &&& w.value(r) == (w.value(lz) + (wv * zx) % big) % big
        }),
{
    let w = f.tw().shape();
    let vw = f.var_width as nat;
    let big = pow2(w.n_bits as nat) as int;
    lemma_pow2_pos(vw);
    lemma_pow2_pos(w.n_bits as nat);
    crate::windows::lemma_pow2_le(vw, 6);
    lemma2_to64();
    let big_m = mm + tx + y + on_stack(lz);
    let x = bool_num(wv == 0);
    lemma_dup(big_m, a, wv as int);
    lemma_not(big_m.push(wv as int), a, wv as int);
    lemma_run2(
        Op::Dup,
        Op::Not,
        st(big_m.push(wv as int), a),
        st(big_m.push(wv as int).push(wv as int), a),
        st(big_m.push(wv as int).push(x), a),
    );
    let t = seq![Op::Drop];
    let e = seq![Op::Push((1 + pow2(vw)) as u32), Op::Swap, Op::Sub] + f.tw().stack_ref_add_ops();
    lemma_drop(big_m, a, wv as int);
    lemma_run1(Op::Drop, st(big_m.push(wv as int), a), st(big_m, a));
    // The arm for a window that is not zero runs: from the actual stack, or
    // from that with window `1`.
    let wo: nat = if wv == 0 { 1 } else { wv };
    lemma_add_arm(f, wo, mm, tx, zx, y, lz, a);
    lemma_if_else_nested(t, e, big_m.push(wv as int), a, x, big_m.push(wo as int), a);
    let ops = add_window_ops(f);
    let head = seq![Op::Dup, Op::Not];
    assert(ops =~= head + (seq![Op::If] + t + seq![Op::Else] + e + seq![Op::EndIf]));
    lemma_run_append(head, seq![Op::If] + t + seq![Op::Else] + e + seq![Op::EndIf], st(big_m.push(wv as int), a));
    if wv == 0 {
        crate::bn254::tables::lemma_value_below(w, lz);
        assert(0 * zx == 0);
        vstd::arithmetic::div_mod::lemma_small_mod(0, big as nat);
        vstd::arithmetic::div_mod::lemma_small_mod(w.value(lz) as nat, big as nat);
    }
}


/// The addition part of iteration `i` of [`Fq::OP_TMUL`]'s main loop, where
/// `i` ends window `i / var_width - 1` of `y` (from the most significant):
/// on `{x table} {y} {z}`, with the table of multiples of `zx`, it reads
/// that window `wv` of `y`, adds to `z` the entry for `wv` (nothing for a
/// zero window), and leaves on the alt stack what the read of the window
/// below needs.
#[verifier::spinoff_prover]
pub proof fn lemma_fq_add_step_computes(
    f: Fq,
    i: nat,
    mm: Seq<int>,
    tx: Seq<int>,
    zx: int,
    ly: Seq<int>,
    lz: Seq<int>,
    a: Seq<int>,
    acc: int,
)
    requires
        f.tmul_ok(),
        f.limb_size <= 30,
        f.limb_size >= f.var_width,
        i % (f.var_width as nat) == 0,
        decomp_call_ok(
            f.var_generator().n_window,
            f.limb_size,
            f.var_width,
            f.var_windows() + 1 - i / (f.var_width as nat),
            ly,
            acc,
        ),
        table_holds(f.table().w(), mm + tx, mm, zx, pow2(f.var_width as nat)),
        f.tw().shape().limbs_ok(ly),
        f.tw().shape().limbs_ok(lz),
        (pow2(f.var_width as nat) + 1) * f.tw().limbs() + 3 <= 0x7fff_ffff,
    ensures
        ({
            let w = f.tw().shape();
            let vw = f.var_width as nat;
            let iter = f.var_windows() + 1 - i / vw;
            let wv = window(w.value(ly) as nat, vw, f.ext(), (i / vw - 1) as nat);
            let kept = decomp_limb(ly, f.limb_size as nat, iter * vw - 1, vw as int);
            let r = add_step_limbs(f, wv, mm + tx, mm.len(), lz);
            let big = pow2(w.n_bits as nat) as int;
            &&& run(
                f.var_step_ops(i),
                st(
                    mm + tx + on_stack(ly) + on_stack(lz),
                    if iter == f.var_windows() {
                        a
                    } else {
                        a.push(acc)
                    },
                ),
            ) == Some(
                st(
                    mm + tx + on_stack(ly) + on_stack(r),
                    if iter == 1 {
                        a
                    } else {
                        a.push(kept)
                    },
                ),
            )
            &&& w.limbs_ok(r)
            &&& w.value(r) == (w.value(lz) + (wv * zx) % big) % big
            &&& (iter >= 2 ==> decomp_call_ok(
                f.var_generator().n_window,
                f.limb_size,
                f.var_width,
                iter - 1,
                ly,
                kept,
            ))
        }),
{
    let w = f.tw().shape();
    let n = w.limbs();
    let vw = f.var_width as nat;
    let g = f.var_generator();
    let iter = f.var_windows() + 1 - i / vw;
    let ls = f.limb_size as nat;
    f.lemma_ext();
    w.lemma_head_bits();
    lemma_pow2_pos(vw);
    let rest = on_stack(lz);
    assert(rest.len() == g.n_limbs);
    assert(rest.len() + ly.len() + 1 <= 0x7fff_ffff) by (nonlinear_arith)
        requires
            (pow2(vw) + 1) * n + 3 <= 0x7fff_ffff,
            pow2(vw) >= 1,
            rest.len() == n,
            ly.len() == n,
    ;
    lemma_var_window_computes(g, iter, mm + tx, ly, rest, a, acc);
    // The window read is window `i / vw - 1` of `y` from the top.
    let v = w.value(ly);
    crate::bn254::tables::lemma_value_below(w, ly);
    let nw = f.var_windows();
    assert(nw * vw == f.ext()) by {
        vstd::arithmetic::div_mod::lemma_fundamental_div_mod(f.ext() as int, vw as int);
    }
    lemma_windows_rebuild(v as nat, vw, nw);
    assert(1 <= iter <= nw);
    let idx = iter as nat;
    assert((nw - idx) as nat == (i / vw - 1) as nat);
    assert(w.base() == pow2(ls));
    let wv = window(v as nat, vw, f.ext(), (i / vw - 1) as nat);
    assert((lsb_value(ly, pow2(ls) as int) / (pow2(((iter - 1) * vw) as nat) as int)) % (pow2(vw) as int)
        == wv);
    assert(wv < pow2(vw));
    let mid_alt = if iter == 1 {
        a
    } else {
        a.push(decomp_limb(ly, ls, iter * vw - 1, vw as int))
    };
    lemma_fq_add_window_computes(f, wv, mm, tx, zx, on_stack(ly), lz, mid_alt);
    assert(f.var_step_ops(i) =~= var_window_ops(g, iter) + add_window_ops(f));
    lemma_run_append(var_window_ops(g, iter), add_window_ops(f), st(
        mm + tx + on_stack(ly) + rest,
        if iter == g.n_window {
            a
        } else {
            a.push(acc)
        },
    ));
}


} // verus!
