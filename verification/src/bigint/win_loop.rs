//! The main loop of the windowed multiplier, window by window, and what
//! the whole multiplier computes.
use crate::bigint::doubling::{doubled, lemma_dbl_computes};
use crate::bigint::decomp::{decomp_call_ok, decomp_limb};
use crate::bigint::op_tmul::{
    bit_decomp_ops, modulus_window, stack_copy_ops, tmul_dbl_ops, tmul_iter_ops, WinBigIntImpl,
};
use crate::bigint::{lsb_value, on_stack, BigIntImpl};
use crate::bn254::tables::{lemma_copy_routine, lemma_on_stack_involution, multiples_hold, table_entry};
use crate::routines::{
    block, number_items, routine_effect, valid_at, value_at, without_block, without_two,
};
use crate::bn254::bn254_modulus;
use crate::script::{repeat, run, st, step, Op, Routine};
use crate::stack::{lemma_run1, lemma_run_repeat_succ, lemma_run_seq};
use vstd::arithmetic::power2::*;
use vstd::prelude::*;

verus! {

/// The limbs of `l` doubled `k` times.
pub open spec fn doubled_times(s: BigIntImpl, l: Seq<int>, k: nat) -> Seq<int>
    decreases k,
{
    if k == 0 {
        l
    } else {
        doubled(doubled_times(s, l, (k - 1) as nat), s.base() as int, s.head_bound() as int)
    }
}

/// `k` doublings of the accumulator multiply it by `2^k` modulo
/// `2^n_bits`.
pub proof fn lemma_dbl_times(w: WinBigIntImpl, l: Seq<int>, m: Seq<int>, a: Seq<int>, k: nat)
    requires
        w.table().u().shape_ok(),
        w.table().u().limbs() >= 2,
        w.limb_size <= 30,
        w.table().u().limbs_ok(l),
    ensures
        ({
            let s = w.table().u();
            let r = doubled_times(s, l, k);
            &&& run(repeat(tmul_dbl_ops(w), k), st(m + on_stack(l), a)) == Some(st(m + on_stack(r), a))
            &&& s.limbs_ok(r)
            &&& s.value(r) == (pow2(k) * s.value(l)) % (pow2(s.n_bits as nat) as int)
        }),
    decreases k,
{
    let s = w.table().u();
    let big = pow2(s.n_bits as nat) as int;
    lemma_pow2_pos(s.n_bits as nat);
    if k == 0 {
        assert(repeat(tmul_dbl_ops(w), 0) =~= Seq::<Op>::empty());
        crate::bn254::tables::lemma_value_below(s, l);
        vstd::arithmetic::div_mod::lemma_small_mod(s.value(l) as nat, big as nat);
        assert(pow2(0) == 1) by {
            lemma2_to64();
        }
    } else {
        let j = (k - 1) as nat;
        lemma_dbl_times(w, l, m, a, j);
        let r1 = doubled_times(s, l, j);
        lemma_dbl_computes(s, r1, m, a);
        lemma_run_repeat_succ(tmul_dbl_ops(w), j, st(m + on_stack(l), a));
        let v = s.value(l);
        let v1 = s.value(r1);
        assert(v1 == (pow2(j) * v) % big);
        vstd::arithmetic::div_mod::lemma_mul_mod_noop_right(2, pow2(j) * v, big);
        assert(pow2(k) == 2 * pow2(j)) by {
            lemma_pow2_unfold(k);
        }
        assert(2 * (pow2(j) * v) == pow2(k) * v) by (nonlinear_arith)
            requires
                pow2(k) == 2 * pow2(j),
        ;
    }
}

/// The library's copy of the entry for the multiple `k` of a table of
/// `top` multiples of `z` laid on `m`, with `r` big integers above the
/// table: its limbs are pushed.
pub proof fn lemma_copy_entry(
    s: BigIntImpl,
    main: Seq<int>,
    m: Seq<int>,
    z: int,
    top: nat,
    k: nat,
    rest: Seq<int>,
    r: nat,
    a: Seq<int>,
)
    requires
        s.shape_ok(),
        multiples_hold(s, main, m, z, top),
        k < top,
        rest.len() == r * s.limbs(),
        top + r <= 0x1_0000_0000,
    ensures
        ({
            let e = table_entry(main, m.len(), s.limbs(), k + 1);
            &&& step(
                Op::Routine(
                    Routine::Copy {
                        n_bits: s.n_bits,
                        limb_size: s.limb_size,
                        depth: (top - 1 - k + r) as u32,
                    },
                ),
                st(main + rest, a),
            ) == Some(st(main + rest + on_stack(e), a))
            &&& s.limbs_ok(e)
            &&& s.value(e) == (k * z) % (pow2(s.n_bits as nat) as int)
        }),
{
    let n = s.limbs();
    let d = (top - 1 - k + r) as nat;
    let full = main + rest;
    let lo = (m.len() + k * n) as int;
    let hi = (m.len() + (k + 1) * n) as int;
    assert((d + 1) * n <= full.len() && full.len() - (d + 1) * n == lo && full.len() - d * n == hi
        && 0 <= lo <= hi <= main.len())
        by (nonlinear_arith)
        requires
            full.len() == main.len() + rest.len(),
            main.len() == m.len() + top * n,
            rest.len() == r * n,
            d == top - 1 - k + r,
            k < top,
            lo == m.len() + k * n,
            hi == m.len() + (k + 1) * n,
    ;
    assert(d < 0x1_0000_0000);
    lemma_copy_routine(s, full, a, d as u32);
    let e = table_entry(main, m.len(), n, k + 1);
    assert(((k + 1) - 1) * n == k * n && (k + 1) * n == k * n + n) by (nonlinear_arith);
    assert(block(full, n, d) =~= main.subrange(lo, hi)) by {
        assert forall|i: int| 0 <= i < hi - lo implies block(full, n, d)[i] == main.subrange(lo, hi)[i] by {
            assert(full[lo + i] == main[lo + i]);
        }
    }
    lemma_on_stack_involution(main.subrange(lo, hi));
    assert(((k + 1 - 1) * z) == k * z);
}

/// The library's subtraction of the big integer under the top one from the
/// top one: both go and their difference modulo `2^n_bits` is pushed.
#[verifier::spinoff_prover]
pub proof fn lemma_sub_top_routine(s: BigIntImpl, main: Seq<int>, a: Seq<int>, lx: Seq<int>, ly: Seq<int>)
    requires
        s.shape_ok(),
        s.limbs_ok(lx),
        s.limbs_ok(ly),
    ensures
        step(
            Op::Routine(Routine::Sub { n_bits: s.n_bits, limb_size: s.limb_size, a: 0, b: 1 }),
            st(main + on_stack(lx) + on_stack(ly), a),
        ) == Some(
            st(
                main + number_items(s, ((s.value(ly) - s.value(lx)) % (pow2(s.n_bits as nat) as int)) as nat),
                a,
            ),
        ),
{
    let n = s.limbs();
    let mm = main + on_stack(lx) + on_stack(ly);
    assert((0 + 1) * n == n && 0 * n == 0 && (1 + 1) * n == 2 * n && 1 * n == n) by (nonlinear_arith);
    lemma_on_stack_involution(lx);
    lemma_on_stack_involution(ly);
    assert(block(mm, n, 0) =~= on_stack(ly));
    assert(block(mm, n, 1) =~= on_stack(lx));
    assert(without_block(mm, n, 1) =~= main + on_stack(ly));
    assert(without_block(without_block(mm, n, 1), n, 0) =~= main);
    assert(valid_at(s, mm, 0) && value_at(s, mm, 0) == s.value(ly));
    assert(valid_at(s, mm, 1) && value_at(s, mm, 1) == s.value(lx));
    assert(without_two(mm, n, 0, 1) == main);
    reveal(routine_effect);
}


/// Whether the last iteration's accumulator lies on the stack before
/// iteration `i`.
pub open spec fn carry_in(i: nat) -> nat {
    if i == 0 {
        0
    } else {
        1
    }
}

/// The part of iteration `i` of [`WinBigIntImpl::OP_TMUL`] that fetches
/// `q * p[i]` from its table, reads the window `y[i]`, and fetches
/// `x * y[i]` from its table.
pub open spec fn win_front_ops(w: WinBigIntImpl, i: nat) -> Seq<Op> {
    let pu = w.table().u();
    let lo = carry_in(i);
    let top = pow2(w.window as nat);
    pu.copy_ops((2 * top - modulus_window(w.window as nat, w.windows(), i) + lo) as u32)
        + bit_decomp_ops(w.generator(), w.windows() - i, (1 + lo) as int) + seq![
        Op::Push((top + 1 + lo) as u32),
        Op::Swap,
        Op::Sub,
    ] + stack_copy_ops(pu.limbs() as u32)
}

/// The front of iteration `i`: on `{q table} {x table} {y}` and the items
/// `zz` of the accumulator (none before the first iteration), it pushes the
/// entries for `q * p[i]` and `x * y[i]`, where `y[i]` is the window the
/// reader takes from `y`, and leaves on the alt stack what the read of the
/// window below needs.
#[verifier::spinoff_prover]
#[verifier::rlimit(100)]
pub proof fn lemma_win_front(
    w: WinBigIntImpl,
    i: nat,
    mm: Seq<int>,
    tq: Seq<int>,
    zq: int,
    tx: Seq<int>,
    zx: int,
    ly: Seq<int>,
    zz: Seq<int>,
    a: Seq<int>,
    acc: int,
)
    requires
        w.tmul_ok(),
        w.limb_size <= 30,
        w.operand().limbs() == 9,
        w.table().u().limbs() == 9,
        i < w.windows(),
        zz.len() == 9 * carry_in(i),
        multiples_hold(w.table().u(), mm + tq, mm, zq, pow2(w.window as nat)),
        multiples_hold(w.table().u(), mm + tq + tx, mm + tq, zx, pow2(w.window as nat)),
        w.operand().limbs_ok(ly),
        decomp_call_ok(w.windows() as u32, w.limb_size, w.window, w.windows() - i, ly, acc),
    ensures
        ({
            let pu = w.table().u();
            let big = pow2(pu.n_bits as nat) as int;
            let ww = w.window as nat;
            let idx = w.windows() - i;
            let pw = modulus_window(ww, w.windows(), i);
            let wv = ((lsb_value(ly, pow2(w.limb_size as nat) as int) / (pow2(((idx - 1) * ww) as nat) as int))
                % (pow2(ww) as int)) as nat;
            let eq = table_entry(mm + tq, mm.len(), 9, pw + 1);
            let ex = table_entry(mm + tq + tx, (mm + tq).len(), 9, wv + 1);
            let kept = decomp_limb(ly, w.limb_size as nat, idx * ww - 1, ww as int);
            &&& run(
                win_front_ops(w, i),
                st(
                    mm + tq + tx + on_stack(ly) + zz,
                    if idx == w.windows() {
                        a
                    } else {
                        a.push(acc)
                    },
                ),
            ) == Some(
                st(
                    mm + tq + tx + on_stack(ly) + zz + on_stack(eq) + on_stack(ex),
                    if idx == 1 {
                        a
                    } else {
                        a.push(kept)
                    },
                ),
            )
            &&& pu.limbs_ok(eq)
            &&& pu.value(eq) == (pw * zq) % big
            &&& pu.limbs_ok(ex)
            &&& pu.value(ex) == (wv * zx) % big
            &&& (idx >= 2 ==> decomp_call_ok(w.windows() as u32, w.limb_size, w.window, idx - 1, ly, kept))
        }),
{
    let pu = w.table().u();
    let ww = w.window as nat;
    let n: nat = 9;
    let top = pow2(ww);
    let lo = carry_in(i);
    let nw = w.windows();
    let idx = nw - i;
    let g = w.generator();
    lemma_pow2_pos(ww);
    crate::windows::lemma_pow2_le(ww, 6);
    lemma2_to64();
    let pw = modulus_window(ww, nw, i);
    assert(pw < top);
    let b = mm + tq + tx + on_stack(ly);
    let alt_in = if idx == nw {
        a
    } else {
        a.push(acc)
    };
    // The entry for `q * p[i]`.
    assert(tx.len() == top * n);
    let rest = tx + on_stack(ly) + zz;
    let r = top + 1 + lo;
    assert(rest.len() == r * n) by (nonlinear_arith)
        requires
            rest.len() == tx.len() + 9 + zz.len(),
            tx.len() == top * n,
            zz.len() == 9 * lo,
            r == top + 1 + lo,
            n == 9,
    ;
    lemma_copy_entry(pu, mm + tq, mm, zq, top, pw, rest, r, alt_in);
    let eq = table_entry(mm + tq, mm.len(), n, pw + 1);
    assert((mm + tq) + rest =~= b + zz);
    assert((top - 1 - pw + r) as u32 == (2 * top - pw + lo) as u32);
    let s1 = st(b + zz + on_stack(eq), alt_in);
    lemma_run1(
        Op::Routine(Routine::Copy { n_bits: pu.n_bits, limb_size: pu.limb_size, depth: (2 * top - pw + lo) as u32 }),
        st(b + zz, alt_in),
        s1,
    );
    // The window of `y`.
    let dec_rest = zz + on_stack(eq);
    assert(dec_rest.len() == g.n_limbs * (1 + lo)) by (nonlinear_arith)
        requires
            dec_rest.len() == zz.len() + 9,
            zz.len() == 9 * lo,
            g.n_limbs == 9,
    ;
    crate::bigint::decomp::lemma_bit_decomp_computes(g, idx as int, (1 + lo) as int, mm + tq + tx, ly, dec_rest, a, acc);
    assert(mm + tq + tx + on_stack(ly) + dec_rest =~= b + zz + on_stack(eq));
    let wv = ((lsb_value(ly, pow2(w.limb_size as nat) as int) / (pow2(((idx - 1) * ww) as nat) as int))
        % (pow2(ww) as int)) as nat;
    let kept = decomp_limb(ly, w.limb_size as nat, idx * ww - 1, ww as int);
    let alt_out = if idx == 1 {
        a
    } else {
        a.push(kept)
    };
    let b2 = b + zz + on_stack(eq);
    let s2 = st(b2.push(wv as int), alt_out);
    // Its depth.
    let c = top + 1 + lo;
    assert(wv < top);
    crate::bn254::steps::lemma_depth_of_entry(b2, alt_out, c as u32, wv as int);
    let d = c - wv;
    let s3 = st(b2.push(d as int), alt_out);
    // The entry for `x * y[i]`.
    let lt = (mm + tq).len();
    let ex = table_entry(mm + tq + tx, lt, n, wv + 1);
    let xs = tx.subrange((wv * n) as int, ((wv + 1) * n) as int);
    assert(0 <= wv * n <= (wv + 1) * n <= tx.len() && (wv + 1) * n == wv * n + 9) by (nonlinear_arith)
        requires
            wv < top,
            tx.len() == top * n,
            n == 9,
    ;
    assert(((wv + 1) - 1) * n == wv * n);
    assert((mm + tq + tx).subrange(lt + ((wv + 1) - 1) * n, (lt + (wv + 1) * n) as int) =~= xs);
    lemma_on_stack_involution(xs);
    let m5 = mm + tq + tx.subrange(0, (wv * n) as int);
    let rest5 = tx.subrange(((wv + 1) * n) as int, tx.len() as int) + on_stack(ly) + zz + on_stack(eq);
    assert(m5 + on_stack(ex) + rest5 =~= b2);
    assert(rest5.len() == 9 * d) by (nonlinear_arith)
        requires
            rest5.len() == tx.len() - (wv + 1) * n + 9 + zz.len() + 9,
            tx.len() == top * n,
            zz.len() == 9 * lo,
            d == top + 1 + lo - wv,
            n == 9,
    ;
    crate::bigint::laws::lemma_stack_copy_nine_limbs(pu, m5, ex, rest5, alt_out, d as int);
    let s4 = st(b2 + on_stack(ex), alt_out);
    // The value of the second entry.
    assert(crate::bn254::tables::multiples_hold(pu, mm + tq + tx, mm + tq, zx, top));
    assert(pu.limbs_ok(ex) && pu.value(ex) == (((wv + 1) - 1) * zx) % (pow2(pu.n_bits as nat) as int));
    // The whole front.
    let cp = pu.copy_ops((2 * top - pw + lo) as u32);
    let dec = bit_decomp_ops(g, idx as int, (1 + lo) as int);
    let dp = seq![Op::Push(c as u32), Op::Swap, Op::Sub];
    let sc = stack_copy_ops(pu.limbs() as u32);
    assert(win_front_ops(w, i) == cp + dec + dp + sc);
    lemma_run_seq(cp, dec, st(b + zz, alt_in), s1, s2);
    lemma_run_seq(cp + dec, dp, st(b + zz, alt_in), s2, s3);
    lemma_run_seq(cp + dec + dp, sc, st(b + zz, alt_in), s3, s4);
}


/// Iteration `i` of the main loop of [`WinBigIntImpl::OP_TMUL`]: on `{q
/// table} {x table} {y}` and the accumulator `z` (none before the first
/// iteration) it leaves `2^window * z + x * y[i] - q * p[i]` modulo
/// `2^n_bits` of the tables, held by its limbs, and on the alt stack what
/// the read of the window below needs.
#[verifier::spinoff_prover]
#[verifier::rlimit(100)]
pub proof fn lemma_win_iter(
    w: WinBigIntImpl,
    i: nat,
    mm: Seq<int>,
    tq: Seq<int>,
    zq: int,
    tx: Seq<int>,
    zx: int,
    ly: Seq<int>,
    zv: int,
    a: Seq<int>,
    acc: int,
)
    requires
        w.tmul_ok(),
        w.limb_size <= 30,
        w.operand().limbs() == 9,
        w.table().u().limbs() == 9,
        i < w.windows(),
        multiples_hold(w.table().u(), mm + tq, mm, zq, pow2(w.window as nat)),
        multiples_hold(w.table().u(), mm + tq + tx, mm + tq, zx, pow2(w.window as nat)),
        w.operand().limbs_ok(ly),
        decomp_call_ok(w.windows() as u32, w.limb_size, w.window, w.windows() - i, ly, acc),
        0 <= zv < pow2(w.table().u().n_bits as nat),
    ensures
        ({
            let pu = w.table().u();
            let big = pow2(pu.n_bits as nat) as int;
            let ww = w.window as nat;
            let idx = w.windows() - i;
            let pw = modulus_window(ww, w.windows(), i);
            let wv = ((lsb_value(ly, pow2(w.limb_size as nat) as int) / (pow2(((idx - 1) * ww) as nat) as int))
                % (pow2(ww) as int)) as nat;
            let kept = decomp_limb(ly, w.limb_size as nat, idx * ww - 1, ww as int);
            let nv = ((if i == 0 {
                0
            } else {
                zv * pow2(ww)
            }) + wv * zx - pw * zq) % big;
            &&& run(
                tmul_iter_ops(w, i),
                st(
                    mm + tq + tx + on_stack(ly) + (if i == 0 {
                        Seq::<int>::empty()
                    } else {
                        number_items(pu, zv as nat)
                    }),
                    if idx == w.windows() {
                        a
                    } else {
                        a.push(acc)
                    },
                ),
            ) == Some(
                st(
                    mm + tq + tx + on_stack(ly) + number_items(pu, nv as nat),
                    if idx == 1 {
                        a
                    } else {
                        a.push(kept)
                    },
                ),
            )
            &&& (idx >= 2 ==> decomp_call_ok(w.windows() as u32, w.limb_size, w.window, idx - 1, ly, kept))
        }),
{
    let pu = w.table().u();
    let big = pow2(pu.n_bits as nat) as int;
    let ww = w.window as nat;
    let nw = w.windows();
    let idx = nw - i;
    let b = mm + tq + tx + on_stack(ly);
    let alt_in = if idx == nw {
        a
    } else {
        a.push(acc)
    };
    let kept = decomp_limb(ly, w.limb_size as nat, idx * ww - 1, ww as int);
    let alt_out = if idx == 1 {
        a
    } else {
        a.push(kept)
    };
    lemma_pow2_pos(pu.n_bits as nat);
    pu.lemma_head_bits();
    let pw = modulus_window(ww, nw, i);
    let wv = ((lsb_value(ly, pow2(w.limb_size as nat) as int) / (pow2(((idx - 1) * ww) as nat) as int))
        % (pow2(ww) as int)) as nat;
    let dbl = if i != 0 {
        repeat(tmul_dbl_ops(w), ww)
    } else {
        Seq::<Op>::empty()
    };
    let add = if i != 0 {
        pu.add_ops(0, 1)
    } else {
        Seq::<Op>::empty()
    };
    assert(tmul_iter_ops(w, i) =~= dbl + win_front_ops(w, i) + pu.sub_ops(0, 1) + add);
    // The doublings.
    let lz = crate::routines::limbs_of(pu, zv as nat);
    crate::bn254::tables::lemma_limbs_of(pu, zv as nat);
    let lz2 = doubled_times(pu, lz, ww);
    let zz = if i == 0 {
        Seq::<int>::empty()
    } else {
        on_stack(lz2)
    };
    let z_in = if i == 0 {
        Seq::<int>::empty()
    } else {
        number_items(pu, zv as nat)
    };
    if i != 0 {
        lemma_dbl_times(w, lz, b, alt_in, ww);
    } else {
        assert(b + z_in =~= b);
        assert(b + zz =~= b);
    }
    assert(run(dbl, st(b + z_in, alt_in)) == Some(st(b + zz, alt_in)));
    // The front.
    lemma_win_front(w, i, mm, tq, zq, tx, zx, ly, zz, a, acc);
    let eq = table_entry(mm + tq, mm.len(), 9, pw + 1);
    let ex = table_entry(mm + tq + tx, (mm + tq).len(), 9, wv + 1);
    let s2 = st(b + zz + on_stack(eq) + on_stack(ex), alt_out);
    // `x * y[i] - q * p[i]`.
    lemma_sub_top_routine(pu, b + zz, alt_out, eq, ex);
    let dv = ((pu.value(ex) - pu.value(eq)) % big);
    let s3 = st(b + zz + number_items(pu, dv as nat), alt_out);
    lemma_run1(
        Op::Routine(Routine::Sub { n_bits: pu.n_bits, limb_size: pu.limb_size, a: 0, b: 1 }),
        s2,
        s3,
    );
    vstd::arithmetic::div_mod::lemma_sub_mod_noop(wv * zx, pw * zq, big);
    assert(dv == (wv * zx - pw * zq) % big);
    lemma_run_seq(dbl, win_front_ops(w, i), st(b + z_in, alt_in), st(b + zz, alt_in), s2);
    lemma_run_seq(dbl + win_front_ops(w, i), pu.sub_ops(0, 1), st(b + z_in, alt_in), s2, s3);
    let nv = ((if i == 0 {
        0
    } else {
        zv * pow2(ww)
    }) + wv * zx - pw * zq) % big;
    if i == 0 {
        assert(add =~= Seq::<Op>::empty());
        assert(b + zz =~= b);
        assert(nv == dv);
        assert(dbl + win_front_ops(w, i) + pu.sub_ops(0, 1) + add =~= dbl + win_front_ops(w, i) + pu.sub_ops(0, 1));
    } else {
        // `z += ...`.
        let ld = crate::routines::limbs_of(pu, dv as nat);
        crate::bn254::tables::lemma_limbs_of(pu, dv as nat);
        crate::bn254::tables::lemma_add_top_routine(pu, b, alt_out, lz2, ld);
        let sum = (pu.value(ld) + pu.value(lz2)) % big;
        let s4 = st(b + number_items(pu, sum as nat), alt_out);
        lemma_run1(
            Op::Routine(Routine::Add { n_bits: pu.n_bits, limb_size: pu.limb_size, a: 0, b: 1 }),
            s3,
            s4,
        );
        lemma_run_seq(dbl + win_front_ops(w, i) + pu.sub_ops(0, 1), add, st(b + z_in, alt_in), s3, s4);
        assert(pu.value(lz2) == (pow2(ww) * zv) % big);
        vstd::arithmetic::div_mod::lemma_add_mod_noop(wv * zx - pw * zq, pow2(ww) * zv, big);
        vstd::arithmetic::div_mod::lemma_mod_twice(wv * zx - pw * zq, big);
        assert(zv * pow2(ww) + wv * zx - pw * zq == (wv * zx - pw * zq) + pow2(ww) * zv) by (nonlinear_arith);
        assert(sum == nv);
    }
}


/// What the alt stack holds for the read of a window of `y` after `k`
/// iterations of [`WinBigIntImpl::OP_TMUL`]'s main loop, where it holds
/// anything.
pub open spec fn win_acc(w: WinBigIntImpl, k: nat, ly: Seq<int>) -> int {
    let ww = w.window as nat;
    decomp_limb(ly, w.limb_size as nat, (w.windows() - k + 1) * ww - 1, ww as int)
}

/// The alt stack after `k` iterations of the main loop.
pub open spec fn win_alt(w: WinBigIntImpl, k: nat, ly: Seq<int>, a: Seq<int>) -> Seq<int> {
    if k == 0 || k >= w.windows() {
        a
    } else {
        a.push(win_acc(w, k, ly))
    }
}

/// The accumulator after `k` iterations: nothing before the first,
/// then the schedule's value modulo `2^n_bits` of the tables.
pub open spec fn win_acc_items(w: WinBigIntImpl, k: nat, zx: int, yv: nat, zq: int) -> Seq<int> {
    let pu = w.table().u();
    let ww = w.window as nat;
    if k == 0 {
        Seq::empty()
    } else {
        number_items(
            pu,
            (crate::windows::win_schedule(zx, yv, zq, bn254_modulus(), ww, w.windows() * ww, k) % (pow2(
                pu.n_bits as nat,
            ) as int)) as nat,
        )
    }
}

/// The iterations of [`WinBigIntImpl::OP_TMUL`]'s main loop below `k`: on
/// `{q table} {x table} {y}`, with the tables of multiples of `zq` and
/// `zx`, they push the accumulator, worth the schedule's value after `k`
/// windows modulo `2^n_bits` of the tables, and leave on the alt stack what
/// the next read of a window of `y` needs.
#[verifier::spinoff_prover]
#[verifier::rlimit(100)]
pub proof fn lemma_win_loop(
    w: WinBigIntImpl,
    k: nat,
    mm: Seq<int>,
    tq: Seq<int>,
    zq: int,
    tx: Seq<int>,
    zx: int,
    ly: Seq<int>,
    a: Seq<int>,
)
    requires
        w.tmul_ok(),
        w.n_bits >= 254,
        w.limb_size <= 30,
        w.window <= w.limb_size,
        w.operand().limbs() == 9,
        w.table().u().limbs() == 9,
        w.windows() * (w.window as nat) <= 9 * (w.limb_size as nat),
        k <= w.windows(),
        multiples_hold(w.table().u(), mm + tq, mm, zq, pow2(w.window as nat)),
        multiples_hold(w.table().u(), mm + tq + tx, mm + tq, zx, pow2(w.window as nat)),
        w.operand().limbs_ok(ly),
    ensures
        ({
            let yv = w.operand().value(ly) as nat;
            &&& run(crate::bigint::op_tmul::tmul_loop_ops(w, k), st(mm + tq + tx + on_stack(ly), a))
                == Some(
                st(mm + tq + tx + on_stack(ly) + win_acc_items(w, k, zx, yv, zq), win_alt(w, k, ly, a)),
            )
            &&& (k < w.windows() ==> decomp_call_ok(
                w.windows() as u32,
                w.limb_size,
                w.window,
                w.windows() - k,
                ly,
                win_acc(w, k, ly),
            ))
        }),
    decreases k,
{
    let pu = w.table().u();
    let uo = w.operand();
    let ww = w.window as nat;
    let nw = w.windows();
    let ext = nw * ww;
    let big = pow2(pu.n_bits as nat) as int;
    let b = mm + tq + tx + on_stack(ly);
    let yv = uo.value(ly) as nat;
    let p = bn254_modulus();
    lemma_pow2_pos(pu.n_bits as nat);
    uo.lemma_head_bits();
    crate::bn254::tables::lemma_value_below(uo, ly);
    vstd::arithmetic::div_mod::lemma_fundamental_div_mod((w.n_bits + ww - 1) as int, ww as int);
    assert(w.n_bits <= ext && nw <= w.n_bits) by (nonlinear_arith)
        requires
            w.n_bits + ww - 1 == ww * nw + (w.n_bits + ww - 1) % (ww as int),
            0 <= (w.n_bits + ww - 1) % (ww as int) < ww,
            ext == nw * ww,
            ww >= 1,
            w.n_bits >= 1,
    ;
    crate::windows::lemma_pow2_le(w.n_bits as nat, ext);
    if k == 0 {
        assert(crate::bigint::op_tmul::tmul_loop_ops(w, 0) =~= Seq::<Op>::empty());
        assert(b + win_acc_items(w, 0, zx, yv, zq) =~= b);
        // The first read.
        let ls = w.limb_size as int;
        let nb = w.n_bits as int;
        assert(nw >= 1) by (nonlinear_arith)
            requires
                nb <= nw * ww,
                nb >= 254,
        ;
        assert((nb - 1) >= 8 * ls) by (nonlinear_arith)
            requires
                nb - (9 - 1) * ls > 0,
        ;
        let hq = (ext - 1) / ls;
        vstd::arithmetic::div_mod::lemma_fundamental_div_mod((ext - 1) as int, ls);
        assert(hq == 8) by (nonlinear_arith)
            requires
                ext - 1 == ls * hq + (ext - 1) % ls,
                0 <= (ext - 1) % ls < ls,
                ext - 1 >= 8 * ls,
                ext <= 9 * ls,
                ls > 0,
        ;
        assert(nw <= nb);
        crate::bigint::decomp::lemma_first_window_ok(uo, nw as u32, w.window, ly, win_acc(w, 0, ly));
    } else {
        let i = (k - 1) as nat;
        lemma_win_loop(w, i, mm, tq, zq, tx, zx, ly, a);
        let zv = if i == 0 {
            0
        } else {
            crate::windows::win_schedule(zx, yv, zq, p, ww, ext, i) % big
        };
        let acc = win_acc(w, i, ly);
        lemma_win_iter(w, i, mm, tq, zq, tx, zx, ly, zv, a, acc);
        let idx = nw - i;
        assert(win_alt(w, i, ly, a) == if idx == nw {
            a
        } else {
            a.push(acc)
        });
        assert(win_alt(w, k, ly, a) == if idx == 1 {
            a
        } else {
            a.push(decomp_limb(ly, w.limb_size as nat, idx * ww - 1, ww as int))
        });
        assert(b + win_acc_items(w, i, zx, yv, zq) == b + (if i == 0 {
            Seq::<int>::empty()
        } else {
            number_items(pu, zv as nat)
        }));
        // The window read and the window of the modulus.
        crate::bigint::decomp::lemma_windows_rebuild(yv, ww, nw);
        crate::windows::lemma_win_mod_windows_make_modulus(w);
        assert(uo.base() == pow2(w.limb_size as nat));
        let wv = ((lsb_value(ly, pow2(w.limb_size as nat) as int) / (pow2(((idx - 1) * ww) as nat) as int))
            % (pow2(ww) as int)) as nat;
        assert((nw - idx) as nat == i);
        assert(wv == crate::windows::window(yv, ww, ext, i));
        let pw = modulus_window(ww, nw, i);
        assert(pw == crate::windows::window(p, ww, ext, i));
        // The value.
        let sk = crate::windows::win_schedule(zx, yv, zq, p, ww, ext, i);
        let t = wv * zx - pw * zq;
        let nv = ((if i == 0 {
            0
        } else {
            zv * pow2(ww)
        }) + wv * zx - pw * zq) % big;
        assert(crate::windows::win_schedule(zx, yv, zq, p, ww, ext, k) == sk * pow2(ww) + zx * wv - zq * pw);
        if i == 0 {
            assert(sk == 0);
            assert(sk * pow2(ww) + zx * wv - zq * pw == t) by (nonlinear_arith)
                requires
                    sk == 0,
                    t == wv * zx - pw * zq,
            ;
        } else {
            vstd::arithmetic::div_mod::lemma_mul_mod_noop_left(sk, pow2(ww) as int, big);
            vstd::arithmetic::div_mod::lemma_add_mod_noop(zv * pow2(ww), t, big);
            vstd::arithmetic::div_mod::lemma_add_mod_noop(sk * pow2(ww), t, big);
            assert(zv * pow2(ww) + wv * zx - pw * zq == zv * pow2(ww) + t);
            assert(sk * pow2(ww) + zx * wv - zq * pw == sk * pow2(ww) + t) by (nonlinear_arith)
                requires
                    t == wv * zx - pw * zq,
            ;
        }
        assert(nv == crate::windows::win_schedule(zx, yv, zq, p, ww, ext, k) % big);
        lemma_run_seq(
            crate::bigint::op_tmul::tmul_loop_ops(w, i),
            tmul_iter_ops(w, i),
            st(b, a),
            st(b + win_acc_items(w, i, zx, yv, zq), win_alt(w, i, ly, a)),
            st(b + win_acc_items(w, k, zx, yv, zq), win_alt(w, k, ly, a)),
        );
    }
}


/// The close of [`WinBigIntImpl::OP_TMUL`] fails on a result whose limbs
/// are not valid limbs of an operand: its first comparison refuses them.
#[verifier::spinoff_prover]
#[verifier::rlimit(50)]
pub proof fn lemma_win_close_refuses(w: WinBigIntImpl, m: Vec<u32>, base: Seq<int>, lz: Seq<int>, a: Seq<int>)
    requires
        w.params_ok(),
        lz.len() == w.operand().limbs(),
        !w.operand().limbs_ok(lz),
    ensures
        run(crate::bn254::quotient::win_close_ops(w, m), st(base + on_stack(lz), a)) is None,
{
    let u = w.operand();
    let n = u.limbs();
    let z = base + on_stack(lz);
    u.lemma_head_bits();
    lemma_on_stack_involution(lz);
    assert((0 + 1) * n == n && 0 * n == 0 && (1 + 1) * n == 2 * n && 1 * n == n) by (nonlinear_arith);
    lemma_copy_routine(u, z, a, 0);
    assert(block(z, n, 0) =~= on_stack(lz));
    let z1 = z + on_stack(lz);
    crate::bn254::quotient::lemma_push_zero_routine(u, z1, a);
    let z2 = z1 + crate::bn254::quotient::zero_limbs(n);
    assert(block(z2, n, 1) =~= on_stack(lz));
    assert(!valid_at(u, z2, 1));
    assert(step(
        Op::Routine(Routine::LessThanOrEqual { n_bits: u.n_bits, limb_size: u.limb_size, a: 0, b: 1 }),
        st(z2, a),
    ) is None) by {
        reveal(routine_effect);
    }
    let first = u.copy_ops(0) + u.push_zero_ops();
    assert(first =~= seq![
        Op::Routine(Routine::Copy { n_bits: u.n_bits, limb_size: u.limb_size, depth: 0 }),
        Op::Routine(Routine::PushZero { n_bits: u.n_bits, limb_size: u.limb_size }),
    ]);
    crate::stack::lemma_run2(
        Op::Routine(Routine::Copy { n_bits: u.n_bits, limb_size: u.limb_size, depth: 0 }),
        Op::Routine(Routine::PushZero { n_bits: u.n_bits, limb_size: u.limb_size }),
        st(z, a),
        st(z1, a),
        st(z2, a),
    );
    let lte = u.lessthanorequal_ops(0, 1);
    crate::script::lemma_run_single(
        Op::Routine(Routine::LessThanOrEqual { n_bits: u.n_bits, limb_size: u.limb_size, a: 0, b: 1 }),
        st(z2, a),
    );
    let all = crate::bn254::quotient::win_close_ops(w, m);
    let rest = all.subrange(3, all.len() as int);
    assert(all =~= first + lte + rest);
    crate::script::lemma_run_append(first, lte, st(z, a));
    crate::script::lemma_run_append(first + lte, rest, st(z, a));
}

/// The setup of [`WinBigIntImpl::OP_TMUL`]: from `{q} {x} {y}` it builds the
/// tables of multiples of `q` and of `x`, leaving `y` on top.
#[verifier::spinoff_prover]
#[verifier::rlimit(100)]
pub proof fn lemma_win_setup(
    w: WinBigIntImpl,
    mm: Seq<int>,
    lq: Seq<int>,
    lx: Seq<int>,
    ly: Seq<int>,
    a: Seq<int>,
) -> (r: (Seq<int>, Seq<int>))
    requires
        w.tmul_ok(),
        w.limb_size <= 30,
        w.operand().limbs() == 9,
        w.table().u().limbs() == 9,
        w.operand().limbs_ok(lq),
        w.operand().limbs_ok(lx),
        w.operand().limbs_ok(ly),
    ensures
        ({
            let u = w.operand();
            let p = w.table();
            &&& run(
                u.toalt_ops() + u.toalt_ops() + p.initialize_ops() + u.fromalt_ops() + p.initialize_ops()
                    + u.fromalt_ops(),
                st(mm + on_stack(lq) + on_stack(lx) + on_stack(ly), a),
            ) == Some(st(mm + r.0 + r.1 + on_stack(ly), a))
            &&& multiples_hold(p.u(), mm + r.0, mm, u.value(lq), pow2(w.window as nat))
            &&& multiples_hold(p.u(), mm + r.0 + r.1, mm + r.0, u.value(lx), pow2(w.window as nat))
        }),
{
    let u = w.operand();
    let t = w.table();
    let pu = t.u();
    u.lemma_head_bits();
    crate::bn254::multiplier::lemma_widen_limbs(u, pu, lq);
    crate::bn254::multiplier::lemma_widen_limbs(u, pu, lx);
    let q = on_stack(lq);
    let x = on_stack(lx);
    let y = on_stack(ly);
    let s0 = st(mm + q + x + y, a);
    crate::bn254::quotient::lemma_toalt_routine(u, mm + q + x, ly, a);
    crate::bn254::quotient::lemma_toalt_routine(u, mm + q, lx, a + ly);
    let s2 = st(mm + q, a + ly + lx);
    crate::stack::lemma_run2(
        Op::Routine(Routine::ToAltStack { n_bits: u.n_bits, limb_size: u.limb_size }),
        Op::Routine(Routine::ToAltStack { n_bits: u.n_bits, limb_size: u.limb_size }),
        s0,
        st(mm + q + x, a + ly),
        s2,
    );
    crate::bn254::tables::lemma_precompute_initialize_computes(t, mm, lq, a + ly + lx);
    let main1 = choose|main: Seq<int>|
        run(t.initialize_ops(), st(mm + on_stack(lq), a + ly + lx)) == Some(st(main, a + ly + lx))
            && multiples_hold(pu, main, mm, pu.value(lq), pow2(t.window as nat));
    crate::bn254::multiplier::lemma_fromalt_routine(u, main1, a + ly, lx);
    lemma_run1(
        Op::Routine(Routine::FromAltStack { n_bits: u.n_bits, limb_size: u.limb_size }),
        st(main1, a + ly + lx),
        st(main1 + x, a + ly),
    );
    crate::bn254::tables::lemma_precompute_initialize_computes(t, main1, lx, a + ly);
    let main2 = choose|main: Seq<int>|
        run(t.initialize_ops(), st(main1 + on_stack(lx), a + ly)) == Some(st(main, a + ly))
            && multiples_hold(pu, main, main1, pu.value(lx), pow2(t.window as nat));
    crate::bn254::multiplier::lemma_fromalt_routine(u, main2, a, ly);
    lemma_run1(
        Op::Routine(Routine::FromAltStack { n_bits: u.n_bits, limb_size: u.limb_size }),
        st(main2, a + ly),
        st(main2 + y, a),
    );
    let two = u.toalt_ops() + u.toalt_ops();
    assert(two =~= seq![
        Op::Routine(Routine::ToAltStack { n_bits: u.n_bits, limb_size: u.limb_size }),
        Op::Routine(Routine::ToAltStack { n_bits: u.n_bits, limb_size: u.limb_size }),
    ]);
    lemma_run_seq(two, t.initialize_ops(), s0, s2, st(main1, a + ly + lx));
    lemma_run_seq(two + t.initialize_ops(), u.fromalt_ops(), s0, st(main1, a + ly + lx), st(main1 + x, a + ly));
    lemma_run_seq(
        two + t.initialize_ops() + u.fromalt_ops(),
        t.initialize_ops(),
        s0,
        st(main1 + x, a + ly),
        st(main2, a + ly),
    );
    lemma_run_seq(
        two + t.initialize_ops() + u.fromalt_ops() + t.initialize_ops(),
        u.fromalt_ops(),
        s0,
        st(main2, a + ly),
        st(main2 + y, a),
    );
    let tq = main1.subrange(mm.len() as int, main1.len() as int);
    let tx = main2.subrange(main1.len() as int, main2.len() as int);
    assert(main1 =~= mm + tq);
    assert(main2 =~= mm + tq + tx);
    (tq, tx)
}


/// [`WinBigIntImpl::OP_TMUL`] on `{q} {x} {y}`, each held by valid limbs
/// of an operand: it fails unless `r = (x * y - q * p) mod 2^(n_bits +
/// window)` lies below `p`, and otherwise leaves `r` alone, held by its
/// limbs, the alt stack as it found it.
#[verifier::spinoff_prover]
#[verifier::rlimit(100)]
pub proof fn lemma_win_tmul_runs(
    w: WinBigIntImpl,
    m: Vec<u32>,
    mm: Seq<int>,
    lq: Seq<int>,
    lx: Seq<int>,
    ly: Seq<int>,
    a: Seq<int>,
)
    requires
        w.tmul_ok(),
        w.n_bits >= 254,
        w.limb_size <= 30,
        w.window <= w.limb_size,
        w.operand().limbs() == 9,
        w.table().u().limbs() == 9,
        w.windows() * (w.window as nat) <= 9 * (w.limb_size as nat),
        crate::biguint::digits_value(m@) == bn254_modulus(),
        w.operand().limbs_ok(lq),
        w.operand().limbs_ok(lx),
        w.operand().limbs_ok(ly),
    ensures
        ({
            let u = w.operand();
            let p = bn254_modulus();
            let r = (u.value(lx) * u.value(ly) - u.value(lq) * p) % (pow2(w.table().u().n_bits as nat) as int);
            run(
                crate::bigint::op_tmul::tmul_ops(w, m),
                st(mm + on_stack(lq) + on_stack(lx) + on_stack(ly), a),
            ) == if r < p {
                Some(st(mm + number_items(u, r as nat), a))
            } else {
                None
            }
        }),
{
    let u = w.operand();
    let pt = w.table();
    let pu = pt.u();
    let p = bn254_modulus();
    let ww = w.window as nat;
    let nw = w.windows();
    let ext = nw * ww;
    let big = pow2(pu.n_bits as nat) as int;
    let q = u.value(lq);
    let x = u.value(lx);
    let y = u.value(ly);
    let r = (x * y - q * p) % big;
    let s0 = st(mm + on_stack(lq) + on_stack(lx) + on_stack(ly), a);
    lemma_pow2_pos(pu.n_bits as nat);
    // The setup.
    let (tq, tx) = lemma_win_setup(w, mm, lq, lx, ly, a);
    let b = mm + tq + tx + on_stack(ly);
    let setup = u.toalt_ops() + u.toalt_ops() + pt.initialize_ops() + u.fromalt_ops() + pt.initialize_ops()
        + u.fromalt_ops();
    // The main loop.
    lemma_win_loop(w, nw, mm, tq, q, tx, x, ly, a);
    let yv = y as nat;
    u.lemma_head_bits();
    crate::bn254::tables::lemma_value_below(u, ly);
    vstd::arithmetic::div_mod::lemma_fundamental_div_mod((w.n_bits + ww - 1) as int, ww as int);
    assert(w.n_bits <= ext) by (nonlinear_arith)
        requires
            w.n_bits + ww - 1 == ww * nw + (w.n_bits + ww - 1) % (ww as int),
            0 <= (w.n_bits + ww - 1) % (ww as int) < ww,
            ext == nw * ww,
    ;
    crate::windows::lemma_pow2_le(w.n_bits as nat, ext);
    crate::windows::lemma_modulus_bits();
    crate::windows::lemma_pow2_le(254, ext);
    assert(ext / ww == nw && ext % ww == 0) by {
        vstd::arithmetic::div_mod::lemma_div_multiples_vanish(nw as int, ww as int);
        vstd::arithmetic::div_mod::lemma_mod_multiples_basic(nw as int, ww as int);
        vstd::arithmetic::mul::lemma_mul_is_commutative(nw as int, ww as int);
    }
    crate::windows::lemma_win_schedule(x, yv, q, p, ww, ext);
    assert(nw >= 1) by (nonlinear_arith)
        requires
            w.n_bits <= nw * ww,
            w.n_bits >= 254,
    ;
    let zf = crate::routines::limbs_of(pu, r as nat);
    assert(win_acc_items(w, nw, x, yv, q) == on_stack(zf));
    assert(win_alt(w, nw, ly, a) == a);
    let s1 = st(b, a);
    let s2 = st(b + on_stack(zf), a);
    // The close.
    let close = crate::bn254::quotient::win_close_ops(w, m);
    let lp = crate::bigint::op_tmul::tmul_loop_ops(w, nw);
    assert(crate::bigint::op_tmul::tmul_ops(w, m) =~= setup + lp + close);
    lemma_run_seq(setup, lp, s0, s1, s2);
    crate::script::lemma_run_append(setup + lp, close, s0);
    crate::windows::lemma_pow2_le(254, u.n_bits as nat);
    if r < pow2(u.n_bits as nat) {
        crate::bn254::tables::lemma_limbs_of(u, r as nat);
        assert(crate::routines::limbs_of(u, r as nat) =~= zf);
        assert(tq.len() == pow2(ww) * 9 && tx.len() == pow2(ww) * 9);
        assert(on_stack(ly).len() == 9);
        crate::bn254::quotient::lemma_win_close_computes(w, m, mm, tq, tx, on_stack(ly), zf, a);
    } else {
        crate::bn254::tables::lemma_limbs_of(pu, r as nat);
        if u.limbs_ok(zf) {
            crate::bn254::tables::lemma_value_below(u, zf);
            assert(false);
        }
        lemma_win_close_refuses(w, m, b, zf, a);
    }
}

/// [`WinBigIntImpl::OP_TMUL`] multiplies in the field: on `{x * y / p} {x}
/// {y}` with `x, y < p` it leaves `{x * y mod p}`, the alt stack as it
/// found it.
pub proof fn lemma_win_tmul_multiplies(
    w: WinBigIntImpl,
    m: Vec<u32>,
    mm: Seq<int>,
    x: nat,
    y: nat,
    a: Seq<int>,
)
    requires
        w.tmul_ok(),
        w.n_bits >= 254,
        w.limb_size <= 30,
        w.window <= w.limb_size,
        w.operand().limbs() == 9,
        w.table().u().limbs() == 9,
        w.windows() * (w.window as nat) <= 9 * (w.limb_size as nat),
        crate::biguint::digits_value(m@) == bn254_modulus(),
        x < bn254_modulus(),
        y < bn254_modulus(),
    ensures
        ({
            let u = w.operand();
            let p = bn254_modulus();
            run(
                crate::bigint::op_tmul::tmul_ops(w, m),
                st(mm + number_items(u, x * y / p) + number_items(u, x) + number_items(u, y), a),
            ) == Some(st(mm + number_items(u, (x * y) % p), a))
        }),
{
    let u = w.operand();
    let p = bn254_modulus();
    let q = x * y / p;
    crate::windows::lemma_modulus_bits();
    crate::windows::lemma_pow2_le(254, w.n_bits as nat);
    assert(x * y < p * p) by (nonlinear_arith)
        requires
            x < p,
            y < p,
    ;
    vstd::arithmetic::div_mod::lemma_fundamental_div_mod((x * y) as int, p as int);
    assert(q < p) by (nonlinear_arith)
        requires
            x * y == p * q + ((x * y) as int) % (p as int),
            0 <= ((x * y) as int) % (p as int),
            x * y < p * p,
            p > 0,
    ;
    crate::bn254::tables::lemma_limbs_of(u, q);
    crate::bn254::tables::lemma_limbs_of(u, x);
    crate::bn254::tables::lemma_limbs_of(u, y);
    lemma_win_tmul_runs(
        w,
        m,
        mm,
        crate::routines::limbs_of(u, q),
        crate::routines::limbs_of(u, x),
        crate::routines::limbs_of(u, y),
        a,
    );
    let big = pow2(w.table().u().n_bits as nat) as int;
    crate::windows::lemma_pow2_le(254, w.table().u().n_bits as nat);
    assert(x * y - q * p == ((x * y) as int) % (p as int)) by (nonlinear_arith)
        requires
            x * y == p * q + ((x * y) as int) % (p as int),
    ;
    vstd::arithmetic::div_mod::lemma_small_mod(((x * y) % p) as nat, big as nat);
}

} // verus!
