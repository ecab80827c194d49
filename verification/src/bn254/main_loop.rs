//! The main loop of the field multiplier, iteration by iteration.
use crate::bigint::decomp::{decomp_call_ok, decomp_limb};
use crate::bigint::doubling::doubled;
use crate::bigint::on_stack;
use crate::bn254::bn254_modulus;
use crate::bn254::fp254_op_tmul::Fq;
use crate::bn254::laws::lemma_fp254_dbl_computes;
use crate::bn254::steps::{
    add_step_limbs, lemma_fq_add_step_computes, lemma_fq_sub_step_computes, sub_step_limbs, sub_window,
};
use crate::bn254::tables::table_holds;
use crate::script::{run, st, Op};
use crate::stack::lemma_run_seq;
use crate::windows::{fq_schedule, lemma_fq_mod_windows_make_modulus, window};
use vstd::arithmetic::div_mod::{
    lemma_add_mod_noop, lemma_fundamental_div_mod, lemma_fundamental_div_mod_converse_div, lemma_mod_twice,
    lemma_mul_mod_noop_right,
};
use vstd::arithmetic::power2::*;
use vstd::prelude::*;

verus! {

/// The number of windows of `y` that the iterations below `k` have added.
pub open spec fn windows_done(f: Fq, k: nat) -> nat {
    if k == 0 {
        0
    } else {
        ((k - 1) as nat) / (f.var_width as nat)
    }
}

/// The alt stack after the iterations below `k`: what the next read of a
/// window of `y` needs on top of `a`.
pub open spec fn loop_alt(f: Fq, k: nat, ly: Seq<int>, a: Seq<int>) -> Seq<int> {
    let t = windows_done(f, k);
    if t == 0 || t >= f.var_windows() {
        a
    } else {
        a.push(loop_acc(f, k, ly))
    }
}

/// The accumulator's limbs after iteration `i` of [`Fq::OP_TMUL`]'s main
/// loop, from `z` before it; the table of multiples of `-q` lies on
/// `main_q`'s first `q_at` items, that of `x` on `main_x`'s first `x_at`.
pub open spec fn step_limbs(
    f: Fq,
    i: nat,
    main_q: Seq<int>,
    q_at: nat,
    main_x: Seq<int>,
    x_at: nat,
    ly: Seq<int>,
    z: Seq<int>,
) -> Seq<int> {
    let vw = f.var_width as nat;
    let w = f.tw().shape();
    let z1 = sub_step_limbs(f, i, main_q, q_at, z);
    let z2 = if i % vw == 0 {
        add_step_limbs(f, window(w.value(ly) as nat, vw, f.ext(), (i / vw - 1) as nat), main_x, x_at, z1)
    } else {
        z1
    };
    if i < f.ext() {
        doubled(z2, w.base() as int, w.head_bound() as int)
    } else {
        z2
    }
}

/// The accumulator's limbs after the iterations of [`Fq::OP_TMUL`]'s main
/// loop below `k`, from `lz` before the first.
pub open spec fn loop_limbs(
    f: Fq,
    k: nat,
    main_q: Seq<int>,
    q_at: nat,
    main_x: Seq<int>,
    x_at: nat,
    ly: Seq<int>,
    lz: Seq<int>,
) -> Seq<int>
    decreases k,
{
    if k <= f.skip() {
        lz
    } else {
        step_limbs(
            f,
            (k - 1) as nat,
            main_q,
            q_at,
            main_x,
            x_at,
            ly,
            loop_limbs(f, (k - 1) as nat, main_q, q_at, main_x, x_at, ly, lz),
        )
    }
}

/// What the alt stack holds for the next read of a window of `y` after the
/// iterations below `k`, where it holds anything.
pub open spec fn loop_acc(f: Fq, k: nat, ly: Seq<int>) -> int {
    let nw = f.var_windows();
    let vw = f.var_width as nat;
    decomp_limb(ly, f.limb_size as nat, (nw + 1 - windows_done(f, k)) * vw - 1, vw as int)
}

/// Subtracting `q` times a window through the table of multiples of
/// `zq = -q mod big` is subtracting it modulo `big`.
proof fn lemma_sub_value(s: int, kw: int, q: int, zq: int, big: int)
    requires
        big > 0,
        zq == (-q) % big,
    ensures
        ((s % big) + (kw * zq) % big) % big == (s - q * kw) % big,
{
    lemma_mul_mod_noop_right(kw, -q, big);
    lemma_add_mod_noop(s, kw * (-q), big);
    lemma_mod_twice(kw * (-q), big);
    assert(s + kw * (-q) == s - q * kw) by (nonlinear_arith);
}

/// Adding `x` times a window modulo `big`.
proof fn lemma_add_value(s: int, wv: int, x: int, big: int)
    requires
        big > 0,
    ensures
        ((s % big) + (wv * x) % big) % big == (s + x * wv) % big,
{
    lemma_add_mod_noop(s, wv * x, big);
    assert(wv * x == x * wv) by (nonlinear_arith);
}


/// The windows added before and after iteration `k`.
proof fn lemma_windows_done_step(f: Fq, k: nat)
    requires
        f.var_width >= 1,
        k >= 1,
    ensures
        windows_done(f, k + 1) == k / (f.var_width as nat),
        k % (f.var_width as nat) == 0 ==> windows_done(f, k) + 1 == k / (f.var_width as nat),
        k % (f.var_width as nat) != 0 ==> windows_done(f, k) == k / (f.var_width as nat),
{
    let vw = f.var_width as int;
    let d = k as int / vw;
    let r = k as int % vw;
    lemma_fundamental_div_mod(k as int, vw);
    if r == 0 {
        assert(k - 1 == (d - 1) * vw + (vw - 1)) by (nonlinear_arith)
            requires
                k == vw * d + r,
                r == 0,
        ;
        lemma_fundamental_div_mod_converse_div(k - 1, vw, d - 1, vw - 1);
    } else {
        assert(k - 1 == d * vw + (r - 1)) by (nonlinear_arith)
            requires
                k == vw * d + r,
        ;
        lemma_fundamental_div_mod_converse_div(k - 1, vw, d, r - 1);
    }
}

/// Iteration `k` of [`Fq::OP_TMUL`]'s main loop: on `{-q table} {x table}
/// {y} {z}`, with the tables of multiples of `zq = -q mod 2^ext` and of
/// `zx`, and `z` worth `sv` modulo `2^ext`, it subtracts `q` times the
/// window of the modulus that `k` ends, adds `zx` times the window of `y`
/// that `k` ends, and doubles unless `k` is last: `z` becomes worth the
/// next value of the schedule, modulo `2^ext`, and the alt stack holds what
/// the next read of a window of `y` needs.
#[verifier::spinoff_prover]
#[verifier::rlimit(100)]
pub proof fn lemma_fq_loop_step(
    f: Fq,
    k: nat,
    mm: Seq<int>,
    tq: Seq<int>,
    zq: int,
    tx: Seq<int>,
    zx: int,
    ly: Seq<int>,
    lz: Seq<int>,
    a: Seq<int>,
    q: int,
    sv: int,
)
    requires
        f.tmul_ok(),
        f.n_bits >= 254,
        f.limb_size <= 30,
        f.limb_size >= f.var_width,
        f.skip() <= k <= f.ext(),
        table_holds(f.table().w(), mm + tq, mm, zq, pow2(f.mod_width as nat)),
        table_holds(f.table().w(), mm + tq + tx, mm + tq, zx, pow2(f.var_width as nat)),
        zq == (-q) % (pow2(f.ext()) as int),
        f.tw().shape().limbs_ok(ly),
        f.tw().shape().limbs_ok(lz),
        f.tw().shape().value(lz) == sv % (pow2(f.ext()) as int),
        (pow2(f.var_width as nat) + pow2(f.mod_width as nat)) * f.tw().limbs() + 3 <= 0x7fff_ffff,
        windows_done(f, k) < f.var_windows() ==> decomp_call_ok(
            f.var_generator().n_window,
            f.limb_size,
            f.var_width,
            f.var_windows() - windows_done(f, k),
            ly,
            loop_acc(f, k, ly),
        ),
    ensures
        ({
            let w = f.tw().shape();
            let mw = f.mod_width as nat;
            let vw = f.var_width as nat;
            let big = pow2(f.ext()) as int;
            let base = mm + tq + tx + on_stack(ly);
            let next = step_limbs(f, k, mm + tq, mm.len(), mm + tq + tx, (mm + tq).len(), ly, lz);
            let z1 = if k % mw == 0 {
                sv - q * window(bn254_modulus(), mw, f.ext(), (k / mw - 1) as nat)
            } else {
                sv
            };
            let z2 = if k % vw == 0 {
                z1 + zx * window(w.value(ly) as nat, vw, f.ext(), (k / vw - 1) as nat)
            } else {
                z1
            };
            &&& run(f.step_ops(k), st(base + on_stack(lz), loop_alt(f, k, ly, a))) == Some(
                st(base + on_stack(next), loop_alt(f, k + 1, ly, a)),
            )
            &&& w.limbs_ok(next)
            &&& w.value(next) == (if k < f.ext() {
                2 * z2
            } else {
                z2
            }) % big
            &&& (windows_done(f, k + 1) < f.var_windows() ==> decomp_call_ok(
                f.var_generator().n_window,
                f.limb_size,
                f.var_width,
                f.var_windows() - windows_done(f, k + 1),
                ly,
                loop_acc(f, k + 1, ly),
            ))
        }),
{
    let w = f.tw().shape();
    let n = w.limbs();
    let mw = f.mod_width as nat;
    let vw = f.var_width as nat;
    let big = pow2(f.ext()) as int;
    let y = on_stack(ly);
    let base = mm + tq + tx + y;
    let alt0 = loop_alt(f, k, ly, a);
    f.lemma_ext();
    lemma_pow2_pos(f.ext());
    lemma_pow2_pos(vw);
    lemma_pow2_pos(mw);
    assert(w.n_bits == f.ext());
    lemma_fq_mod_windows_make_modulus(f);
    // The subtraction.
    lemma_fq_sub_step_computes(f, k, mm, tq, zq, tx, y, lz, alt0);
    let r1 = sub_step_limbs(f, k, mm + tq, mm.len(), lz);
    let kw = sub_window(f, k);
    lemma_sub_value(sv, kw as int, q, zq, big);
    let z1 = sv - q * kw;
    assert(w.value(r1) == z1 % big);
    // The addition.
    lemma_windows_done_step(f, k);
    let t = windows_done(f, k);
    let nw = f.var_windows();
    assert(nw * vw == f.ext()) by {
        lemma_fundamental_div_mod(f.ext() as int, vw as int);
        assert(nw * vw == vw * nw) by (nonlinear_arith);
    }
    assert(k / vw <= nw) by {
        vstd::arithmetic::div_mod::lemma_div_is_ordered(k as int, f.ext() as int, vw as int);
    }
    let r2 = if k % vw == 0 {
        add_step_limbs(f, window(w.value(ly) as nat, vw, f.ext(), (k / vw - 1) as nat), mm + tq + tx, (mm + tq).len(), r1)
    } else {
        r1
    };
    let alt1 = loop_alt(f, k + 1, ly, a);
    let s0 = st(base + on_stack(lz), alt0);
    let s1 = st(base + on_stack(r1), alt0);
    let s2 = st(base + on_stack(r2), alt1);
    if k % vw == 0 {
        assert(k >= 1);
        let iter = nw + 1 - k / vw;
        assert(iter == nw - t);
        assert((mm + tq + tx) + y + on_stack(r1) == base + on_stack(r1));
        assert((pow2(vw) + 1) * n + 3 <= 0x7fff_ffff) by (nonlinear_arith)
            requires
                (pow2(vw) + pow2(mw)) * n + 3 <= 0x7fff_ffff,
                pow2(mw) >= 1,
        ;
        lemma_fq_add_step_computes(f, k, mm + tq, tx, zx, ly, r1, a, loop_acc(f, k, ly));
        let wv = window(w.value(ly) as nat, vw, f.ext(), (k / vw - 1) as nat);
        lemma_add_value(z1, wv as int, zx, big);
        assert(alt0 == if iter == f.var_windows() { a } else { a.push(loop_acc(f, k, ly)) });
        assert(loop_acc(f, k + 1, ly) == decomp_limb(ly, f.limb_size as nat, iter * vw - 1, vw as int));
    } else {
        assert(f.var_step_ops(k) =~= Seq::<Op>::empty());
        assert(alt1 == alt0);
    }
    assert(run(f.var_step_ops(k), s1) == Some(s2));
    lemma_run_seq(f.mod_step_ops(k), f.var_step_ops(k), s0, s1, s2);
    let z2 = if k % vw == 0 {
        z1 + zx * window(w.value(ly) as nat, vw, f.ext(), (k / vw - 1) as nat)
    } else {
        z1
    };
    assert(w.value(r2) == z2 % big);
    // The doubling.
    let next = step_limbs(f, k, mm + tq, mm.len(), mm + tq + tx, (mm + tq).len(), ly, lz);
    if k < f.ext() {
        lemma_fp254_dbl_computes(f.tw(), r2, base, alt1);
        lemma_mul_mod_noop_right(2, z2, big);
        lemma_run_seq(
            f.mod_step_ops(k) + f.var_step_ops(k),
            f.tw().dbl_ops(),
            s0,
            s2,
            st(base + on_stack(next), alt1),
        );
    } else {
        assert(f.mod_step_ops(k) + f.var_step_ops(k) + Seq::<Op>::empty() =~= f.mod_step_ops(k)
            + f.var_step_ops(k));
        vstd::arithmetic::div_mod::lemma_small_mod(w.value(r2) as nat, big as nat);
        crate::bn254::tables::lemma_value_below(w, r2);
    }
    assert(next == if k < f.ext() {
        doubled(r2, w.base() as int, w.head_bound() as int)
    } else {
        r2
    });
    assert(run(f.step_ops(k), s0) == Some(st(base + on_stack(next), alt1)));
    assert(w.limbs_ok(next));
    assert(w.value(next) == (if k < f.ext() {
        2 * z2
    } else {
        z2
    }) % big);
    assert(z1 == if k % mw == 0 {
        sv - q * window(bn254_modulus(), mw, f.ext(), (k / mw - 1) as nat)
    } else {
        sv
    }) by {
        if k % mw != 0 {
            assert(q * 0 == 0);
        }
    }
    assert(windows_done(f, k + 1) < f.var_windows() ==> decomp_call_ok(
        f.var_generator().n_window,
        f.limb_size,
        f.var_width,
        f.var_windows() - windows_done(f, k + 1),
        ly,
        loop_acc(f, k + 1, ly),
    ));
}


/// The first read of a window of `y` can be made on valid limbs of the
/// intermediate width.
proof fn lemma_first_read_ok(f: Fq, ly: Seq<int>, acc: int)
    requires
        f.tmul_ok(),
        f.limb_size <= 30,
        f.limb_size >= f.var_width,
        f.tw().shape().limbs_ok(ly),
    ensures
        decomp_call_ok(f.var_generator().n_window, f.limb_size, f.var_width, f.var_windows() as int, ly, acc),
        f.var_windows() >= 1,
{
    let w = f.tw().shape();
    let vw = f.var_width as int;
    let ls = f.limb_size as int;
    let ext = f.ext() as int;
    let nw = f.var_windows() as int;
    f.lemma_ext();
    lemma_fundamental_div_mod(ext, vw);
    assert(nw * vw == ext) by (nonlinear_arith)
        requires
            ext == vw * nw + 0,
    ;
    assert(nw >= 1) by (nonlinear_arith)
        requires
            nw * vw == ext,
            ext >= 1,
            vw >= 1,
    ;
    // `(ext - 1) / ls` is the head limb's index.
    let hq = (ext - 1) / ls;
    let hr = (ext - 1) % ls;
    lemma_fundamental_div_mod(ext - 1, ls);
    assert(ext + ls - 1 == (hq + 1) * ls + hr) by (nonlinear_arith)
        requires
            ext - 1 == ls * hq + hr,
    ;
    lemma_fundamental_div_mod_converse_div(ext + ls - 1, ls, hq + 1, hr);
    assert(w.limbs() == hq + 1);
    assert(f.var_generator().n_window == nw);
    crate::bigint::decomp::lemma_first_window_ok(w, nw as u32, f.var_width, ly, acc);
}

/// The iterations of [`Fq::OP_TMUL`]'s main loop below `k`: on `{-q table}
/// {x table} {y} {0}`, with the tables of multiples of `zq = -q mod 2^ext`
/// and of `zx`, they leave the accumulator worth the schedule's value after
/// them modulo `2^ext`, the tables and `y` as they were, and on the alt
/// stack what the next read of a window of `y` needs.
#[verifier::spinoff_prover]
pub proof fn lemma_fq_loop_computes(
    f: Fq,
    k: nat,
    mm: Seq<int>,
    tq: Seq<int>,
    zq: int,
    tx: Seq<int>,
    zx: int,
    ly: Seq<int>,
    lz: Seq<int>,
    a: Seq<int>,
    q: int,
)
    requires
        f.tmul_ok(),
        f.n_bits >= 254,
        f.limb_size <= 30,
        f.limb_size >= f.var_width,
        f.skip() <= k <= f.ext() + 1,
        table_holds(f.table().w(), mm + tq, mm, zq, pow2(f.mod_width as nat)),
        table_holds(f.table().w(), mm + tq + tx, mm + tq, zx, pow2(f.var_width as nat)),
        zq == (-q) % (pow2(f.ext()) as int),
        f.tw().shape().limbs_ok(ly),
        f.tw().shape().limbs_ok(lz),
        f.tw().shape().value(lz) == 0,
        (pow2(f.var_width as nat) + pow2(f.mod_width as nat)) * f.tw().limbs() + 3 <= 0x7fff_ffff,
    ensures
        ({
            let w = f.tw().shape();
            let base = mm + tq + tx + on_stack(ly);
            let z = loop_limbs(f, k, mm + tq, mm.len(), mm + tq + tx, (mm + tq).len(), ly, lz);
            &&& run(f.loop_ops(k), st(base + on_stack(lz), a)) == Some(
                st(base + on_stack(z), loop_alt(f, k, ly, a)),
            )
            &&& w.limbs_ok(z)
            &&& w.value(z) == fq_schedule(
                zx,
                w.value(ly) as nat,
                q,
                bn254_modulus(),
                f.var_width as nat,
                f.mod_width as nat,
                f.ext(),
                f.skip(),
                k,
            ) % (pow2(f.ext()) as int)
            &&& (windows_done(f, k) < f.var_windows() ==> decomp_call_ok(
                f.var_generator().n_window,
                f.limb_size,
                f.var_width,
                f.var_windows() - windows_done(f, k),
                ly,
                loop_acc(f, k, ly),
            ))
        }),
    decreases k,
{
    let w = f.tw().shape();
    let base = mm + tq + tx + on_stack(ly);
    let big = pow2(f.ext()) as int;
    lemma_pow2_pos(f.ext());
    f.lemma_ext();
    if k <= f.skip() {
        assert(k == f.skip());
        assert(windows_done(f, k) == 0) by {
            assert((k - 1) as nat / (f.var_width as nat) == 0) by {
                vstd::arithmetic::div_mod::lemma_basic_div((k - 1) as int, f.var_width as int);
            }
        }
        lemma_first_read_ok(f, ly, loop_acc(f, k, ly));
        assert(0int % big == 0);
    } else {
        let i = (k - 1) as nat;
        lemma_fq_loop_computes(f, i, mm, tq, zq, tx, zx, ly, lz, a, q);
        let zi = loop_limbs(f, i, mm + tq, mm.len(), mm + tq + tx, (mm + tq).len(), ly, lz);
        let sv = fq_schedule(
            zx,
            w.value(ly) as nat,
            q,
            bn254_modulus(),
            f.var_width as nat,
            f.mod_width as nat,
            f.ext(),
            f.skip(),
            i,
        );
        lemma_fq_loop_step(f, i, mm, tq, zq, tx, zx, ly, zi, a, q, sv);
        lemma_run_seq(
            f.loop_ops(i),
            f.step_ops(i),
            st(base + on_stack(lz), a),
            st(base + on_stack(zi), loop_alt(f, i, ly, a)),
            st(base + on_stack(loop_limbs(f, k, mm + tq, mm.len(), mm + tq + tx, (mm + tq).len(), ly, lz)), loop_alt(f, k, ly, a)),
        );
    }
}

} // verus!
