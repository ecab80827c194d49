//! The arithmetic of windowed multiplication: cutting numbers into windows of
//! bits, most significant first, and accumulating `x * y - q * p` window by
//! window with doublings in between.
use crate::bigint::op_tmul::{modulus_window, WinBigIntImpl};
use crate::bn254::bn254_modulus;
use crate::bn254::fp254_op_tmul::Fq;
use vstd::arithmetic::div_mod::*;
use vstd::arithmetic::mul::*;
use vstd::arithmetic::power2::*;
use vstd::prelude::*;

verus! {

/// Window `k` of `v` cut into `w`-bit windows over `ext` bits, the most
/// significant window first.
pub open spec fn window(v: nat, w: nat, ext: nat, k: nat) -> nat {
    (v / pow2((w * (ext / w - k - 1)) as nat)) % pow2(w)
}

/// The value of the `t` most significant `w`-bit windows of `v` over `ext`
/// bits.
pub open spec fn top_windows(v: nat, w: nat, ext: nat, t: nat) -> nat {
    v / pow2((ext - t * w) as nat)
}

/// One more window: the top windows shift up by `w` bits and take the next
/// window in.
pub proof fn lemma_top_windows_step(v: nat, w: nat, ext: nat, t: nat)
    requires
        w >= 1,
        ext % w == 0,
        1 <= t <= ext / w,
    ensures
        top_windows(v, w, ext, t) == top_windows(v, w, ext, (t - 1) as nat) * pow2(w) + window(
            v,
            w,
            ext,
            (t - 1) as nat,
        ),
{
    let e = (ext - t * w) as nat;
    let m = ext / w;
    lemma_fundamental_div_mod(ext as int, w as int);
    assert(t * w <= ext) by (nonlinear_arith)
        requires
            t <= m,
            ext == w * m,
    ;
    assert(w * (m - (t - 1) - 1) == e) by (nonlinear_arith)
        requires
            ext == w * m + 0,
            e == ext - t * w,
    ;
    assert(ext - (t - 1) * w == e + w) by (nonlinear_arith)
        requires
            e == ext - t * w,
    ;
    lemma_pow2_pos(e);
    lemma_pow2_pos(w);
    lemma_pow2_adds(e, w);
    let a = v / pow2(e);
    assert(v / pow2(e + w) == a / pow2(w)) by {
        lemma_div_denominator(v as int, pow2(e) as int, pow2(w) as int);
    }
    lemma_fundamental_div_mod(a as int, pow2(w) as int);
    lemma_mul_is_commutative(pow2(w) as int, (a / pow2(w)) as int);
}

/// The windows add up: all `ext / w` windows make `v` back where `v` fits
/// in `ext` bits.
pub proof fn lemma_top_windows_all(v: nat, w: nat, ext: nat)
    requires
        w >= 1,
        ext % w == 0,
        v < pow2(ext),
    ensures
        top_windows(v, w, ext, ext / w) == v,
        top_windows(v, w, ext, 0) == 0,
{
    lemma_fundamental_div_mod(ext as int, w as int);
    assert((ext / w) * w == ext) by (nonlinear_arith)
        requires
            ext == w * (ext / w) + 0,
    ;
    assert(pow2(0) == 1) by {
        lemma2_to64();
    }
    assert(((ext - (ext / w) * w) as nat) == 0nat);
    assert(top_windows(v, w, ext, ext / w) == v / pow2(0));
    lemma_div_basics(v as int);
    lemma_pow2_pos(ext);
    lemma_basic_div(v as int, pow2(ext) as int);
    assert(((ext - 0 * w) as nat) == ext);
}

/// Horner's rule over the `w`-bit windows of `v`: `k` windows, most
/// significant first, each shifting the sum up by `w` bits.
pub open spec fn horner(v: nat, w: nat, ext: nat, k: nat) -> int
    decreases k,
{
    if k == 0 {
        0
    } else {
        horner(v, w, ext, (k - 1) as nat) * pow2(w) + window(v, w, ext, (k - 1) as nat)
    }
}

/// Horner's rule over the first `t` windows gives the top `t` windows.
pub proof fn lemma_horner(v: nat, w: nat, ext: nat, t: nat)
    requires
        w >= 1,
        ext % w == 0,
        t <= ext / w,
        v < pow2(ext),
    ensures
        horner(v, w, ext, t) == top_windows(v, w, ext, t),
    decreases t,
{
    if t == 0 {
        lemma_top_windows_all(v, w, ext);
    } else {
        lemma_horner(v, w, ext, (t - 1) as nat);
        lemma_top_windows_step(v, w, ext, t);
    }
}

/// The accumulator of [`WinBigIntImpl::OP_TMUL`] after `k` windows:
/// `z = 2^w * z + x * y[i] - q * p[i]` for each window `i`.
pub open spec fn win_schedule(x: int, y: nat, q: int, p: nat, w: nat, ext: nat, k: nat) -> int
    decreases k,
{
    if k == 0 {
        0
    } else {
        win_schedule(x, y, q, p, w, ext, (k - 1) as nat) * pow2(w) + x * window(
            y,
            w,
            ext,
            (k - 1) as nat,
        ) - q * window(p, w, ext, (k - 1) as nat)
    }
}

/// The accumulator is `x` times Horner's rule on `y` less `q` times Horner's
/// rule on `p`.
proof fn lemma_win_schedule_linear(x: int, y: nat, q: int, p: nat, w: nat, ext: nat, k: nat)
    ensures
        win_schedule(x, y, q, p, w, ext, k) == x * horner(y, w, ext, k) - q * horner(p, w, ext, k),
    decreases k,
{
    if k > 0 {
        let j = (k - 1) as nat;
        lemma_win_schedule_linear(x, y, q, p, w, ext, j);
        let hy = horner(y, w, ext, j);
        let hp = horner(p, w, ext, j);
        let pw = pow2(w) as int;
        let wy = window(y, w, ext, j) as int;
        let wp = window(p, w, ext, j) as int;
        assert((x * hy - q * hp) * pw + x * wy - q * wp == x * (hy * pw + wy) - q * (hp * pw + wp))
            by (nonlinear_arith);
    }
}

/// Windowed multiplication with one window width: after all windows the
/// accumulator is `x * y - q * p`, where `y` and `p` fit in `ext` bits.
pub proof fn lemma_win_schedule(x: int, y: nat, q: int, p: nat, w: nat, ext: nat)
    requires
        w >= 1,
        ext % w == 0,
        y < pow2(ext),
        p < pow2(ext),
    ensures
        win_schedule(x, y, q, p, w, ext, ext / w) == x * y - q * p,
{
    lemma_win_schedule_linear(x, y, q, p, w, ext, ext / w);
    lemma_horner(y, w, ext, ext / w);
    lemma_horner(p, w, ext, ext / w);
    lemma_top_windows_all(y, w, ext);
    lemma_top_windows_all(p, w, ext);
}

/// The accumulator of [`Fq::OP_TMUL`] before iteration `k`, the iterations
/// running from `skip` to `ext`: at `i` a multiple of `mw`, subtract `q`
/// times the window of `p` that ends there; at `i` a multiple of `vw`, add
/// `x` times the window of `y` that ends there; then double unless `i` is
/// the last.
pub open spec fn fq_schedule(
    x: int,
    y: nat,
    q: int,
    p: nat,
    vw: nat,
    mw: nat,
    ext: nat,
    skip: nat,
    k: nat,
) -> int
    decreases k,
{
    if k <= skip {
        0
    } else {
        let i = (k - 1) as nat;
        let z = fq_schedule(x, y, q, p, vw, mw, ext, skip, i);
        let z1 = if i % mw == 0 {
            z - q * window(p, mw, ext, (i / mw - 1) as nat)
        } else {
            z
        };
        let z2 = if i % vw == 0 {
            z1 + x * window(y, vw, ext, (i / vw - 1) as nat)
        } else {
            z1
        };
        if i < ext {
            2 * z2
        } else {
            z2
        }
    }
}

/// The accumulator of one operand alone: its window ending at each
/// multiple of `w` added, then doubled unless last.
pub open spec fn one_schedule(v: nat, w: nat, ext: nat, skip: nat, k: nat) -> int
    decreases k,
{
    if k <= skip {
        0
    } else {
        let i = (k - 1) as nat;
        let z = one_schedule(v, w, ext, skip, i);
        let z1 = if i % w == 0 {
            z + window(v, w, ext, (i / w - 1) as nat)
        } else {
            z
        };
        if i < ext {
            2 * z1
        } else {
            z1
        }
    }
}

/// The two-width accumulator is `x` times that of `y` less `q` times that
/// of `p`.
proof fn lemma_fq_schedule_linear(
    x: int,
    y: nat,
    q: int,
    p: nat,
    vw: nat,
    mw: nat,
    ext: nat,
    skip: nat,
    k: nat,
)
    ensures
        fq_schedule(x, y, q, p, vw, mw, ext, skip, k) == x * one_schedule(y, vw, ext, skip, k) - q
            * one_schedule(p, mw, ext, skip, k),
    decreases k,
{
    if k > skip {
        let i = (k - 1) as nat;
        lemma_fq_schedule_linear(x, y, q, p, vw, mw, ext, skip, i);
        let a = one_schedule(y, vw, ext, skip, i);
        let b = one_schedule(p, mw, ext, skip, i);
        let wy = window(y, vw, ext, (i / vw - 1) as nat) as int;
        let wp = window(p, mw, ext, (i / mw - 1) as nat) as int;
        assert(x * (a + wy) == x * a + x * wy) by (nonlinear_arith);
        assert(q * (b + wp) == q * b + q * wp) by (nonlinear_arith);
        assert(x * (2 * a) == 2 * (x * a)) by (nonlinear_arith);
        assert(q * (2 * b) == 2 * (q * b)) by (nonlinear_arith);
        assert(x * (2 * (a + wy)) == 2 * (x * a + x * wy)) by (nonlinear_arith);
        assert(q * (2 * (b + wp)) == 2 * (q * b + q * wp)) by (nonlinear_arith);
    }
}

/// Before iteration `k`, the one-operand accumulator holds the windows that
/// have ended, shifted up by the doublings since.
proof fn lemma_one_schedule(v: nat, w: nat, ext: nat, skip: nat, k: nat)
    requires
        w >= 1,
        ext % w == 0,
        1 <= skip <= w,
        skip <= k <= ext,
        v < pow2(ext),
    ensures
        one_schedule(v, w, ext, skip, k) == top_windows(v, w, ext, ((k - 1) / (w as int)) as nat)
            * pow2((k - ((k - 1) / (w as int)) * w) as nat),
    decreases k,
{
    let t = ((k - 1) / (w as int)) as nat;
    lemma_div_pos_is_pos((k - 1) as int, w as int);
    assert(t == (k - 1) / (w as int));
    lemma_fundamental_div_mod((k - 1) as int, w as int);
    if k == skip {
        assert(t == 0) by {
            lemma_basic_div((k - 1) as int, w as int);
        }
        lemma_top_windows_all(v, w, ext);
    } else {
        let i = (k - 1) as nat;
        lemma_one_schedule(v, w, ext, skip, i);
        let t0 = ((i - 1) / (w as int)) as nat;
        lemma_fundamental_div_mod((i - 1) as int, w as int);
        lemma_fundamental_div_mod(i as int, w as int);
        lemma_fundamental_div_mod(ext as int, w as int);
        assert(i < ext);
        if i % w == 0 {
            assert(t0 + 1 == i / w && t == i / w) by (nonlinear_arith)
                requires
                    i == w * (i / w) + 0,
                    (i - 1) == w * t0 + (i - 1) % (w as int),
                    0 <= (i - 1) % (w as int) < w,
                    k - 1 == w * t + (k - 1) % (w as int),
                    0 <= (k - 1) % (w as int) < w,
                    k == i + 1,
                    i >= 1,
            ;
            assert(i - t0 * w == w) by (nonlinear_arith)
                requires
                    t0 + 1 == i / w,
                    i == w * (i / w),
            ;
            assert(t <= ext / w) by (nonlinear_arith)
                requires
                    t == i / w,
                    i < ext,
                    ext == w * (ext / w) + 0,
                    i == w * (i / w),
            ;
            lemma_top_windows_step(v, w, ext, t);
            assert(window(v, w, ext, (i / w - 1) as nat) == window(v, w, ext, (t - 1) as nat));
            assert(k - t * w == 1) by (nonlinear_arith)
                requires
                    t == i / w,
                    i == w * (i / w),
                    k == i + 1,
            ;
            assert(pow2(1) == 2) by {
                lemma2_to64();
            }
            let tw = top_windows(v, w, ext, t);
            assert(one_schedule(v, w, ext, skip, i) == top_windows(v, w, ext, t0) * pow2(w));
            assert(tw * pow2(1) == 2 * tw);
            assert(one_schedule(v, w, ext, skip, k) == tw * pow2((k - t * w) as nat));
        } else {
            assert(t0 == t) by (nonlinear_arith)
                requires
                    i == w * (i / w) + i % w,
                    0 < i % w < w,
                    (i - 1) == w * t0 + (i - 1) % (w as int),
                    0 <= (i - 1) % (w as int) < w,
                    k - 1 == w * t + (k - 1) % (w as int),
                    0 <= (k - 1) % (w as int) < w,
                    k == i + 1,
            ;
            let e = (i - t * w) as nat;
            assert(k - t * w == e + 1);
            lemma_pow2_unfold(e + 1);
            assert(2 * (top_windows(v, w, ext, t) * pow2(e)) == top_windows(v, w, ext, t) * pow2(
                e + 1,
            )) by (nonlinear_arith)
                requires
                    pow2(e + 1) == 2 * pow2(e),
            ;
            assert(one_schedule(v, w, ext, skip, i) == top_windows(v, w, ext, t) * pow2(e));
        }
    }
}

/// Windowed multiplication with two window widths: after all iterations the
/// accumulator is `x * y - q * p`, where `y` and `p` fit in `ext` bits.
pub proof fn lemma_fq_schedule(
    x: int,
    y: nat,
    q: int,
    p: nat,
    vw: nat,
    mw: nat,
    ext: nat,
    skip: nat,
)
    requires
        vw >= 1,
        mw >= 1,
        ext % vw == 0,
        ext % mw == 0,
        1 <= skip <= vw,
        skip <= mw,
        skip <= ext,
        y < pow2(ext),
        p < pow2(ext),
    ensures
        fq_schedule(x, y, q, p, vw, mw, ext, skip, ext + 1) == x * y - q * p,
{
    lemma_fq_schedule_linear(x, y, q, p, vw, mw, ext, skip, ext + 1);
    lemma_one_schedule_end(y, vw, ext, skip);
    lemma_one_schedule_end(p, mw, ext, skip);
}

/// After the last iteration the one-operand accumulator is the operand.
proof fn lemma_one_schedule_end(v: nat, w: nat, ext: nat, skip: nat)
    requires
        w >= 1,
        ext % w == 0,
        1 <= skip <= w,
        skip <= ext,
        v < pow2(ext),
    ensures
        one_schedule(v, w, ext, skip, ext + 1) == v,
{
    lemma_one_schedule(v, w, ext, skip, ext);
    lemma_fundamental_div_mod(ext as int, w as int);
    lemma_fundamental_div_mod((ext - 1) as int, w as int);
    let m = ext / w;
    let t = ((ext - 1) / (w as int)) as nat;
    assert(t + 1 == m && ext - t * w == w) by (nonlinear_arith)
        requires
            ext == w * m + 0,
            ext - 1 == w * t + (ext - 1) % (w as int),
            0 <= (ext - 1) % (w as int) < w,
            ext >= 1,
    ;
    lemma_top_windows_step(v, w, ext, m);
    lemma_top_windows_all(v, w, ext);
}

} // verus!

verus! {

/// The BN254 prime fits in 254 bits.
pub proof fn lemma_modulus_bits()
    ensures
        bn254_modulus() < pow2(254),
{
    lemma2_to64();
    lemma_pow2_adds(64, 64);
    lemma_pow2_adds(128, 64);
    lemma_pow2_adds(192, 32);
    lemma_pow2_adds(224, 30);
}

/// `2^a <= 2^b` where `a <= b`.
pub proof fn lemma_pow2_le(a: nat, b: nat)
    requires
        a <= b,
    ensures
        pow2(a) <= pow2(b),
{
    if a < b {
        lemma_pow2_strictly_increases(a, b);
    }
}

/// What [`WinBigIntImpl::OP_TMUL`] computes: its main loop sets
/// `z = 2^window * z + x * y[i] - q * p[i]` for each window `i`, most
/// significant first, where `p[i]` is the window of the modulus that
/// `bit_decomp_modulus` reads and `y[i]` the window of `y`; with the
/// quotient `q = x * y / p` the last `z` is `x * y mod p`.
pub proof fn lemma_win_tmul_computes(wb: WinBigIntImpl, x: nat, y: nat)
    requires
        wb.params_ok(),
        wb.n_bits >= 254,
        y < pow2(wb.n_bits as nat),
    ensures
        forall|i: nat|
            i < wb.windows() ==> #[trigger] modulus_window(wb.window as nat, wb.windows(), i)
                == window(bn254_modulus(), wb.window as nat, wb.windows() * (wb.window as nat), i),
        win_schedule(
            x as int,
            y,
            (x * y / bn254_modulus()) as int,
            bn254_modulus(),
            wb.window as nat,
            wb.windows() * (wb.window as nat),
            wb.windows(),
        ) == (x * y) % bn254_modulus(),
{
    let w = wb.window as nat;
    let nw = wb.windows();
    let n = wb.n_bits as nat;
    let ext = nw * w;
    let p = bn254_modulus();
    lemma_fundamental_div_mod((n + w - 1) as int, w as int);
    assert(ext >= n) by (nonlinear_arith)
        requires
            n + w - 1 == w * nw + (n + w - 1) % (w as int),
            (n + w - 1) % (w as int) < w,
            ext == nw * w,
    ;
    assert(ext / w == nw) by {
        lemma_div_multiples_vanish(nw as int, w as int);
        lemma_mul_is_commutative(nw as int, w as int);
    }
    assert(ext % w == 0) by {
        lemma_mod_multiples_basic(nw as int, w as int);
    }
    lemma_modulus_bits();
    lemma_pow2_le(254, ext);
    lemma_pow2_le(n, ext);
    lemma_win_schedule(x as int, y, (x * y / p) as int, p, w, ext);
    lemma_fundamental_div_mod((x * y) as int, p as int);
}

/// What [`Fq::OP_TMUL`] computes: its main loop runs `i` from the smaller
/// window width up to the extended width, subtracts `q` times the window
/// of the modulus that `get_mod_window` reads where `i` ends one, adds `x`
/// times the window of `y` where `i` ends one, and doubles unless `i` is
/// last; with the quotient `q = x * y / p` the last value is `x * y mod p`.
pub proof fn lemma_fq_tmul_computes(f: Fq, x: nat, y: nat)
    requires
        f.params_ok(),
        f.n_bits >= 254,
        y < pow2(f.n_bits as nat),
    ensures
        forall|k: nat|
            #[trigger] f.mod_window(k) == window(bn254_modulus(), f.mod_width as nat, f.ext(), k),
        fq_schedule(
            x as int,
            y,
            (x * y / bn254_modulus()) as int,
            bn254_modulus(),
            f.var_width as nat,
            f.mod_width as nat,
            f.ext(),
            f.skip(),
            f.ext() + 1,
        ) == (x * y) % bn254_modulus(),
{
    let p = bn254_modulus();
    f.lemma_ext();
    lemma_modulus_bits();
    lemma_pow2_le(254, f.ext());
    lemma_pow2_le(f.n_bits as nat, f.ext());
    lemma_fq_schedule(
        x as int,
        y,
        (x * y / p) as int,
        p,
        f.var_width as nat,
        f.mod_width as nat,
        f.ext(),
        f.skip(),
    );
    lemma_fundamental_div_mod((x * y) as int, p as int);
}

/// The windows of the modulus that [`Fq::get_mod_window`] reads, most
/// significant first, make the modulus back by Horner's rule.
pub proof fn lemma_fq_mod_windows_make_modulus(f: Fq)
    requires
        f.params_ok(),
        f.n_bits >= 254,
    ensures
        forall|k: nat|
            #[trigger] f.mod_window(k) == window(bn254_modulus(), f.mod_width as nat, f.ext(), k),
        horner(bn254_modulus(), f.mod_width as nat, f.ext(), f.ext() / (f.mod_width as nat))
            == bn254_modulus(),
{
    f.lemma_ext();
    lemma_modulus_bits();
    lemma_pow2_le(254, f.ext());
    lemma_horner(bn254_modulus(), f.mod_width as nat, f.ext(), f.ext() / (f.mod_width as nat));
    lemma_top_windows_all(bn254_modulus(), f.mod_width as nat, f.ext());
}

/// The windows of the modulus that `bit_decomp_modulus` of
/// [`WinBigIntImpl`] reads, most significant first, make the modulus back
/// by Horner's rule.
pub proof fn lemma_win_mod_windows_make_modulus(wb: WinBigIntImpl)
    requires
        wb.params_ok(),
        wb.n_bits >= 254,
    ensures
        forall|i: nat|
            i < wb.windows() ==> #[trigger] modulus_window(wb.window as nat, wb.windows(), i)
                == window(bn254_modulus(), wb.window as nat, wb.windows() * (wb.window as nat), i),
        horner(bn254_modulus(), wb.window as nat, wb.windows() * (wb.window as nat), wb.windows())
            == bn254_modulus(),
{
    lemma_pow2_pos(wb.n_bits as nat);
    lemma_win_tmul_computes(wb, 0, 0);
    let w = wb.window as nat;
    let ext = wb.windows() * w;
    assert(ext / w == wb.windows()) by {
        lemma_div_multiples_vanish(wb.windows() as int, w as int);
        lemma_mul_is_commutative(wb.windows() as int, w as int);
    }
    assert(ext % w == 0) by {
        lemma_mod_multiples_basic(wb.windows() as int, w as int);
    }
    lemma_fundamental_div_mod((wb.n_bits + w - 1) as int, w as int);
    assert(ext >= wb.n_bits) by (nonlinear_arith)
        requires
            wb.n_bits + w - 1 == w * wb.windows() + (wb.n_bits + w - 1) % (w as int),
            (wb.n_bits + w - 1) % (w as int) < w,
            ext == wb.windows() * w,
    ;
    lemma_modulus_bits();
    lemma_pow2_le(254, ext);
    lemma_horner(bn254_modulus(), w, ext, wb.windows());
    lemma_top_windows_all(bn254_modulus(), w, ext);
}

} // verus!
