//! What the field multiplier computes as a whole: from the quotient `q`
//! and the operands `x`, `y` it leaves `x * y - q * p` modulo `2^ext`,
//! where that lies below `p`, and fails otherwise; with `q = x * y / p`
//! that is `x * y mod p`.
use crate::bigint::doubling::lemma_lsb_value_bound;
use crate::bigint::{lsb_value, on_stack};
use crate::biguint::digits_value;
use crate::bn254::bn254_modulus;
use crate::bn254::quotient::zero_limbs;
use crate::routines::{
    block, limbs_of, number_items, routine_effect, valid_at, value_at, without_block, without_two,
};
use crate::bn254::fp254_op_tmul::{resize_ops, Fq};
use crate::bn254::tables::table_holds;
use crate::script::{run, step, st, Op, Routine};
use crate::stack::{lemma_run1, lemma_run2, lemma_run_seq};
use vstd::arithmetic::div_mod::{
    lemma_fundamental_div_mod_converse_div, lemma_fundamental_div_mod_converse_mod,
};
use vstd::arithmetic::power::{lemma_pow_positive, pow};
use vstd::arithmetic::power2::*;
use vstd::prelude::*;

verus! {

/// Valid limbs are the limbs of their value: a big integer has one
/// representation.
pub proof fn lemma_limbs_unique(s: crate::bigint::BigIntImpl, l: Seq<int>)
    requires
        s.shape_ok(),
        s.limb_size <= 30,
        s.limbs_ok(l),
    ensures
        0 <= s.value(l),
        l == limbs_of(s, s.value(l) as nat),
{
    s.lemma_bounds();
    s.lemma_head_bits();
    crate::bn254::tables::lemma_value_below(s, l);
    let b = s.base() as int;
    let v = s.value(l);
    lemma_pow2_pos(s.limb_size as nat);
    assert forall|i: int| 0 <= i < l.len() implies #[trigger] l[i] == (v / pow(b, i as nat)) % b by {
        let k = i as nat;
        crate::bigint::decomp::lemma_lsb_value_split(l, b, k);
        lemma_lsb_value_bound(l, b, k);
        let lo = lsb_value(l.subrange(0, i), b);
        let tail = l.subrange(i, l.len() as int);
        let hi = lsb_value(tail, b);
        let rest = tail.subrange(1, tail.len() as int);
        assert(rest =~= l.subrange(i + 1, l.len() as int));
        assert(forall|j: int| 0 <= j < rest.len() ==> 0 <= #[trigger] rest[j] < b);
        lemma_lsb_value_bound(rest, b, rest.len());
        assert(rest.subrange(0, rest.len() as int) =~= rest);
        let hr = lsb_value(rest, b);
        assert(hi == l[i] + b * hr);
        let pk = pow(b, k);
        lemma_pow_positive(b, k);
        assert(v == hr * b * pk + l[i] * pk + lo) by (nonlinear_arith)
            requires
                v == lo + pk * hi,
                hi == l[i] + b * hr,
        ;
        assert(v == hi * pk + lo) by (nonlinear_arith)
            requires
                v == lo + pk * hi,
        ;
        lemma_fundamental_div_mod_converse_div(v, pk, hi, lo);
        assert(hi == hr * b + l[i]) by (nonlinear_arith)
            requires
                hi == l[i] + b * hr,
        ;
        lemma_fundamental_div_mod_converse_mod(hi, b, hr, l[i]);
    }
    assert(l =~= limbs_of(s, v as nat));
}

/// Valid limbs of a shape are valid limbs, of the same value, of a wider
/// shape with as many limbs of the same size.
pub proof fn lemma_widen_limbs(u: crate::bigint::BigIntImpl, w: crate::bigint::BigIntImpl, l: Seq<int>)
    requires
        u.shape_ok(),
        w.shape_ok(),
        u.limb_size == w.limb_size,
        u.limbs() == w.limbs(),
        u.n_bits <= w.n_bits,
        u.limbs_ok(l),
    ensures
        w.limbs_ok(l),
        w.value(l) == u.value(l),
{
    u.lemma_head_bits();
    w.lemma_head_bits();
    if u.head_bits() < w.head_bits() {
        lemma_pow2_strictly_increases(u.head_bits() as nat, w.head_bits() as nat);
    }
    assert forall|i: int| 0 <= i < l.len() implies 0 <= #[trigger] l[i] < (if i == l.len() - 1 {
        w.head_bound() as int
    } else {
        w.base() as int
    }) by {}
}

/// The library's move of the big integer on top of the alt stack back to
/// the main stack.
pub proof fn lemma_fromalt_routine(s: crate::bigint::BigIntImpl, m: Seq<int>, al: Seq<int>, l: Seq<int>)
    requires
        s.shape_ok(),
        l.len() == s.limbs(),
    ensures
        step(
            Op::Routine(Routine::FromAltStack { n_bits: s.n_bits, limb_size: s.limb_size }),
            st(m, al + l),
        ) == Some(st(m + on_stack(l), al)),
{
    reveal(routine_effect);
    let full = al + l;
    assert(full.subrange(full.len() - s.limbs(), full.len() as int) =~= l);
    assert(full.subrange(0, full.len() - s.limbs()) =~= al);
}

/// The library's subtraction of the big integer `v` held by valid limbs `l`
/// from zero pushed above it: `-v` modulo `2^n_bits` takes their place.
#[verifier::spinoff_prover]
#[verifier::rlimit(50)]
pub proof fn lemma_negate_routine(s: crate::bigint::BigIntImpl, m: Seq<int>, l: Seq<int>, al: Seq<int>)
    requires
        s.shape_ok(),
        s.limb_size <= 30,
        s.limbs_ok(l),
    ensures
        step(
            Op::Routine(Routine::Sub { n_bits: s.n_bits, limb_size: s.limb_size, a: 0, b: 1 }),
            st(m + on_stack(l) + zero_limbs(s.limbs()), al),
        ) == Some(
            st(
                m + number_items(
                    s,
                    ((0 - s.value(l)) % (pow2(s.n_bits as nat) as int)) as nat,
                ),
                al,
            ),
        ),
{
    let n = s.limbs();
    let zeros = zero_limbs(n);
    let z2 = m + on_stack(l) + zeros;
    let v = s.value(l);
    s.lemma_head_bits();
    crate::bn254::quotient::lemma_zero_limbs(s);
    crate::bn254::tables::lemma_on_stack_involution(l);
    assert((0 + 1) * n == n && 0 * n == 0 && (1 + 1) * n == 2 * n && 1 * n == n) by (nonlinear_arith);
    assert(block(z2, n, 0) =~= zeros);
    assert(block(z2, n, 1) =~= on_stack(l));
    assert(without_block(z2, n, 1) =~= m + zeros);
    assert(without_block(without_block(z2, n, 1), n, 0) =~= m);
    assert(valid_at(s, z2, 0) && value_at(s, z2, 0) == 0);
    assert(valid_at(s, z2, 1) && value_at(s, z2, 1) == v);
    assert(without_two(z2, n, 0, 1) == m);
    reveal(routine_effect);
}


/// The setup of [`Fq::OP_TMUL`] after its check of the quotient: `-q` and
/// `x` are extended to their tables of multiples, `y` comes back from the
/// alt stack, and the accumulator starts at zero.
pub open spec fn fq_setup_ops(f: Fq) -> Seq<Op> {
    let u = f.u().shape();
    let w = f.tw().shape();
    let t = f.table();
    let up = resize_ops(f.u().limbs(), f.tw().limbs());
    up + w.push_zero_ops() + w.sub_ops(0, 1) + t.initialize_ops(f.mod_width) + u.fromalt_ops() + up
        + t.initialize_ops(f.var_width) + u.fromalt_ops() + up + w.push_zero_ops()
}

/// The setup of [`Fq::OP_TMUL`]: from `{q}` with `y`, then `x`, on the alt
/// stack, it leaves the table of multiples of `-q mod 2^ext`, the table of
/// multiples of `x`, `y` and a zero accumulator, the alt stack as it was
/// under `y` and `x`.
#[verifier::spinoff_prover]
#[verifier::rlimit(100)]
pub proof fn lemma_fq_setup_computes(
    f: Fq,
    mm: Seq<int>,
    lq: Seq<int>,
    lx: Seq<int>,
    ly: Seq<int>,
    a: Seq<int>,
) -> (r: (Seq<int>, Seq<int>))
    requires
        f.tmul_ok(),
        f.limb_size <= 30,
        f.u().limbs() == f.tw().limbs(),
        128 * f.tw().limbs() + 3 <= 0x7fff_ffff,
        f.u().shape().limbs_ok(lq),
        f.u().shape().limbs_ok(lx),
        f.u().shape().limbs_ok(ly),
    ensures
        ({
            let u = f.u().shape();
            let big = pow2(f.ext()) as int;
            &&& run(fq_setup_ops(f), st(mm + on_stack(lq), a + ly + lx)) == Some(
                st(mm + r.0 + r.1 + on_stack(ly) + zero_limbs(f.tw().limbs()), a),
            )
            &&& table_holds(f.tw(), mm + r.0, mm, (0 - u.value(lq)) % big, pow2(f.mod_width as nat))
            &&& table_holds(f.tw(), mm + r.0 + r.1, mm + r.0, u.value(lx), pow2(f.var_width as nat))
        }),
{
    let u = f.u().shape();
    let w = f.tw().shape();
    let t = f.table();
    let n = w.limbs();
    let big = pow2(f.ext()) as int;
    f.lemma_ext();
    u.lemma_head_bits();
    w.lemma_head_bits();
    lemma_pow2_pos(f.ext());
    assert(t.w() == f.tw());
    assert(resize_ops(f.u().limbs(), f.tw().limbs()) =~= Seq::<Op>::empty());
    lemma_widen_limbs(u, w, lq);
    lemma_widen_limbs(u, w, lx);
    lemma_widen_limbs(u, w, ly);
    let q = u.value(lq);
    let al2 = a + ly + lx;
    // `-q`.
    let s0 = st(mm + on_stack(lq), al2);
    let s1 = st(mm + on_stack(lq) + zero_limbs(n), al2);
    crate::bn254::quotient::lemma_push_zero_routine(w, mm + on_stack(lq), al2);
    lemma_negate_routine(w, mm, lq, al2);
    let zq = ((0 - q) % big) as nat;
    assert(w.n_bits == f.ext());
    let s2 = st(mm + number_items(w, zq), al2);
    lemma_run2(
        Op::Routine(Routine::PushZero { n_bits: w.n_bits, limb_size: w.limb_size }),
        Op::Routine(Routine::Sub { n_bits: w.n_bits, limb_size: w.limb_size, a: 0, b: 1 }),
        s0,
        s1,
        s2,
    );
    // Its table.
    crate::bn254::tables::lemma_limbs_of(w, zq);
    crate::bn254::tables::lemma_lookup_initialize_computes(t, f.mod_width, mm, limbs_of(w, zq), al2);
    let main1 = choose|main: Seq<int>|
        run(t.initialize_ops(f.mod_width), st(mm + on_stack(limbs_of(w, zq)), al2)) == Some(st(main, al2))
            && table_holds(t.w(), main, mm, w.value(limbs_of(w, zq)), pow2(f.mod_width as nat));
    // `x` and its table.
    lemma_fromalt_routine(u, main1, a + ly, lx);
    lemma_run1(
        Op::Routine(Routine::FromAltStack { n_bits: u.n_bits, limb_size: u.limb_size }),
        st(main1, al2),
        st(main1 + on_stack(lx), a + ly),
    );
    crate::bn254::tables::lemma_lookup_initialize_computes(t, f.var_width, main1, lx, a + ly);
    let main2 = choose|main: Seq<int>|
        run(t.initialize_ops(f.var_width), st(main1 + on_stack(lx), a + ly)) == Some(st(main, a + ly))
            && table_holds(t.w(), main, main1, w.value(lx), pow2(f.var_width as nat));
    // `y` and the accumulator.
    lemma_fromalt_routine(u, main2, a, ly);
    crate::bn254::quotient::lemma_push_zero_routine(w, main2 + on_stack(ly), a);
    lemma_run2(
        Op::Routine(Routine::FromAltStack { n_bits: u.n_bits, limb_size: u.limb_size }),
        Op::Routine(Routine::PushZero { n_bits: w.n_bits, limb_size: w.limb_size }),
        st(main2, a + ly),
        st(main2 + on_stack(ly), a),
        st(main2 + on_stack(ly) + zero_limbs(n), a),
    );
    let neg = w.push_zero_ops() + w.sub_ops(0, 1);
    let fx = u.fromalt_ops();
    let last = u.fromalt_ops() + w.push_zero_ops();
    assert(neg =~= seq![
        Op::Routine(Routine::PushZero { n_bits: w.n_bits, limb_size: w.limb_size }),
        Op::Routine(Routine::Sub { n_bits: w.n_bits, limb_size: w.limb_size, a: 0, b: 1 }),
    ]);
    assert(last =~= seq![
        Op::Routine(Routine::FromAltStack { n_bits: u.n_bits, limb_size: u.limb_size }),
        Op::Routine(Routine::PushZero { n_bits: w.n_bits, limb_size: w.limb_size }),
    ]);
    lemma_run_seq(neg, t.initialize_ops(f.mod_width), s0, s2, st(main1, al2));
    lemma_run_seq(neg + t.initialize_ops(f.mod_width), fx, s0, st(main1, al2), st(main1 + on_stack(lx), a + ly));
    lemma_run_seq(
        neg + t.initialize_ops(f.mod_width) + fx,
        t.initialize_ops(f.var_width),
        s0,
        st(main1 + on_stack(lx), a + ly),
        st(main2, a + ly),
    );
    lemma_run_seq(
        neg + t.initialize_ops(f.mod_width) + fx + t.initialize_ops(f.var_width),
        last,
        s0,
        st(main2, a + ly),
        st(main2 + on_stack(ly) + zero_limbs(n), a),
    );
    assert(fq_setup_ops(f) =~= neg + t.initialize_ops(f.mod_width) + fx + t.initialize_ops(f.var_width)
        + last);
    let tq = main1.subrange(mm.len() as int, main1.len() as int);
    let tx = main2.subrange(main1.len() as int, main2.len() as int);
    assert(main1 =~= mm + tq);
    assert(main2 =~= mm + tq + tx);
    assert(w.value(limbs_of(w, zq)) == (0 - q) % big);
    (tq, tx)
}


/// [`Fq::OP_TMUL`] on `{q} {x} {y}`, each held by valid limbs: it fails
/// unless `q < p` and `r = (x * y - q * p) mod 2^ext` lies below `p`, and
/// otherwise leaves `r` alone, held by its limbs, the alt stack as it
/// found it.
#[verifier::spinoff_prover]
#[verifier::rlimit(100)]
pub proof fn lemma_fq_tmul_runs(
    f: Fq,
    m1: Vec<u32>,
    m2: Vec<u32>,
    mm: Seq<int>,
    lq: Seq<int>,
    lx: Seq<int>,
    ly: Seq<int>,
    a: Seq<int>,
)
    requires
        f.tmul_ok(),
        f.n_bits >= 254,
        f.limb_size <= 30,
        f.limb_size >= f.var_width,
        f.u().limbs() == f.tw().limbs(),
        128 * f.tw().limbs() + 3 <= 0x7fff_ffff,
        digits_value(m1@) == bn254_modulus(),
        digits_value(m2@) == bn254_modulus(),
        f.u().shape().limbs_ok(lq),
        f.u().shape().limbs_ok(lx),
        f.u().shape().limbs_ok(ly),
    ensures
        ({
            let u = f.u().shape();
            let p = bn254_modulus();
            let q = u.value(lq);
            let r = (u.value(lx) * u.value(ly) - q * p) % (pow2(f.ext()) as int);
            run(f.tmul_ops(m1, m2), st(mm + on_stack(lq) + on_stack(lx) + on_stack(ly), a)) == if q < p
                && r < p {
                Some(st(mm + number_items(u, r as nat), a))
            } else {
                None
            }
        }),
{
    let u = f.u().shape();
    let w = f.tw().shape();
    let n = w.limbs();
    let p = bn254_modulus();
    let big = pow2(f.ext()) as int;
    let q = u.value(lq);
    let x = u.value(lx);
    let y = u.value(ly);
    let r = (x * y - q * p) % big;
    let s0 = st(mm + on_stack(lq) + on_stack(lx) + on_stack(ly), a);
    f.lemma_ext();
    lemma_pow2_pos(f.ext());
    crate::bn254::quotient::lemma_fq_checks_quotient(f, m1, m2, mm, lq, lx, ly, a);
    if q < p {
        let qc = crate::bn254::quotient::quotient_check_ops(f, m1);
        let s1 = st(mm + on_stack(lq), a + ly + lx);
        // The setup.
        let (tq, tx) = lemma_fq_setup_computes(f, mm, lq, lx, ly, a);
        let zeros = zero_limbs(n);
        crate::bn254::quotient::lemma_zero_limbs(w);
        lemma_widen_limbs(u, w, lx);
        lemma_widen_limbs(u, w, ly);
        let base = mm + tq + tx + on_stack(ly);
        let s2 = st(base + on_stack(zeros), a);
        assert(mm + tq + tx + on_stack(ly) + zero_limbs(n) == base + on_stack(zeros));
        // The main loop.
        let zq = (0 - q) % big;
        crate::windows::lemma_pow2_le(f.var_width as nat, 6);
        crate::windows::lemma_pow2_le(f.mod_width as nat, 6);
        lemma2_to64();
        assert((pow2(f.var_width as nat) + pow2(f.mod_width as nat)) * n + 3 <= 0x7fff_ffff)
            by (nonlinear_arith)
            requires
                pow2(f.var_width as nat) <= 64,
                pow2(f.mod_width as nat) <= 64,
                128 * n + 3 <= 0x7fff_ffff,
        ;
        assert(f.table().w() == f.tw());
        crate::bn254::main_loop::lemma_fq_loop_computes(
            f,
            f.ext() + 1,
            mm,
            tq,
            zq,
            tx,
            x,
            ly,
            zeros,
            a,
            q,
        );
        let zf = crate::bn254::main_loop::loop_limbs(
            f,
            f.ext() + 1,
            mm + tq,
            mm.len(),
            mm + tq + tx,
            (mm + tq).len(),
            ly,
            zeros,
        );
        let nw = f.var_windows();
        assert(crate::bn254::main_loop::windows_done(f, f.ext() + 1) == nw);
        let s3 = st(base + on_stack(zf), a);
        // The schedule ends at `x * y - q * p`.
        crate::bn254::tables::lemma_value_below(w, ly);
        crate::windows::lemma_modulus_bits();
        crate::windows::lemma_pow2_le(254, f.ext());
        crate::windows::lemma_fq_schedule(
            x,
            w.value(ly) as nat,
            q,
            p,
            f.var_width as nat,
            f.mod_width as nat,
            f.ext(),
            f.skip(),
        );
        assert(w.value(zf) == r);
        // The close.
        crate::bn254::quotient::lemma_fq_close_computes(f, m1, m2, mm, tq, tx, on_stack(ly), zf, a);
        let low = zf.subrange(0, u.limbs() as int);
        if r < p {
            lemma_limbs_unique(u, low);
        }
        // The whole script.
        let all = f.tmul_ops(m1, m2);
        let setup = fq_setup_ops(f);
        let lp = f.loop_ops(f.ext() + 1);
        let close = crate::bn254::quotient::fq_close_ops(f, m2);
        assert(all =~= qc + setup + lp + close);
        lemma_run_seq(qc, setup, s0, s1, s2);
        lemma_run_seq(qc + setup, lp, s0, s2, s3);
        crate::script::lemma_run_append(qc + setup + lp, close, s0);
    }
}


/// [`Fq::OP_TMUL`] multiplies in the field: on `{x * y / p} {x} {y}` with
/// `x, y < p` it leaves `{x * y mod p}`, the alt stack as it found it.
pub proof fn lemma_fq_tmul_multiplies(
    f: Fq,
    m1: Vec<u32>,
    m2: Vec<u32>,
    mm: Seq<int>,
    x: nat,
    y: nat,
    a: Seq<int>,
)
    requires
        f.tmul_ok(),
        f.n_bits >= 254,
        f.limb_size <= 30,
        f.limb_size >= f.var_width,
        f.u().limbs() == f.tw().limbs(),
        128 * f.tw().limbs() + 3 <= 0x7fff_ffff,
        digits_value(m1@) == bn254_modulus(),
        digits_value(m2@) == bn254_modulus(),
        x < bn254_modulus(),
        y < bn254_modulus(),
    ensures
        ({
            let u = f.u().shape();
            let p = bn254_modulus();
            run(
                f.tmul_ops(m1, m2),
                st(mm + number_items(u, x * y / p) + number_items(u, x) + number_items(u, y), a),
            ) == Some(st(mm + number_items(u, (x * y) % p), a))
        }),
{
    let u = f.u().shape();
    let p = bn254_modulus();
    let q = x * y / p;
    crate::windows::lemma_modulus_bits();
    crate::windows::lemma_pow2_le(254, f.n_bits as nat);
    assert(x * y < p * p) by (nonlinear_arith)
        requires
            x < p,
            y < p,
    ;
    vstd::arithmetic::div_mod::lemma_fundamental_div_mod((x * y) as int, p as int);
    assert(q < p) by (nonlinear_arith)
        requires
            x * y == p * q + ((x * y) as int) % (p as int),
            0 <= ((x * y) as int) % (p as int),
            x * y < p * p,
            p > 0,
    ;
    crate::bn254::tables::lemma_limbs_of(u, q);
    crate::bn254::tables::lemma_limbs_of(u, x);
    crate::bn254::tables::lemma_limbs_of(u, y);
    lemma_fq_tmul_runs(f, m1, m2, mm, limbs_of(u, q), limbs_of(u, x), limbs_of(u, y), a);
    f.lemma_ext();
    crate::windows::lemma_pow2_le(254, f.ext());
    let big = pow2(f.ext()) as int;
    assert(x * y - q * p == ((x * y) as int) % (p as int)) by (nonlinear_arith)
        requires
            x * y == p * q + ((x * y) as int) % (p as int),
    ;
    vstd::arithmetic::div_mod::lemma_small_mod(((x * y) % p) as nat, big as nat);
}

} // verus!
