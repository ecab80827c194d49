//! What the table builders of the field multiplier compute: the multiples
//! `1*z, 2*z, ..., (2^window - 1)*z` of a big integer, modulo `2^n_bits`.
use crate::bigint::doubling::{doubled, lemma_lsb_value_bound, lemma_lsb_value_push};
use crate::bigint::op_tmul::{dbl_ops, table_entries_ops, table_entry_ops, PrecomputeTable};
use crate::bigint::{lsb_value, on_stack};
use crate::bn254::adding::{added, lemma_ref_add_computes};
use crate::bn254::fp254_op_tmul::{lookup_entries_ops, lookup_entry_ops, BigIntImpl, LookupTable};
use crate::bn254::laws::lemma_fp254_dbl_computes;
use crate::routines::{block, limbs_of, number_items, routine_effect, without_block};
use crate::script::{repeat, run, st, step, Op, Routine};
use crate::stack::{lemma_run1, lemma_run2, lemma_run_seq};
use vstd::arithmetic::div_mod::*;
use vstd::arithmetic::mul::*;
use vstd::arithmetic::power::*;
use vstd::arithmetic::power2::*;
use vstd::prelude::*;

verus! {

/// Reading the stack items of a big integer back gives its limbs.
pub proof fn lemma_on_stack_involution(l: Seq<int>)
    ensures
        on_stack(on_stack(l)) == l,
{
    assert(on_stack(on_stack(l)) =~= l);
}

/// Valid limbs make a value below `2^n_bits`.
pub proof fn lemma_value_below(s: crate::bigint::BigIntImpl, l: Seq<int>)
    requires
        s.shape_ok(),
        s.limb_size <= 30,
        s.limbs_ok(l),
    ensures
        0 <= s.value(l) < pow2(s.n_bits as nat),
{
    s.lemma_bounds();
    s.lemma_head_bits();
    let n = l.len();
    let b = s.base() as int;
    let j = (n - 1) as nat;
    let low = l.subrange(0, j as int);
    assert(l =~= low.push(l[j as int]));
    lemma_lsb_value_push(low, l[j as int], b);
    lemma_lsb_value_bound(l, b, j);
    let pj = pow(b, j);
    let v = crate::bigint::lsb_value(low, b);
    let hd = l[j as int];
    let h = s.head_bound() as int;
    assert(0 <= v + hd * pj < h * pj) by (nonlinear_arith)
        requires
            0 <= v < pj,
            0 <= hd < h,
    ;
}

/// Entry `j` (from `1`) of a table of `n`-limb entries laid on `m`.
pub open spec fn table_entry(main: Seq<int>, base_len: nat, n: nat, j: nat) -> Seq<int> {
    on_stack(main.subrange(base_len + (j - 1) * n, (base_len + j * n) as int))
}

/// Whether `main` is `m` with the entries `1*z` to `(k - 1)*z`, modulo
/// `2^n_bits`, of shape `bi` laid on it, `(k - 1)*z` on top.
pub open spec fn table_holds(bi: BigIntImpl, main: Seq<int>, m: Seq<int>, z: int, k: nat) -> bool {
    let n = bi.limbs();
    &&& main.len() == m.len() + (k - 1) * n
    &&& main.subrange(0, m.len() as int) == m
    &&& forall|j: nat|
        1 <= j < k ==> bi.shape().limbs_ok(#[trigger] table_entry(main, m.len(), n, j))
            && bi.shape().value(table_entry(main, m.len(), n, j)) == (j * z) % (pow2(
            bi.n_bits as nat,
        ) as int)
}

/// The library's copy routine: the big integer at depth `d` copied on top.
pub proof fn lemma_copy_routine(s: crate::bigint::BigIntImpl, main: Seq<int>, a: Seq<int>, d: u32)
    requires
        s.shape_ok(),
        (d + 1) * s.limbs() <= main.len(),
    ensures
        step(
            Op::Routine(Routine::Copy { n_bits: s.n_bits, limb_size: s.limb_size, depth: d }),
            st(main, a),
        ) == Some(st(main + block(main, s.limbs(), d as nat), a)),
{
    reveal(routine_effect);
}

/// Pushing the limbs `r` on a table adds entry `k`.
proof fn lemma_table_push(bi: BigIntImpl, main: Seq<int>, m: Seq<int>, z: int, k: nat, r: Seq<int>)
    requires
        k >= 1,
        table_holds(bi, main, m, z, k),
        r.len() == bi.limbs(),
        bi.shape().limbs_ok(r),
        bi.shape().value(r) == (k * z) % (pow2(bi.n_bits as nat) as int),
    ensures
        table_holds(bi, main + on_stack(r), m, z, k + 1),
{
    let n = bi.limbs();
    let main2 = main + on_stack(r);
    assert(main2.subrange(0, m.len() as int) =~= m);
    assert((k - 1) * n + n == ((k + 1) - 1) * n) by (nonlinear_arith);
    assert(main2.len() == m.len() + ((k + 1) - 1) * n);
    assert forall|j: nat| 1 <= j < k + 1 implies bi.shape().limbs_ok(
        #[trigger] table_entry(main2, m.len(), n, j),
    ) && bi.shape().value(table_entry(main2, m.len(), n, j)) == (j * z) % (pow2(
        bi.n_bits as nat,
    ) as int) by {
        assert((j - 1) * n + n == j * n) by (nonlinear_arith);
        assert((j - 1) * n >= 0) by (nonlinear_arith)
            requires
                j >= 1,
        ;
        if j < k {
            assert(j * n <= (k - 1) * n) by (nonlinear_arith)
                requires
                    j <= k - 1,
            ;
            assert(main2.subrange(m.len() + (j - 1) * n, (m.len() + j * n) as int) =~= main.subrange(
                m.len() + (j - 1) * n,
                (m.len() + j * n) as int,
            ));
            assert(table_entry(main2, m.len(), n, j) == table_entry(main, m.len(), n, j));
        } else {
            assert(j == k);
            assert(main2.subrange(m.len() + (j - 1) * n, (m.len() + j * n) as int) =~= on_stack(r));
            lemma_on_stack_involution(r);
        }
    }
}

/// Entry `k` of a lookup table, from the entries below it.
#[verifier::rlimit(30)]
proof fn lemma_lookup_entry(bi: BigIntImpl, main: Seq<int>, m: Seq<int>, z: int, a: Seq<int>, k: nat)
    requires
        bi.shape().shape_ok(),
        bi.limb_size <= 30,
        bi.limbs() >= 2,
        2 <= k <= 64,
        64 * bi.limbs() + 3 <= 0x7fff_ffff,
        table_holds(bi, main, m, z, k),
    ensures
        exists|main2: Seq<int>|
            run(lookup_entry_ops(bi, k), st(main, a)) == Some(st(main2, a)) && table_holds(
                bi,
                main2,
                m,
                z,
                k + 1,
            ),
{
    let s = bi.shape();
    let n = bi.limbs();
    let p = pow2(bi.n_bits as nat) as int;
    lemma_pow2_pos(bi.n_bits as nat);
    let len = main.len();
    if k % 2 == 0 {
        let h = k / 2;
        let d = (h - 1) as u32;
        assert((d + 1) * n <= len && len - (d + 1) * n == m.len() + (h - 1) * n && len - d * n
            == (m.len() + h * n) as int) by (nonlinear_arith)
            requires
                len == m.len() + (k - 1) * n,
                k == 2 * h,
                d + 1 == h,
                h >= 1,
        ;
        let e = table_entry(main, m.len(), n, h);
        lemma_copy_routine(s, main, a, d);
        lemma_on_stack_involution(main.subrange(m.len() + (h - 1) * n, (m.len() + h * n) as int));
        assert(block(main, n, d as nat) == on_stack(e));
        let copied = st(main + on_stack(e), a);
        lemma_run1(Op::Routine(Routine::Copy { n_bits: bi.n_bits, limb_size: bi.limb_size, depth: d }), st(main, a), copied);
        lemma_fp254_dbl_computes(bi, e, main, a);
        let r = doubled(e, s.base() as int, s.head_bound() as int);
        lemma_run_seq(s.copy_ops(d), bi.dbl_ops(), st(main, a), copied, st(main + on_stack(r), a));
        // `2 * (h * z mod p) mod p == k * z mod p`.
        lemma_mul_mod_noop_right(2, h * z, p);
        assert(2 * (h * z) == k * z) by (nonlinear_arith)
            requires
                k == 2 * h,
        ;
        assert(r.len() == n);
        lemma_table_push(bi, main, m, z, k, r);
    } else {
        let e = table_entry(main, m.len(), n, (k - 1) as nat);
        assert(len - n == m.len() + (k - 2) * n && (k - 1) * n == (k - 2) * n + n && n <= len
            && (k - 2) * n >= n) by (nonlinear_arith)
            requires
                len == m.len() + (k - 1) * n,
                k >= 3,
        ;
        assert((0 + 1) * n == n && 0 * n == 0) by (nonlinear_arith);
        lemma_copy_routine(s, main, a, 0);
        lemma_on_stack_involution(main.subrange(m.len() + (k - 2) * n, m.len() + (k - 1) * n));
        assert(block(main, n, 0) == on_stack(e));
        let copied = st(main + on_stack(e), a);
        lemma_run1(Op::Routine(Routine::Copy { n_bits: bi.n_bits, limb_size: bi.limb_size, depth: 0 }), st(main, a), copied);
        // The entry `z` lies under the `k - 2` entries above it.
        let y = table_entry(main, m.len(), n, 1);
        let mid = main.subrange(((m.len() + n) as int) as int, len as int);
        assert((1 - 1) * n == 0 && 1 * n == n) by (nonlinear_arith);
        assert(main =~= m + on_stack(y) + mid) by {
            lemma_on_stack_involution(main.subrange(m.len() as int, (m.len() + n) as int));
            assert(main =~= main.subrange(0, m.len() as int) + main.subrange(m.len() as int, (m.len() + n) as int)
                + mid);
        }
        let bd = (k - 1) as u32;
        assert(mid.len() == (bd - 1) * n) by (nonlinear_arith)
            requires
                mid.len() == len - m.len() - n,
                len == m.len() + (k - 1) * n,
                bd == k - 1,
        ;
        assert(bd * n + 3 <= 0x7fff_ffff) by (nonlinear_arith)
            requires
                bd <= 63,
                64 * n + 3 <= 0x7fff_ffff,
        ;
        lemma_ref_add_computes(bi, bd, m, y, mid, e, a);
        let r = added(e, y, s.base() as int, s.head_bound() as int);
        lemma_run_seq(
            s.copy_ops(0),
            bi.ref_add_ops(bd),
            st(main, a),
            copied,
            st(m + on_stack(y) + mid + on_stack(r), a),
        );
        assert(m + on_stack(y) + mid + on_stack(r) == main + on_stack(r));
        // `((k - 1) * z mod p + z mod p) mod p == k * z mod p`.
        lemma_add_mod_noop((k - 1) * z, 1 * z, p);
        assert((k - 1) * z + 1 * z == k * z) by (nonlinear_arith);
        assert(r.len() == n);
        lemma_table_push(bi, main, m, z, k, r);
    }
}

/// Entries `2` up to `k - 1` of a lookup table.
proof fn lemma_lookup_entries(bi: BigIntImpl, m: Seq<int>, l: Seq<int>, a: Seq<int>, k: nat)
    requires
        bi.shape().shape_ok(),
        bi.limb_size <= 30,
        bi.limbs() >= 2,
        2 <= k <= 64,
        64 * bi.limbs() + 3 <= 0x7fff_ffff,
        bi.shape().limbs_ok(l),
    ensures
        exists|main: Seq<int>|
            run(lookup_entries_ops(bi, k), st(m + on_stack(l), a)) == Some(st(main, a)) && table_holds(
                bi,
                main,
                m,
                bi.shape().value(l),
                k,
            ),
    decreases k,
{
    let z = bi.shape().value(l);
    let n = bi.limbs();
    if k == 2 {
        let main = m + on_stack(l);
        lemma_value_below(bi.shape(), l);
        lemma_small_mod(z as nat, pow2(bi.n_bits as nat));
        assert(main.subrange(0, m.len() as int) =~= m);
        assert((1 - 1) * n == 0 && 1 * n == n) by (nonlinear_arith);
        assert(l.len() == n);
        assert forall|j: nat| 1 <= j < 2 implies bi.shape().limbs_ok(
            #[trigger] table_entry(main, m.len(), n, j),
        ) && bi.shape().value(table_entry(main, m.len(), n, j)) == (j * z) % (pow2(
            bi.n_bits as nat,
        ) as int) by {
            assert(main.subrange(m.len() + (j - 1) * n, (m.len() + j * n) as int) =~= on_stack(l));
            lemma_on_stack_involution(l);
        }
        assert(run(Seq::<Op>::empty(), st(main, a)) == Some(st(main, a)));
        assert(table_holds(bi, main, m, z, 2));
    } else {
        let j = (k - 1) as nat;
        lemma_lookup_entries(bi, m, l, a, j);
        let main = choose|main: Seq<int>|
            run(lookup_entries_ops(bi, j), st(m + on_stack(l), a)) == Some(st(main, a)) && table_holds(
                bi,
                main,
                m,
                z,
                j,
            );
        lemma_lookup_entry(bi, main, m, z, a, j);
        let main2 = choose|main2: Seq<int>|
            run(lookup_entry_ops(bi, j), st(main, a)) == Some(st(main2, a)) && table_holds(
                bi,
                main2,
                m,
                z,
                j + 1,
            );
        lemma_run_seq(
            lookup_entries_ops(bi, j),
            lookup_entry_ops(bi, j),
            st(m + on_stack(l), a),
            st(main, a),
            st(main2, a),
        );
    }
}

/// [`LookupTable::initialize`] extends the big integer `z` on top of the
/// stack to the table of its multiples `1*z, 2*z, ..., (2^window - 1)*z`,
/// each modulo `2^n_bits`, the largest on top.
pub proof fn lemma_lookup_initialize_computes(
    t: LookupTable,
    window: u32,
    m: Seq<int>,
    l: Seq<int>,
    a: Seq<int>,
)
    requires
        1 <= window <= 6,
        t.table_ok(),
        t.limb_size <= 30,
        64 * t.w().limbs() + 3 <= 0x7fff_ffff,
        t.w().shape().limbs_ok(l),
    ensures
        exists|main: Seq<int>|
            run(t.initialize_ops(window), st(m + on_stack(l), a)) == Some(st(main, a)) && table_holds(
                t.w(),
                main,
                m,
                t.w().shape().value(l),
                pow2(window as nat),
            ),
{
    lemma_pow2_pos(window as nat);
    assert(2 <= pow2(window as nat) <= 64) by {
        lemma2_to64();
        if window < 6 {
            lemma_pow2_strictly_increases(window as nat, 6);
        }
        if window > 1 {
            lemma_pow2_strictly_increases(1, window as nat);
        }
    }
    lemma_lookup_entries(t.w(), m, l, a, pow2(window as nat));
}

} // verus!

verus! {

/// The digits of `v` in base `b`: `k` of them, least significant first,
/// make `v mod b^k`.
proof fn lemma_digits_value(v: nat, b: int, k: nat)
    requires
        b >= 2,
    ensures
        lsb_value(Seq::new(k, |i: int| ((v as int) / pow(b, i as nat)) % b), b) == (v as int) % pow(b, k),
    decreases k,
{
    reveal(pow);
    let d = Seq::new(k, |i: int| ((v as int) / pow(b, i as nat)) % b);
    lemma_pow_positive(b, k);
    if k == 0 {
        assert(lsb_value(d, b) == 0);
        assert(pow(b, 0) == 1);
    } else {
        let w = ((v as int) / b) as nat;
        lemma_div_pos_is_pos(v as int, b);
        lemma_digits_value(w, b, (k - 1) as nat);
        let d1 = Seq::new((k - 1) as nat, |i: int| ((w as int) / pow(b, i as nat)) % b);
        assert(d.subrange(1, k as int) =~= d1) by {
            assert forall|i: int| 0 <= i < k - 1 implies d.subrange(1, k as int)[i] == d1[i] by {
                lemma_pow_positive(b, i as nat);
                lemma_div_denominator(v as int, b, pow(b, i as nat));
                assert(pow(b, (i + 1) as nat) == b * pow(b, i as nat));
            }
        }
        assert(pow(b, 0) == 1);
        assert(d[0] == (v as int) % b);
        lemma_pow_positive(b, (k - 1) as nat);
        lemma_mod_breakdown(v as int, b, pow(b, (k - 1) as nat));
        assert(pow(b, k) == b * pow(b, (k - 1) as nat));
    }
}

/// The limbs of a value below `2^n_bits` are valid limbs of that value.
pub proof fn lemma_limbs_of(s: crate::bigint::BigIntImpl, v: nat)
    requires
        s.shape_ok(),
        s.limb_size <= 30,
        v < pow2(s.n_bits as nat),
    ensures
        s.limbs_ok(limbs_of(s, v)),
        s.value(limbs_of(s, v)) == v,
{
    s.lemma_bounds();
    s.lemma_head_bits();
    let b = s.base() as int;
    let n = s.limbs();
    let h = s.head_bound() as int;
    lemma_pow2_pos(s.limb_size as nat);
    assert(b >= 2) by {
        lemma2_to64();
        if s.limb_size > 1 {
            lemma_pow2_strictly_increases(1, s.limb_size as nat);
        }
    }
    let l = limbs_of(s, v);
    lemma_digits_value(v, b, n);
    let pj = pow(b, (n - 1) as nat);
    lemma_pow_positive(b, (n - 1) as nat);
    assert(pow(b, n) == b * pj) by {
        reveal(pow);
    }
    assert(v < b * pj) by (nonlinear_arith)
        requires
            v < h * pj,
            h <= b,
            pj > 0,
    ;
    lemma_small_mod(v, (b * pj) as nat);
    assert forall|i: int| 0 <= i < l.len() implies 0 <= #[trigger] l[i] < (if i == l.len() - 1 {
        h
    } else {
        b
    }) by {
        lemma_pow_positive(b, i as nat);
        lemma_div_pos_is_pos(v as int, pow(b, i as nat));
        lemma_mod_pos_bound((v as int) / pow(b, i as nat), b);
        if i == l.len() - 1 {
            assert(v < pj * h) by (nonlinear_arith)
                requires
                    v < h * pj,
            ;
            lemma_multiply_divide_lt(v as int, pj, h);
            lemma_small_mod(((v as int) / pj) as nat, b as nat);
        }
    }
}

/// The library's add routine on the two top big integers: both go and
/// the items of their sum modulo `2^n_bits` are pushed.
pub proof fn lemma_add_top_routine(
    s: crate::bigint::BigIntImpl,
    main: Seq<int>,
    a: Seq<int>,
    lx: Seq<int>,
    ly: Seq<int>,
)
    requires
        s.shape_ok(),
        s.limbs_ok(lx),
        s.limbs_ok(ly),
    ensures
        step(
            Op::Routine(Routine::Add { n_bits: s.n_bits, limb_size: s.limb_size, a: 0, b: 1 }),
            st(main + on_stack(lx) + on_stack(ly), a),
        ) == Some(
            st(
                main + number_items(s, ((s.value(ly) + s.value(lx)) % (pow2(s.n_bits as nat) as int)) as nat),
                a,
            ),
        ),
{
    reveal(routine_effect);
    let n = s.limbs();
    let mm = main + on_stack(lx) + on_stack(ly);
    assert((0 + 1) * n == n && 0 * n == 0 && (1 + 1) * n == 2 * n && 1 * n == n) by (nonlinear_arith);
    assert(block(mm, n, 0) =~= on_stack(ly));
    assert(block(mm, n, 1) =~= on_stack(lx));
    lemma_on_stack_involution(lx);
    lemma_on_stack_involution(ly);
    assert(without_block(mm, n, 1) =~= main + on_stack(ly));
    assert(without_block(without_block(mm, n, 1), n, 0) =~= main);
}

/// Whether `main` is `m` with the entries `0*z` to `(k - 1)*z`, modulo
/// `2^n_bits`, of shape `u` laid on it, `(k - 1)*z` on top.
pub open spec fn multiples_hold(
    u: crate::bigint::BigIntImpl,
    main: Seq<int>,
    m: Seq<int>,
    z: int,
    k: nat,
) -> bool {
    let n = u.limbs();
    &&& main.len() == m.len() + k * n
    &&& main.subrange(0, m.len() as int) == m
    &&& forall|j: nat|
        1 <= j <= k ==> u.limbs_ok(#[trigger] table_entry(main, m.len(), n, j)) && u.value(
            table_entry(main, m.len(), n, j),
        ) == ((j - 1) * z) % (pow2(u.n_bits as nat) as int)
}

/// Pushing the limbs `r` of `k * z` on a table of multiples.
proof fn lemma_multiples_push(
    u: crate::bigint::BigIntImpl,
    main: Seq<int>,
    m: Seq<int>,
    z: int,
    k: nat,
    r: Seq<int>,
)
    requires
        multiples_hold(u, main, m, z, k),
        r.len() == u.limbs(),
        u.limbs_ok(r),
        u.value(r) == (k * z) % (pow2(u.n_bits as nat) as int),
    ensures
        multiples_hold(u, main + on_stack(r), m, z, k + 1),
{
    let n = u.limbs();
    let main2 = main + on_stack(r);
    assert(main2.subrange(0, m.len() as int) =~= m);
    assert(k * n + n == (k + 1) * n) by (nonlinear_arith);
    assert forall|j: nat| 1 <= j <= k + 1 implies u.limbs_ok(
        #[trigger] table_entry(main2, m.len(), n, j),
    ) && u.value(table_entry(main2, m.len(), n, j)) == ((j - 1) * z) % (pow2(u.n_bits as nat) as int) by {
        assert((j - 1) * n + n == j * n) by (nonlinear_arith);
        assert((j - 1) * n >= 0) by (nonlinear_arith)
            requires
                j >= 1,
        ;
        if j <= k {
            assert(j * n <= k * n) by (nonlinear_arith)
                requires
                    j <= k,
            ;
            assert(main2.subrange(m.len() + (j - 1) * n, (m.len() + j * n) as int) =~= main.subrange(
                m.len() + (j - 1) * n,
                (m.len() + j * n) as int,
            ));
            assert(table_entry(main2, m.len(), n, j) == table_entry(main, m.len(), n, j));
        } else {
            assert(main2.subrange(m.len() + (j - 1) * n, (m.len() + j * n) as int) =~= on_stack(r));
            lemma_on_stack_involution(r);
        }
    }
}

/// Entry `k` of a table of multiples, from the entries below it.
#[verifier::rlimit(30)]
proof fn lemma_multiples_entry(
    u: crate::bigint::BigIntImpl,
    main: Seq<int>,
    m: Seq<int>,
    z: int,
    a: Seq<int>,
    k: nat,
)
    requires
        u.shape_ok(),
        u.limb_size <= 30,
        u.limbs() >= 2,
        2 <= k <= 64,
        multiples_hold(u, main, m, z, k),
    ensures
        exists|main2: Seq<int>|
            run(table_entry_ops(u, k), st(main, a)) == Some(st(main2, a)) && multiples_hold(
                u,
                main2,
                m,
                z,
                k + 1,
            ),
{
    let n = u.limbs();
    let p = pow2(u.n_bits as nat) as int;
    lemma_pow2_pos(u.n_bits as nat);
    let len = main.len();
    if k % 2 == 0 {
        let h = k / 2;
        let d = (h - 1) as u32;
        // Entry `h * z` is entry `h + 1` from the bottom.
        assert((d + 1) * n <= len && len - (d + 1) * n == m.len() + h * n && len - d * n == m.len()
            + (h + 1) * n && (h + 1 - 1) * n == h * n) by (nonlinear_arith)
            requires
                len == m.len() + k * n,
                k == 2 * h,
                d + 1 == h,
                h >= 1,
        ;
        let e = table_entry(main, m.len(), n, h + 1);
        lemma_copy_routine(u, main, a, d);
        lemma_on_stack_involution(main.subrange((m.len() + h * n) as int, (m.len() + (h + 1) * n) as int));
        assert(block(main, n, d as nat) == on_stack(e));
        let copied = st(main + on_stack(e), a);
        lemma_run1(
            Op::Routine(Routine::Copy { n_bits: u.n_bits, limb_size: u.limb_size, depth: d }),
            st(main, a),
            copied,
        );
        crate::bigint::doubling::lemma_dbl_computes(u, e, main, a);
        let r = doubled(e, u.base() as int, u.head_bound() as int);
        lemma_run_seq(
            u.copy_ops(d),
            dbl_ops(u.limbs(), u.base() as u32, u.head_bound() as u32),
            st(main, a),
            copied,
            st(main + on_stack(r), a),
        );
        lemma_mul_mod_noop_right(2, h * z, p);
        assert(2 * (h * z) == k * z) by (nonlinear_arith)
            requires
                k == 2 * h,
        ;
        assert((h + 1 - 1) * z == h * z);
        lemma_multiples_push(u, main, m, z, k, r);
    } else {
        // Copy entry `(k - 1) * z`, then entry `z` from under it, and add.
        let e = table_entry(main, m.len(), n, k);
        let y = table_entry(main, m.len(), n, 2);
        assert(len - n == m.len() + (k - 1) * n && k * n == (k - 1) * n + n && n <= len && (k
            - 1) * n >= n && (2 - 1) * n == n && 2 * n <= len) by (nonlinear_arith)
            requires
                len == m.len() + k * n,
                k >= 3,
        ;
        assert((0 + 1) * n == n && 0 * n == 0) by (nonlinear_arith);
        lemma_copy_routine(u, main, a, 0);
        lemma_on_stack_involution(main.subrange(m.len() + (k - 1) * n, (m.len() + k * n) as int));
        assert(block(main, n, 0) == on_stack(e));
        let main1 = main + on_stack(e);
        lemma_run1(
            Op::Routine(Routine::Copy { n_bits: u.n_bits, limb_size: u.limb_size, depth: 0 }),
            st(main, a),
            st(main1, a),
        );
        let d = (k - 1) as u32;
        assert((d + 1) * n <= main1.len() && main1.len() - (d + 1) * n == m.len() + n
            && main1.len() - d * n == m.len() + 2 * n) by (nonlinear_arith)
            requires
                main1.len() == m.len() + k * n + n,
                d + 1 == k,
        ;
        lemma_copy_routine(u, main1, a, d);
        lemma_on_stack_involution(main.subrange((m.len() + n) as int, (m.len() + 2 * n) as int));
        assert(block(main1, n, d as nat) =~= main.subrange((m.len() + n) as int, (m.len() + 2 * n) as int));
        assert(block(main1, n, d as nat) == on_stack(y));
        let main2 = main1 + on_stack(y);
        lemma_run1(
            Op::Routine(Routine::Copy { n_bits: u.n_bits, limb_size: u.limb_size, depth: d }),
            st(main1, a),
            st(main2, a),
        );
        lemma_add_top_routine(u, main, a, e, y);
        let v = ((u.value(y) + u.value(e)) % p) as nat;
        lemma_mod_pos_bound(u.value(y) + u.value(e), p);
        lemma_limbs_of(u, v);
        let r = limbs_of(u, v);
        lemma_run1(
            Op::Routine(Routine::Add { n_bits: u.n_bits, limb_size: u.limb_size, a: 0, b: 1 }),
            st(main2, a),
            st(main + on_stack(r), a),
        );
        lemma_run_seq(u.copy_ops(0), u.copy_ops(d), st(main, a), st(main1, a), st(main2, a));
        lemma_run_seq(
            u.copy_ops(0) + u.copy_ops(d),
            u.add_ops(0, 1),
            st(main, a),
            st(main2, a),
            st(main + on_stack(r), a),
        );
        // `(z mod p + (k - 1) * z mod p) mod p == k * z mod p`.
        assert((2 - 1) * z == 1 * z);
        assert(((k - 1) as nat) == k - 1);
        lemma_add_mod_noop(1 * z, (k - 1) * z, p);
        assert(1 * z + (k - 1) * z == k * z) by (nonlinear_arith);
        assert(r.len() == n);
        lemma_multiples_push(u, main, m, z, k, r);
    }
}

/// Entries `2` up to `k - 1` of a table of multiples.
proof fn lemma_multiples_entries(
    u: crate::bigint::BigIntImpl,
    main: Seq<int>,
    m: Seq<int>,
    z: int,
    a: Seq<int>,
    k: nat,
)
    requires
        u.shape_ok(),
        u.limb_size <= 30,
        u.limbs() >= 2,
        2 <= k <= 64,
        multiples_hold(u, main, m, z, 2),
    ensures
        exists|main2: Seq<int>|
            run(table_entries_ops(u, k), st(main, a)) == Some(st(main2, a)) && multiples_hold(
                u,
                main2,
                m,
                z,
                k,
            ),
    decreases k,
{
    if k == 2 {
        assert(run(Seq::<Op>::empty(), st(main, a)) == Some(st(main, a)));
    } else {
        let j = (k - 1) as nat;
        lemma_multiples_entries(u, main, m, z, a, j);
        let main1 = choose|main1: Seq<int>|
            run(table_entries_ops(u, j), st(main, a)) == Some(st(main1, a)) && multiples_hold(
                u,
                main1,
                m,
                z,
                j,
            );
        lemma_multiples_entry(u, main1, m, z, a, j);
        let main2 = choose|main2: Seq<int>|
            run(table_entry_ops(u, j), st(main1, a)) == Some(st(main2, a)) && multiples_hold(
                u,
                main2,
                m,
                z,
                j + 1,
            );
        lemma_run_seq(
            table_entries_ops(u, j),
            table_entry_ops(u, j),
            st(main, a),
            st(main1, a),
            st(main2, a),
        );
    }
}

/// `{z}` becomes `{0} {z}`: the first two entries of a table of multiples.
proof fn lemma_precompute_start(t: PrecomputeTable, m: Seq<int>, l: Seq<int>, a: Seq<int>)
    requires
        t.u().shape_ok(),
        t.limb_size <= 30,
        t.u().limbs() >= 2,
        t.u().limbs_ok(l),
    ensures
        run(t.u().push_zero_ops() + t.u().roll_ops(1), st(m + on_stack(l), a)) == Some(
            st(m + Seq::new(t.u().limbs(), |i: int| 0int) + on_stack(l), a),
        ),
        multiples_hold(
            t.u(),
            m + Seq::new(t.u().limbs(), |i: int| 0int) + on_stack(l),
            m,
            t.u().value(l),
            2,
        ),
{
    reveal(routine_effect);
    let u = t.u();
    let n = u.limbs();
    let z = u.value(l);
    let zeros = Seq::new(n, |i: int| 0int);
    let ml = m + on_stack(l);
    assert(step(Op::Routine(Routine::PushZero { n_bits: u.n_bits, limb_size: u.limb_size }), st(ml, a))
        == Some(st(ml + zeros, a)));
    let m1 = ml + zeros;
    assert((1 + 1) * n == 2 * n && 1 * n == n) by (nonlinear_arith);
    assert(block(m1, n, 1) =~= on_stack(l));
    assert(without_block(m1, n, 1) =~= m + zeros);
    let main = m + zeros + on_stack(l);
    assert(step(Op::Routine(Routine::Roll { n_bits: u.n_bits, limb_size: u.limb_size, depth: 1 }), st(m1, a))
        == Some(st(main, a)));
    lemma_run2(
        Op::Routine(Routine::PushZero { n_bits: u.n_bits, limb_size: u.limb_size }),
        Op::Routine(Routine::Roll { n_bits: u.n_bits, limb_size: u.limb_size, depth: 1 }),
        st(ml, a),
        st(m1, a),
        st(main, a),
    );
    assert(u.push_zero_ops() + u.roll_ops(1) =~= seq![
        Op::Routine(Routine::PushZero { n_bits: u.n_bits, limb_size: u.limb_size }),
        Op::Routine(Routine::Roll { n_bits: u.n_bits, limb_size: u.limb_size, depth: 1 }),
    ]);
    lemma_pow2_pos(u.n_bits as nat);
    lemma_pow2_pos(u.limb_size as nat);
    lemma_value_below(u, l);
    lemma_small_mod(z as nat, pow2(u.n_bits as nat));
    lemma_limbs_of(u, 0);
    assert(limbs_of(u, 0) =~= zeros) by {
        assert forall|i: int| 0 <= i < n implies limbs_of(u, 0)[i] == 0 by {
            lemma_pow_positive(u.base() as int, i as nat);
            assert(0int / pow(u.base() as int, i as nat) == 0);
        }
    }
    assert(on_stack(zeros) =~= zeros);
    assert(main.subrange(0, m.len() as int) =~= m);
    assert((2 - 1) * n == n && (1 - 1) * n == 0 && 2 * n == n + n) by (nonlinear_arith);
    assert(main.len() == m.len() + 2 * n);
    assert(table_entry(main, m.len(), n, 1) == zeros) by {
        assert(main.subrange(m.len() as int, (m.len() + 1 * n) as int) =~= zeros);
    }
    assert(table_entry(main, m.len(), n, 2) == l) by {
        assert(main.subrange((m.len() + n) as int, (m.len() + 2 * n) as int) =~= on_stack(l));
        lemma_on_stack_involution(l);
    }
    assert forall|j: nat| 1 <= j <= 2 implies u.limbs_ok(#[trigger] table_entry(main, m.len(), n, j))
        && u.value(table_entry(main, m.len(), n, j)) == ((j - 1) * z) % (pow2(u.n_bits as nat) as int) by {
        if j == 1 {
            assert((j - 1) * z == 0);
        } else {
            assert(j == 2);
            assert((2 - 1) * z == z) by (nonlinear_arith);
        }
    }
}

/// [`PrecomputeTable::initialize`] replaces the big integer `z` on top of
/// the stack by the table of its multiples `0*z, 1*z, ..., (2^window - 1)*z`,
/// each modulo `2^n_bits`, the largest on top.
pub proof fn lemma_precompute_initialize_computes(
    t: PrecomputeTable,
    m: Seq<int>,
    l: Seq<int>,
    a: Seq<int>,
)
    requires
        0 < t.window < 7,
        t.u().shape_ok(),
        t.limb_size <= 30,
        t.u().limbs() >= 2,
        t.u().limbs_ok(l),
    ensures
        exists|main: Seq<int>|
            run(t.initialize_ops(), st(m + on_stack(l), a)) == Some(st(main, a)) && multiples_hold(
                t.u(),
                main,
                m,
                t.u().value(l),
                pow2(t.window as nat),
            ),
{
    let u = t.u();
    let n = u.limbs();
    let z = u.value(l);
    let ml = m + on_stack(l);
    let main = m + Seq::new(n, |i: int| 0int) + on_stack(l);
    lemma_precompute_start(t, m, l, a);
    assert(2 <= pow2(t.window as nat) <= 64) by {
        lemma2_to64();
        if t.window > 1 {
            lemma_pow2_strictly_increases(1, t.window as nat);
        }
        if t.window < 6 {
            lemma_pow2_strictly_increases(t.window as nat, 6);
        }
    }
    lemma_multiples_entries(u, main, m, z, a, pow2(t.window as nat));
    let main2 = choose|main2: Seq<int>|
        run(table_entries_ops(u, pow2(t.window as nat)), st(main, a)) == Some(st(main2, a))
            && multiples_hold(u, main2, m, z, pow2(t.window as nat));
    assert(t.initialize_ops() == u.push_zero_ops() + u.roll_ops(1) + table_entries_ops(u, pow2(t.window as nat)));
    lemma_run_seq(
        u.push_zero_ops() + u.roll_ops(1),
        table_entries_ops(u, pow2(t.window as nat)),
        st(ml, a),
        st(main, a),
        st(main2, a),
    );
}

} // verus!

verus! {

/// `k` drops of big integers of shape `s` take the top `k * n_limbs` items
/// off the main stack.
pub proof fn lemma_drops(s: crate::bigint::BigIntImpl, m: Seq<int>, top: Seq<int>, a: Seq<int>, k: nat)
    requires
        s.shape_ok(),
        top.len() == k * s.limbs(),
    ensures
        run(repeat(s.drop_ops(), k), st(m + top, a)) == Some(st(m, a)),
    decreases k,
{
    let n = s.limbs();
    if k == 0 {
        assert(m + top =~= m);
    } else {
        let j = (k - 1) as nat;
        assert(j * n + n == k * n) by (nonlinear_arith)
            requires
                j == k - 1,
        ;
        let top1 = top.subrange(0, (j * n) as int);
        // Dropping the top one first, then the others.
        assert(repeat(s.drop_ops(), k) =~= s.drop_ops() + repeat(s.drop_ops(), j)) by {
            crate::stack::lemma_repeat_front(s.drop_ops(), j);
        }
        let mt = m + top;
        assert(step(Op::Routine(Routine::Drop { n_bits: s.n_bits, limb_size: s.limb_size }), st(mt, a))
            == Some(st(m + top1, a))) by {
            reveal(routine_effect);
            assert(mt.subrange(0, mt.len() - n) =~= m + top1);
        }
        lemma_run1(
            Op::Routine(Routine::Drop { n_bits: s.n_bits, limb_size: s.limb_size }),
            st(mt, a),
            st(m + top1, a),
        );
        lemma_drops(s, m, top1, a, j);
        lemma_run_seq(s.drop_ops(), repeat(s.drop_ops(), j), st(mt, a), st(m + top1, a), st(m, a));
    }
}

/// [`LookupTable::drop`] takes a table of `2^window - 1` entries off the
/// stack, as [`LookupTable::initialize`] leaves it.
pub proof fn lemma_lookup_drop_computes(t: LookupTable, window: u32, m: Seq<int>, main: Seq<int>, z: int, a: Seq<int>)
    requires
        t.w().shape().shape_ok(),
        table_holds(t.w(), main, m, z, pow2(window as nat)),
    ensures
        run(t.drop_table_ops(window), st(main, a)) == Some(st(m, a)),
{
    let n = t.w().limbs();
    lemma_pow2_pos(window as nat);
    assert(main =~= m + main.subrange(m.len() as int, main.len() as int));
    lemma_drops(t.w().shape(), m, main.subrange(m.len() as int, main.len() as int), a, (pow2(window as nat) - 1) as nat);
}

/// [`PrecomputeTable::drop`] takes a table of `2^window` entries off the
/// stack, as [`PrecomputeTable::initialize`] leaves it.
pub proof fn lemma_precompute_drop_computes(t: PrecomputeTable, m: Seq<int>, main: Seq<int>, z: int, a: Seq<int>)
    requires
        t.u().shape_ok(),
        multiples_hold(t.u(), main, m, z, pow2(t.window as nat)),
    ensures
        run(t.drop_table_ops(), st(main, a)) == Some(st(m, a)),
{
    assert(main =~= m + main.subrange(m.len() as int, main.len() as int));
    lemma_drops(t.u(), m, main.subrange(m.len() as int, main.len() as int), a, pow2(t.window as nat));
}

} // verus!
