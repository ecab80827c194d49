//! What the window-reading scripts compute: a window of bits of an operand
//! lying on the stack, read bit by bit from the limbs that hold it.
use crate::bigint::doubling::lemma_lsb_value_bound;
use crate::bigint::op_tmul::{
    bit_decomp_ops, decomp_bit_ops, decomp_bits_ops, decomp_start_ops, BitDecompScriptGenerator,
};
use crate::bn254::fp254_op_tmul::{var_window_ops, VarWindowScriptGenerator};
use crate::bigint::{lsb_value, on_stack, BigIntImpl};
use crate::pseudo::{lemma_op_2mul, op_2mul_ops};
use crate::script::{bool_num, is_num, run, st, truthy, Op};
use crate::stack::{
    flow_free, lemma_binary, lemma_drop, lemma_from_alt, lemma_if, lemma_pick, lemma_push,
    lemma_rot, lemma_run1, lemma_run2, lemma_run3, lemma_run_seq, lemma_to_alt, lemma_tuck,
};
use vstd::arithmetic::div_mod::*;
use vstd::arithmetic::mul::*;
use vstd::arithmetic::power::*;
use vstd::arithmetic::power2::*;
use vstd::prelude::*;

verus! {

/// Bit `j` of the number whose limbs of `ls` bits are `l`, least
/// significant first.
pub open spec fn limb_bit(l: Seq<int>, ls: nat, j: int) -> int {
    (l[j / (ls as int)] / (pow2((j % (ls as int)) as nat) as int)) % 2
}

/// The `t` bits of the limbs `l` from bit `hi` down, as a number whose most
/// significant bit is bit `hi`.
pub open spec fn limb_bits(l: Seq<int>, ls: nat, hi: int, t: nat) -> int
    decreases t,
{
    if t == 0 {
        0
    } else {
        2 * limb_bits(l, ls, hi, (t - 1) as nat) + limb_bit(l, ls, hi - (t - 1))
    }
}

/// Whether `l` are limbs of `ls` bits.
pub open spec fn limbs_below(l: Seq<int>, ls: nat) -> bool {
    forall|i: int| 0 <= i < l.len() ==> 0 <= #[trigger] l[i] < pow2(ls)
}

/// The limb the script holds before reading bit `s_bit - i`: the limb of
/// bit `s_bit` cut to the bits up to it at the start, and after that the
/// limb of the bit last read, cut to the bits below it.
pub open spec fn decomp_limb(l: Seq<int>, ls: nat, s_bit: int, i: int) -> int {
    if i == 0 {
        l[s_bit / (ls as int)] % (pow2((s_bit % (ls as int) + 1) as nat) as int)
    } else {
        l[(s_bit - i + 1) / (ls as int)] % (pow2(((s_bit - i + 1) % (ls as int)) as nat) as int)
    }
}

/// A bit of a limb is `0` or `1`, and `limb_bits` of `t` bits lies below
/// `2^t`.
proof fn lemma_limb_bits_bound(l: Seq<int>, ls: nat, hi: int, t: nat)
    requires
        ls >= 1,
        limbs_below(l, ls),
        0 <= (hi - t + 1) / (ls as int),
        hi / (ls as int) < l.len(),
        hi - t + 1 >= 0,
    ensures
        0 <= limb_bits(l, ls, hi, t) < pow2(t),
    decreases t,
{
    if t > 0 {
        lemma_limb_bits_bound(l, ls, hi, (t - 1) as nat);
        let j = hi - (t - 1);
        lemma_limb_bit_range(l, ls, j, hi);
        lemma_pow2_unfold(t);
    } else {
        lemma2_to64();
    }
}

/// A bit of a limb within the operand is `0` or `1`.
proof fn lemma_limb_bit_range(l: Seq<int>, ls: nat, j: int, hi: int)
    requires
        ls >= 1,
        limbs_below(l, ls),
        0 <= j <= hi,
        hi / (ls as int) < l.len(),
    ensures
        0 <= limb_bit(l, ls, j) <= 1,
{
    lemma_div_is_ordered(j, hi, ls as int);
    lemma_div_pos_is_pos(j, ls as int);
    let x = l[j / (ls as int)];
    lemma_pow2_pos((j % (ls as int)) as nat);
    lemma_div_pos_is_pos(x, pow2((j % (ls as int)) as nat) as int);
    lemma_mod_pos_bound(x / (pow2((j % (ls as int)) as nat) as int), 2);
}

/// Where the bits of a window lie: bit `s_bit - i` is in a limb between
/// those of the window's ends; the script switches to the lower limb
/// exactly where the window crosses into it.
proof fn lemma_decomp_positions(ls: int, w: int, s_bit: int, i: int)
    requires
        1 <= w <= ls,
        0 <= i < w,
        s_bit >= w - 1,
    ensures
        ({
            let s_limb = s_bit / ls;
            let e_limb = (s_bit - w + 1) / ls;
            let j = s_bit - i;
            let switch = s_limb > e_limb && i % ls == s_bit % ls + 1;
            &&& 0 <= e_limb <= j / ls <= s_limb
            &&& 0 <= j % ls < ls
            &&& switch ==> j / ls == e_limb && j % ls == ls - 1
            &&& !switch && i >= 1 ==> (j + 1) / ls == j / ls && (j + 1) % ls == j % ls + 1
            &&& i == 0 ==> j / ls == s_limb && j % ls == s_bit % ls
        }),
{
    let q = s_bit / ls;
    let r = s_bit % ls;
    let e_bit = s_bit - w + 1;
    let e = e_bit / ls;
    let j = s_bit - i;
    lemma_fundamental_div_mod(s_bit, ls);
    lemma_fundamental_div_mod(e_bit, ls);
    lemma_fundamental_div_mod(j, ls);
    lemma_fundamental_div_mod(j + 1, ls);
    lemma_mod_pos_bound(s_bit, ls);
    lemma_mod_pos_bound(e_bit, ls);
    lemma_mod_pos_bound(j, ls);
    lemma_mod_pos_bound(j + 1, ls);
    lemma_div_pos_is_pos(e_bit, ls);
    lemma_div_is_ordered(e_bit, j, ls);
    lemma_div_is_ordered(j, s_bit, ls);
    lemma_small_mod(i as nat, ls as nat);
    let switch = q > e && i % ls == r + 1;
    if switch {
        // `j = q * ls - 1`: the top bit of the limb below.
        assert(j == (q - 1) * ls + (ls - 1)) by (nonlinear_arith)
            requires
                s_bit == ls * q + r,
                i == r + 1,
                j == s_bit - i,
        ;
        lemma_fundamental_div_mod_converse(j, ls, q - 1, ls - 1);
        // The window starts no lower than a limb below.
        assert(e_bit >= (q - 1) * ls) by (nonlinear_arith)
            requires
                s_bit == ls * q + r,
                e_bit == s_bit - w + 1,
                w <= ls,
                r >= 0,
        ;
        lemma_div_is_ordered((q - 1) * ls, e_bit, ls);
        lemma_div_multiples_vanish(q - 1, ls);
        assert((q - 1) * ls == ls * (q - 1)) by (nonlinear_arith);
    }
    if !switch && i >= 1 {
        if (j + 1) % ls == 0 {
            // Then `i - 1` is `r`, and the window crosses: a contradiction.
            let t = (j + 1) / ls;
            assert(i - 1 == r) by (nonlinear_arith)
                requires
                    j + 1 == ls * t + 0,
                    s_bit == ls * q + r,
                    j == s_bit - i,
                    0 <= r < ls,
                    0 <= i - 1 < ls,
            ;
            assert(t == q) by (nonlinear_arith)
                requires
                    j + 1 == ls * t,
                    s_bit == ls * q + r,
                    j == s_bit - i,
                    i - 1 == r,
                    ls >= 1,
            ;
            assert(e < q) by (nonlinear_arith)
                requires
                    e_bit == ls * e + e_bit % ls,
                    0 <= e_bit % ls,
                    e_bit <= j,
                    j + 1 == ls * q,
                    ls >= 1,
            ;
            assert(false);
        }
        if j % ls == ls - 1 {
            assert(j + 1 == (j / ls + 1) * ls + 0) by (nonlinear_arith)
                requires
                    j == ls * (j / ls) + j % ls,
                    j % ls == ls - 1,
            ;
            lemma_fundamental_div_mod_converse(j + 1, ls, j / ls + 1, 0);
        }
        assert(j + 1 == (j / ls) * ls + (j % ls + 1)) by (nonlinear_arith)
            requires
                j == ls * (j / ls) + j % ls,
        ;
        lemma_fundamental_div_mod_converse(j + 1, ls, j / ls, j % ls + 1);
    }
}

/// The limb item `lo + e + 1` deep, under `lo` items and one more pushed,
/// is limb `e` of the operand.
proof fn lemma_pick_limb(mm_pre: Seq<int>, l: Seq<int>, rest: Seq<int>, x: int, e: int)
    requires
        0 <= e < l.len(),
    ensures
        ({
            let mm = (mm_pre + on_stack(l) + rest).push(x);
            let d = rest.len() + e + 1;
            &&& 0 <= d < mm.len()
            &&& mm[mm.len() - 1 - d] == l[e]
        }),
{
    let mm = (mm_pre + on_stack(l) + rest).push(x);
    let d = rest.len() + e + 1;
    let idx = mm.len() - 1 - d;
    assert(idx == mm_pre.len() + (l.len() - 1 - e));
    assert(mm[idx] == on_stack(l)[l.len() - 1 - e]);
}

/// A limb cut to its low `k + 1` bits: at least `2^k` exactly where bit `k`
/// is set, and the cut to `k` bits where that bit is taken away.
proof fn lemma_cut_bit(x: int, k: nat)
    requires
        0 <= x,
    ensures
        0 <= x % (pow2(k + 1) as int) < pow2(k + 1),
        bool_num(x % (pow2(k + 1) as int) > pow2(k) - 1) == (x / (pow2(k) as int)) % 2,
        x % (pow2(k + 1) as int) - ((x / (pow2(k) as int)) % 2) * pow2(k) == x % (pow2(k) as int),
        0 <= (x / (pow2(k) as int)) % 2 <= 1,
{
    lemma_pow2_pos(k);
    lemma_pow2_unfold(k + 1);
    let p = pow2(k) as int;
    lemma_mod_breakdown(x, p, 2);
    assert(p * 2 == pow2(k + 1));
    let bit = (x / p) % 2;
    lemma_div_pos_is_pos(x, p);
    lemma_mod_pos_bound(x / p, 2);
    lemma_mod_pos_bound(x, p);
    lemma_mod_pos_bound(x, p * 2);
    if bit == 0 {
        assert(x % (p * 2) == x % p);
    } else {
        assert(x % (p * 2) == p + x % p);
    }
}

/// Reading bit `s_bit - i` of a window: `{2 * bits so far} {limb}` becomes
/// the bits so far with this one (doubled unless it is the last) over the
/// limb cut below the bit.
#[verifier::rlimit(40)]
proof fn lemma_decomp_bit(
    ls: u32,
    w: u32,
    s_bit: int,
    i: int,
    mm_pre: Seq<int>,
    l: Seq<int>,
    rest: Seq<int>,
    a: Seq<int>,
)
    requires
        1 <= w <= 6,
        w <= ls <= 30,
        0 <= i < w,
        s_bit >= w - 1,
        s_bit / (ls as int) < l.len(),
        limbs_below(l, ls as nat),
        rest.len() + l.len() + 1 <= 0x7fff_ffff,
    ensures
        ({
            let mm = mm_pre + on_stack(l) + rest;
            let t = limb_bits(l, ls as nat, s_bit, (i + 1) as nat);
            run(
                decomp_bit_ops(
                    ls,
                    w,
                    s_bit,
                    s_bit / (ls as int),
                    (s_bit - w + 1) / (ls as int),
                    rest.len() as int,
                    i,
                ),
                st(
                    mm.push(2 * limb_bits(l, ls as nat, s_bit, i as nat)).push(
                        decomp_limb(l, ls as nat, s_bit, i),
                    ),
                    a,
                ),
            ) == Some(
                st(
                    mm.push(
                        if i < w - 1 {
                            2 * t
                        } else {
                            t
                        },
                    ).push(decomp_limb(l, ls as nat, s_bit, i + 1)),
                    a,
                ),
            )
        }),
{
    let lsi = ls as int;
    let lsn = ls as nat;
    let lo = rest.len() as int;
    let mm = mm_pre + on_stack(l) + rest;
    let s_limb = s_bit / lsi;
    let e_limb = (s_bit - w + 1) / lsi;
    let j = s_bit - i;
    let big_l = j / lsi;
    let k = (j % lsi) as nat;
    lemma_decomp_positions(lsi, w as int, s_bit, i);
    let switch = s_limb > e_limb && i % lsi == (s_bit % lsi) + 1;
    let acc = 2 * limb_bits(l, lsn, s_bit, i as nat);
    lemma_limb_bits_bound(l, lsn, s_bit, i as nat);
    assert(pow2(i as nat) <= 32) by {
        lemma2_to64();
        if i < 5 {
            lemma_pow2_strictly_increases(i as nat, 5);
        }
    }
    let c0 = decomp_limb(l, lsn, s_bit, i);
    let x = l[big_l];
    assert(0 <= x < pow2(lsn));
    assert(pow2(lsn) <= 0x4000_0000) by {
        lemma2_to64();
        if ls < 30 {
            lemma_pow2_strictly_increases(lsn, 30);
        }
    }
    lemma_cut_bit(x, k);
    let p = pow2(k) as int;
    let c = x % (pow2(k + 1) as int);
    assert(pow2(k + 1) <= 0x4000_0000) by {
        lemma2_to64();
        if k + 1 < 30 {
            lemma_pow2_strictly_increases(k + 1, 30);
        }
    }
    // The limb, cut to the bits up to the one read.
    let sw = if switch {
        seq![Op::Drop, Op::Push((lo + e_limb + 1) as u32), Op::Pick]
    } else {
        Seq::<Op>::empty()
    };
    let s0 = st(mm.push(acc).push(c0), a);
    let s1 = st(mm.push(acc).push(c), a);
    if switch {
        assert(k + 1 == lsn);
        lemma_small_mod(x as nat, pow2(lsn));
        lemma_drop(mm.push(acc), a, c0);
        lemma_push(mm.push(acc), a, (lo + e_limb + 1) as u32);
        lemma_pick_limb(mm_pre, l, rest, acc, e_limb);
        lemma_pick(mm.push(acc), a, lo + e_limb + 1);
        lemma_run3(
            Op::Drop,
            Op::Push((lo + e_limb + 1) as u32),
            Op::Pick,
            s0,
            st(mm.push(acc), a),
            st(mm.push(acc).push(lo + e_limb + 1), a),
            s1,
        );
    } else {
        assert(c0 == c);
        assert(run(Seq::<Op>::empty(), s0) == Some(s1));
    }
    let bit = (x / p) % 2;
    assert(bit == limb_bit(l, lsn, j));
    assert(x % p == decomp_limb(l, lsn, s_bit, i + 1));
    let t = limb_bits(l, lsn, s_bit, (i + 1) as nat);
    assert(t == acc + bit);
    // Test the bit, double, clear the bit.
    lemma_bit_test(mm, a, acc, c, k);
    let s2 = st(mm.push(c).push(bit).push(t), a);
    let test = seq![Op::Tuck, Op::Push((pow2(k) - 1) as u32), Op::GreaterThan, Op::Tuck, Op::Add];
    let dbl = if i < w - 1 {
        op_2mul_ops()
    } else {
        Seq::<Op>::empty()
    };
    let t2 = if i < w - 1 {
        2 * t
    } else {
        t
    };
    let s3 = st(mm.push(c).push(bit).push(t2), a);
    if i < w - 1 {
        lemma_op_2mul(mm.push(c).push(bit), a, t);
    } else {
        assert(run(Seq::<Op>::empty(), s2) == Some(s3));
    }
    let clear = seq![Op::Rot, Op::Rot, Op::If, Op::Push(pow2(k) as u32), Op::Sub, Op::EndIf];
    lemma_bit_clear(mm, a, t2, c, bit, k);
    let s4 = st(mm.push(t2).push(decomp_limb(l, lsn, s_bit, i + 1)), a);
    lemma_run_seq(sw, test, s0, s1, s2);
    lemma_run_seq(sw + test, dbl, s0, s2, s3);
    lemma_run_seq(sw + test + dbl, clear, s0, s3, s4);
    assert(decomp_bit_ops(ls, w, s_bit, s_limb, e_limb, lo, i) =~= sw + test + dbl + clear);
}

/// The first `t` bits of a window: from `{0} {limb}` to the bits read,
/// doubled unless the window is done, over the limb cut below them.
proof fn lemma_decomp_bits(
    ls: u32,
    w: u32,
    s_bit: int,
    t: nat,
    mm_pre: Seq<int>,
    l: Seq<int>,
    rest: Seq<int>,
    a: Seq<int>,
)
    requires
        1 <= w <= 6,
        w <= ls <= 30,
        t <= w,
        s_bit >= w - 1,
        s_bit / (ls as int) < l.len(),
        limbs_below(l, ls as nat),
        rest.len() + l.len() + 1 <= 0x7fff_ffff,
    ensures
        ({
            let mm = mm_pre + on_stack(l) + rest;
            let bits = limb_bits(l, ls as nat, s_bit, t);
            run(
                decomp_bits_ops(
                    ls,
                    w,
                    s_bit,
                    s_bit / (ls as int),
                    (s_bit - w + 1) / (ls as int),
                    rest.len() as int,
                    t,
                ),
                st(mm.push(0).push(decomp_limb(l, ls as nat, s_bit, 0)), a),
            ) == Some(
                st(
                    mm.push(
                        if t < w {
                            2 * bits
                        } else {
                            bits
                        },
                    ).push(decomp_limb(l, ls as nat, s_bit, t as int)),
                    a,
                ),
            )
        }),
    decreases t,
{
    let mm = mm_pre + on_stack(l) + rest;
    let s0 = st(mm.push(0).push(decomp_limb(l, ls as nat, s_bit, 0)), a);
    if t == 0 {
        assert(run(Seq::<Op>::empty(), s0) == Some(s0));
    } else {
        let i = (t - 1) as nat;
        lemma_decomp_bits(ls, w, s_bit, i, mm_pre, l, rest, a);
        lemma_decomp_bit(ls, w, s_bit, i as int, mm_pre, l, rest, a);
        let lo = rest.len() as int;
        let s_limb = s_bit / (ls as int);
        let e_limb = (s_bit - w + 1) / (ls as int);
        lemma_run_seq(
            decomp_bits_ops(ls, w, s_bit, s_limb, e_limb, lo, i),
            decomp_bit_ops(ls, w, s_bit, s_limb, e_limb, lo, i as int),
            s0,
            st(
                mm.push(2 * limb_bits(l, ls as nat, s_bit, i)).push(
                    decomp_limb(l, ls as nat, s_bit, i as int),
                ),
                a,
            ),
            st(
                mm.push(
                    if t < w {
                        2 * limb_bits(l, ls as nat, s_bit, t)
                    } else {
                        limb_bits(l, ls as nat, s_bit, t)
                    },
                ).push(decomp_limb(l, ls as nat, s_bit, t as int)),
                a,
            ),
        );
    }
}

/// The start of a window: `{0} {limb}` on top, the limb that holds the top
/// bit cut to the bits up to it, taken from the operand for the first
/// window or one that starts a limb, and from the alt stack otherwise.
proof fn lemma_decomp_start(
    n_window: u32,
    ls: u32,
    idx: int,
    s_bit: int,
    mm_pre: Seq<int>,
    l: Seq<int>,
    rest: Seq<int>,
    a: Seq<int>,
    acc: int,
)
    requires
        1 <= ls <= 30,
        s_bit >= 0,
        s_bit / (ls as int) < l.len(),
        limbs_below(l, ls as nat),
        rest.len() + l.len() + 1 <= 0x7fff_ffff,
        idx == n_window ==> l[s_bit / (ls as int)] < pow2((s_bit % (ls as int) + 1) as nat),
        idx != n_window && (s_bit + 1) % (ls as int) != 0 ==> acc == decomp_limb(
            l,
            ls as nat,
            s_bit,
            0,
        ),
    ensures
        ({
            let mm = mm_pre + on_stack(l) + rest;
            run(
                decomp_start_ops(
                    n_window,
                    ls,
                    idx,
                    rest.len() as int,
                    s_bit,
                    s_bit / (ls as int),
                ),
                st(
                    mm,
                    if idx == n_window {
                        a
                    } else {
                        a.push(acc)
                    },
                ),
            ) == Some(st(mm.push(0).push(decomp_limb(l, ls as nat, s_bit, 0)), a))
        }),
{
    let lsi = ls as int;
    let mm = mm_pre + on_stack(l) + rest;
    let lo = rest.len() as int;
    let s_limb = s_bit / lsi;
    let r = s_bit % lsi;
    lemma_div_pos_is_pos(s_bit, lsi);
    lemma_mod_pos_bound(s_bit, lsi);
    let x = l[s_limb];
    let c = decomp_limb(l, ls as nat, s_bit, 0);
    let d = (lo + s_limb + 1) as u32;
    let m0 = mm.push(0);
    if idx == n_window {
        lemma_small_mod(x as nat, pow2((r + 1) as nat));
        lemma_push(mm, a, 0);
        lemma_push(m0, a, d);
        lemma_pick_limb(mm_pre, l, rest, 0, s_limb);
        lemma_pick(m0, a, d as int);
        lemma_run3(
            Op::Push(0),
            Op::Push(d),
            Op::Pick,
            st(mm, a),
            st(m0, a),
            st(m0.push(d as int), a),
            st(m0.push(c), a),
        );
        assert(decomp_start_ops(n_window, ls, idx, lo, s_bit, s_limb) =~= seq![
            Op::Push(0),
            Op::Push(d),
            Op::Pick,
        ]);
    } else if (s_bit + 1) % lsi == 0 {
        // A window that starts a limb: the whole limb.
        lemma_fundamental_div_mod(s_bit, lsi);
        lemma_fundamental_div_mod(s_bit + 1, lsi);
        assert(r == lsi - 1) by (nonlinear_arith)
            requires
                s_bit == lsi * s_limb + r,
                s_bit + 1 == lsi * ((s_bit + 1) / lsi) + 0,
                0 <= r < lsi,
        ;
        lemma_small_mod(x as nat, pow2(ls as nat));
        lemma_push(mm, a.push(acc), 0);
        lemma_from_alt(m0, a, acc);
        lemma_drop(m0, a, acc);
        lemma_push(m0, a, d);
        lemma_pick_limb(mm_pre, l, rest, 0, s_limb);
        lemma_pick(m0, a, d as int);
        lemma_run3(
            Op::Push(0),
            Op::FromAltStack,
            Op::Drop,
            st(mm, a.push(acc)),
            st(m0, a.push(acc)),
            st(m0.push(acc), a),
            st(m0, a),
        );
        lemma_run2(Op::Push(d), Op::Pick, st(m0, a), st(m0.push(d as int), a), st(m0.push(c), a));
        lemma_run_seq(
            seq![Op::Push(0), Op::FromAltStack, Op::Drop],
            seq![Op::Push(d), Op::Pick],
            st(mm, a.push(acc)),
            st(m0, a),
            st(m0.push(c), a),
        );
        assert(decomp_start_ops(n_window, ls, idx, lo, s_bit, s_limb) =~= seq![
            Op::Push(0),
            Op::FromAltStack,
            Op::Drop,
        ] + seq![Op::Push(d), Op::Pick]);
    } else {
        lemma_push(mm, a.push(acc), 0);
        lemma_from_alt(m0, a, acc);
        lemma_run2(
            Op::Push(0),
            Op::FromAltStack,
            st(mm, a.push(acc)),
            st(m0, a.push(acc)),
            st(m0.push(acc), a),
        );
        assert(decomp_start_ops(n_window, ls, idx, lo, s_bit, s_limb) =~= seq![
            Op::Push(0),
            Op::FromAltStack,
        ]);
    }
}

/// Reading window `idx` (counted from 1 at the least significant end) of
/// `w` bits of an operand whose limbs `l` lie under the `rest.len()` items
/// `rest`: the script pushes the window's bits, taken from the limbs, and
/// keeps on the alt stack, for the window below, the limb of the window's
/// lowest bit cut below that bit. It takes the limb of the top bit from the
/// operand for the first window and for one that starts a limb, and from
/// the alt stack otherwise, where the window above left it.
pub proof fn lemma_decomp_reads_window(
    n_window: u32,
    ls: u32,
    w: u32,
    idx: int,
    mm_pre: Seq<int>,
    l: Seq<int>,
    rest: Seq<int>,
    a: Seq<int>,
    acc: int,
)
    requires
        1 <= w <= 6,
        w <= ls <= 30,
        idx >= 1,
        (idx * w - 1) / (ls as int) < l.len(),
        limbs_below(l, ls as nat),
        rest.len() + l.len() + 1 <= 0x7fff_ffff,
        idx == n_window ==> l[(idx * w - 1) / (ls as int)] < pow2(
            ((idx * w - 1) % (ls as int) + 1) as nat,
        ),
        idx != n_window && (idx * w) % (ls as int) != 0 ==> acc == decomp_limb(
            l,
            ls as nat,
            idx * w - 1,
            0,
        ),
    ensures
        ({
            let lsi = ls as int;
            let mm = mm_pre + on_stack(l) + rest;
            let lo = rest.len() as int;
            let s_bit = idx * w - 1;
            let e_bit = (idx - 1) * w;
            let kept = decomp_limb(l, ls as nat, s_bit, w as int);
            &&& run(
                decomp_start_ops(n_window, ls, idx, lo, s_bit, s_bit / lsi) + decomp_bits_ops(
                    ls,
                    w,
                    s_bit,
                    s_bit / lsi,
                    e_bit / lsi,
                    lo,
                    w as nat,
                ) + if idx == 1 {
                    seq![Op::Drop]
                } else {
                    seq![Op::ToAltStack]
                },
                st(
                    mm,
                    if idx == n_window {
                        a
                    } else {
                        a.push(acc)
                    },
                ),
            ) == Some(
                st(
                    mm.push(limb_bits(l, ls as nat, s_bit, w as nat)),
                    if idx == 1 {
                        a
                    } else {
                        a.push(kept)
                    },
                ),
            )
            &&& (idx >= 2 && e_bit % lsi != 0 ==> kept == decomp_limb(l, ls as nat, e_bit - 1, 0))
        }),
{
    let lsi = ls as int;
    let mm = mm_pre + on_stack(l) + rest;
    let lo = rest.len() as int;
    let s_bit = idx * w - 1;
    let e_bit = (idx - 1) * w;
    assert(s_bit >= w - 1 && e_bit == s_bit - w + 1 && s_bit >= 0) by (nonlinear_arith)
        requires
            idx >= 1,
            w >= 1,
            s_bit == idx * w - 1,
            e_bit == (idx - 1) * w,
    ;
    let s_limb = s_bit / lsi;
    let e_limb = e_bit / lsi;
    let bits = limb_bits(l, ls as nat, s_bit, w as nat);
    let kept = decomp_limb(l, ls as nat, s_bit, w as int);
    let alt_in = if idx == n_window {
        a
    } else {
        a.push(acc)
    };
    lemma_decomp_start(n_window, ls, idx, s_bit, mm_pre, l, rest, a, acc);
    lemma_decomp_bits(ls, w, s_bit, w as nat, mm_pre, l, rest, a);
    let start = decomp_start_ops(n_window, ls, idx, lo, s_bit, s_limb);
    let body = decomp_bits_ops(ls, w, s_bit, s_limb, e_limb, lo, w as nat);
    let s1 = st(mm.push(0).push(decomp_limb(l, ls as nat, s_bit, 0)), a);
    let s2 = st(mm.push(bits).push(kept), a);
    lemma_run_seq(start, body, st(mm, alt_in), s1, s2);
    let end = if idx == 1 {
        seq![Op::Drop]
    } else {
        seq![Op::ToAltStack]
    };
    let fin = st(
        mm.push(bits),
        if idx == 1 {
            a
        } else {
            a.push(kept)
        },
    );
    if idx == 1 {
        lemma_drop(mm.push(bits), a, kept);
        lemma_run1(Op::Drop, s2, fin);
    } else {
        lemma_to_alt(mm.push(bits), a, kept);
        lemma_run1(Op::ToAltStack, s2, fin);
    }
    lemma_run_seq(start + body, end, st(mm, alt_in), s2, fin);
    if idx >= 2 && e_bit % lsi != 0 {
        // The next window starts in the same limb, one bit lower.
        lemma_fundamental_div_mod(e_bit, lsi);
        lemma_mod_pos_bound(e_bit, lsi);
        assert(e_bit - 1 == (e_bit / lsi) * lsi + (e_bit % lsi - 1)) by (nonlinear_arith)
            requires
                e_bit == lsi * (e_bit / lsi) + e_bit % lsi,
        ;
        lemma_fundamental_div_mod_converse(e_bit - 1, lsi, e_bit / lsi, e_bit % lsi - 1);
    }
}

/// The value of limbs splits at limb `k`: the low `k` limbs, and the rest
/// shifted up by `k` limbs.
pub proof fn lemma_lsb_value_split(l: Seq<int>, b: int, k: nat)
    requires
        k <= l.len(),
    ensures
        lsb_value(l, b) == lsb_value(l.subrange(0, k as int), b) + pow(b, k) * lsb_value(
            l.subrange(k as int, l.len() as int),
            b,
        ),
    decreases k,
{
    reveal(pow);
    if k == 0 {
        assert(l.subrange(0, 0) =~= Seq::<int>::empty());
        assert(l.subrange(0, l.len() as int) =~= l);
        assert(lsb_value(Seq::<int>::empty(), b) == 0);
    } else {
        let t = l.subrange(1, l.len() as int);
        lemma_lsb_value_split(t, b, (k - 1) as nat);
        assert(t.subrange(0, k - 1) =~= l.subrange(1, k as int));
        assert(t.subrange(k - 1, t.len() as int) =~= l.subrange(k as int, l.len() as int));
        assert(l.subrange(0, k as int).subrange(1, k as int) =~= l.subrange(1, k as int));
        let lo = lsb_value(l.subrange(1, k as int), b);
        let hi = lsb_value(l.subrange(k as int, l.len() as int), b);
        let pk = pow(b, (k - 1) as nat);
        assert(b * (lo + pk * hi) == b * lo + (b * pk) * hi) by (nonlinear_arith);
    }
}

/// Bit `j` of the value of limbs of `ls` bits is bit `j mod ls` of limb
/// `j / ls`.
proof fn lemma_value_bit(l: Seq<int>, ls: nat, j: int)
    requires
        1 <= ls,
        limbs_below(l, ls),
        0 <= j,
        j / (ls as int) < l.len(),
    ensures
        (lsb_value(l, pow2(ls) as int) / (pow2(j as nat) as int)) % 2 == limb_bit(l, ls, j),
{
    let lsi = ls as int;
    let b = pow2(ls) as int;
    let k = (j / lsi) as nat;
    let r = (j % lsi) as nat;
    lemma_div_pos_is_pos(j, lsi);
    lemma_mod_pos_bound(j, lsi);
    lemma_fundamental_div_mod(j, lsi);
    lemma_lsb_value_split(l, b, k);
    let low = lsb_value(l.subrange(0, k as int), b);
    let up = l.subrange(k as int, l.len() as int);
    let u1 = lsb_value(up.subrange(1, up.len() as int), b);
    assert(lsb_value(up, b) == l[k as int] + b * u1);
    lemma_pow2_pos(ls);
    lemma_lsb_value_bound(l, b, k);
    lemma_lsb_value_bound(up.subrange(1, up.len() as int), b, (up.len() - 1) as nat);
    assert(up.subrange(1, up.len() as int).subrange(0, (up.len() - 1) as int) =~= up.subrange(
        1,
        up.len() as int,
    ));
    // `b^k = 2^(ls * k)` and `2^j = 2^(ls * k) * 2^r`.
    lemma_pow2(ls);
    lemma_pow_multiplies(2, ls, k);
    lemma_pow2(ls * k);
    let pk = pow(b, k);
    assert(pk == pow2(ls * k));
    assert(j == ls * k + r);
    lemma_pow2_adds(ls * k, r);
    lemma_pow2_pos(ls * k);
    lemma_pow2_pos(r);
    let v = lsb_value(l, b);
    let x = l[k as int];
    let q = x + b * u1;
    assert(0 <= u1);
    assert(0 <= b * u1) by (nonlinear_arith)
        requires
            0 <= u1,
            0 < b,
    ;
    // Dropping the low limbs.
    assert(v == q * pk + low) by (nonlinear_arith)
        requires
            v == low + pk * lsb_value(up, b),
            lsb_value(up, b) == q,
    ;
    lemma_fundamental_div_mod_converse(v, pk, q, low);
    lemma_div_denominator(v, pk, pow2(r) as int);
    // Dropping the low bits of limb `k`: the limbs above add an even number.
    assert(ls >= r + 1);
    lemma_pow2_adds(r, (ls - r) as nat);
    let m2 = pow2((ls - r) as nat) as int;
    lemma_pow2_unfold((ls - r) as nat);
    let pr = pow2(r) as int;
    lemma_fundamental_div_mod(x, pr);
    assert(q == pr * (x / pr + m2 * u1) + x % pr) by (nonlinear_arith)
        requires
            q == x + b * u1,
            b == pr * m2,
            x == pr * (x / pr) + x % pr,
    ;
    lemma_mod_pos_bound(x, pr);
    lemma_fundamental_div_mod_converse(q, pr, x / pr + m2 * u1, x % pr);
    let h = pow2((ls - r - 1) as nat) as int;
    assert(m2 * u1 == 2 * (h * u1)) by (nonlinear_arith)
        requires
            m2 == 2 * h,
    ;
    lemma_mod_multiples_vanish(h * u1, x / pr, 2);
    assert(pk * pr == pow2(j as nat));
}

/// The bits the script reads make the window of the value: `t` bits from
/// bit `hi` down are the value shifted right by `hi - t + 1`, modulo `2^t`.
pub proof fn lemma_limb_bits_value(l: Seq<int>, ls: nat, hi: int, t: nat)
    requires
        1 <= ls,
        limbs_below(l, ls),
        0 <= hi - t + 1,
        hi / (ls as int) < l.len(),
    ensures
        limb_bits(l, ls, hi, t) == (lsb_value(l, pow2(ls) as int) / (pow2((hi - t + 1) as nat) as int))
            % (pow2(t) as int),
    decreases t,
{
    let v = lsb_value(l, pow2(ls) as int);
    lemma_pow2_pos(ls);
    lemma_lsb_value_bound(l, pow2(ls) as int, l.len());
    assert(l.subrange(0, l.len() as int) =~= l);
    if t == 0 {
        assert(pow2(0) == 1) by {
            lemma2_to64();
        }
    } else {
        let e = (hi - t + 1) as nat;
        lemma_limb_bits_value(l, ls, hi, (t - 1) as nat);
        lemma_div_is_ordered(hi - t + 1, hi, ls as int);
        lemma_value_bit(l, ls, hi - (t - 1));
        lemma_pow2_pos(e);
        lemma_pow2_pos((t - 1) as nat);
        lemma_div_pos_is_pos(v, pow2(e) as int);
        let x = v / (pow2(e) as int);
        lemma_mod_breakdown(x, 2, pow2((t - 1) as nat) as int);
        lemma_pow2_unfold(t);
        lemma_div_denominator(v, pow2(e) as int, 2);
        lemma_pow2_unfold(e + 1);
        assert(pow2(e) * 2 == pow2(e + 1));
        assert((e + 1) as int == hi - (t - 1) + 1);
    }
}

/// Whether a call reading window `idx` of `w` bits from limbs `l` of `ls`
/// bits can be made with `acc` on the alt stack: the window lies in the
/// limbs, which are `n_window` windows; the first window's top limb has no bit above the window; and
/// a window that neither is the first nor starts a limb finds the limb of
/// its top bit on the alt stack, cut to the bits up to that bit.
pub open spec fn decomp_call_ok(
    n_window: u32,
    ls: u32,
    w: u32,
    idx: int,
    l: Seq<int>,
    acc: int,
) -> bool {
    let lsi = ls as int;
    let s_bit = idx * w - 1;
    &&& 1 <= w <= 6
    &&& w <= ls <= 30
    &&& 1 <= idx <= n_window
    &&& s_bit / lsi < l.len()
    &&& limbs_below(l, ls as nat)
    &&& (idx == n_window ==> l[s_bit / lsi] < pow2((s_bit % lsi + 1) as nat))
    &&& (idx != n_window && (idx * w) % lsi != 0 ==> acc == decomp_limb(l, ls as nat, s_bit, 0))
}

/// [`VarWindowScriptGenerator::next`]: the script reading window `iter` of
/// `y`, whose limbs `l` lie under the `n_limbs` items `rest`, pushes the
/// window, bits `(iter - 1) * w` to `iter * w - 1` of `y`, and leaves on the
/// alt stack what the call for the window below needs.
pub proof fn lemma_var_window_computes(
    g: VarWindowScriptGenerator,
    iter: int,
    mm_pre: Seq<int>,
    l: Seq<int>,
    rest: Seq<int>,
    a: Seq<int>,
    acc: int,
)
    requires
        decomp_call_ok(g.n_window, g.limb_size, g.var_width, iter, l, acc),
        rest.len() == g.n_limbs,
        rest.len() + l.len() + 1 <= 0x7fff_ffff,
    ensures
        ({
            let ls = g.limb_size as nat;
            let w = g.var_width as nat;
            let mm = mm_pre + on_stack(l) + rest;
            let kept = decomp_limb(l, ls, iter * w - 1, w as int);
            &&& run(
                var_window_ops(g, iter),
                st(
                    mm,
                    if iter == g.n_window {
                        a
                    } else {
                        a.push(acc)
                    },
                ),
            ) == Some(
                st(
                    mm.push(
                        (lsb_value(l, pow2(ls) as int) / (pow2(((iter - 1) * w) as nat) as int))
                            % (pow2(w) as int),
                    ),
                    if iter == 1 {
                        a
                    } else {
                        a.push(kept)
                    },
                ),
            )
            &&& (iter >= 2 ==> decomp_call_ok(g.n_window, g.limb_size, g.var_width, iter - 1, l, kept))
        }),
{
    lemma_decomp_window(g.n_window, g.limb_size, g.var_width, iter, mm_pre, l, rest, a, acc);
}

/// [`BitDecompScriptGenerator::next`]: the script reading window `idx` of
/// the operand at depth `src_depth`, whose limbs `l` lie under the
/// `n_limbs * src_depth` items `rest`, pushes the window, bits
/// `(idx - 1) * w` to `idx * w - 1` of the operand, and leaves on the alt
/// stack what the call for the window below needs.
pub proof fn lemma_bit_decomp_computes(
    g: BitDecompScriptGenerator,
    idx: int,
    src_depth: int,
    mm_pre: Seq<int>,
    l: Seq<int>,
    rest: Seq<int>,
    a: Seq<int>,
    acc: int,
)
    requires
        decomp_call_ok(g.n_window, g.limb_size, g.window, idx, l, acc),
        rest.len() == g.n_limbs * src_depth,
        rest.len() + l.len() + 1 <= 0x7fff_ffff,
    ensures
        ({
            let ls = g.limb_size as nat;
            let w = g.window as nat;
            let mm = mm_pre + on_stack(l) + rest;
            let kept = decomp_limb(l, ls, idx * w - 1, w as int);
            &&& run(
                bit_decomp_ops(g, idx, src_depth),
                st(
                    mm,
                    if idx == g.n_window {
                        a
                    } else {
                        a.push(acc)
                    },
                ),
            ) == Some(
                st(
                    mm.push(
                        (lsb_value(l, pow2(ls) as int) / (pow2(((idx - 1) * w) as nat) as int))
                            % (pow2(w) as int),
                    ),
                    if idx == 1 {
                        a
                    } else {
                        a.push(kept)
                    },
                ),
            )
            &&& (idx >= 2 ==> decomp_call_ok(g.n_window, g.limb_size, g.window, idx - 1, l, kept))
        }),
{
    lemma_decomp_window(g.n_window, g.limb_size, g.window, idx, mm_pre, l, rest, a, acc);
}

/// A window read, as a value of the operand, and the call for the window
/// below made possible.
proof fn lemma_decomp_window(
    n_window: u32,
    ls: u32,
    w: u32,
    idx: int,
    mm_pre: Seq<int>,
    l: Seq<int>,
    rest: Seq<int>,
    a: Seq<int>,
    acc: int,
)
    requires
        decomp_call_ok(n_window, ls, w, idx, l, acc),
        rest.len() + l.len() + 1 <= 0x7fff_ffff,
    ensures
        ({
            let lsi = ls as int;
            let mm = mm_pre + on_stack(l) + rest;
            let lo = rest.len() as int;
            let s_bit = idx * w - 1;
            let e_bit = (idx - 1) * w;
            let kept = decomp_limb(l, ls as nat, s_bit, w as int);
            &&& run(
                decomp_start_ops(n_window, ls, idx, lo, s_bit, s_bit / lsi) + decomp_bits_ops(
                    ls,
                    w,
                    s_bit,
                    s_bit / lsi,
                    e_bit / lsi,
                    lo,
                    w as nat,
                ) + if idx == 1 {
                    seq![Op::Drop]
                } else {
                    seq![Op::ToAltStack]
                },
                st(
                    mm,
                    if idx == n_window {
                        a
                    } else {
                        a.push(acc)
                    },
                ),
            ) == Some(
                st(
                    mm.push(
                        (lsb_value(l, pow2(ls as nat) as int) / (pow2(e_bit as nat) as int)) % (pow2(
                            w as nat,
                        ) as int),
                    ),
                    if idx == 1 {
                        a
                    } else {
                        a.push(kept)
                    },
                ),
            )
            &&& (idx >= 2 ==> decomp_call_ok(n_window, ls, w, idx - 1, l, kept))
        }),
{
    let lsi = ls as int;
    let s_bit = idx * w - 1;
    let e_bit = (idx - 1) * w;
    assert(s_bit - w + 1 == e_bit && e_bit >= 0) by (nonlinear_arith)
        requires
            idx >= 1,
            s_bit == idx * w - 1,
            e_bit == (idx - 1) * w,
    ;
    lemma_decomp_reads_window(n_window, ls, w, idx, mm_pre, l, rest, a, acc);
    lemma_limb_bits_value(l, ls as nat, s_bit, w as nat);
    if idx >= 2 {
        let kept = decomp_limb(l, ls as nat, s_bit, w as int);
        let s2 = (idx - 1) * w - 1;
        assert(s2 == e_bit - 1);
        lemma_div_is_ordered(s2, s_bit, lsi);
        assert((idx - 1) * w == e_bit);
        assert(decomp_call_ok(n_window, ls, w, idx - 1, l, kept));
    }
}

/// The first call can be made on the limbs of a big integer whose windows
/// cover its bits and whose top window's top bit lies in its head.
pub proof fn lemma_first_window_ok(shape: BigIntImpl, n_window: u32, w: u32, l: Seq<int>, acc: int)
    requires
        shape.shape_ok(),
        1 <= w <= 6,
        w <= shape.limb_size <= 30,
        n_window >= 1,
        shape.limbs_ok(l),
        shape.n_bits <= n_window * w,
        (n_window * w - 1) / (shape.limb_size as int) == shape.limbs() - 1,
    ensures
        decomp_call_ok(n_window, shape.limb_size, w, n_window as int, l, acc),
{
    let lsi = shape.limb_size as int;
    shape.lemma_bounds();
    shape.lemma_head_bits();
    let s_bit = n_window * w - 1;
    assert(s_bit >= 0) by (nonlinear_arith)
        requires
            n_window >= 1,
            w >= 1,
            s_bit == n_window * w - 1,
    ;
    lemma_fundamental_div_mod(s_bit, lsi);
    lemma_mod_pos_bound(s_bit, lsi);
    let big_l = shape.limbs() - 1;
    let r = s_bit % lsi;
    assert(shape.head_bits() <= r + 1) by (nonlinear_arith)
        requires
            shape.head_bits() == shape.n_bits - big_l * lsi,
            s_bit == lsi * big_l + r,
            shape.n_bits <= s_bit + 1,
    ;
    if shape.head_bits() < r + 1 {
        lemma_pow2_strictly_increases(shape.head_bits() as nat, (r + 1) as nat);
    }
    assert(limbs_below(l, shape.limb_size as nat)) by {
        assert forall|i: int| 0 <= i < l.len() implies 0 <= #[trigger] l[i] < pow2(
            shape.limb_size as nat,
        ) by {
            if i == l.len() - 1 {
                assert(l[i] < shape.head_bound());
            }
        }
    }
    assert(l[big_l as int] < shape.head_bound());
}

/// `{acc} {c}` with `c` below `2^(k+1)` becomes `{c} {bit} {acc + bit}`,
/// where `bit` is bit `k` of `c`.
proof fn lemma_bit_test(mm: Seq<int>, a: Seq<int>, acc: int, c: int, k: nat)
    requires
        k <= 30,
        0 <= c,
        0 <= acc <= 0x100,
        is_num(c),
    ensures
        run(
            seq![Op::Tuck, Op::Push((pow2(k) - 1) as u32), Op::GreaterThan, Op::Tuck, Op::Add],
            st(mm.push(acc).push(c), a),
        ) == Some(
            st(mm.push(c).push(bool_num(c > pow2(k) - 1)).push(acc + bool_num(c > pow2(k) - 1)), a),
        ),
{
    let p = pow2(k);
    assert(p <= 0x4000_0000) by {
        lemma2_to64();
        if k < 30 {
            lemma_pow2_strictly_increases(k, 30);
        }
    }
    lemma_pow2_pos(k);
    let b = bool_num(c > p - 1);
    let s0 = st(mm.push(acc).push(c), a);
    let s1 = st(mm.push(c).push(acc).push(c), a);
    let s2 = st(mm.push(c).push(acc).push(c).push((p - 1) as int), a);
    let s3 = st(mm.push(c).push(acc).push(b), a);
    let s4 = st(mm.push(c).push(b).push(acc).push(b), a);
    let s5 = st(mm.push(c).push(b).push(acc + b), a);
    lemma_tuck(mm, a, acc, c);
    lemma_push(mm.push(c).push(acc).push(c), a, (p - 1) as u32);
    lemma_binary(Op::GreaterThan, mm.push(c).push(acc), a, c, (p - 1) as int);
    lemma_run3(Op::Tuck, Op::Push((p - 1) as u32), Op::GreaterThan, s0, s1, s2, s3);
    lemma_tuck(mm.push(c), a, acc, b);
    lemma_binary(Op::Add, mm.push(c).push(b), a, acc, b);
    lemma_run2(Op::Tuck, Op::Add, s3, s4, s5);
    lemma_run_seq(
        seq![Op::Tuck, Op::Push((p - 1) as u32), Op::GreaterThan],
        seq![Op::Tuck, Op::Add],
        s0,
        s3,
        s5,
    );
    assert(seq![Op::Tuck, Op::Push((p - 1) as u32), Op::GreaterThan, Op::Tuck, Op::Add] =~= seq![
        Op::Tuck,
        Op::Push((p - 1) as u32),
        Op::GreaterThan,
    ] + seq![Op::Tuck, Op::Add]);
}

/// `{c} {bit} {acc}` becomes `{acc} {c - bit * 2^k}`.
proof fn lemma_bit_clear(mm: Seq<int>, a: Seq<int>, acc: int, c: int, b: int, k: nat)
    requires
        k <= 30,
        b == 0 || b == 1,
        is_num(c),
    ensures
        run(
            seq![Op::Rot, Op::Rot, Op::If, Op::Push(pow2(k) as u32), Op::Sub, Op::EndIf],
            st(mm.push(c).push(b).push(acc), a),
        ) == Some(st(mm.push(acc).push(c - b * pow2(k)), a)),
{
    let p = pow2(k);
    assert(p <= 0x4000_0000) by {
        lemma2_to64();
        if k < 30 {
            lemma_pow2_strictly_increases(k, 30);
        }
    }
    let s0 = st(mm.push(c).push(b).push(acc), a);
    let s1 = st(mm.push(b).push(acc).push(c), a);
    let s2 = st(mm.push(acc).push(c).push(b), a);
    lemma_rot(mm, a, c, b, acc);
    lemma_rot(mm, a, b, acc, c);
    lemma_run2(Op::Rot, Op::Rot, s0, s1, s2);
    let body = seq![Op::Push(p as u32), Op::Sub];
    assert(flow_free(body));
    let mc = mm.push(acc).push(c);
    lemma_if(body, mc, a, b);
    let fin = st(mm.push(acc).push(c - b * p), a);
    if truthy(b) {
        lemma_push(mc, a, p as u32);
        lemma_binary(Op::Sub, mm.push(acc), a, c, p as int);
        lemma_run2(Op::Push(p as u32), Op::Sub, st(mc, a), st(mc.push(p as int), a), fin);
    } else {
        assert(b == 0);
        assert(mc =~= mm.push(acc).push(c - b * p));
    }
    let block = seq![Op::If] + body + seq![Op::EndIf];
    assert(run(block, st(mc.push(b), a)) == Some(fin));
    lemma_run_seq(seq![Op::Rot, Op::Rot], block, s0, s2, fin);
    assert(seq![Op::Rot, Op::Rot, Op::If, Op::Push(p as u32), Op::Sub, Op::EndIf] =~= seq![
        Op::Rot,
        Op::Rot,
    ] + block);
}

} // verus!

verus! {

/// Over all calls of a window reader, from window `n_window` down to `1`,
/// the windows pushed are those of `v` from the most significant, and they
/// make `v` back by Horner's rule; the last call (window `1`) leaves the
/// alt stack as the first call found it.
pub proof fn lemma_windows_rebuild(v: nat, w: nat, n_window: nat)
    requires
        w >= 1,
        v < pow2(n_window * w),
    ensures
        forall|idx: nat|
            1 <= idx <= n_window ==> (v / pow2(((idx - 1) * w) as nat)) % pow2(w) == #[trigger] crate::windows::window(
                v,
                w,
                n_window * w,
                (n_window - idx) as nat,
            ),
        crate::windows::horner(v, w, n_window * w, n_window) == v,
{
    let ext = n_window * w;
    assert(ext / w == n_window) by {
        lemma_div_multiples_vanish(n_window as int, w as int);
        lemma_mul_is_commutative(n_window as int, w as int);
    }
    assert(ext % w == 0) by {
        lemma_mod_multiples_basic(n_window as int, w as int);
    }
    assert forall|idx: nat| 1 <= idx <= n_window implies (v / pow2(((idx - 1) * w) as nat)) % pow2(w)
        == #[trigger] crate::windows::window(v, w, ext, (n_window - idx) as nat) by {
        assert(w * (n_window - (n_window - idx) - 1) == (idx - 1) * w) by (nonlinear_arith)
            requires
                1 <= idx <= n_window,
        ;
    }
    crate::windows::lemma_horner(v, w, ext, n_window);
    crate::windows::lemma_top_windows_all(v, w, ext);
}

} // verus!
