//! How single opcodes and simple compositions of them act on the stacks.
//!
//! The states here have no open branch ([`st`]); the lemmas on branches
//! reduce a conditional block to its taken arm.
use crate::script::{
    binary_result, executing, exec_op, is_binary, is_num, lemma_run_append, lemma_run_single,
    repeat, run, st, step, then_run, truthy, Op, State,
};
use vstd::prelude::*;

verus! {

/// The outcome of one more opcode after a run.
pub open spec fn then_step(r: Option<State>, o: Op) -> Option<State> {
    match r {
        Some(t) => step(o, t),
        None => None,
    }
}

/// Running one more opcode at the end.
pub proof fn lemma_run_push(ops: Seq<Op>, o: Op, s: State)
    ensures
        run(ops.push(o), s) == then_step(run(ops, s), o),
{
    assert(ops.push(o) =~= ops + seq![o]);
    lemma_run_append(ops, seq![o], s);
    match run(ops, s) {
        Some(t) => {
            lemma_run_single(o, t);
        },
        None => {},
    }
}

/// Running two fragments whose effects are known.
pub proof fn lemma_run_seq(a: Seq<Op>, b: Seq<Op>, s: State, t: State, u: State)
    requires
        run(a, s) == Some(t),
        run(b, t) == Some(u),
    ensures
        run(a + b, s) == Some(u),
{
    lemma_run_append(a, b, s);
}

/// `OP_PUSH` of `v`: `v` on top.
pub proof fn lemma_push(m: Seq<int>, a: Seq<int>, v: u32)
    ensures
        step(Op::Push(v), st(m, a)) == Some(st(m.push(v as int), a)),
{
}

/// `OP_DUP`: `{x}` becomes `{x} {x}`.
pub proof fn lemma_dup(m: Seq<int>, a: Seq<int>, x: int)
    ensures
        step(Op::Dup, st(m.push(x), a)) == Some(st(m.push(x).push(x), a)),
{
}

/// `OP_DROP`: `{x}` goes.
pub proof fn lemma_drop(m: Seq<int>, a: Seq<int>, x: int)
    ensures
        step(Op::Drop, st(m.push(x), a)) == Some(st(m, a)),
{
    assert(m.push(x).subrange(0, m.len() as int) =~= m);
}

/// `OP_2DUP`: `{x} {y}` becomes `{x} {y} {x} {y}`.
pub proof fn lemma_two_dup(m: Seq<int>, a: Seq<int>, x: int, y: int)
    ensures
        step(Op::TwoDup, st(m.push(x).push(y), a)) == Some(
            st(m.push(x).push(y).push(x).push(y), a),
        ),
{
}

/// `OP_SWAP`: `{x} {y}` becomes `{y} {x}`.
pub proof fn lemma_swap(m: Seq<int>, a: Seq<int>, x: int, y: int)
    ensures
        step(Op::Swap, st(m.push(x).push(y), a)) == Some(st(m.push(y).push(x), a)),
{
    assert(m.push(x).push(y).subrange(0, m.len() as int) =~= m);
}

/// `OP_ROT`: `{x} {y} {z}` becomes `{y} {z} {x}`.
pub proof fn lemma_rot(m: Seq<int>, a: Seq<int>, x: int, y: int, z: int)
    ensures
        step(Op::Rot, st(m.push(x).push(y).push(z), a)) == Some(
            st(m.push(y).push(z).push(x), a),
        ),
{
    assert(m.push(x).push(y).push(z).subrange(0, m.len() as int) =~= m);
}

/// `OP_TUCK`: `{x} {y}` becomes `{y} {x} {y}`.
pub proof fn lemma_tuck(m: Seq<int>, a: Seq<int>, x: int, y: int)
    ensures
        step(Op::Tuck, st(m.push(x).push(y), a)) == Some(st(m.push(y).push(x).push(y), a)),
{
    assert(m.push(x).push(y).subrange(0, m.len() as int) =~= m);
}

/// `OP_NIP`: `{x} {y}` becomes `{y}`.
pub proof fn lemma_nip(m: Seq<int>, a: Seq<int>, x: int, y: int)
    ensures
        step(Op::Nip, st(m.push(x).push(y), a)) == Some(st(m.push(y), a)),
{
    assert(m.push(x).push(y).subrange(0, m.len() as int) =~= m);
}

/// A binary numeric opcode on `{x} {y}`.
pub proof fn lemma_binary(op: Op, m: Seq<int>, a: Seq<int>, x: int, y: int)
    requires
        is_binary(op),
        is_num(x),
        is_num(y),
    ensures
        step(op, st(m.push(x).push(y), a)) == Some(
            st(m.push(binary_result(op, x, y)), a),
        ),
{
    assert(m.push(x).push(y).subrange(0, m.len() as int) =~= m);
}

/// `OP_NOT`: `{x}` becomes `1` where `x` is zero, else `0`.
pub proof fn lemma_not(m: Seq<int>, a: Seq<int>, x: int)
    requires
        is_num(x),
    ensures
        step(Op::Not, st(m.push(x), a)) == Some(st(m.push(crate::script::bool_num(x == 0)), a)),
{
    assert(m.push(x).subrange(0, m.len() as int) =~= m);
}

/// `OP_1SUB`: `{x}` becomes `{x - 1}`.
pub proof fn lemma_one_sub(m: Seq<int>, a: Seq<int>, x: int)
    requires
        is_num(x),
    ensures
        step(Op::OneSub, st(m.push(x), a)) == Some(st(m.push(x - 1), a)),
{
    assert(m.push(x).subrange(0, m.len() as int) =~= m);
}

/// `OP_PICK` with depth `d`: copies the item `d` below the top.
pub proof fn lemma_pick(m: Seq<int>, a: Seq<int>, d: int)
    requires
        0 <= d < m.len(),
        is_num(d),
    ensures
        step(Op::Pick, st(m.push(d), a)) == Some(st(m.push(m[m.len() - 1 - d]), a)),
{
    assert(m.push(d).subrange(0, m.len() as int) =~= m);
}

/// `OP_ROLL` with depth `d`: moves the item `d` below the top to the top.
pub proof fn lemma_roll(m: Seq<int>, a: Seq<int>, d: int)
    requires
        0 <= d < m.len(),
        is_num(d),
    ensures
        step(Op::Roll, st(m.push(d), a)) == Some(
            st(m.remove(m.len() - 1 - d).push(m[m.len() - 1 - d]), a),
        ),
{
    assert(m.push(d).subrange(0, m.len() as int) =~= m);
}

/// `OP_TOALTSTACK`: the top item moves to the alt stack.
pub proof fn lemma_to_alt(m: Seq<int>, a: Seq<int>, x: int)
    ensures
        step(Op::ToAltStack, st(m.push(x), a)) == Some(st(m, a.push(x))),
{
    assert(m.push(x).subrange(0, m.len() as int) =~= m);
}

/// `OP_FROMALTSTACK`: the top of the alt stack moves to the main stack.
pub proof fn lemma_from_alt(m: Seq<int>, a: Seq<int>, x: int)
    ensures
        step(Op::FromAltStack, st(m, a.push(x))) == Some(st(m.push(x), a)),
{
    assert(a.push(x).subrange(0, a.len() as int) =~= a);
}

/// Whether a fragment holds no branch opcode.
pub open spec fn flow_free(ops: Seq<Op>) -> bool {
    forall|i: int|
        0 <= i < ops.len() ==> !(#[trigger] ops[i] is If || ops[i] is Else || ops[i] is EndIf)
}

/// A state with the given branch conditions.
pub open spec fn with_conds(s: State, c: Seq<bool>) -> State {
    State { conds: c, ..s }
}

/// Whether all the given branch conditions hold.
pub open spec fn all_true(c: Seq<bool>) -> bool {
    forall|i: int| 0 <= i < c.len() ==> c[i]
}

/// A fragment without branches does the same under any taken branches.
pub proof fn lemma_run_taken(ops: Seq<Op>, m: Seq<int>, a: Seq<int>, c: Seq<bool>)
    requires
        flow_free(ops),
        all_true(c),
    ensures
        run(ops, State { main: m, alt: a, conds: c }) == match run(ops, st(m, a)) {
            Some(r) => Some(with_conds(r, c)),
            None => None,
        },
        run(ops, st(m, a)) matches Some(r) ==> r.conds == Seq::<bool>::empty(),
    decreases ops.len(),
{
    if ops.len() > 0 {
        let rest = ops.subrange(1, ops.len() as int);
        assert(flow_free(rest)) by {
            assert forall|i: int| 0 <= i < rest.len() implies !(#[trigger] rest[i] is If
                || rest[i] is Else || rest[i] is EndIf) by {
                assert(rest[i] == ops[i + 1]);
            }
        }
        assert(!(ops[0] is If || ops[0] is Else || ops[0] is EndIf));
        let s = State { main: m, alt: a, conds: c };
        assert(executing(s));
        assert(executing(st(m, a)));
        match exec_op(ops[0], m, a) {
            Some((m1, a1)) => {
                lemma_run_taken(rest, m1, a1, c);
            },
            None => {},
        }
    }
}

/// A fragment without branches does nothing inside a branch not taken.
pub proof fn lemma_run_skipped(ops: Seq<Op>, s: State)
    requires
        flow_free(ops),
        !executing(s),
    ensures
        run(ops, s) == Some(s),
    decreases ops.len(),
{
    if ops.len() > 0 {
        let rest = ops.subrange(1, ops.len() as int);
        assert(flow_free(rest)) by {
            assert forall|i: int| 0 <= i < rest.len() implies !(#[trigger] rest[i] is If
                || rest[i] is Else || rest[i] is EndIf) by {
                assert(rest[i] == ops[i + 1]);
            }
        }
        assert(!(ops[0] is If || ops[0] is Else || ops[0] is EndIf));
        lemma_run_skipped(rest, s);
    }
}

/// `OP_IF body OP_ENDIF` runs `body` exactly where the condition holds.
pub proof fn lemma_if(body: Seq<Op>, m: Seq<int>, a: Seq<int>, x: int)
    requires
        flow_free(body),
    ensures
        run(seq![Op::If] + body + seq![Op::EndIf], st(m.push(x), a)) == if truthy(x) {
            run(body, st(m, a))
        } else {
            Some(st(m, a))
        },
{
    let s0 = st(m.push(x), a);
    assert(m.push(x).subrange(0, m.len() as int) =~= m);
    let s1 = State { main: m, alt: a, conds: seq![truthy(x)] };
    lemma_run_single(Op::If, s0);
    assert(step(Op::If, s0) == Some(s1));
    lemma_run_append(seq![Op::If], body, s0);
    lemma_run_append(seq![Op::If] + body, seq![Op::EndIf], s0);
    if truthy(x) {
        assert(all_true(seq![true]));
        lemma_run_taken(body, m, a, seq![true]);
        match run(body, st(m, a)) {
            Some(r) => {
                lemma_run_single(Op::EndIf, with_conds(r, seq![true]));
                assert(seq![true].subrange(0, 0) =~= Seq::<bool>::empty());
                assert(with_conds(with_conds(r, seq![true]), Seq::<bool>::empty()) == r);
            },
            None => {},
        }
    } else {
        assert(!executing(s1));
        lemma_run_skipped(body, s1);
        lemma_run_single(Op::EndIf, s1);
        assert(seq![false].subrange(0, 0) =~= Seq::<bool>::empty());
    }
}

/// `OP_IF t OP_ELSE e OP_ENDIF` runs `t` where the condition holds, else `e`.
pub proof fn lemma_if_else(t: Seq<Op>, e: Seq<Op>, m: Seq<int>, a: Seq<int>, x: int)
    requires
        flow_free(t),
        flow_free(e),
    ensures
        run(seq![Op::If] + t + seq![Op::Else] + e + seq![Op::EndIf], st(m.push(x), a)) == if truthy(
            x,
        ) {
            run(t, st(m, a))
        } else {
            run(e, st(m, a))
        },
{
    let s0 = st(m.push(x), a);
    assert(m.push(x).subrange(0, m.len() as int) =~= m);
    let s1 = State { main: m, alt: a, conds: seq![truthy(x)] };
    lemma_run_single(Op::If, s0);
    lemma_run_append(seq![Op::If], t, s0);
    lemma_run_append(seq![Op::If] + t, seq![Op::Else], s0);
    lemma_run_append(seq![Op::If] + t + seq![Op::Else], e, s0);
    lemma_run_append(seq![Op::If] + t + seq![Op::Else] + e, seq![Op::EndIf], s0);
    assert(seq![true].update(0, false) =~= seq![false]);
    assert(seq![false].update(0, true) =~= seq![true]);
    assert(seq![true].subrange(0, 0) =~= Seq::<bool>::empty());
    assert(seq![false].subrange(0, 0) =~= Seq::<bool>::empty());
    assert(all_true(seq![true]));
    if truthy(x) {
        lemma_run_taken(t, m, a, seq![true]);
        match run(t, st(m, a)) {
            Some(r) => {
                let r1 = with_conds(r, seq![true]);
                lemma_run_single(Op::Else, r1);
                let r2 = with_conds(r, seq![false]);
                assert(step(Op::Else, r1) == Some(r2));
                assert(!executing(r2));
                lemma_run_skipped(e, r2);
                lemma_run_single(Op::EndIf, r2);
                assert(with_conds(r2, Seq::<bool>::empty()) == r);
            },
            None => {},
        }
    } else {
        lemma_run_skipped(t, s1);
        lemma_run_single(Op::Else, s1);
        let s2 = State { main: m, alt: a, conds: seq![true] };
        assert(step(Op::Else, s1) == Some(s2));
        lemma_run_taken(e, m, a, seq![true]);
        match run(e, st(m, a)) {
            Some(r) => {
                lemma_run_single(Op::EndIf, with_conds(r, seq![true]));
                assert(with_conds(with_conds(r, seq![true]), Seq::<bool>::empty()) == r);
            },
            None => {},
        }
    }
}


/// Under outer branches that are all taken, a fragment that runs from some
/// state runs the same way, the outer conditions kept below its own.
pub proof fn lemma_run_nested_taken(ops: Seq<Op>, s: State, c0: Seq<bool>)
    requires
        all_true(c0),
        run(ops, s) is Some,
    ensures
        run(ops, with_conds(s, c0 + s.conds)) == Some(
            with_conds(run(ops, s)->Some_0, c0 + run(ops, s)->Some_0.conds),
        ),
    decreases ops.len(),
{
    if ops.len() > 0 {
        let rest = ops.subrange(1, ops.len() as int);
        let p = with_conds(s, c0 + s.conds);
        let s1 = step(ops[0], s)->Some_0;
        assert(executing(p) == executing(s)) by {
            if executing(s) {
                assert forall|i: int| 0 <= i < p.conds.len() implies p.conds[i] by {
                    if i >= c0.len() {
                        assert(p.conds[i] == s.conds[i - c0.len()]);
                    }
                }
            }
            if executing(p) {
                assert forall|i: int| 0 <= i < s.conds.len() implies s.conds[i] by {
                    assert(p.conds[i + c0.len()] == s.conds[i]);
                }
            }
        }
        match ops[0] {
            Op::If => {
                assert((c0 + s.conds).push(truthy(s.main[s.main.len() - 1])) =~= c0 + s.conds.push(
                    truthy(s.main[s.main.len() - 1]),
                ));
                assert((c0 + s.conds).push(false) =~= c0 + s.conds.push(false));
            },
            Op::Else => {
                let k = s.conds.len() - 1;
                assert((c0 + s.conds).update(c0.len() + k, !(c0 + s.conds)[c0.len() + k]) =~= c0
                    + s.conds.update(k, !s.conds[k]));
            },
            Op::EndIf => {
                assert((c0 + s.conds).subrange(0, (c0 + s.conds).len() - 1) =~= c0 + s.conds.subrange(
                    0,
                    s.conds.len() - 1,
                ));
            },
            _ => {},
        }
        assert(step(ops[0], p) == Some(with_conds(s1, c0 + s1.conds)));
        lemma_run_nested_taken(rest, s1, c0);
    }
}

/// Under an outer branch not taken, a fragment that runs from some state
/// leaves the stacks alone, with as many open conditions of its own at the
/// end as that run has.
pub proof fn lemma_run_nested_skipped(ops: Seq<Op>, s: State, p: State, c0: Seq<bool>)
    requires
        !all_true(c0),
        run(ops, s) is Some,
        p.conds.len() == c0.len() + s.conds.len(),
        p.conds.subrange(0, c0.len() as int) == c0,
    ensures
        run(ops, p) matches Some(r) && r.main == p.main && r.alt == p.alt && r.conds.len() == c0.len()
            + run(ops, s)->Some_0.conds.len() && r.conds.subrange(0, c0.len() as int) == c0,
    decreases ops.len(),
{
    if ops.len() > 0 {
        let rest = ops.subrange(1, ops.len() as int);
        let s1 = step(ops[0], s)->Some_0;
        assert(!executing(p)) by {
            let i = choose|i: int| 0 <= i < c0.len() && !c0[i];
            assert(p.conds[i] == c0[i]);
        }
        let p1 = step(ops[0], p)->Some_0;
        match ops[0] {
            Op::If => {
                assert(p1.conds.subrange(0, c0.len() as int) =~= c0) by {
                    assert forall|i: int| 0 <= i < c0.len() implies p1.conds[i] == c0[i] by {
                        assert(p.conds.subrange(0, c0.len() as int)[i] == c0[i]);
                    }
                }
            },
            Op::Else => {
                assert(p1.conds.subrange(0, c0.len() as int) =~= c0) by {
                    assert forall|i: int| 0 <= i < c0.len() implies p1.conds[i] == c0[i] by {
                        assert(p.conds.subrange(0, c0.len() as int)[i] == c0[i]);
                    }
                }
            },
            Op::EndIf => {
                assert(p1.conds.subrange(0, c0.len() as int) =~= c0) by {
                    assert forall|i: int| 0 <= i < c0.len() implies p1.conds[i] == c0[i] by {
                        assert(p.conds.subrange(0, c0.len() as int)[i] == c0[i]);
                    }
                }
            },
            _ => {},
        }
        lemma_run_nested_skipped(rest, s1, p1, c0);
    }
}

/// `OP_IF t OP_ELSE e OP_ENDIF`, with arms that may hold branches of their
/// own, runs `t` where the condition holds, else `e`, given that the arm
/// taken runs from the state it starts in and the other from some state.
pub proof fn lemma_if_else_nested(
    t: Seq<Op>,
    e: Seq<Op>,
    m: Seq<int>,
    a: Seq<int>,
    x: int,
    other_m: Seq<int>,
    other_a: Seq<int>,
)
    requires
        run(t, if truthy(x) { st(m, a) } else { st(other_m, other_a) }) matches Some(r) && r.conds.len()
            == 0,
        run(e, if truthy(x) { st(other_m, other_a) } else { st(m, a) }) matches Some(r) && r.conds.len()
            == 0,
    ensures
        run(seq![Op::If] + t + seq![Op::Else] + e + seq![Op::EndIf], st(m.push(x), a)) == if truthy(
            x,
        ) {
            run(t, st(m, a))
        } else {
            run(e, st(m, a))
        },
{
    let s0 = st(m.push(x), a);
    assert(m.push(x).subrange(0, m.len() as int) =~= m);
    let s1 = State { main: m, alt: a, conds: seq![truthy(x)] };
    lemma_run_single(Op::If, s0);
    lemma_run_append(seq![Op::If], t, s0);
    lemma_run_append(seq![Op::If] + t, seq![Op::Else], s0);
    lemma_run_append(seq![Op::If] + t + seq![Op::Else], e, s0);
    lemma_run_append(seq![Op::If] + t + seq![Op::Else] + e, seq![Op::EndIf], s0);
    assert(all_true(seq![true]));
    assert(!all_true(seq![false])) by {
        assert(!seq![false][0]);
    }
    assert(seq![true] + Seq::<bool>::empty() =~= seq![true]);
    assert(seq![false] + Seq::<bool>::empty() =~= seq![false]);
    if truthy(x) {
        let rt = run(t, st(m, a))->Some_0;
        lemma_run_nested_taken(t, st(m, a), seq![true]);
        assert(with_conds(st(m, a), seq![true]) == s1);
        let r1 = with_conds(rt, seq![true]);
        assert(seq![true] + rt.conds =~= seq![true]);
        lemma_run_single(Op::Else, r1);
        let r2 = with_conds(rt, seq![false]);
        assert(seq![true].update(0, false) =~= seq![false]);
        assert(step(Op::Else, r1) == Some(r2));
        assert(r2.conds.subrange(0, 1) =~= seq![false]);
        lemma_run_nested_skipped(e, st(other_m, other_a), r2, seq![false]);
        let r3 = run(e, r2)->Some_0;
        assert(r3.conds =~= seq![false]) by {
            assert(r3.conds.len() == 1);
            assert(r3.conds.subrange(0, 1)[0] == r3.conds[0]);
        }
        assert(r3 == r2);
        lemma_run_single(Op::EndIf, r2);
        assert(seq![false].subrange(0, 0) =~= Seq::<bool>::empty());
        assert(rt.conds =~= Seq::<bool>::empty());
        assert(with_conds(r2, Seq::<bool>::empty()) == rt);
    } else {
        assert(s1.conds.subrange(0, 1) =~= seq![false]);
        lemma_run_nested_skipped(t, st(other_m, other_a), s1, seq![false]);
        let r1 = run(t, s1)->Some_0;
        assert(r1.conds =~= seq![false]) by {
            assert(r1.conds.subrange(0, 1)[0] == r1.conds[0]);
        }
        assert(r1 == s1);
        lemma_run_single(Op::Else, s1);
        let s2 = State { main: m, alt: a, conds: seq![true] };
        assert(seq![false].update(0, true) =~= seq![true]);
        assert(step(Op::Else, s1) == Some(s2));
        let re = run(e, st(m, a))->Some_0;
        lemma_run_nested_taken(e, st(m, a), seq![true]);
        assert(with_conds(st(m, a), seq![true]) == s2);
        assert(seq![true] + re.conds =~= seq![true]);
        lemma_run_single(Op::EndIf, with_conds(re, seq![true]));
        assert(seq![true].subrange(0, 0) =~= Seq::<bool>::empty());
        assert(re.conds =~= Seq::<bool>::empty());
        assert(with_conds(with_conds(re, seq![true]), Seq::<bool>::empty()) == re);
    }
}

/// Running `n + 1` copies: `n` copies, then one more.
pub proof fn lemma_run_repeat_succ(f: Seq<Op>, n: nat, s: State)
    ensures
        run(repeat(f, n + 1), s) == then_run(run(repeat(f, n), s), f),
{
    lemma_run_append(repeat(f, n), f, s);
}


/// `n + 1` copies: one, then `n` more.
pub proof fn lemma_repeat_front(f: Seq<Op>, n: nat)
    ensures
        repeat(f, n + 1) == f + repeat(f, n),
    decreases n,
{
    if n == 0 {
        assert(repeat(f, 0) + f =~= f);
        assert(f + repeat(f, 0) =~= f);
    } else {
        lemma_repeat_front(f, (n - 1) as nat);
        assert(repeat(f, n) + f =~= f + repeat(f, (n - 1) as nat) + f);
        assert(f + repeat(f, (n - 1) as nat) + f =~= f + (repeat(f, (n - 1) as nat) + f));
    }
}


/// Two opcodes whose single steps are known.
pub proof fn lemma_run2(o1: Op, o2: Op, s0: State, s1: State, s2: State)
    requires
        step(o1, s0) == Some(s1),
        step(o2, s1) == Some(s2),
    ensures
        run(seq![o1, o2], s0) == Some(s2),
{
    let e = Seq::<Op>::empty();
    lemma_run_push(e, o1, s0);
    lemma_run_push(e.push(o1), o2, s0);
    assert(seq![o1, o2] =~= e.push(o1).push(o2));
}

/// Three opcodes whose single steps are known.
pub proof fn lemma_run3(o1: Op, o2: Op, o3: Op, s0: State, s1: State, s2: State, s3: State)
    requires
        step(o1, s0) == Some(s1),
        step(o2, s1) == Some(s2),
        step(o3, s2) == Some(s3),
    ensures
        run(seq![o1, o2, o3], s0) == Some(s3),
{
    let e = Seq::<Op>::empty();
    lemma_run_push(e, o1, s0);
    lemma_run_push(e.push(o1), o2, s0);
    lemma_run_push(e.push(o1).push(o2), o3, s0);
    assert(seq![o1, o2, o3] =~= e.push(o1).push(o2).push(o3));
}

/// One opcode whose single step is known.
pub proof fn lemma_run1(o1: Op, s0: State, s1: State)
    requires
        step(o1, s0) == Some(s1),
    ensures
        run(seq![o1], s0) == Some(s1),
{
    lemma_run_single(o1, s0);
}


/// Four opcodes whose single steps are known.
pub proof fn lemma_run4(
    o1: Op,
    o2: Op,
    o3: Op,
    o4: Op,
    s0: State,
    s1: State,
    s2: State,
    s3: State,
    s4: State,
)
    requires
        step(o1, s0) == Some(s1),
        step(o2, s1) == Some(s2),
        step(o3, s2) == Some(s3),
        step(o4, s3) == Some(s4),
    ensures
        run(seq![o1, o2, o3, o4], s0) == Some(s4),
{
    lemma_run3(o1, o2, o3, s0, s1, s2, s3);
    lemma_run_push(seq![o1, o2, o3], o4, s0);
    assert(seq![o1, o2, o3, o4] =~= seq![o1, o2, o3].push(o4));
}

/// `k` rounds of `OP_DUP OP_PICK OP_SWAP` under a depth `v` copy the `k`
/// items that lie `v` deep and above, keeping `v` on top.
pub proof fn lemma_copy_loop(m: Seq<int>, a: Seq<int>, v: int, k: nat)
    requires
        1 <= v <= m.len(),
        k <= v,
        is_num(v),
    ensures
        run(repeat(seq![Op::Dup, Op::Pick, Op::Swap], k), st(m.push(v), a)) == Some(
            st((m + m.subrange(m.len() - v, m.len() - v + k)).push(v), a),
        ),
    decreases k,
{
    let l = m.len() as int;
    if k == 0 {
        assert(m + m.subrange(l - v, l - v) =~= m);
    } else {
        let j = (k - 1) as nat;
        lemma_copy_loop(m, a, v, j);
        let mj = m + m.subrange(l - v, l - v + j);
        let x = m[l - v + j];
        let s0 = st(mj.push(v), a);
        let s1 = st(mj.push(v).push(v), a);
        let s2 = st(mj.push(v).push(x), a);
        let s3 = st(mj.push(x).push(v), a);
        lemma_dup(mj, a, v);
        lemma_pick(mj.push(v), a, v);
        assert(mj.push(v)[mj.push(v).len() - 1 - v] == x);
        lemma_swap(mj, a, v, x);
        lemma_run3(Op::Dup, Op::Pick, Op::Swap, s0, s1, s2, s3);
        assert(mj.push(x) =~= m + m.subrange(l - v, l - v + k));
        lemma_run_repeat_succ(seq![Op::Dup, Op::Pick, Op::Swap], j, st(m.push(v), a));
    }
}

/// The copy loop of `n - 1` rounds closed by `OP_1SUB OP_PICK` copies the `n`
/// items that lie `v` deep and above, in order.
pub proof fn lemma_copy_block(m: Seq<int>, a: Seq<int>, v: int, n: nat)
    requires
        1 <= n <= v <= m.len(),
        is_num(v),
    ensures
        run(
            repeat(seq![Op::Dup, Op::Pick, Op::Swap], (n - 1) as nat) + seq![Op::OneSub, Op::Pick],
            st(m.push(v), a),
        ) == Some(st(m + m.subrange(m.len() - v, m.len() - v + n), a)),
{
    let l = m.len() as int;
    let k = (n - 1) as nat;
    lemma_copy_loop(m, a, v, k);
    let mk = m + m.subrange(l - v, l - v + k);
    let x = m[l - v + k];
    let s0 = st(mk.push(v), a);
    let s1 = st(mk.push(v - 1), a);
    let s2 = st(mk.push(x), a);
    lemma_one_sub(mk, a, v);
    lemma_pick(mk, a, v - 1);
    assert(mk[mk.len() - 1 - (v - 1)] == x);
    lemma_run2(Op::OneSub, Op::Pick, s0, s1, s2);
    assert(mk.push(x) =~= m + m.subrange(l - v, l - v + n));
    lemma_run_seq(repeat(seq![Op::Dup, Op::Pick, Op::Swap], k), seq![Op::OneSub, Op::Pick], st(m.push(v), a), s0, s2);
}

} // verus!
