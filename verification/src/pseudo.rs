//! Short opcode sequences that stand for arithmetic opcodes Bitcoin lacks.
use crate::script::{is_num, run, st, Op, Routine, Script};
use crate::stack::{lemma_binary, lemma_dup, lemma_run_push};
use vstd::prelude::*;

verus! {

/// The opcodes of [`OP_2MUL`].
pub open spec fn op_2mul_ops() -> Seq<Op> {
    seq![Op::Dup, Op::Add]
}

/// The opcodes of [`OP_4MUL`].
pub open spec fn op_4mul_ops() -> Seq<Op> {
    seq![Op::Dup, Op::Add, Op::Dup, Op::Add]
}

/// Double the top stack item.
#[allow(non_snake_case)]
pub fn OP_2MUL() -> (r: Script)
    ensures
        r@ == op_2mul_ops(),
{
    Script::from_ops(vec![Op::Dup, Op::Add])
}

/// Multiply the top stack item by four.
#[allow(non_snake_case)]
pub fn OP_4MUL() -> (r: Script)
    ensures
        r@ == op_4mul_ops(),
{
    Script::from_ops(vec![Op::Dup, Op::Add, Op::Dup, Op::Add])
}

/// Duplicate the top stack item `n` times.
#[allow(non_snake_case)]
pub fn OP_NDUP(n: u32) -> (r: Script)
    ensures
        r@ == seq![Op::Routine(Routine::NDup { n })],
{
    Script::from_ops(vec![Op::Routine(Routine::NDup { n })])
}


/// [`OP_2MUL`] doubles the top stack item.
pub proof fn lemma_op_2mul(m: Seq<int>, a: Seq<int>, x: int)
    requires
        is_num(x),
    ensures
        run(op_2mul_ops(), st(m.push(x), a)) == Some(st(m.push(2 * x), a)),
{
    let s0 = st(m.push(x), a);
    let e = Seq::<Op>::empty();
    assert(run(e, s0) == Some(s0));
    lemma_run_push(e, Op::Dup, s0);
    lemma_dup(m, a, x);
    assert(run(e.push(Op::Dup), s0) == Some(st(m.push(x).push(x), a)));
    lemma_run_push(e.push(Op::Dup), Op::Add, s0);
    lemma_binary(Op::Add, m, a, x, x);
    assert(op_2mul_ops() =~= e.push(Op::Dup).push(Op::Add));
}

/// [`OP_4MUL`] multiplies the top stack item by four.
pub proof fn lemma_op_4mul(m: Seq<int>, a: Seq<int>, x: int)
    requires
        is_num(2 * x),
    ensures
        run(op_4mul_ops(), st(m.push(x), a)) == Some(st(m.push(4 * x), a)),
{
    let s0 = st(m.push(x), a);
    lemma_op_2mul(m, a, x);
    lemma_op_2mul(m, a, 2 * x);
    assert(op_4mul_ops() =~= op_2mul_ops() + op_2mul_ops());
    crate::stack::lemma_run_seq(op_2mul_ops(), op_2mul_ops(), s0, st(m.push(2 * x), a), st(m.push(4 * x), a));
}

} // verus!
