//! Bitcoin scripts as sequences of opcodes, and a model of how they run.
//!
//! A [`Script`] is an ordered list of [`Op`]s.  Its meaning is given by
//! [`run`], a model of the script interpreter restricted to the opcodes this
//! library emits: a main stack and an alternate stack of integers, and a stack
//! of branch conditions for `OP_IF`/`OP_ELSE`/`OP_ENDIF`.  Numeric opcodes
//! accept only operands that fit a 4-byte script number, as the interpreter
//! does; a script fails (the model yields `None`) where the interpreter would
//! fail.  Stack items are modelled as integers: the byte encoding of items and
//! the limit on stack size are not modelled.
use crate::routines::routine_effect;
use vstd::prelude::*;

verus! {

/// A routine of the surrounding big-integer library that a script invokes.
///
/// These are whole script fragments that the generators here splice in by
/// reference; their opcodes are produced elsewhere. The model of the
/// interpreter runs each as one step with the stack effect that
/// [`crate::routines::routine_effect`] gives it.
#[derive(Clone, Debug, PartialEq, Eq)]
pub enum Routine {
    /// Move the big integer on top of the main stack to the alt stack.
    ToAltStack { n_bits: u32, limb_size: u32 },
    /// Move the big integer on top of the alt stack to the main stack.
    FromAltStack { n_bits: u32, limb_size: u32 },
    /// Copy the big integer at the given depth to the top.
    Copy { n_bits: u32, limb_size: u32, depth: u32 },
    /// Move the big integer at the given depth to the top.
    Roll { n_bits: u32, limb_size: u32, depth: u32 },
    /// Drop the big integer on top of the stack.
    Drop { n_bits: u32, limb_size: u32 },
    /// Push the big integer zero.
    PushZero { n_bits: u32, limb_size: u32 },
    /// Add the big integers at depths `a` and `b`.
    Add { n_bits: u32, limb_size: u32, a: u32, b: u32 },
    /// Subtract the big integer at depth `b` from the one at depth `a`.
    Sub { n_bits: u32, limb_size: u32, a: u32, b: u32 },
    /// Compare the big integers at depths `a` and `b` with `<=`.
    LessThanOrEqual { n_bits: u32, limb_size: u32, a: u32, b: u32 },
    /// Compare the big integers at depths `a` and `b` with `>`.
    GreaterThan { n_bits: u32, limb_size: u32, a: u32, b: u32 },
    /// Push a constant given by its little-endian 32-bit digits.
    PushU32Le { n_bits: u32, limb_size: u32, digits: Vec<u32> },
    /// Interleave the top big integer with a copy of the one at depth `a`.
    DupZip { n_bits: u32, limb_size: u32, a: u32 },
    /// Duplicate the top stack item `n` times.
    NDup { n: u32 },
    /// Limb addition that leaves a carry.
    LimbAddCarry,
    /// Head-limb addition reduced by the given head offset.
    LimbAddNoCarry { head_offset: u32 },
}

/// The opcodes a script is made of.
#[derive(Clone, Debug, PartialEq, Eq)]
pub enum Op {
    /// Push a non-negative number.
    Push(u32),
    Dup,
    Drop,
    TwoDup,
    Swap,
    Rot,
    Tuck,
    Nip,
    Pick,
    Roll,
    Add,
    Sub,
    OneSub,
    Not,
    LessThan,
    LessThanOrEqual,
    GreaterThan,
    GreaterThanOrEqual,
    If,
    Else,
    EndIf,
    Verify,
    ToAltStack,
    FromAltStack,
    /// A routine of the big-integer library, spliced in by reference.
    Routine(Routine),
}

/// A script: the opcodes in the order they run.
#[derive(Clone, Debug, PartialEq, Eq)]
pub struct Script {
    ops: Vec<Op>,
}

impl View for Script {
    type V = Seq<Op>;

    closed spec fn view(&self) -> Seq<Op> {
        self.ops@
    }
}

impl Script {
    /// The empty script.
    pub fn new() -> (s: Script)
        ensures
            s@ == Seq::<Op>::empty(),
    {
        Script { ops: Vec::new() }
    }

    /// A script made of the given opcodes.
    pub fn from_ops(ops: Vec<Op>) -> (s: Script)
        ensures
            s@ == ops@,
    {
        Script { ops }
    }

    /// The opcodes of the script.
    pub fn ops(&self) -> (r: &Vec<Op>)
        ensures
            r@ == self@,
    {
        &self.ops
    }

    /// Number of opcodes.
    pub fn len(&self) -> (r: usize)
        ensures
            r == self@.len(),
    {
        self.ops.len()
    }

    /// Append one opcode.
    pub fn push_op(&mut self, op: Op)
        ensures
            final(self)@ == old(self)@.push(op),
    {
        self.ops.push(op);
    }

    /// Append a number push.
    pub fn push_num(&mut self, n: u32)
        ensures
            final(self)@ == old(self)@.push(Op::Push(n)),
    {
        self.ops.push(Op::Push(n));
    }

    /// Append another script.
    pub fn append(&mut self, other: Script)
        ensures
            final(self)@ == old(self)@ + other@,
    {
        let mut o = other.ops;
        self.ops.append(&mut o);
    }
}

/// The state of the interpreter.
pub struct State {
    /// The main stack; its top is the last element.
    pub main: Seq<int>,
    /// The alternate stack; its top is the last element.
    pub alt: Seq<int>,
    /// The conditions of the open `OP_IF` branches, innermost last.
    pub conds: Seq<bool>,
}

/// Whether a value is a valid operand of a numeric opcode (a 4-byte number).
pub open spec fn is_num(x: int) -> bool {
    -0x7fff_ffff <= x <= 0x7fff_ffff
}

/// Whether every open branch is taken, so that opcodes run.
pub open spec fn executing(s: State) -> bool {
    forall|i: int| 0 <= i < s.conds.len() ==> s.conds[i]
}

/// The truth value of a stack item.
pub open spec fn truthy(x: int) -> bool {
    x != 0
}

/// A comparison result as a stack item.
pub open spec fn bool_num(b: bool) -> int {
    if b {
        1
    } else {
        0
    }
}

/// The result of a binary numeric opcode on `a` (second) and `b` (top).
pub open spec fn binary_result(op: Op, a: int, b: int) -> int {
    match op {
        Op::Add => a + b,
        Op::Sub => a - b,
        Op::LessThan => bool_num(a < b),
        Op::LessThanOrEqual => bool_num(a <= b),
        Op::GreaterThan => bool_num(a > b),
        _ => bool_num(a >= b),
    }
}

/// Whether an opcode is a binary numeric opcode.
pub open spec fn is_binary(op: Op) -> bool {
    match op {
        Op::Add | Op::Sub | Op::LessThan | Op::LessThanOrEqual | Op::GreaterThan
        | Op::GreaterThanOrEqual => true,
        _ => false,
    }
}

/// The effect of an opcode other than the branch opcodes on the two stacks.
pub open spec fn exec_op(op: Op, m: Seq<int>, a: Seq<int>) -> Option<(Seq<int>, Seq<int>)> {
    let n = m.len();
    if is_binary(op) {
        if n >= 2 && is_num(m[n - 2]) && is_num(m[n - 1]) {
            Some((m.subrange(0, n - 2).push(binary_result(op, m[n - 2], m[n - 1])), a))
        } else {
            None
        }
    } else {
        match op {
            Op::Push(v) => Some((m.push(v as int), a)),
            Op::Dup => if n >= 1 {
                Some((m.push(m[n - 1]), a))
            } else {
                None
            },
            Op::Drop => if n >= 1 {
                Some((m.subrange(0, n - 1), a))
            } else {
                None
            },
            Op::TwoDup => if n >= 2 {
                Some((m.push(m[n - 2]).push(m[n - 1]), a))
            } else {
                None
            },
            Op::Swap => if n >= 2 {
                Some((m.subrange(0, n - 2).push(m[n - 1]).push(m[n - 2]), a))
            } else {
                None
            },
            Op::Rot => if n >= 3 {
                Some((m.subrange(0, n - 3).push(m[n - 2]).push(m[n - 1]).push(m[n - 3]), a))
            } else {
                None
            },
            Op::Tuck => if n >= 2 {
                Some((m.subrange(0, n - 2).push(m[n - 1]).push(m[n - 2]).push(m[n - 1]), a))
            } else {
                None
            },
            Op::Nip => if n >= 2 {
                Some((m.subrange(0, n - 2).push(m[n - 1]), a))
            } else {
                None
            },
            Op::Pick => if n >= 1 && is_num(m[n - 1]) && 0 <= m[n - 1] < n - 1 {
                Some((m.subrange(0, n - 1).push(m[n - 2 - m[n - 1]]), a))
            } else {
                None
            },
            Op::Roll => if n >= 1 && is_num(m[n - 1]) && 0 <= m[n - 1] < n - 1 {
                let r = m.subrange(0, n - 1);
                let i = n - 2 - m[n - 1];
                Some((r.remove(i).push(r[i]), a))
            } else {
                None
            },
            Op::OneSub => if n >= 1 && is_num(m[n - 1]) {
                Some((m.subrange(0, n - 1).push(m[n - 1] - 1), a))
            } else {
                None
            },
            Op::Not => if n >= 1 && is_num(m[n - 1]) {
                Some((m.subrange(0, n - 1).push(bool_num(m[n - 1] == 0)), a))
            } else {
                None
            },
            Op::Verify => if n >= 1 && truthy(m[n - 1]) {
                Some((m.subrange(0, n - 1), a))
            } else {
                None
            },
            Op::ToAltStack => if n >= 1 {
                Some((m.subrange(0, n - 1), a.push(m[n - 1])))
            } else {
                None
            },
            Op::FromAltStack => if a.len() >= 1 {
                Some((m.push(a[a.len() - 1]), a.subrange(0, a.len() - 1)))
            } else {
                None
            },
            Op::Routine(r) => routine_effect(r, m, a),
            _ => None,
        }
    }
}

/// One step of the interpreter.
pub open spec fn step(op: Op, s: State) -> Option<State> {
    match op {
        Op::If => if !executing(s) {
            Some(State { conds: s.conds.push(false), ..s })
        } else if s.main.len() >= 1 {
            Some(
                State {
                    main: s.main.subrange(0, s.main.len() - 1),
                    conds: s.conds.push(truthy(s.main[s.main.len() - 1])),
                    ..s
                },
            )
        } else {
            None
        },
        Op::Else => if s.conds.len() >= 1 {
            Some(
                State {
                    conds: s.conds.update(s.conds.len() - 1, !s.conds[s.conds.len() - 1]),
                    ..s
                },
            )
        } else {
            None
        },
        Op::EndIf => if s.conds.len() >= 1 {
            Some(State { conds: s.conds.subrange(0, s.conds.len() - 1), ..s })
        } else {
            None
        },
        _ => if !executing(s) {
            Some(s)
        } else {
            match exec_op(op, s.main, s.alt) {
                Some((m, a)) => Some(State { main: m, alt: a, conds: s.conds }),
                None => None,
            }
        },
    }
}

/// Running a sequence of opcodes from a state: the final state, or `None`
/// where the script fails.
pub open spec fn run(ops: Seq<Op>, s: State) -> Option<State>
    decreases ops.len(),
{
    if ops.len() == 0 {
        Some(s)
    } else {
        match step(ops[0], s) {
            Some(t) => run(ops.subrange(1, ops.len() as int), t),
            None => None,
        }
    }
}

/// Running `a` then `b`.
pub open spec fn then_run(r: Option<State>, b: Seq<Op>) -> Option<State> {
    match r {
        Some(t) => run(b, t),
        None => None,
    }
}

/// A state with the given stacks and no open branch.
pub open spec fn st(main: Seq<int>, alt: Seq<int>) -> State {
    State { main, alt, conds: Seq::empty() }
}

/// Running a concatenation runs its parts in turn.
pub proof fn lemma_run_append(a: Seq<Op>, b: Seq<Op>, s: State)
    ensures
        run(a + b, s) == then_run(run(a, s), b),
    decreases a.len(),
{
    if a.len() == 0 {
        assert(a + b =~= b);
    } else {
        assert((a + b)[0] == a[0]);
        assert((a + b).subrange(1, (a + b).len() as int) =~= a.subrange(1, a.len() as int) + b);
        match step(a[0], s) {
            Some(t) => {
                lemma_run_append(a.subrange(1, a.len() as int), b, t);
            },
            None => {},
        }
    }
}

/// Running a single opcode is one step.
pub proof fn lemma_run_single(o: Op, s: State)
    ensures
        run(seq![o], s) == step(o, s),
{
    let q = seq![o];
    assert(q[0] == o);
    match step(o, s) {
        Some(t) => {
            assert(run(q.subrange(1, 1), t) == Some(t));
        },
        None => {},
    }
}

/// `n` copies of a fragment, one after the other.
pub open spec fn repeat(f: Seq<Op>, n: nat) -> Seq<Op>
    decreases n,
{
    if n == 0 {
        Seq::empty()
    } else {
        repeat(f, (n - 1) as nat) + f
    }
}

} // verus!
