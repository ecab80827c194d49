//! Limb additions used by the big-integer adders.
use crate::script::{Op, Routine, Script};
use vstd::prelude::*;

verus! {

/// Add two limbs and produce the carry of their sum.
pub fn limb_add_carry() -> (r: Script)
    ensures
        r@ == seq![Op::Routine(Routine::LimbAddCarry)],
{
    Script::from_ops(vec![Op::Routine(Routine::LimbAddCarry)])
}

/// Add two head limbs, reduced below `head_offset`.
pub fn limb_add_nocarry(head_offset: u32) -> (r: Script)
    ensures
        r@ == seq![Op::Routine(Routine::LimbAddNoCarry { head_offset })],
{
    Script::from_ops(vec![Op::Routine(Routine::LimbAddNoCarry { head_offset })])
}

} // verus!
