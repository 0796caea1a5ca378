//! Register bookkeeping of the Somnia Lisp compiler.

use vstd::prelude::*;

use super::vm::{Op, Reg};

verus! {

/// The state of a compilation: the instructions emitted so far, and which of
/// the general purpose registers `R1` to `R4` hold a value in use.
#[derive(Debug)]
pub struct CompileState {
    pub program: Vec<Box<Op>>,
    pub used_regs: [bool; 4],
}

/// The index in `used_regs` of a general purpose register.
pub open spec fn reg_slot(r: Reg) -> Option<int> {
    match r {
        Reg::R1 => Some(0),
        Reg::R2 => Some(1),
        Reg::R3 => Some(2),
        Reg::R4 => Some(3),
        _ => None,
    }
}

/// The first general purpose register that is not in use, if any.
pub open spec fn first_free_reg(used: Seq<bool>) -> Option<Reg> {
    if !used[0] {
        Some(Reg::R1)
    } else if !used[1] {
        Some(Reg::R2)
    } else if !used[2] {
        Some(Reg::R3)
    } else if !used[3] {
        Some(Reg::R4)
    } else {
        None
    }
}

/// The flags of use after `set_reg(reg, flag, ..)`.
pub open spec fn mark_reg(used: Seq<bool>, reg: Reg, flag: bool) -> Seq<bool> {
    match reg_slot(reg) {
        Some(i) => used.update(i, flag),
        None => used,
    }
}

/// Finds the first general purpose register that is not in use.
pub fn find_free_reg(cs: &CompileState) -> (r: Option<Reg>)
    ensures
        r == first_free_reg(cs.used_regs@),
        r matches Some(reg) ==> reg_slot(reg) matches Some(i) && !cs.used_regs@[i],
{
    broadcast use vstd::array::array_len_matches_n;

    let mut idx: usize = 0;
    while idx < 4 && cs.used_regs[idx]
        invariant
            idx <= 4,
            forall|j: int| 0 <= j < idx ==> cs.used_regs@[j],
        decreases 4 - idx,
    {
        idx = idx + 1;
    }
    match idx {
        0 => Some(Reg::R1),
        1 => Some(Reg::R2),
        2 => Some(Reg::R3),
        3 => Some(Reg::R4),
        _ => None,
    }
}

/// Marks a general purpose register as in use (`flag` true) or free; any
/// other register is left alone.
pub fn set_reg(reg: Reg, flag: bool, cs: &mut CompileState)
    ensures
        final(cs).used_regs@ == mark_reg(old(cs).used_regs@, reg, flag),
        final(cs).program@ == old(cs).program@,
{
    match reg {
        Reg::R1 => cs.used_regs[0] = flag,
        Reg::R2 => cs.used_regs[1] = flag,
        Reg::R3 => cs.used_regs[2] = flag,
        Reg::R4 => cs.used_regs[3] = flag,
        _ => (),
    }
}

/// A register marked as in use is not handed out again until it is freed,
/// and a register just freed is handed out unless an earlier one is free.
pub proof fn lemma_used_reg_not_free(used: Seq<bool>, reg: Reg)
    requires
        used.len() == 4,
        reg_slot(reg) is Some,
    ensures
        first_free_reg(mark_reg(used, reg, true)) != Some(reg),
        first_free_reg(mark_reg(used, reg, false)) is Some,
{
}

} // verus!
