//! The register machine that runs compiled Somnia Lisp.
//!
//! Values are unsigned 32-bit integers and the arithmetic wraps around.

use vstd::prelude::*;
use vstd::arithmetic::power2::pow2;

verus! {

/// The registers of the machine.
#[derive(Debug, Clone, Copy, PartialEq, Eq)]
pub struct Register {
    /// zero register
    pub zr: u32,
    /// instruction pointer
    pub ip: u32,
    /// stack pointer
    pub sp: u32,
    /// general purpose registers
    pub r1: u32,
    pub r2: u32,
    pub r3: u32,
    pub r4: u32,
    /// output values (left and right)
    pub ol: u32,
    pub or: u32,
}

/// The name of a register.
#[derive(Debug, Clone, Copy, PartialEq, Eq)]
pub enum Reg {
    ZR,
    IP,
    SP,
    R1,
    R2,
    R3,
    R4,
    OL,
    OR,
}

/// An instruction of the machine.
#[derive(Debug, Clone, PartialEq, Eq)]
pub enum Op {
    NOP,
    // loading/storing
    LOADC(u32, Reg),
    LOAD(u32, Reg),
    STORE(Reg, u32),
    OUT(Reg),
    // basic arithmetic
    ADD(Reg, Reg, Reg),
    SUB(Reg, Reg, Reg),
    MUL(Reg, Reg, Reg),
    DIV(Reg, Reg, Reg),
    // bit shift
    SHL(Reg, Reg, Reg),
    SHR(Reg, Reg, Reg),
}

/// The machine: its registers, its program and its memory.
pub struct VM {
    pub reg: Register,
    pub program: Vec<Box<Op>>,
    pub memory: Vec<u32>,
}

/// The state of the machine that a program changes: registers and memory.
pub type MachineState = (Register, Seq<u32>);

/// The value held by register `r`.
pub open spec fn reg_value(regs: Register, r: Reg) -> u32 {
    match r {
        Reg::ZR => regs.zr,
        Reg::IP => regs.ip,
        Reg::SP => regs.sp,
        Reg::R1 => regs.r1,
        Reg::R2 => regs.r2,
        Reg::R3 => regs.r3,
        Reg::R4 => regs.r4,
        Reg::OL => regs.ol,
        Reg::OR => regs.or,
    }
}

/// The registers after writing `v` to `r`; a write to the zero register
/// changes nothing.
pub open spec fn with_reg(regs: Register, r: Reg, v: u32) -> Register {
    match r {
        Reg::ZR => regs,
        Reg::IP => Register { ip: v, ..regs },
        Reg::SP => Register { sp: v, ..regs },
        Reg::R1 => Register { r1: v, ..regs },
        Reg::R2 => Register { r2: v, ..regs },
        Reg::R3 => Register { r3: v, ..regs },
        Reg::R4 => Register { r4: v, ..regs },
        Reg::OL => Register { ol: v, ..regs },
        Reg::OR => Register { or: v, ..regs },
    }
}

/// The registers that can receive the result of an arithmetic instruction.
pub open spec fn is_general(r: Reg) -> bool {
    r == Reg::R1 || r == Reg::R2 || r == Reg::R3 || r == Reg::R4
}

/// The number of a register, as `Reg::to_num` gives it.
pub open spec fn reg_number(r: Reg) -> u8 {
    match r {
        Reg::ZR => 0,
        Reg::R1 => 1,
        Reg::R2 => 2,
        Reg::R3 => 3,
        Reg::R4 => 4,
        Reg::IP => 32,
        Reg::SP => 33,
        Reg::OL => 34,
        Reg::OR => 35,
    }
}

/// The register with number `n`; an unknown number names the zero register.
pub open spec fn reg_of_number(n: u8) -> Reg {
    if n == 1 {
        Reg::R1
    } else if n == 2 {
        Reg::R2
    } else if n == 3 {
        Reg::R3
    } else if n == 4 {
        Reg::R4
    } else if n == 32 {
        Reg::IP
    } else if n == 33 {
        Reg::SP
    } else if n == 34 {
        Reg::OL
    } else if n == 35 {
        Reg::OR
    } else {
        Reg::ZR
    }
}

/// Stores the result of an arithmetic instruction: `None` where the target
/// is not a general purpose register (the machine stops with an error).
pub open spec fn store_result(regs: Register, target: Reg, v: u32) -> Option<Register> {
    if is_general(target) {
        Some(with_reg(regs, target, v))
    } else {
        None
    }
}

/// What the instruction `op` does to the registers and the memory, before the
/// instruction pointer moves on; `None` where the machine stops with an error.
pub open spec fn exec_op(op: Op, regs: Register, memory: Seq<u32>) -> Option<MachineState> {
    match op {
        Op::NOP => Some((regs, memory)),
        Op::LOADC(val, r) => Some((with_reg(regs, r, val), memory)),
        Op::LOAD(pos, r) => if pos < memory.len() {
            Some((with_reg(regs, r, memory[pos as int]), memory))
        } else {
            None
        },
        Op::STORE(r, pos) => if pos < memory.len() {
            Some((regs, memory.update(pos as int, reg_value(regs, r))))
        } else {
            None
        },
        Op::OUT(r) => {
            let v = reg_value(regs, r);
            Some((with_reg(with_reg(regs, Reg::OL, v), Reg::OR, v), memory))
        },
        Op::ADD(a, b, t) => match store_result(
            regs,
            t,
            ((reg_value(regs, a) + reg_value(regs, b)) % 0x1_0000_0000) as u32,
        ) {
            Some(r) => Some((r, memory)),
            None => None,
        },
        Op::SUB(a, b, t) => match store_result(
            regs,
            t,
            ((reg_value(regs, a) - reg_value(regs, b) + 0x1_0000_0000) % 0x1_0000_0000) as u32,
        ) {
            Some(r) => Some((r, memory)),
            None => None,
        },
        Op::MUL(a, b, t) => match store_result(
            regs,
            t,
            ((reg_value(regs, a) * reg_value(regs, b)) % 0x1_0000_0000) as u32,
        ) {
            Some(r) => Some((r, memory)),
            None => None,
        },
        Op::DIV(a, b, t) => if reg_value(regs, b) == 0 {
            None
        } else {
            match store_result(regs, t, (reg_value(regs, a) / reg_value(regs, b)) as u32) {
                Some(r) => Some((r, memory)),
                None => None,
            }
        },
        Op::SHL(a, b, t) => match store_result(
            regs,
            t,
            reg_value(regs, a) << (reg_value(regs, b) % 32),
        ) {
            Some(r) => Some((r, memory)),
            None => None,
        },
        Op::SHR(a, b, t) => match store_result(
            regs,
            t,
            reg_value(regs, a) >> (reg_value(regs, b) % 32),
        ) {
            Some(r) => Some((r, memory)),
            None => None,
        },
    }
}

/// One step of the machine: run the instruction at the instruction pointer,
/// then move the instruction pointer to the next instruction. `None` where
/// the machine stops with an error: a bad target register, a division by
/// zero, a memory address out of range, or an instruction pointer that
/// cannot move on.
pub open spec fn step(program: Seq<Box<Op>>, st: MachineState) -> Option<MachineState> {
    match exec_op(*program[st.0.ip as int], st.0, st.1) {
        Some((regs, memory)) => if regs.ip < u32::MAX {
            Some((Register { ip: (regs.ip + 1) as u32, ..regs }, memory))
        } else {
            None
        },
        None => None,
    }
}

/// The machine has run past the end of its program.
pub open spec fn halted(program: Seq<Box<Op>>, st: MachineState) -> bool {
    st.0.ip >= program.len()
}

/// The state in which the machine halts within `fuel` steps from `st`, or
/// `None` where it stops with an error or needs more steps.
pub open spec fn run(program: Seq<Box<Op>>, st: MachineState, fuel: nat) -> Option<MachineState>
    decreases fuel,
{
    if halted(program, st) {
        Some(st)
    } else if fuel == 0 {
        None
    } else {
        match step(program, st) {
            Some(next) => run(program, next, (fuel - 1) as nat),
            None => None,
        }
    }
}

/// From `st` the machine halts without error after finitely many steps.
pub open spec fn halts(program: Seq<Box<Op>>, st: MachineState) -> bool {
    exists|n: nat| (#[trigger] run(program, st, n)) is Some
}

/// `result` is the machine state in which register `t` holds `v`, every
/// other register holds what it held in `regs`, and the memory is `memory`.
pub open spec fn writes_only(result: Option<MachineState>, regs: Register, memory: Seq<u32>, t: Reg, v: int) -> bool {
    match result {
        Some((after, mem)) => {
            &&& mem == memory
            &&& reg_value(after, t) == v
            &&& forall|q: Reg| q != t ==> reg_value(after, q) == reg_value(regs, q)
        },
        None => false,
    }
}

/// Writing `v` to a general purpose register writes it there and nowhere
/// else.
proof fn lemma_store_writes_only(regs: Register, memory: Seq<u32>, t: Reg, v: u32)
    requires
        is_general(t),
    ensures
        store_result(regs, t, v) == Some(with_reg(regs, t, v)),
        writes_only(Some((with_reg(regs, t, v), memory)), regs, memory, t, v as int),
{
}

/// `ADD` writes x + y modulo 2^32 to its target and nowhere else, where x
/// and y are the values of its two operands; it does not depend on their
/// order, and zero is neutral.
pub proof fn lemma_add_op(regs: Register, memory: Seq<u32>, a: Reg, b: Reg, t: Reg)
    requires
        is_general(t),
    ensures
        writes_only(
            exec_op(Op::ADD(a, b, t), regs, memory),
            regs,
            memory,
            t,
            (reg_value(regs, a) + reg_value(regs, b)) % 0x1_0000_0000,
        ),
        exec_op(Op::ADD(a, b, t), regs, memory) == exec_op(Op::ADD(b, a, t), regs, memory),
        reg_value(regs, b) == 0 ==> writes_only(
            exec_op(Op::ADD(a, b, t), regs, memory),
            regs,
            memory,
            t,
            reg_value(regs, a) as int,
        ),
{
    let v = ((reg_value(regs, a) + reg_value(regs, b)) % 0x1_0000_0000) as u32;
    lemma_store_writes_only(regs, memory, t, v);
}

/// `SUB` writes x - y modulo 2^32 to its target and nowhere else: adding y
/// back gives x.
pub proof fn lemma_sub_op(regs: Register, memory: Seq<u32>, a: Reg, b: Reg, t: Reg)
    requires
        is_general(t),
    ensures
        writes_only(
            exec_op(Op::SUB(a, b, t), regs, memory),
            regs,
            memory,
            t,
            (reg_value(regs, a) - reg_value(regs, b)) % 0x1_0000_0000,
        ),
        match exec_op(Op::SUB(a, b, t), regs, memory) {
            Some((after, _)) => (reg_value(after, t) + reg_value(regs, b)) % 0x1_0000_0000 == reg_value(
                regs,
                a,
            ),
            None => false,
        },
{
    let v = ((reg_value(regs, a) - reg_value(regs, b) + 0x1_0000_0000) % 0x1_0000_0000) as u32;
    lemma_store_writes_only(regs, memory, t, v);
}

/// `MUL` writes x * y modulo 2^32 to its target and nowhere else, where x
/// and y are the values of its two operands; it does not depend on their
/// order, and one is neutral.
pub proof fn lemma_mul_op(regs: Register, memory: Seq<u32>, a: Reg, b: Reg, t: Reg)
    requires
        is_general(t),
    ensures
        writes_only(
            exec_op(Op::MUL(a, b, t), regs, memory),
            regs,
            memory,
            t,
            (reg_value(regs, a) * reg_value(regs, b)) % 0x1_0000_0000,
        ),
        exec_op(Op::MUL(a, b, t), regs, memory) == exec_op(Op::MUL(b, a, t), regs, memory),
        reg_value(regs, b) == 1 ==> writes_only(
            exec_op(Op::MUL(a, b, t), regs, memory),
            regs,
            memory,
            t,
            reg_value(regs, a) as int,
        ),
{
    let x = reg_value(regs, a) as int;
    let y = reg_value(regs, b) as int;
    assert(x * y == y * x) by (nonlinear_arith);
    assert(0 <= x * y) by (nonlinear_arith)
        requires
            0 <= x,
            0 <= y,
    ;
    assert((x * y) % 0x1_0000_0000 < 0x1_0000_0000);
    let v = ((x * y) % 0x1_0000_0000) as u32;
    lemma_store_writes_only(regs, memory, t, v);
    if y == 1 {
        assert(x * y == x) by (nonlinear_arith)
            requires
                y == 1,
        ;
    }
}

/// `DIV` writes the quotient x / y to its target and nowhere else; a zero
/// divisor stops the machine.
pub proof fn lemma_div_op(regs: Register, memory: Seq<u32>, a: Reg, b: Reg, t: Reg)
    requires
        is_general(t),
    ensures
        reg_value(regs, b) != 0 ==> writes_only(
            exec_op(Op::DIV(a, b, t), regs, memory),
            regs,
            memory,
            t,
            reg_value(regs, a) as int / reg_value(regs, b) as int,
        ),
        reg_value(regs, b) == 0 ==> exec_op(Op::DIV(a, b, t), regs, memory) is None,
{
    if reg_value(regs, b) != 0 {
        let v = (reg_value(regs, a) / reg_value(regs, b)) as u32;
        lemma_store_writes_only(regs, memory, t, v);
    }
}

/// `SHR` writes x / 2^(y mod 32) to its target and nowhere else, and
/// `SHL` writes x * 2^(y mod 32) where that fits in 32 bits.
pub proof fn lemma_shift_ops(regs: Register, memory: Seq<u32>, a: Reg, b: Reg, t: Reg)
    requires
        is_general(t),
    ensures
        writes_only(
            exec_op(Op::SHR(a, b, t), regs, memory),
            regs,
            memory,
            t,
            reg_value(regs, a) as int / pow2((reg_value(regs, b) % 32) as nat) as int,
        ),
        reg_value(regs, a) * pow2((reg_value(regs, b) % 32) as nat) <= u32::MAX ==> writes_only(
            exec_op(Op::SHL(a, b, t), regs, memory),
            regs,
            memory,
            t,
            reg_value(regs, a) * pow2((reg_value(regs, b) % 32) as nat),
        ),
{
    let x = reg_value(regs, a);
    let s: u32 = reg_value(regs, b) % 32;
    vstd::bits::lemma_u32_shr_is_div(x, s);
    lemma_store_writes_only(regs, memory, t, x >> s);
    if x * pow2(s as nat) <= u32::MAX {
        vstd::bits::lemma_u32_shl_is_mul(x, s);
        lemma_store_writes_only(regs, memory, t, x << s);
    }
}

/// `LOADC` writes its constant to its register and nowhere else, `LOAD`
/// writes the word at its address (an address past the memory stops the
/// machine), `STORE` writes the value of its register to its address and
/// changes no register nor any other word, and `OUT` copies the value of
/// its register to both outputs. The zero register keeps its value.
pub proof fn lemma_move_ops(regs: Register, memory: Seq<u32>, r: Reg, val: u32, pos: u32)
    ensures
        r != Reg::ZR ==> writes_only(exec_op(Op::LOADC(val, r), regs, memory), regs, memory, r, val as int),
        r != Reg::ZR && pos < memory.len() ==> writes_only(
            exec_op(Op::LOAD(pos, r), regs, memory),
            regs,
            memory,
            r,
            memory[pos as int] as int,
        ),
        exec_op(Op::LOADC(val, Reg::ZR), regs, memory) == Some((regs, memory)),
        pos >= memory.len() ==> exec_op(Op::LOAD(pos, r), regs, memory) is None,
        pos >= memory.len() ==> exec_op(Op::STORE(r, pos), regs, memory) is None,
        pos < memory.len() ==> match exec_op(Op::STORE(r, pos), regs, memory) {
            Some((after, mem)) => {
                &&& after == regs
                &&& mem.len() == memory.len()
                &&& mem[pos as int] == reg_value(regs, r)
                &&& forall|i: int| 0 <= i < memory.len() && i != pos ==> mem[i] == memory[i]
            },
            None => false,
        },
        match exec_op(Op::OUT(r), regs, memory) {
            Some((after, mem)) => {
                &&& mem == memory
                &&& after.ol == reg_value(regs, r)
                &&& after.or == reg_value(regs, r)
                &&& forall|q: Reg| q != Reg::OL && q != Reg::OR ==> reg_value(after, q) == reg_value(regs, q)
            },
            None => false,
        },
{
}

/// A step runs the instruction at the instruction pointer and then moves
/// the instruction pointer to the next instruction.
pub proof fn lemma_step_moves_on(program: Seq<Box<Op>>, st: MachineState)
    requires
        0 <= st.0.ip < program.len(),
    ensures
        match (exec_op(*program[st.0.ip as int], st.0, st.1), step(program, st)) {
            (Some((regs, memory)), Some((after, mem))) => mem == memory && after.ip == regs.ip + 1
                && forall|q: Reg| q != Reg::IP ==> reg_value(after, q) == reg_value(regs, q),
            (Some((regs, _)), None) => regs.ip == u32::MAX,
            (None, r) => r is None,
        },
{
}

impl VM {
    /// The registers and memory of the machine.
    pub open spec fn state(&self) -> MachineState {
        (self.reg, self.memory@)
    }
}

/// A halting run gives the same final state whatever fuel it was given.
pub proof fn lemma_run_deterministic(program: Seq<Box<Op>>, st: MachineState, a: nat, b: nat)
    requires
        run(program, st, a) is Some,
        run(program, st, b) is Some,
    ensures
        run(program, st, a) == run(program, st, b),
    decreases a,
{
    if !halted(program, st) {
        let next = step(program, st)->0;
        lemma_run_deterministic(program, next, (a - 1) as nat, (b - 1) as nat);
    }
}

/// Numbering a register and taking the register of that number gives the
/// register back.
pub proof fn lemma_reg_number_roundtrip(r: Reg)
    ensures
        reg_of_number(reg_number(r)) == r,
{
}

/// Every number names the register whose number it is, or else the zero
/// register.
pub proof fn lemma_number_reg_roundtrip(n: u8)
    ensures
        reg_number(reg_of_number(n)) == n || reg_of_number(n) == Reg::ZR,
        reg_of_number(n) != Reg::ZR ==> reg_number(reg_of_number(n)) == n,
{
}

/// A register reads back what was written to it, unless it is the zero
/// register, which keeps its value; every other register is unchanged.
pub proof fn lemma_get_after_set(regs: Register, r: Reg, v: u32, q: Reg)
    ensures
        r != Reg::ZR ==> reg_value(with_reg(regs, r, v), r) == v,
        reg_value(with_reg(regs, Reg::ZR, v), Reg::ZR) == regs.zr,
        q != r ==> reg_value(with_reg(regs, r, v), q) == reg_value(regs, q),
{
}

/// One step of the machine never changes the zero register nor the size of
/// the memory.
pub proof fn lemma_step_keeps_zero_and_memory_size(program: Seq<Box<Op>>, st: MachineState)
    requires
        !halted(program, st),
        step(program, st) is Some,
    ensures
        ({
            let (regs, memory) = step(program, st)->0;
            regs.zr == st.0.zr && memory.len() == st.1.len()
        }),
{
}

/// Running a program never changes the zero register nor the size of the
/// memory: a machine made by `VM::init` reads zero from `ZR` forever.
pub proof fn lemma_run_keeps_zero_and_memory_size(
    program: Seq<Box<Op>>,
    st: MachineState,
    fuel: nat,
)
    requires
        run(program, st, fuel) is Some,
    ensures
        ({
            let (regs, memory) = run(program, st, fuel)->0;
            regs.zr == st.0.zr && memory.len() == st.1.len()
        }),
    decreases fuel,
{
    if !halted(program, st) {
        lemma_step_keeps_zero_and_memory_size(program, st);
        lemma_run_keeps_zero_and_memory_size(program, step(program, st)->0, (fuel - 1) as nat);
    }
}

impl Reg {
    /// The number of a register.
    pub fn to_num(reg: Reg) -> (n: u8)
        ensures
            n == reg_number(reg),
    {
        match reg {
            Reg::ZR => 0,
            Reg::R1 => 1,
            Reg::R2 => 2,
            Reg::R3 => 3,
            Reg::R4 => 4,
            Reg::IP => 32,
            Reg::SP => 33,
            Reg::OL => 34,
            Reg::OR => 35,
        }
    }

    /// The register with number `n`; any other number names the zero register.
    pub fn to_reg(n: u8) -> (r: Reg)
        ensures
            r == reg_of_number(n),
    {
        match n {
            1 => Reg::R1,
            2 => Reg::R2,
            3 => Reg::R3,
            4 => Reg::R4,
            32 => Reg::IP,
            33 => Reg::SP,
            34 => Reg::OL,
            35 => Reg::OR,
            _ => Reg::ZR,
        }
    }

    /// Reads this register of `vm`.
    pub fn get(self, vm: &mut VM) -> (v: u32)
        ensures
            v == reg_value(old(vm).reg, self),
            *final(vm) == *old(vm),
    {
        match self {
            Reg::ZR => vm.reg.zr,
            Reg::R1 => vm.reg.r1,
            Reg::R2 => vm.reg.r2,
            Reg::R3 => vm.reg.r3,
            Reg::R4 => vm.reg.r4,
            Reg::IP => vm.reg.ip,
            Reg::SP => vm.reg.sp,
            Reg::OL => vm.reg.ol,
            Reg::OR => vm.reg.or,
        }
    }

    /// Writes `val` to this register of `vm`; the zero register stays as it is.
    pub fn set(self, vm: &mut VM, val: u32)
        ensures
            final(vm).reg == with_reg(old(vm).reg, self, val),
            final(vm).program == old(vm).program,
            final(vm).memory == old(vm).memory,
    {
        match self {
            Reg::ZR => (),
            Reg::R1 => vm.reg.r1 = val,
            Reg::R2 => vm.reg.r2 = val,
            Reg::R3 => vm.reg.r3 = val,
            Reg::R4 => vm.reg.r4 = val,
            Reg::IP => vm.reg.ip = val,
            Reg::SP => vm.reg.sp = val,
            Reg::OL => vm.reg.ol = val,
            Reg::OR => vm.reg.or = val,
        };
    }
}

/// Writes the result of an arithmetic instruction to its target register.
fn store_general(vm: &mut VM, target: Reg, val: u32)
    requires
        is_general(target),
    ensures
        final(vm).reg == with_reg(old(vm).reg, target, val),
        final(vm).program == old(vm).program,
        final(vm).memory == old(vm).memory,
{
    match target {
        Reg::R1 => vm.reg.r1 = val,
        Reg::R2 => vm.reg.r2 = val,
        Reg::R3 => vm.reg.r3 = val,
        Reg::R4 => vm.reg.r4 = val,
        _ => (),
    };
}

/// A copy of the instruction at the instruction pointer.
fn fetch(vm: &VM) -> (op: Op)
    requires
        vm.reg.ip < vm.program.len(),
    ensures
        op == *vm.program@[vm.reg.ip as int],
{
    match &*vm.program[vm.reg.ip as usize] {
        Op::NOP => Op::NOP,
        Op::LOADC(val, r) => Op::LOADC(*val, *r),
        Op::LOAD(pos, r) => Op::LOAD(*pos, *r),
        Op::STORE(r, pos) => Op::STORE(*r, *pos),
        Op::OUT(r) => Op::OUT(*r),
        Op::ADD(a, b, t) => Op::ADD(*a, *b, *t),
        Op::SUB(a, b, t) => Op::SUB(*a, *b, *t),
        Op::MUL(a, b, t) => Op::MUL(*a, *b, *t),
        Op::DIV(a, b, t) => Op::DIV(*a, *b, *t),
        Op::SHL(a, b, t) => Op::SHL(*a, *b, *t),
        Op::SHR(a, b, t) => Op::SHR(*a, *b, *t),
    }
}

/// The result of an arithmetic instruction on the operand values.
pub open spec fn arith_result(op: Op, v1: u32, v2: u32) -> u32 {
    match op {
        Op::ADD(_, _, _) => ((v1 + v2) % 0x1_0000_0000) as u32,
        Op::SUB(_, _, _) => ((v1 - v2 + 0x1_0000_0000) % 0x1_0000_0000) as u32,
        Op::MUL(_, _, _) => ((v1 * v2) % 0x1_0000_0000) as u32,
        Op::DIV(_, _, _) => (v1 / v2) as u32,
        Op::SHL(_, _, _) => v1 << (v2 % 32),
        _ => v1 >> (v2 % 32),
    }
}

/// Computes the result of an arithmetic instruction.
fn arith(op: &Op, v1: u32, v2: u32) -> (v: u32)
    requires
        op is DIV ==> v2 != 0,
    ensures
        v == arith_result(*op, v1, v2),
{
    match op {
        Op::ADD(_, _, _) => {
            let v = v1.wrapping_add(v2);
            assert(v == ((v1 + v2) % 0x1_0000_0000) as u32);
            v
        },
        Op::SUB(_, _, _) => {
            let v = v1.wrapping_sub(v2);
            assert(v == ((v1 - v2 + 0x1_0000_0000) % 0x1_0000_0000) as u32);
            v
        },
        Op::MUL(_, _, _) => v1.wrapping_mul(v2),
        Op::DIV(_, _, _) => v1 / v2,
        Op::SHL(_, _, _) => v1.wrapping_shl(v2),
        _ => v1.wrapping_shr(v2),
    }
}

/// Runs an arithmetic instruction whose operands are `a` and `b` and whose
/// result goes to `t`.
fn exec_arith(vm: &mut VM, op: &Op, a: Reg, b: Reg, t: Reg)
    requires
        is_general(t),
        *op is DIV ==> reg_value(old(vm).reg, b) != 0,
    ensures
        final(vm).reg == with_reg(
            old(vm).reg,
            t,
            arith_result(*op, reg_value(old(vm).reg, a), reg_value(old(vm).reg, b)),
        ),
        final(vm).program == old(vm).program,
        final(vm).memory == old(vm).memory,
{
    let v1 = a.get(vm);
    let v2 = b.get(vm);
    let v = arith(op, v1, v2);
    store_general(vm, t, v);
}

/// Runs the instruction `op` without moving the instruction pointer.
fn exec_op_at(vm: &mut VM, op: &Op)
    requires
        exec_op(*op, old(vm).reg, old(vm).memory@) is Some,
    ensures
        final(vm).state() == exec_op(*op, old(vm).reg, old(vm).memory@)->0,
        final(vm).program == old(vm).program,
{
    match op {
        Op::NOP => (),
        Op::LOAD(pos, reg) => {
            let v = vm.memory[*pos as usize];
            reg.set(vm, v);
        },
        Op::LOADC(val, reg) => reg.set(vm, *val),
        Op::STORE(reg, pos) => {
            let v = reg.get(vm);
            vm.memory.set(*pos as usize, v);
        },
        Op::OUT(reg) => {
            let v = reg.get(vm);
            Reg::OL.set(vm, v);
            Reg::OR.set(vm, v);
        },
        Op::ADD(a, b, t) => exec_arith(vm, op, *a, *b, *t),
        Op::SUB(a, b, t) => exec_arith(vm, op, *a, *b, *t),
        Op::MUL(a, b, t) => exec_arith(vm, op, *a, *b, *t),
        Op::DIV(a, b, t) => exec_arith(vm, op, *a, *b, *t),
        Op::SHL(a, b, t) => exec_arith(vm, op, *a, *b, *t),
        Op::SHR(a, b, t) => exec_arith(vm, op, *a, *b, *t),
    }
}

/// Runs the instruction at the instruction pointer, then moves the
/// instruction pointer on.
fn exec_1(vm: &mut VM)
    requires
        !halted(old(vm).program@, old(vm).state()),
        step(old(vm).program@, old(vm).state()) is Some,
    ensures
        final(vm).state() == step(old(vm).program@, old(vm).state())->0,
        final(vm).program == old(vm).program,
{
    let op = fetch(vm);
    exec_op_at(vm, &op);
    vm.reg.ip = vm.reg.ip + 1;
}

impl VM {
    /// A machine with all registers zero, the given program, and a copy of
    /// `memory` as its memory.
    pub fn init(program: Vec<Box<Op>>, memory: &[u32]) -> (vm: VM)
        ensures
            vm.reg == (Register { zr: 0, ip: 0, sp: 0, r1: 0, r2: 0, r3: 0, r4: 0, ol: 0, or: 0 }),
            vm.program@ == program@,
            vm.memory@ == memory@,
    {
        let vm = VM {
            reg: Register { zr: 0, ip: 0, sp: 0, r1: 0, r2: 0, r3: 0, r4: 0, ol: 0, or: 0 },
            program: program,
            memory: vstd::slice::slice_to_vec(memory),
        };
        vm
    }

    /// Runs the program from the current state until the instruction pointer
    /// leaves the program. The final state is the one in which the run halts.
    pub fn execute(&mut self)
        requires
            old(self).program.len() <= u32::MAX,
            halts(old(self).program@, old(self).state()),
        ensures
            final(self).program@ == old(self).program@,
            halted(final(self).program@, final(self).state()),
            forall|n: nat|
                #[trigger] run(old(self).program@, old(self).state(), n) is Some
                    ==> final(self).state() == run(old(self).program@, old(self).state(), n)->0,
    {
        let ghost program = self.program@;
        let ghost start = self.state();
        let ghost fuel0: nat = choose|n: nat| (#[trigger] run(program, start, n)) is Some;
        let ghost mut fuel: nat = fuel0;
        while self.reg.ip < self.program.len() as u32
            invariant
                self.program@ == program,
                self.program.len() <= u32::MAX,
                run(program, self.state(), fuel) is Some,
                run(program, self.state(), fuel) == run(program, start, fuel0),
            decreases fuel,
        {
            exec_1(self);
            proof {
                fuel = (fuel - 1) as nat;
            }
        }
        proof {
            assert forall|n: nat| #[trigger] run(program, start, n) is Some implies self.state()
                == run(program, start, n)->0 by {
                lemma_run_deterministic(program, start, n, fuel0);
            }
        }
    }
}

} // verus!
