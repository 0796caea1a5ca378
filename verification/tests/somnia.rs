use koto::somnia::compile::{find_free_reg, set_reg, CompileState};
use koto::somnia::vm::{Op, Reg, Register, VM};

fn zero_registers() -> Register {
    Register { zr: 0, ip: 0, sp: 0, r1: 0, r2: 0, r3: 0, r4: 0, ol: 0, or: 0 }
}

#[test]
fn register_numbers() {
    assert_eq!(Reg::to_num(Reg::ZR), 0);
    assert_eq!(Reg::to_num(Reg::R1), 1);
    assert_eq!(Reg::to_num(Reg::R4), 4);
    assert_eq!(Reg::to_num(Reg::IP), 32);
    assert_eq!(Reg::to_num(Reg::SP), 33);
    assert_eq!(Reg::to_num(Reg::OL), 34);
    assert_eq!(Reg::to_num(Reg::OR), 35);
    assert_eq!(Reg::to_reg(3), Reg::R3);
    assert_eq!(Reg::to_reg(35), Reg::OR);
    assert_eq!(Reg::to_reg(5), Reg::ZR);
    assert_eq!(Reg::to_reg(200), Reg::ZR);
}

#[test]
fn register_number_reads_back() {
    for r in [Reg::ZR, Reg::IP, Reg::SP, Reg::R1, Reg::R2, Reg::R3, Reg::R4, Reg::OL, Reg::OR] {
        assert_eq!(Reg::to_reg(Reg::to_num(r)), r);
    }
}

#[test]
fn init_copies_memory_and_clears_registers() {
    let vm = VM::init(vec![Box::new(Op::NOP)], &[1, 2, 3]);
    assert_eq!(vm.reg, zero_registers());
    assert_eq!(vm.memory, vec![1, 2, 3]);
    assert_eq!(vm.program.len(), 1);
}

#[test]
fn get_and_set_registers() {
    let mut vm = VM::init(vec![], &[]);
    Reg::R2.set(&mut vm, 42);
    assert_eq!(Reg::R2.get(&mut vm), 42);
    assert_eq!(vm.reg.r2, 42);
    Reg::ZR.set(&mut vm, 9);
    assert_eq!(Reg::ZR.get(&mut vm), 0);
    Reg::OL.set(&mut vm, 7);
    assert_eq!(vm.reg.ol, 7);
    assert_eq!(vm.reg.r1, 0);
}

#[test]
fn execute_adds_stores_and_outputs() {
    let program = vec![
        Box::new(Op::LOADC(3, Reg::R1)),
        Box::new(Op::LOADC(4, Reg::R2)),
        Box::new(Op::ADD(Reg::R1, Reg::R2, Reg::R3)),
        Box::new(Op::STORE(Reg::R3, 0)),
        Box::new(Op::OUT(Reg::R3)),
    ];
    let mut vm = VM::init(program, &[0, 0]);
    vm.execute();
    assert_eq!(vm.memory, vec![7, 0]);
    assert_eq!(vm.reg.r3, 7);
    assert_eq!(vm.reg.ol, 7);
    assert_eq!(vm.reg.or, 7);
    assert_eq!(vm.reg.ip, 5);
}

#[test]
fn arithmetic_wraps_around() {
    let program = vec![
        Box::new(Op::LOADC(1, Reg::R1)),
        Box::new(Op::SUB(Reg::ZR, Reg::R1, Reg::R2)),
        Box::new(Op::ADD(Reg::R2, Reg::R1, Reg::R3)),
        Box::new(Op::LOADC(0x10000, Reg::R4)),
        Box::new(Op::MUL(Reg::R4, Reg::R4, Reg::R4)),
    ];
    let mut vm = VM::init(program, &[]);
    vm.execute();
    assert_eq!(vm.reg.r2, u32::MAX);
    assert_eq!(vm.reg.r3, 0);
    assert_eq!(vm.reg.r4, 0);
}

#[test]
fn division_and_shifts() {
    let program = vec![
        Box::new(Op::LOAD(0, Reg::R1)),
        Box::new(Op::LOAD(1, Reg::R2)),
        Box::new(Op::DIV(Reg::R1, Reg::R2, Reg::R3)),
        Box::new(Op::SHL(Reg::R2, Reg::R2, Reg::R4)),
        Box::new(Op::SHR(Reg::R1, Reg::R2, Reg::R1)),
        Box::new(Op::STORE(Reg::R4, 2)),
    ];
    let mut vm = VM::init(program, &[100, 3, 0]);
    vm.execute();
    assert_eq!(vm.reg.r3, 33);
    assert_eq!(vm.reg.r4, 24);
    assert_eq!(vm.reg.r1, 12);
    assert_eq!(vm.memory, vec![100, 3, 24]);
}

#[test]
fn shift_amount_is_taken_modulo_width() {
    let program = vec![
        Box::new(Op::LOADC(1, Reg::R1)),
        Box::new(Op::LOADC(33, Reg::R2)),
        Box::new(Op::SHL(Reg::R1, Reg::R2, Reg::R3)),
    ];
    let mut vm = VM::init(program, &[]);
    vm.execute();
    assert_eq!(vm.reg.r3, 2);
}

#[test]
fn zero_register_stays_zero() {
    let program = vec![
        Box::new(Op::LOADC(5, Reg::ZR)),
        Box::new(Op::LOAD(0, Reg::ZR)),
        Box::new(Op::OUT(Reg::ZR)),
    ];
    let mut vm = VM::init(program, &[8]);
    vm.execute();
    assert_eq!(vm.reg.zr, 0);
    assert_eq!(vm.reg.ol, 0);
}

#[test]
fn empty_program_halts_at_once() {
    let mut vm = VM::init(vec![], &[4]);
    vm.execute();
    assert_eq!(vm.reg, zero_registers());
    assert_eq!(vm.memory, vec![4]);
}

#[test]
fn free_registers_are_handed_out_in_order() {
    let mut cs = CompileState { program: vec![], used_regs: [false; 4] };
    assert_eq!(find_free_reg(&cs), Some(Reg::R1));
    set_reg(Reg::R1, true, &mut cs);
    assert_eq!(find_free_reg(&cs), Some(Reg::R2));
    set_reg(Reg::R2, true, &mut cs);
    set_reg(Reg::R3, true, &mut cs);
    set_reg(Reg::R4, true, &mut cs);
    assert_eq!(find_free_reg(&cs), None);
    set_reg(Reg::R3, false, &mut cs);
    assert_eq!(find_free_reg(&cs), Some(Reg::R3));
    set_reg(Reg::OL, true, &mut cs);
    assert_eq!(cs.used_regs, [true, true, false, true]);
    assert!(cs.program.is_empty());
}
