use preopt::cursor::FuncCursor;
use preopt::entities::{Block, Inst, IntCC, Type, Value};
use preopt::function::{Function, ValueDef};
use preopt::instructions::{InstructionData, Opcode};

fn jump(destination: Block) -> InstructionData {
    InstructionData::Jump { opcode: Opcode::Jump, destination }
}

#[test]
fn a_new_function_is_empty() {
    let func = Function::new();
    assert_eq!(func.num_insts(), 0);
    assert_eq!(func.num_values(), 0);
    assert_eq!(func.num_blocks(), 0);
}

#[test]
fn blocks_values_and_instructions_are_numbered_in_order() {
    let mut func = Function::new();
    let b0 = func.add_block();
    let b1 = func.add_block();
    assert_eq!((b0, b1), (Block(0), Block(1)));
    let x = func.add_block_param(b1, 3, Type::I64);
    assert_eq!(x, Value(0));
    assert_eq!(func.value_type(x), Type::I64);
    assert_eq!(func.value_def(x), ValueDef::Param(b1, 3));
    let k = func.append_inst_with_result(b0, InstructionData::UnaryImm { opcode: Opcode::Iconst, imm: 9 }, Type::I8);
    assert_eq!(k, Value(1));
    assert_eq!(func.value_def(k), ValueDef::Result(Inst(0), 0));
    assert_eq!(func.value_type(k), Type::I8);
    assert_eq!(func.inst_result(Inst(0)), Some(k));
    let j = func.append_inst(b0, jump(b1));
    assert_eq!(j, Inst(1));
    assert_eq!(func.inst_result(j), None);
    assert_eq!(func.inst_block_args(j), &Vec::<Value>::new());
    func.set_block_args(j, vec![k, x]);
    assert_eq!(func.inst_block_args(j), &vec![k, x]);
    assert_eq!(func.block_len(b0), 2);
    assert_eq!(func.block_len(b1), 0);
    assert_eq!(func.block_inst(b0, 0), Inst(0));
    assert_eq!(func.block_inst(b0, 1), j);
    assert_eq!(func.next_block(b0), Some(b1));
    assert_eq!(func.next_block(b1), None);
    assert_eq!(func.inst_data(j).opcode(), Opcode::Jump);
    assert_eq!(func.inst_data(j).branch_destination(), Some(b1));
    assert_eq!(func.inst_data(Inst(0)).branch_destination(), None);
}

#[test]
fn replacing_keeps_result_and_place() {
    let mut func = Function::new();
    let b0 = func.add_block();
    let x = func.add_block_param(b0, 0, Type::I32);
    let y = func.append_inst_with_result(b0, InstructionData::Unary { opcode: Opcode::Copy, arg: x }, Type::I32);
    func.replace(Inst(0), InstructionData::BinaryImm { opcode: Opcode::IaddImm, arg: x, imm: 1 });
    assert_eq!(func.inst_data(Inst(0)), InstructionData::BinaryImm { opcode: Opcode::IaddImm, arg: x, imm: 1 });
    assert_eq!(func.inst_result(Inst(0)), Some(y));
    assert_eq!(func.block_inst(b0, 0), Inst(0));
    assert_eq!(func.num_insts(), 1);
}

#[test]
fn the_cursor_stays_at_its_instruction() {
    let mut func = Function::new();
    let b0 = func.add_block();
    let b1 = func.add_block();
    let x = func.add_block_param(b0, 0, Type::I32);
    let first = func.append_inst(b0, jump(b1));
    let other = func.append_inst(b1, jump(b0));
    let mut pos = FuncCursor { block: b0, at: 0 };
    assert_eq!(pos.current_inst(&func), first);
    let a = pos.ins(&mut func, InstructionData::Unary { opcode: Opcode::Copy, arg: x }, Type::I32);
    let b = pos.ins(&mut func, InstructionData::Unary { opcode: Opcode::Copy, arg: a }, Type::I64);
    assert_eq!((a, b), (Value(1), Value(2)));
    assert_eq!(pos.at, 2);
    assert_eq!(pos.current_inst(&func), first);
    assert_eq!(func.block_len(b0), 3);
    assert_eq!(func.block_inst(b0, 0), Inst(2));
    assert_eq!(func.block_inst(b0, 1), Inst(3));
    assert_eq!(func.block_inst(b0, 2), first);
    assert_eq!(func.block_inst(b1, 0), other);
    assert_eq!(func.value_type(b), Type::I64);
    assert_eq!(func.value_def(b), ValueDef::Result(Inst(3), 0));
    let c = func.insert_before(b0, 0, InstructionData::UnaryImm { opcode: Opcode::Iconst, imm: 1 }, Type::I32);
    assert_eq!(func.block_inst(b0, 0), Inst(4));
    assert_eq!(func.inst_result(Inst(4)), Some(c));
    assert!(func.is_well_formed());
}

#[test]
fn instructions_are_interpreted() {
    let mut func = Function::new();
    let b0 = func.add_block();
    let x = func.add_block_param(b0, 0, Type::I32);
    let y = func.add_block_param(b0, 1, Type::I32);
    let wide = func.add_block_param(b0, 2, Type::I64);
    let k = func.append_inst_with_result(b0, InstructionData::UnaryImm { opcode: Opcode::Iconst, imm: -1 }, Type::I32);
    let sum = func.append_inst_with_result(b0, InstructionData::Binary { opcode: Opcode::Iadd, lhs: x, rhs: y }, Type::I32);
    let bad = func.append_inst_with_result(b0, InstructionData::Binary { opcode: Opcode::Iadd, lhs: x, rhs: wide }, Type::I32);
    let shl = func.append_inst_with_result(b0, InstructionData::Binary { opcode: Opcode::Ishl, lhs: x, rhs: wide }, Type::I32);
    let lt = func.append_inst_with_result(
        b0,
        InstructionData::IntCompare { opcode: Opcode::Icmp, cond: IntCC::SignedLessThan, lhs: x, rhs: y },
        Type::B1,
    );
    let lti = func.append_inst_with_result(
        b0,
        InstructionData::IntCompareImm { opcode: Opcode::IcmpImm, cond: IntCC::UnsignedGreaterThan, arg: x, imm: -2 },
        Type::B1,
    );
    let w = func.append_inst_with_result(b0, InstructionData::Unary { opcode: Opcode::Bint, arg: lt }, Type::I32);
    let n = func.append_inst_with_result(b0, InstructionData::Unary { opcode: Opcode::Bnot, arg: lt }, Type::B1);
    let c = func.append_inst_with_result(b0, InstructionData::Unary { opcode: Opcode::Copy, arg: y }, Type::I32);
    let sel = func.append_inst_with_result(
        b0,
        InstructionData::Ternary { opcode: Opcode::Select, ctrl: lt, lhs: x, rhs: y },
        Type::I32,
    );
    let ret = func.append_inst(b0, InstructionData::NullAry { opcode: Opcode::Return });
    let mut env = vec![0u64; func.num_values()];
    env[x.0] = 0xffff_ffff;
    env[y.0] = 5;
    env[wide.0] = 0x1_0000_0021;
    env[lt.0] = 1;
    let at = |v: Value| match func.value_def(v) {
        ValueDef::Result(inst, _) => inst,
        _ => panic!("not a result"),
    };
    assert_eq!(func.eval_inst(at(k), &env), Some(0xffff_ffff));
    assert_eq!(func.eval_inst(at(sum), &env), Some(4));
    assert_eq!(func.eval_inst(at(bad), &env), None);
    assert_eq!(func.eval_inst(at(shl), &env), Some(0xffff_fffe));
    assert_eq!(func.eval_inst(at(lt), &env), Some(1));
    assert_eq!(func.eval_inst(at(lti), &env), Some(1));
    assert_eq!(func.eval_inst(at(w), &env), Some(1));
    assert_eq!(func.eval_inst(at(n), &env), Some(0));
    assert_eq!(func.eval_inst(at(c), &env), Some(5));
    assert_eq!(func.eval_inst(at(sel), &env), Some(0xffff_ffff));
    assert_eq!(func.eval_inst(ret, &env), None);
    assert_eq!(func.result_type(at(k)), Type::I32);
    assert_eq!(func.result_type(at(lt)), Type::B1);
    assert_eq!(func.result_type(ret), Type::B1);
}

#[test]
fn branches_are_interpreted() {
    let mut func = Function::new();
    let b0 = func.add_block();
    let x = func.add_block_param(b0, 0, Type::I32);
    let y = func.add_block_param(b0, 1, Type::I32);
    let brz = func.append_inst(b0, InstructionData::Branch { opcode: Opcode::Brz, arg: x, destination: b0 });
    let brnz = func.append_inst(b0, InstructionData::Branch { opcode: Opcode::Brnz, arg: x, destination: b0 });
    let cmp = func.append_inst(
        b0,
        InstructionData::BranchIcmp { opcode: Opcode::BrIcmp, cond: IntCC::SignedLessThan, lhs: x, rhs: y, destination: b0 },
    );
    let tz = func.append_inst(b0, InstructionData::CondTrap { opcode: Opcode::Trapz, arg: x });
    let tnz = func.append_inst(b0, InstructionData::CondTrap { opcode: Opcode::Trapnz, arg: x });
    let j = func.append_inst(b0, jump(b0));
    let ret = func.append_inst(b0, InstructionData::NullAry { opcode: Opcode::Return });
    for (xv, yv) in [(0u64, 0u64), (0, 1), (1, 0), (0xffff_ffff, 0), (7, 0xffff_ffff)] {
        let env = vec![xv, yv];
        assert_eq!(func.taken_of(brz, &env), Some(xv == 0));
        assert_eq!(func.taken_of(brnz, &env), Some(xv != 0));
        assert_eq!(func.taken_of(cmp, &env), Some((xv as u32 as i32) < (yv as u32 as i32)));
        assert_eq!(func.taken_of(tz, &env), Some(xv == 0));
        assert_eq!(func.taken_of(tnz, &env), Some(xv != 0));
        assert_eq!(func.taken_of(j, &env), Some(true));
        assert_eq!(func.taken_of(ret, &env), None);
    }
}

#[test]
fn conditions_have_their_opposites() {
    let all = [
        IntCC::Equal,
        IntCC::NotEqual,
        IntCC::SignedLessThan,
        IntCC::SignedGreaterThanOrEqual,
        IntCC::SignedGreaterThan,
        IntCC::SignedLessThanOrEqual,
        IntCC::UnsignedLessThan,
        IntCC::UnsignedGreaterThanOrEqual,
        IntCC::UnsignedGreaterThan,
        IntCC::UnsignedLessThanOrEqual,
    ];
    for c in all {
        assert_ne!(c.inverse(), c);
        assert_eq!(c.inverse().inverse(), c);
    }
    assert_eq!(IntCC::Equal.inverse(), IntCC::NotEqual);
    assert_eq!(IntCC::SignedLessThan.inverse(), IntCC::SignedGreaterThanOrEqual);
    assert_eq!(IntCC::UnsignedGreaterThan.inverse(), IntCC::UnsignedLessThanOrEqual);
}
