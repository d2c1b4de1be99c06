use preopt::branch::{branch_opt, branch_order};
use preopt::cursor::FuncCursor;
use preopt::divrem::{
    do_divrem_transformation, get_div_info, i32_is_power_of_two, i64_is_power_of_two,
    package_up_divrem_info, u64_power_of_two, DivRemByConstInfo,
};
use preopt::entities::{Block, Inst, IntCC, Type, Value};
use preopt::flowgraph::ControlFlowGraph;
use preopt::function::{Function, ValueDef};
use preopt::instructions::{InstructionData, Opcode};
use preopt::magic::{magic_s32, magic_u32};
use preopt::preopt::{run_preopt, try_divrem_rewrite};
use preopt::simplify::simplify;

fn def_inst(func: &Function, v: Value) -> Inst {
    match func.value_def(v) {
        ValueDef::Result(inst, _) => inst,
        _ => panic!("not an instruction result"),
    }
}

/// A function of one block with one parameter of type `ty` and the
/// instruction `opcode v0, imm`.
fn one_imm(opcode: Opcode, ty: Type, imm: i64) -> (Function, Value, Inst) {
    let mut func = Function::new();
    let b0 = func.add_block();
    let v0 = func.add_block_param(b0, 0, ty);
    let v1 = func.append_inst_with_result(b0, InstructionData::BinaryImm { opcode, arg: v0, imm }, ty);
    let inst = def_inst(&func, v1);
    func.append_inst(b0, InstructionData::NullAry { opcode: Opcode::Return });
    (func, v0, inst)
}

fn run(func: &mut Function) -> ControlFlowGraph {
    let mut cfg = ControlFlowGraph::with_function(func);
    run_preopt(func, &mut cfg);
    cfg
}

/// The payloads of the instructions of `block`, in program order.
fn payloads(func: &Function, block: Block) -> Vec<InstructionData> {
    let mut out = Vec::new();
    for i in 0..func.block_len(block) {
        out.push(func.inst_data(func.block_inst(block, i)));
    }
    out
}

/// Runs the block `block` with the value `input` for `v0`, and returns the
/// value of the result of `inst`.
fn compute(func: &Function, block: Block, v0: Value, input: u64, inst: Inst) -> Option<u64> {
    let mut env: Vec<u64> = vec![0; func.num_values()];
    env[v0.0] = input;
    for i in 0..func.block_len(block) {
        let cur = func.block_inst(block, i);
        let r = func.eval_inst(cur, &env);
        if let Some(res) = func.inst_result(cur) {
            match r {
                Some(x) => env[res.0] = x,
                None => {
                    if cur == inst {
                        return None;
                    }
                }
            }
        }
        if cur == inst {
            return r;
        }
    }
    None
}

fn bits32(n: i32) -> u64 {
    n as u32 as u64
}

fn bits64(n: i64) -> u64 {
    n as u64
}

fn binary_imm(opcode: Opcode, arg: Value, imm: i64) -> InstructionData {
    InstructionData::BinaryImm { opcode, arg, imm }
}

fn binary(opcode: Opcode, lhs: Value, rhs: Value) -> InstructionData {
    InstructionData::Binary { opcode, lhs, rhs }
}

const SAMPLES_32: [i32; 21] = [
    0, 1, -1, 2, -2, 3, -3, 6, 7, 8, 9, -9, 99, 100, 101, -100, 0x7fff_fffe, 0x7fff_ffff, i32::MIN,
    i32::MIN + 1, 0x4000_0000,
];

const SAMPLES_64: [i64; 19] = [
    0, 1, -1, 2, -2, 6, 7, 8, 9, -9, 100, -100, 0x7fff_ffff, 0x1_0000_0000, -0x1_0000_0000,
    i64::MAX, i64::MAX - 1, i64::MIN, i64::MIN + 1,
];

fn check_u32(d: u32) {
    for (opcode, is_rem) in [(Opcode::UdivImm, false), (Opcode::UremImm, true)] {
        let (mut func, v0, inst) = one_imm(opcode, Type::I32, d as i64);
        run(&mut func);
        for n in SAMPLES_32 {
            let n = n as u32;
            let want = if is_rem { n % d } else { n / d };
            assert_eq!(compute(&func, Block(0), v0, n as u64, inst), Some(want as u64), "{} by {}", n, d);
        }
    }
}

fn check_u64(d: u64) {
    for (opcode, is_rem) in [(Opcode::UdivImm, false), (Opcode::UremImm, true)] {
        let (mut func, v0, inst) = one_imm(opcode, Type::I64, d as i64);
        run(&mut func);
        for n in SAMPLES_64 {
            let n = n as u64;
            let want = if is_rem { n % d } else { n / d };
            assert_eq!(compute(&func, Block(0), v0, n, inst), Some(want), "{} by {}", n, d);
        }
    }
}

fn check_s32(d: i32) {
    for (opcode, is_rem) in [(Opcode::SdivImm, false), (Opcode::SremImm, true)] {
        let (mut func, v0, inst) = one_imm(opcode, Type::I32, d as i64);
        run(&mut func);
        for n in SAMPLES_32 {
            let want = if is_rem { n.wrapping_rem(d) } else { n.wrapping_div(d) };
            assert_eq!(compute(&func, Block(0), v0, bits32(n), inst), Some(bits32(want)), "{} by {}", n, d);
        }
    }
}

fn check_s64(d: i64) {
    for (opcode, is_rem) in [(Opcode::SdivImm, false), (Opcode::SremImm, true)] {
        let (mut func, v0, inst) = one_imm(opcode, Type::I64, d);
        run(&mut func);
        for n in SAMPLES_64 {
            let want = if is_rem { n.wrapping_rem(d) } else { n.wrapping_div(d) };
            assert_eq!(compute(&func, Block(0), v0, bits64(n), inst), Some(bits64(want)), "{} by {}", n, d);
        }
    }
}

#[test]
fn rewritten_unsigned_32_bit_divisions_keep_their_value() {
    for d in [1u32, 2, 3, 4, 5, 6, 7, 8, 9, 10, 16, 100, 641, 1024, 65535, 65536, 65537, 0x7fff_ffff, 0x8000_0000, 0x8000_0001, 0xffff_fffe, 0xffff_ffff] {
        check_u32(d);
    }
}

#[test]
fn rewritten_unsigned_64_bit_divisions_keep_their_value() {
    for d in [1u64, 2, 3, 4, 7, 8, 10, 1000, 0xffff_ffff, 0x1_0000_0000, 0x1_0000_0001, 0x7fff_ffff_ffff_ffff, 0x8000_0000_0000_0000, 0x8000_0000_0000_0001, 0xffff_ffff_ffff_ffff] {
        check_u64(d);
    }
}

#[test]
fn rewritten_signed_32_bit_divisions_keep_their_value() {
    for d in [1i32, 2, -2, 3, -3, 4, -4, 5, -5, 7, -7, 8, -8, 10, -10, 641, -641, 0x4000_0000, -0x4000_0000, 0x7fff_ffff, -0x7fff_ffff, i32::MIN] {
        check_s32(d);
    }
}

#[test]
fn rewritten_signed_64_bit_divisions_keep_their_value() {
    for d in [1i64, 2, -2, 3, -3, 4, -4, 7, -7, 10, -10, 0x1_0000_0000, -0x1_0000_0000, 0x4000_0000_0000_0000, -0x4000_0000_0000_0000, i64::MAX, -i64::MAX, i64::MIN] {
        check_s64(d);
    }
}

#[test]
fn division_by_zero_and_minus_one_stays() {
    for ty in [Type::I32, Type::I64] {
        for opcode in [Opcode::UdivImm, Opcode::UremImm, Opcode::SdivImm, Opcode::SremImm] {
            let (mut func, v0, inst) = one_imm(opcode, ty, 0);
            let before = payloads(&func, Block(0));
            run(&mut func);
            assert_eq!(payloads(&func, Block(0)), before);
            assert_eq!(func.inst_data(inst), binary_imm(opcode, v0, 0));
        }
        for opcode in [Opcode::SdivImm, Opcode::SremImm] {
            let (mut func, v0, inst) = one_imm(opcode, ty, -1);
            let before = payloads(&func, Block(0));
            run(&mut func);
            assert_eq!(payloads(&func, Block(0)), before);
            assert_eq!(func.inst_data(inst), binary_imm(opcode, v0, -1));
        }
    }
}

#[test]
fn try_divrem_rewrite_leaves_trapping_divisions() {
    let (mut func, v0, inst) = one_imm(Opcode::SdivImm, Type::I32, -1);
    let mut pos = FuncCursor { block: Block(0), at: 0 };
    assert!(try_divrem_rewrite(&mut func, &mut pos, inst));
    assert_eq!(pos.at, 0);
    assert_eq!(func.num_insts(), 2);
    assert_eq!(func.inst_data(inst), binary_imm(Opcode::SdivImm, v0, -1));
    let (mut func, _, inst) = one_imm(Opcode::IaddImm, Type::I32, 5);
    let mut pos = FuncCursor { block: Block(0), at: 0 };
    assert!(!try_divrem_rewrite(&mut func, &mut pos, inst));
}

#[test]
fn the_result_keeps_its_value_and_type() {
    let (mut func, _, inst) = one_imm(Opcode::SremImm, Type::I64, 7);
    let res = func.inst_result(inst).unwrap();
    let values = func.num_values();
    run(&mut func);
    assert_eq!(func.inst_result(inst), Some(res));
    assert_eq!(func.value_type(res), Type::I64);
    assert_eq!(func.value_def(res), ValueDef::Result(inst, 0));
    assert!(func.num_values() > values);
    for v in values..func.num_values() {
        assert_eq!(func.value_type(Value(v)), Type::I64);
    }
}

#[test]
fn division_by_the_least_value() {
    assert_eq!(i32_is_power_of_two(i32::MIN), Some((true, 31)));
    assert_eq!(i64_is_power_of_two(i64::MIN), Some((true, 63)));
    check_s32(i32::MIN);
    check_s64(i64::MIN);
    let (mut func, v0, inst) = one_imm(Opcode::SdivImm, Type::I32, i32::MIN as i64);
    run(&mut func);
    let p = payloads(&func, Block(0));
    assert_eq!(p[0], binary_imm(Opcode::SshrImm, v0, 30));
    assert_eq!(p[1], binary_imm(Opcode::UshrImm, Value(2), 1));
    assert_eq!(p[2], binary(Opcode::Iadd, v0, Value(3)));
    assert_eq!(p[3], binary_imm(Opcode::SshrImm, Value(4), 31));
    assert_eq!(func.inst_data(inst), binary_imm(Opcode::IrsubImm, Value(5), 0));
}

#[test]
fn powers_of_two_are_recognized() {
    assert_eq!(u64_power_of_two(0), None);
    assert_eq!(u64_power_of_two(1), Some(0));
    assert_eq!(u64_power_of_two(2), Some(1));
    assert_eq!(u64_power_of_two(3), None);
    assert_eq!(u64_power_of_two(0x8000_0000_0000_0000), Some(63));
    assert_eq!(u64_power_of_two(0xffff_ffff_ffff_ffff), None);
    assert_eq!(i32_is_power_of_two(0), None);
    assert_eq!(i32_is_power_of_two(1), Some((false, 0)));
    assert_eq!(i32_is_power_of_two(-1), Some((true, 0)));
    assert_eq!(i32_is_power_of_two(64), Some((false, 6)));
    assert_eq!(i32_is_power_of_two(-64), Some((true, 6)));
    assert_eq!(i32_is_power_of_two(-65), None);
    assert_eq!(i32_is_power_of_two(0x4000_0000), Some((false, 30)));
    assert_eq!(i64_is_power_of_two(0x4000_0000_0000_0000), Some((false, 62)));
    assert_eq!(i64_is_power_of_two(-6), None);
}

#[test]
fn division_by_one() {
    for ty in [Type::I32, Type::I64] {
        for opcode in [Opcode::UdivImm, Opcode::SdivImm] {
            let (mut func, v0, inst) = one_imm(opcode, ty, 1);
            run(&mut func);
            assert_eq!(func.block_len(Block(0)), 2);
            assert_eq!(func.inst_data(inst), InstructionData::Unary { opcode: Opcode::Copy, arg: v0 });
        }
        for opcode in [Opcode::UremImm, Opcode::SremImm] {
            let (mut func, _, inst) = one_imm(opcode, ty, 1);
            run(&mut func);
            assert_eq!(func.block_len(Block(0)), 2);
            assert_eq!(func.inst_data(inst), InstructionData::UnaryImm { opcode: Opcode::Iconst, imm: 0 });
        }
    }
    check_u32(1);
    check_u64(1);
    check_s32(1);
    check_s64(1);
}

#[test]
fn division_by_two() {
    let (mut func, v0, inst) = one_imm(Opcode::UdivImm, Type::I64, 2);
    run(&mut func);
    assert_eq!(func.inst_data(inst), binary_imm(Opcode::UshrImm, v0, 1));
    let (mut func, v0, inst) = one_imm(Opcode::UremImm, Type::I64, 2);
    run(&mut func);
    assert_eq!(func.inst_data(inst), binary_imm(Opcode::BandImm, v0, 1));
    // a signed division by two shifts the dividend itself for the bias
    let (mut func, v0, inst) = one_imm(Opcode::SdivImm, Type::I32, 2);
    run(&mut func);
    let p = payloads(&func, Block(0));
    assert_eq!(p.len(), 5);
    assert_eq!(p[0], binary_imm(Opcode::UshrImm, v0, 31));
    assert_eq!(p[1], binary(Opcode::Iadd, v0, Value(2)));
    assert_eq!(p[2], binary_imm(Opcode::SshrImm, Value(3), 1));
    assert_eq!(func.inst_data(inst), InstructionData::Unary { opcode: Opcode::Copy, arg: Value(4) });
    let (mut func, v0, inst) = one_imm(Opcode::SremImm, Type::I64, -2);
    run(&mut func);
    let p = payloads(&func, Block(0));
    assert_eq!(p[0], binary_imm(Opcode::UshrImm, v0, 63));
    assert_eq!(p[1], binary(Opcode::Iadd, v0, Value(2)));
    assert_eq!(p[2], binary_imm(Opcode::BandImm, Value(3), -2));
    assert_eq!(func.inst_data(inst), binary(Opcode::Isub, v0, Value(4)));
    check_u32(2);
    check_s32(2);
    check_s32(-2);
    check_s64(2);
    check_s64(-2);
}

#[test]
fn signed_division_by_a_negative_power_of_two_at_the_ends() {
    for d in [-2i32, -4, -8, -0x4000_0000, i32::MIN] {
        let (mut func, v0, inst) = one_imm(Opcode::SdivImm, Type::I32, d as i64);
        run(&mut func);
        assert_eq!(compute(&func, Block(0), v0, 0, inst), Some(0));
        assert_eq!(
            compute(&func, Block(0), v0, bits32(i32::MIN), inst),
            Some(bits32(i32::MIN.wrapping_div(d)))
        );
    }
    let (mut func, v0, inst) = one_imm(Opcode::SdivImm, Type::I32, -4);
    run(&mut func);
    assert_eq!(compute(&func, Block(0), v0, bits32(i32::MIN), inst), Some(536870912));
    for d in [-2i64, -4, i64::MIN] {
        let (mut func, v0, inst) = one_imm(Opcode::SdivImm, Type::I64, d);
        run(&mut func);
        assert_eq!(compute(&func, Block(0), v0, 0, inst), Some(0));
        assert_eq!(
            compute(&func, Block(0), v0, bits64(i64::MIN), inst),
            Some(bits64(i64::MIN.wrapping_div(d)))
        );
    }
}

#[test]
fn unsigned_division_by_eight_is_a_shift() {
    let (mut func, v0, inst) = one_imm(Opcode::UdivImm, Type::I32, 8);
    run(&mut func);
    assert_eq!(func.block_len(Block(0)), 2);
    assert_eq!(func.inst_data(inst), binary_imm(Opcode::UshrImm, v0, 3));
}

#[test]
fn unsigned_remainder_by_seven() {
    let (mut func, v0, inst) = one_imm(Opcode::UremImm, Type::I32, 7);
    run(&mut func);
    let m = magic_u32(7);
    assert_eq!((m.mul_by, m.do_add, m.shift_by), (0x2492_4925, true, 3));
    let p = payloads(&func, Block(0));
    assert_eq!(p.len(), 9);
    assert_eq!(p[0], InstructionData::UnaryImm { opcode: Opcode::Iconst, imm: 0x2492_4925 });
    assert_eq!(p[1], binary(Opcode::Umulhi, v0, Value(2)));
    assert_eq!(p[2], binary(Opcode::Isub, v0, Value(3)));
    assert_eq!(p[3], binary_imm(Opcode::UshrImm, Value(4), 1));
    assert_eq!(p[4], binary(Opcode::Iadd, Value(5), Value(3)));
    assert_eq!(p[5], binary_imm(Opcode::UshrImm, Value(6), 2));
    assert_eq!(p[6], binary_imm(Opcode::ImulImm, Value(7), 7));
    assert_eq!(p[7], binary(Opcode::Isub, v0, Value(8)));
    assert_eq!(func.inst_data(inst), p[7]);
    assert_eq!(func.block_inst(Block(0), 7), inst);
    assert_eq!(compute(&func, Block(0), v0, 100, inst), Some(2));
}

#[test]
fn signed_division_by_minus_four() {
    let (mut func, v0, inst) = one_imm(Opcode::SdivImm, Type::I32, -4);
    run(&mut func);
    let p = payloads(&func, Block(0));
    assert_eq!(p.len(), 6);
    assert_eq!(p[0], binary_imm(Opcode::SshrImm, v0, 1));
    assert_eq!(p[1], binary_imm(Opcode::UshrImm, Value(2), 30));
    assert_eq!(p[2], binary(Opcode::Iadd, v0, Value(3)));
    assert_eq!(p[3], binary_imm(Opcode::SshrImm, Value(4), 2));
    assert_eq!(p[4], binary_imm(Opcode::IrsubImm, Value(5), 0));
    assert_eq!(func.inst_data(inst), p[4]);
    assert_eq!(compute(&func, Block(0), v0, bits32(9), inst), Some(bits32(-2)));
    assert_eq!(compute(&func, Block(0), v0, bits32(-9), inst), Some(bits32(2)));
}

#[test]
fn unsigned_division_by_zero_is_preserved() {
    let (mut func, v0, inst) = one_imm(Opcode::UdivImm, Type::I32, 0);
    run(&mut func);
    assert_eq!(func.num_insts(), 2);
    assert_eq!(func.block_len(Block(0)), 2);
    assert_eq!(func.inst_data(inst), binary_imm(Opcode::UdivImm, v0, 0));
    assert_eq!(compute(&func, Block(0), v0, 5, inst), None);
}

#[test]
fn signed_division_by_seven_uses_the_multiplier() {
    let (mut func, v0, inst) = one_imm(Opcode::SdivImm, Type::I32, 7);
    run(&mut func);
    let m = magic_s32(7);
    assert_eq!((m.mul_by as u32, m.shift_by), (0x9249_2493, 2));
    let p = payloads(&func, Block(0));
    assert_eq!(p.len(), 8);
    assert_eq!(p[0], InstructionData::UnaryImm { opcode: Opcode::Iconst, imm: 0x9249_2493u32 as i32 as i64 });
    assert_eq!(p[1], binary(Opcode::Smulhi, v0, Value(2)));
    assert_eq!(p[2], binary(Opcode::Iadd, Value(3), v0));
    assert_eq!(p[3], binary_imm(Opcode::SshrImm, Value(4), 2));
    assert_eq!(p[4], binary_imm(Opcode::UshrImm, Value(5), 31));
    assert_eq!(p[5], binary(Opcode::Iadd, Value(5), Value(6)));
    assert_eq!(func.inst_data(inst), InstructionData::Unary { opcode: Opcode::Copy, arg: Value(7) });
    // for a negative divisor and a positive multiplier the dividend is taken off
    let (mut func, v0, _) = one_imm(Opcode::SdivImm, Type::I32, -7);
    run(&mut func);
    let p = payloads(&func, Block(0));
    assert_eq!(p[0], InstructionData::UnaryImm { opcode: Opcode::Iconst, imm: 0x6db6_db6d });
    assert_eq!(p[2], binary(Opcode::Isub, Value(3), v0));
    // a multiplier of the sign of the divisor needs no correction, and no shift by zero is emitted
    let (mut func, v0, inst) = one_imm(Opcode::SremImm, Type::I32, 3);
    run(&mut func);
    let p = payloads(&func, Block(0));
    assert_eq!(p.len(), 7);
    assert_eq!(p[0], InstructionData::UnaryImm { opcode: Opcode::Iconst, imm: 0x5555_5556 });
    assert_eq!(p[1], binary(Opcode::Smulhi, v0, Value(2)));
    assert_eq!(p[2], binary_imm(Opcode::UshrImm, Value(3), 31));
    assert_eq!(p[3], binary(Opcode::Iadd, Value(3), Value(4)));
    assert_eq!(p[4], binary_imm(Opcode::ImulImm, Value(5), 3));
    assert_eq!(func.inst_data(inst), binary(Opcode::Isub, v0, Value(6)));
}

#[test]
fn unsigned_division_without_shift_or_with_one() {
    let (mut func, v0, inst) = one_imm(Opcode::UdivImm, Type::I32, 3);
    run(&mut func);
    let p = payloads(&func, Block(0));
    assert_eq!(p.len(), 5);
    assert_eq!(p[0], InstructionData::UnaryImm { opcode: Opcode::Iconst, imm: 0xaaaa_aaab });
    assert_eq!(p[1], binary(Opcode::Umulhi, v0, Value(2)));
    assert_eq!(p[2], binary_imm(Opcode::UshrImm, Value(3), 1));
    assert_eq!(func.inst_data(inst), InstructionData::Unary { opcode: Opcode::Copy, arg: Value(4) });
    let (mut func, _, inst) = one_imm(Opcode::UdivImm, Type::I64, 0xffff_ffff_ffff_fffeu64 as i64);
    run(&mut func);
    let p = payloads(&func, Block(0));
    assert_eq!(p[0], InstructionData::UnaryImm { opcode: Opcode::Iconst, imm: 3 });
    assert_eq!(p[5], binary_imm(Opcode::UshrImm, Value(6), 63));
    assert_eq!(func.inst_data(inst), InstructionData::Unary { opcode: Opcode::Copy, arg: Value(7) });
}

#[test]
fn immediates_out_of_the_32_bit_range_are_rejected() {
    let v = Value(0);
    assert_eq!(package_up_divrem_info(v, Type::I32, 0x1_0000_0000, false, false), None);
    assert_eq!(package_up_divrem_info(v, Type::I32, -1, false, true), None);
    assert_eq!(
        package_up_divrem_info(v, Type::I32, 0xffff_ffff, false, true),
        Some(DivRemByConstInfo::RemU32(v, 0xffff_ffff))
    );
    assert_eq!(package_up_divrem_info(v, Type::I32, 0x8000_0000, true, false), None);
    assert_eq!(package_up_divrem_info(v, Type::I32, -0x8000_0001, true, false), None);
    assert_eq!(
        package_up_divrem_info(v, Type::I32, -0x8000_0000, true, false),
        Some(DivRemByConstInfo::DivS32(v, i32::MIN))
    );
    assert_eq!(
        package_up_divrem_info(v, Type::I32, 0x7fff_ffff, true, true),
        Some(DivRemByConstInfo::RemS32(v, i32::MAX))
    );
    assert_eq!(
        package_up_divrem_info(v, Type::I64, -1, false, false),
        Some(DivRemByConstInfo::DivU64(v, u64::MAX))
    );
    assert_eq!(
        package_up_divrem_info(v, Type::I64, i64::MIN, true, true),
        Some(DivRemByConstInfo::RemS64(v, i64::MIN))
    );
    assert_eq!(package_up_divrem_info(v, Type::I16, 3, false, false), None);
    assert_eq!(package_up_divrem_info(v, Type::B1, 3, true, false), None);
    let (mut func, v0, inst) = one_imm(Opcode::UdivImm, Type::I32, 0x1_0000_0007);
    run(&mut func);
    assert_eq!(func.inst_data(inst), binary_imm(Opcode::UdivImm, v0, 0x1_0000_0007));
}

#[test]
fn get_div_info_reads_opcode_type_and_immediate() {
    let (func, v0, inst) = one_imm(Opcode::UremImm, Type::I64, 12);
    assert_eq!(get_div_info(inst, &func), Some(DivRemByConstInfo::RemU64(v0, 12)));
    let (func, v0, inst) = one_imm(Opcode::SdivImm, Type::I32, -12);
    assert_eq!(get_div_info(inst, &func), Some(DivRemByConstInfo::DivS32(v0, -12)));
    let (func, _, inst) = one_imm(Opcode::ImulImm, Type::I32, 12);
    assert_eq!(get_div_info(inst, &func), None);
    let (func, _, _) = one_imm(Opcode::UdivImm, Type::I32, 12);
    assert_eq!(get_div_info(Inst(1), &func), None);
}

#[test]
fn do_divrem_transformation_moves_the_cursor_past_what_it_inserts() {
    let (mut func, v0, inst) = one_imm(Opcode::UdivImm, Type::I32, 7);
    let mut pos = FuncCursor { block: Block(0), at: 0 };
    do_divrem_transformation(&DivRemByConstInfo::DivU32(v0, 7), &mut func, &mut pos, inst);
    assert_eq!(pos.at, 6);
    assert_eq!(func.block_inst(Block(0), 6), inst);
    assert_eq!(func.block_len(Block(0)), 8);
    assert_eq!(func.inst_data(inst), InstructionData::Unary { opcode: Opcode::Copy, arg: Value(7) });
}

fn icmp_branch(cond: IntCC, opcode: Opcode, imm: i64) -> (Function, Value, Inst, Inst) {
    let mut func = Function::new();
    let b0 = func.add_block();
    let b1 = func.add_block();
    let b2 = func.add_block();
    let v0 = func.add_block_param(b0, 0, Type::I32);
    let c = func.append_inst_with_result(
        b0,
        InstructionData::IntCompareImm { opcode: Opcode::IcmpImm, cond, arg: v0, imm },
        Type::B1,
    );
    let br = func.append_inst(b0, InstructionData::Branch { opcode, arg: c, destination: b2 });
    func.set_block_args(br, vec![v0]);
    func.append_inst(b0, InstructionData::Jump { opcode: Opcode::Jump, destination: b1 });
    func.append_inst(b1, InstructionData::NullAry { opcode: Opcode::Return });
    func.append_inst(b2, InstructionData::NullAry { opcode: Opcode::Return });
    let cmp = def_inst(&func, c);
    (func, v0, cmp, br)
}

#[test]
fn comparison_with_zero_is_fused_into_the_branch() {
    let (mut func, v0, cmp, br) = icmp_branch(IntCC::NotEqual, Opcode::Brz, 0);
    run(&mut func);
    assert_eq!(
        func.inst_data(br),
        InstructionData::Branch { opcode: Opcode::Brnz, arg: v0, destination: Block(2) }
    );
    assert_eq!(func.inst_block_args(br), &vec![v0]);
    assert_eq!(
        func.inst_data(cmp),
        InstructionData::IntCompareImm { opcode: Opcode::IcmpImm, cond: IntCC::NotEqual, arg: v0, imm: 0 }
    );
    assert_eq!(func.block_len(Block(0)), 3);
}

#[test]
fn branch_opt_follows_the_table() {
    for (branch, cond, want) in [
        (Opcode::Brz, IntCC::Equal, Opcode::Brz),
        (Opcode::Brz, IntCC::NotEqual, Opcode::Brnz),
        (Opcode::Brnz, IntCC::Equal, Opcode::Brnz),
        (Opcode::Brnz, IntCC::NotEqual, Opcode::Brz),
    ] {
        let (mut func, v0, _, br) = icmp_branch(cond, branch, 0);
        branch_opt(&mut func, br);
        assert_eq!(
            func.inst_data(br),
            InstructionData::Branch { opcode: want, arg: v0, destination: Block(2) }
        );
    }
}

#[test]
fn other_conditions_are_not_fused() {
    for cond in [
        IntCC::SignedLessThan,
        IntCC::SignedGreaterThanOrEqual,
        IntCC::SignedGreaterThan,
        IntCC::SignedLessThanOrEqual,
        IntCC::UnsignedLessThan,
        IntCC::UnsignedGreaterThanOrEqual,
        IntCC::UnsignedGreaterThan,
        IntCC::UnsignedLessThanOrEqual,
    ] {
        for opcode in [Opcode::Brz, Opcode::Brnz] {
            let (mut func, _, _, br) = icmp_branch(cond, opcode, 0);
            let before = func.inst_data(br);
            run(&mut func);
            assert_eq!(func.inst_data(br), before);
        }
    }
    // nor is a comparison with anything but zero
    let (mut func, _, _, br) = icmp_branch(IntCC::Equal, Opcode::Brz, 1);
    let before = func.inst_data(br);
    run(&mut func);
    assert_eq!(func.inst_data(br), before);
}

/// Blocks in layout order B1, B3, B4, B2; B1 ends with `first c, B3` and
/// `jump B2`.
fn two_way(first: InstructionData) -> (Function, Inst, Inst, Value, Value) {
    let mut func = Function::new();
    let b1 = func.add_block();
    let b3 = func.add_block();
    let b4 = func.add_block();
    let b2 = func.add_block();
    let c = func.add_block_param(b1, 0, Type::I32);
    let x = func.add_block_param(b1, 1, Type::I32);
    let cond = func.append_inst(b1, first);
    let jump = func.append_inst(b1, InstructionData::Jump { opcode: Opcode::Jump, destination: b2 });
    func.append_inst(b3, InstructionData::NullAry { opcode: Opcode::Return });
    func.append_inst(b4, InstructionData::NullAry { opcode: Opcode::Return });
    func.append_inst(b2, InstructionData::NullAry { opcode: Opcode::Return });
    (func, cond, jump, c, x)
}

fn sorted(v: &Vec<Block>) -> Vec<usize> {
    let mut out: Vec<usize> = v.iter().map(|b| b.0).collect();
    out.sort();
    out
}

#[test]
fn branches_are_reordered_for_fallthrough() {
    let b3 = Block(1);
    let b2 = Block(3);
    let (mut func, cond, jump, c, _) =
        two_way(InstructionData::Branch { opcode: Opcode::Brz, arg: Value(0), destination: Block(1) });
    let before = ControlFlowGraph::with_function(&func);
    let cfg = run(&mut func);
    assert_eq!(func.inst_data(cond), InstructionData::Branch { opcode: Opcode::Brnz, arg: c, destination: b2 });
    assert_eq!(func.inst_data(jump), InstructionData::Jump { opcode: Opcode::Jump, destination: b3 });
    assert_eq!(func.inst_block_args(cond), &Vec::<Value>::new());
    assert_eq!(func.inst_block_args(jump), &Vec::<Value>::new());
    assert_eq!(func.next_block(Block(0)), Some(b3));
    assert_eq!(cfg.successors(Block(0)), &vec![b2, b3]);
    assert_eq!(sorted(cfg.successors(Block(0))), sorted(before.successors(Block(0))));
    for b in 1..4 {
        assert_eq!(cfg.successors(Block(b)), before.successors(Block(b)));
    }
}

#[test]
fn block_arguments_move_with_their_destination() {
    let (mut func, cond, jump, c, x) =
        two_way(InstructionData::Branch { opcode: Opcode::Brnz, arg: Value(0), destination: Block(1) });
    func.set_block_args(cond, vec![x, c]);
    func.set_block_args(jump, vec![c]);
    run(&mut func);
    assert_eq!(func.inst_data(cond), InstructionData::Branch { opcode: Opcode::Brz, arg: c, destination: Block(3) });
    assert_eq!(func.inst_block_args(cond), &vec![c]);
    assert_eq!(func.inst_data(jump), InstructionData::Jump { opcode: Opcode::Jump, destination: Block(1) });
    assert_eq!(func.inst_block_args(jump), &vec![x, c]);
}

#[test]
fn a_compare_and_branch_gets_the_opposite_condition() {
    let (mut func, cond, jump, c, x) = two_way(InstructionData::BranchIcmp {
        opcode: Opcode::BrIcmp,
        cond: IntCC::SignedLessThan,
        lhs: Value(0),
        rhs: Value(1),
        destination: Block(1),
    });
    func.set_block_args(cond, vec![x]);
    run(&mut func);
    assert_eq!(
        func.inst_data(cond),
        InstructionData::BranchIcmp {
            opcode: Opcode::BrIcmp,
            cond: IntCC::SignedGreaterThanOrEqual,
            lhs: c,
            rhs: x,
            destination: Block(3),
        }
    );
    assert_eq!(func.inst_block_args(cond), &Vec::<Value>::new());
    assert_eq!(func.inst_data(jump), InstructionData::Jump { opcode: Opcode::Jump, destination: Block(1) });
    assert_eq!(func.inst_block_args(jump), &vec![x]);
}

#[test]
fn a_jump_to_the_next_block_is_left() {
    let mut func = Function::new();
    let b0 = func.add_block();
    let b1 = func.add_block();
    let b2 = func.add_block();
    let c = func.add_block_param(b0, 0, Type::I32);
    let cond = func.append_inst(b0, InstructionData::Branch { opcode: Opcode::Brz, arg: c, destination: b2 });
    let jump = func.append_inst(b0, InstructionData::Jump { opcode: Opcode::Jump, destination: b1 });
    func.append_inst(b1, InstructionData::NullAry { opcode: Opcode::Return });
    func.append_inst(b2, InstructionData::NullAry { opcode: Opcode::Return });
    let cfg = run(&mut func);
    assert_eq!(func.inst_data(cond), InstructionData::Branch { opcode: Opcode::Brz, arg: c, destination: b2 });
    assert_eq!(func.inst_data(jump), InstructionData::Jump { opcode: Opcode::Jump, destination: b1 });
    assert_eq!(cfg.successors(b0), &vec![b2, b1]);
}

#[test]
fn branch_order_needs_a_branch_to_the_next_block() {
    // the branch leads elsewhere
    let (mut func, cond, jump, _, _) =
        two_way(InstructionData::Branch { opcode: Opcode::Brz, arg: Value(0), destination: Block(2) });
    let (c0, j0) = (func.inst_data(cond), func.inst_data(jump));
    run(&mut func);
    assert_eq!((func.inst_data(cond), func.inst_data(jump)), (c0, j0));
    // the jump is the first instruction of its block
    let mut func = Function::new();
    let b0 = func.add_block();
    let b1 = func.add_block();
    let jump = func.append_inst(b0, InstructionData::Jump { opcode: Opcode::Jump, destination: b0 });
    func.append_inst(b1, InstructionData::NullAry { opcode: Opcode::Return });
    run(&mut func);
    assert_eq!(func.inst_data(jump), InstructionData::Jump { opcode: Opcode::Jump, destination: b0 });
    // the block is the last one
    let mut func = Function::new();
    let b0 = func.add_block();
    let b1 = func.add_block();
    let c = func.add_block_param(b0, 0, Type::I32);
    func.append_inst(b0, InstructionData::NullAry { opcode: Opcode::Return });
    let cond = func.append_inst(b1, InstructionData::Branch { opcode: Opcode::Brz, arg: c, destination: b1 });
    let jump = func.append_inst(b1, InstructionData::Jump { opcode: Opcode::Jump, destination: b0 });
    run(&mut func);
    assert_eq!(func.inst_data(cond), InstructionData::Branch { opcode: Opcode::Brz, arg: c, destination: b1 });
    assert_eq!(func.inst_data(jump), InstructionData::Jump { opcode: Opcode::Jump, destination: b0 });
    // a fallthrough is no jump
    let (mut func, cond, _, _, _) =
        two_way(InstructionData::Branch { opcode: Opcode::Brz, arg: Value(0), destination: Block(1) });
    let ft = func.append_inst(Block(0), InstructionData::Jump { opcode: Opcode::Fallthrough, destination: Block(3) });
    let c0 = func.inst_data(cond);
    let mut cfg = ControlFlowGraph::with_function(&func);
    branch_order(&mut func, &mut cfg, &FuncCursor { block: Block(0), at: 2 }, ft);
    assert_eq!(func.inst_data(cond), c0);
}

#[test]
fn reordering_twice_is_reordering_once() {
    let (mut func, cond, jump, _, _) =
        two_way(InstructionData::Branch { opcode: Opcode::Brz, arg: Value(0), destination: Block(1) });
    let mut cfg = ControlFlowGraph::with_function(&func);
    let pos = FuncCursor { block: Block(0), at: 1 };
    branch_order(&mut func, &mut cfg, &pos, jump);
    let once = (func.inst_data(cond), func.inst_data(jump));
    let succs = cfg.successors(Block(0)).clone();
    branch_order(&mut func, &mut cfg, &pos, jump);
    assert_eq!((func.inst_data(cond), func.inst_data(jump)), once);
    assert_eq!(cfg.successors(Block(0)), &succs);
}

fn with_constant(opcode: Opcode, ty: Type, imm: i64, constant_left: bool) -> (Function, Value, Value, Inst) {
    let mut func = Function::new();
    let b0 = func.add_block();
    let x = func.add_block_param(b0, 0, ty);
    let k = func.append_inst_with_result(b0, InstructionData::UnaryImm { opcode: Opcode::Iconst, imm }, ty);
    let data = if constant_left { binary(opcode, k, x) } else { binary(opcode, x, k) };
    let r = func.append_inst_with_result(b0, data, ty);
    let inst = def_inst(&func, r);
    (func, x, k, inst)
}

#[test]
fn constants_fold_into_immediate_forms() {
    for (opcode, want) in [
        (Opcode::Iadd, Opcode::IaddImm),
        (Opcode::Imul, Opcode::ImulImm),
        (Opcode::Udiv, Opcode::UdivImm),
        (Opcode::Urem, Opcode::UremImm),
        (Opcode::Sdiv, Opcode::SdivImm),
        (Opcode::Srem, Opcode::SremImm),
        (Opcode::Band, Opcode::BandImm),
        (Opcode::Bor, Opcode::BorImm),
        (Opcode::Bxor, Opcode::BxorImm),
        (Opcode::Ishl, Opcode::IshlImm),
        (Opcode::Ushr, Opcode::UshrImm),
        (Opcode::Sshr, Opcode::SshrImm),
        (Opcode::Rotl, Opcode::RotlImm),
        (Opcode::Rotr, Opcode::RotrImm),
    ] {
        let (mut func, x, _, inst) = with_constant(opcode, Type::I64, 0, false);
        simplify(&mut func, inst);
        assert_eq!(func.inst_data(inst), binary_imm(want, x, 0));
        assert_eq!(func.num_insts(), 2);
    }
    let (mut func, x, _, inst) = with_constant(Opcode::Isub, Type::I32, 5, false);
    simplify(&mut func, inst);
    assert_eq!(func.inst_data(inst), binary_imm(Opcode::IaddImm, x, -5));
    let (mut func, x, _, inst) = with_constant(Opcode::Isub, Type::I64, i64::MIN, false);
    simplify(&mut func, inst);
    assert_eq!(func.inst_data(inst), binary_imm(Opcode::IaddImm, x, i64::MIN));
    let (mut func, x, k, inst) = with_constant(Opcode::Umulhi, Type::I32, 5, false);
    simplify(&mut func, inst);
    assert_eq!(func.inst_data(inst), binary(Opcode::Umulhi, x, k));
}

#[test]
fn a_constant_on_the_left_folds_only_into_a_reverse_subtraction() {
    let (mut func, x, _, inst) = with_constant(Opcode::Isub, Type::I32, 5, true);
    simplify(&mut func, inst);
    assert_eq!(func.inst_data(inst), binary_imm(Opcode::IrsubImm, x, 5));
    let (mut func, x, k, inst) = with_constant(Opcode::Iadd, Type::I32, 5, true);
    simplify(&mut func, inst);
    assert_eq!(func.inst_data(inst), binary(Opcode::Iadd, k, x));
    // the right operand is tried first
    let mut func = Function::new();
    let b0 = func.add_block();
    let k1 = func.append_inst_with_result(b0, InstructionData::UnaryImm { opcode: Opcode::Iconst, imm: 1 }, Type::I32);
    let k2 = func.append_inst_with_result(b0, InstructionData::UnaryImm { opcode: Opcode::Iconst, imm: 2 }, Type::I32);
    let r = func.append_inst_with_result(b0, binary(Opcode::Isub, k1, k2), Type::I32);
    let inst = def_inst(&func, r);
    simplify(&mut func, inst);
    assert_eq!(func.inst_data(inst), binary_imm(Opcode::IaddImm, k1, -2));
    // a right operand that another instruction computes does not keep the left one from folding
    let mut func = Function::new();
    let b0 = func.add_block();
    let x = func.add_block_param(b0, 0, Type::I32);
    let k = func.append_inst_with_result(b0, InstructionData::UnaryImm { opcode: Opcode::Iconst, imm: 9 }, Type::I32);
    let y = func.append_inst_with_result(b0, binary(Opcode::Iadd, x, x), Type::I32);
    let r = func.append_inst_with_result(b0, binary(Opcode::Isub, k, y), Type::I32);
    let inst = def_inst(&func, r);
    simplify(&mut func, inst);
    assert_eq!(func.inst_data(inst), binary_imm(Opcode::IrsubImm, y, 9));
}

#[test]
fn folding_keeps_the_value() {
    for (opcode, imm) in [
        (Opcode::Iadd, 77i64),
        (Opcode::Isub, 77),
        (Opcode::Isub, i64::MIN),
        (Opcode::Isub, -0x8000_0000),
        (Opcode::Imul, -3),
        (Opcode::Band, 0xff0f),
        (Opcode::Bor, 0xff0f),
        (Opcode::Bxor, -1),
        (Opcode::Ishl, 37),
        (Opcode::Ushr, 37),
        (Opcode::Sshr, 37),
        (Opcode::Rotl, 37),
        (Opcode::Rotr, 37),
        (Opcode::Udiv, 10),
        (Opcode::Srem, -10),
    ] {
        for ty in [Type::I32, Type::I64] {
            for left in [false, true] {
                let (mut func, x, _, inst) = with_constant(opcode, ty, imm, left);
                let mut before = Vec::new();
                for n in SAMPLES_64 {
                    let n = if ty == Type::I32 { n as u32 as u64 } else { n as u64 };
                    before.push(compute(&func, Block(0), x, n, inst));
                }
                simplify(&mut func, inst);
                for (i, n) in SAMPLES_64.iter().enumerate() {
                    let n = if ty == Type::I32 { *n as u32 as u64 } else { *n as u64 };
                    assert_eq!(compute(&func, Block(0), x, n, inst), before[i]);
                }
            }
        }
    }
}

#[test]
fn comparisons_with_a_constant_take_the_immediate_form() {
    let mut func = Function::new();
    let b0 = func.add_block();
    let x = func.add_block_param(b0, 0, Type::I32);
    let k = func.append_inst_with_result(b0, InstructionData::UnaryImm { opcode: Opcode::Iconst, imm: 0 }, Type::I32);
    let c = func.append_inst_with_result(
        b0,
        InstructionData::IntCompare { opcode: Opcode::Icmp, cond: IntCC::UnsignedLessThan, lhs: x, rhs: k },
        Type::B1,
    );
    let inst = def_inst(&func, c);
    simplify(&mut func, inst);
    assert_eq!(
        func.inst_data(inst),
        InstructionData::IntCompareImm { opcode: Opcode::IcmpImm, cond: IntCC::UnsignedLessThan, arg: x, imm: 0 }
    );
    // with the constant on the left nothing folds
    let c = func.append_inst_with_result(
        b0,
        InstructionData::IntCompare { opcode: Opcode::Icmp, cond: IntCC::Equal, lhs: k, rhs: x },
        Type::B1,
    );
    let inst = def_inst(&func, c);
    simplify(&mut func, inst);
    assert_eq!(
        func.inst_data(inst),
        InstructionData::IntCompare { opcode: Opcode::Icmp, cond: IntCC::Equal, lhs: k, rhs: x }
    );
}

#[test]
fn conditions_look_through_a_widened_boolean() {
    let mut func = Function::new();
    let b0 = func.add_block();
    let b1 = func.add_block();
    let flag = func.add_block_param(b0, 0, Type::B1);
    let x = func.add_block_param(b0, 1, Type::I32);
    let wide = func.append_inst_with_result(b0, InstructionData::Unary { opcode: Opcode::Bint, arg: flag }, Type::I32);
    let sel = func.append_inst_with_result(
        b0,
        InstructionData::Ternary { opcode: Opcode::Select, ctrl: wide, lhs: x, rhs: wide },
        Type::I32,
    );
    let trap = func.append_inst(b0, InstructionData::CondTrap { opcode: Opcode::Trapnz, arg: wide });
    let br = func.append_inst(b0, InstructionData::Branch { opcode: Opcode::Brnz, arg: wide, destination: b1 });
    func.append_inst(b0, InstructionData::Jump { opcode: Opcode::Jump, destination: b1 });
    func.append_inst(b1, InstructionData::NullAry { opcode: Opcode::Return });
    let sel_inst = def_inst(&func, sel);
    run(&mut func);
    assert_eq!(
        func.inst_data(sel_inst),
        InstructionData::Ternary { opcode: Opcode::Select, ctrl: flag, lhs: x, rhs: wide }
    );
    assert_eq!(func.inst_data(trap), InstructionData::CondTrap { opcode: Opcode::Trapnz, arg: flag });
    assert_eq!(func.inst_data(br), InstructionData::Branch { opcode: Opcode::Brnz, arg: flag, destination: b1 });
    // the widening stays
    assert_eq!(func.inst_data(def_inst(&func, wide)), InstructionData::Unary { opcode: Opcode::Bint, arg: flag });
}

#[test]
fn a_division_by_a_constant_is_folded_and_then_expanded() {
    let (mut func, x, _, inst) = with_constant(Opcode::Udiv, Type::I32, 8, false);
    run(&mut func);
    assert_eq!(func.inst_data(inst), binary_imm(Opcode::UshrImm, x, 3));
    let (mut func, x, _, inst) = with_constant(Opcode::Srem, Type::I64, 10, false);
    run(&mut func);
    for n in SAMPLES_64 {
        assert_eq!(compute(&func, Block(0), x, bits64(n), inst), Some(bits64(n.wrapping_rem(10))));
    }
}

#[test]
fn a_second_run_changes_nothing() {
    let mut func = Function::new();
    let b0 = func.add_block();
    let b1 = func.add_block();
    let b2 = func.add_block();
    let x = func.add_block_param(b0, 0, Type::I32);
    let k = func.append_inst_with_result(b0, InstructionData::UnaryImm { opcode: Opcode::Iconst, imm: 7 }, Type::I32);
    let q = func.append_inst_with_result(b0, binary(Opcode::Sdiv, x, k), Type::I32);
    let r = func.append_inst_with_result(b0, binary_imm(Opcode::UremImm, q, 10), Type::I32);
    let c = func.append_inst_with_result(
        b0,
        InstructionData::IntCompareImm { opcode: Opcode::IcmpImm, cond: IntCC::Equal, arg: r, imm: 0 },
        Type::B1,
    );
    func.append_inst(b0, InstructionData::Branch { opcode: Opcode::Brz, arg: c, destination: b1 });
    func.append_inst(b0, InstructionData::Jump { opcode: Opcode::Jump, destination: b2 });
    func.append_inst(b1, InstructionData::NullAry { opcode: Opcode::Return });
    func.append_inst(b2, InstructionData::NullAry { opcode: Opcode::Return });
    let cfg = run(&mut func);
    let once: Vec<Vec<InstructionData>> = (0..3).map(|b| payloads(&func, Block(b))).collect();
    let insts = func.num_insts();
    let succs: Vec<Vec<Block>> = (0..3).map(|b| cfg.successors(Block(b)).clone()).collect();
    let cfg = run(&mut func);
    let twice: Vec<Vec<InstructionData>> = (0..3).map(|b| payloads(&func, Block(b))).collect();
    assert_eq!(twice, once);
    assert_eq!(func.num_insts(), insts);
    for b in 0..3 {
        assert_eq!(cfg.successors(Block(b)), &succs[b]);
    }
}

#[test]
fn inserted_instructions_are_not_visited() {
    // the multiplier is a constant operand of the high multiplication, which stays as it is
    let (mut func, _, inst) = one_imm(Opcode::UdivImm, Type::I32, 9);
    run(&mut func);
    let p = payloads(&func, Block(0));
    assert_eq!(p[1], binary(Opcode::Umulhi, Value(0), Value(2)));
    assert_eq!(func.block_inst(Block(0), p.len() - 2), inst);
    assert_eq!(p[p.len() - 1], InstructionData::NullAry { opcode: Opcode::Return });
}

#[test]
fn the_graph_follows_the_function() {
    let (mut func, _, _, _, _) =
        two_way(InstructionData::Branch { opcode: Opcode::Brz, arg: Value(0), destination: Block(1) });
    let cfg = run(&mut func);
    let fresh = ControlFlowGraph::with_function(&func);
    for b in 0..4 {
        assert_eq!(cfg.successors(Block(b)), fresh.successors(Block(b)));
    }
}

#[test]
fn a_constant_dividend_is_folded_by_a_second_run() {
    let mut func = Function::new();
    let b0 = func.add_block();
    let k = func.append_inst_with_result(b0, InstructionData::UnaryImm { opcode: Opcode::Iconst, imm: 50 }, Type::I32);
    let q = func.append_inst_with_result(b0, binary_imm(Opcode::SdivImm, k, 7), Type::I32);
    let inst = def_inst(&func, q);
    run(&mut func);
    let once = payloads(&func, Block(0));
    assert_eq!(once[3], binary(Opcode::Iadd, Value(3), k));
    assert_eq!(compute(&func, Block(0), k, 50, inst), Some(7));
    run(&mut func);
    let twice = payloads(&func, Block(0));
    assert_eq!(twice[3], binary_imm(Opcode::IaddImm, Value(3), 50));
    assert_eq!(twice.len(), once.len());
    assert_eq!(compute(&func, Block(0), k, 50, inst), Some(7));
}

#[test]
fn a_branch_on_a_widened_boolean_is_reached_in_two_runs() {
    let mut func = Function::new();
    let b0 = func.add_block();
    let b1 = func.add_block();
    let flag = func.add_block_param(b0, 0, Type::B1);
    let wide = func.append_inst_with_result(b0, InstructionData::Unary { opcode: Opcode::Bint, arg: flag }, Type::I32);
    let c = func.append_inst_with_result(
        b0,
        InstructionData::IntCompareImm { opcode: Opcode::IcmpImm, cond: IntCC::NotEqual, arg: wide, imm: 0 },
        Type::B1,
    );
    let br = func.append_inst(b0, InstructionData::Branch { opcode: Opcode::Brnz, arg: c, destination: b1 });
    func.append_inst(b0, InstructionData::Jump { opcode: Opcode::Jump, destination: b1 });
    func.append_inst(b1, InstructionData::NullAry { opcode: Opcode::Return });
    run(&mut func);
    assert_eq!(func.inst_data(br), InstructionData::Branch { opcode: Opcode::Brz, arg: wide, destination: b1 });
    run(&mut func);
    assert_eq!(func.inst_data(br), InstructionData::Branch { opcode: Opcode::Brz, arg: flag, destination: b1 });
}

#[test]
fn rewritten_divisions_by_many_divisors_keep_their_value() {
    let mut seed: u64 = 0x2545_f491_4f6c_dd1d;
    let mut next = || {
        seed ^= seed << 13;
        seed ^= seed >> 7;
        seed ^= seed << 17;
        seed
    };
    for round in 0..150 {
        let r = next();
        // divisors of every magnitude
        let d64 = (r >> (round % 64)) | 1;
        let d32 = (d64 >> 32) as u32 | ((r as u32) >> (round % 32));
        if d32 != 0 {
            check_u32(d32);
        }
        check_u64(d64);
        let s32 = d32 as i32;
        if s32 != 0 && s32 != -1 {
            check_s32(s32);
        }
        let s64 = (r as i64) >> (round % 64);
        if s64 != 0 && s64 != -1 {
            check_s64(s64);
        }
    }
}
