//! Folding constant operands into immediate-form opcodes.

use crate::entities::{Inst, Value};
use crate::function::{Function, FunctionView, ValueDef};
use crate::instructions::{InstructionData, Opcode};
use vstd::prelude::*;

verus! {

/// The immediate of the `iconst` that defines `v`, if one does.
pub open spec fn spec_iconst_of(f: FunctionView, v: Value) -> Option<i64> {
    match f.values[v.0 as int].def {
        ValueDef::Result(def_inst, _) => match f.data(def_inst) {
            InstructionData::UnaryImm { opcode: Opcode::Iconst, imm } => Some(imm),
            _ => None,
        },
        _ => None,
    }
}

/// The operand of the `bint` that defines `v`, if one does.
pub open spec fn spec_bint_of(f: FunctionView, v: Value) -> Option<Value> {
    match f.values[v.0 as int].def {
        ValueDef::Result(def_inst, _) => match f.data(def_inst) {
            InstructionData::Unary { opcode: Opcode::Bint, arg } => Some(arg),
            _ => None,
        },
        _ => None,
    }
}

/// The immediate of the `iconst` that defines `v`, if one does.
pub fn iconst_of(func: &Function, v: Value) -> (r: Option<i64>)
    requires
        func@.wf(),
        func@.has_value(v),
    ensures
        r == spec_iconst_of(func@, v),
{
    proof {
        func@.lemma_value(v);
    }
    match func.value_def(v) {
        ValueDef::Result(def_inst, _) => match func.inst_data(def_inst) {
            InstructionData::UnaryImm { opcode: Opcode::Iconst, imm } => Some(imm),
            _ => None,
        },
        _ => None,
    }
}

/// The operand of the `bint` that defines `v`, if one does.
pub fn bint_of(func: &Function, v: Value) -> (r: Option<Value>)
    requires
        func@.wf(),
        func@.has_value(v),
    ensures
        r == spec_bint_of(func@, v),
        r matches Some(b) ==> func@.has_value(b),
{
    proof {
        func@.lemma_value(v);
    }
    match func.value_def(v) {
        ValueDef::Result(def_inst, _) => {
            proof {
                func@.lemma_inst(def_inst);
            }
            match func.inst_data(def_inst) {
                InstructionData::Unary { opcode: Opcode::Bint, arg } => Some(arg),
                _ => None,
            }
        },
        _ => None,
    }
}

/// The negation of `x` in two's complement, which leaves the least value
/// as it is.
pub open spec fn spec_wrapping_neg(x: i64) -> i64 {
    if x == i64::MIN {
        x
    } else {
        (-x) as i64
    }
}

/// The immediate-form opcode and immediate that stand for `opcode` with
/// the constant `imm` as its right operand. A subtraction becomes the
/// addition of the negated constant.
pub open spec fn spec_fold_right(opcode: Opcode, imm: i64) -> Option<(Opcode, i64)> {
    match opcode {
        Opcode::Iadd => Some((Opcode::IaddImm, imm)),
        Opcode::Imul => Some((Opcode::ImulImm, imm)),
        Opcode::Sdiv => Some((Opcode::SdivImm, imm)),
        Opcode::Udiv => Some((Opcode::UdivImm, imm)),
        Opcode::Srem => Some((Opcode::SremImm, imm)),
        Opcode::Urem => Some((Opcode::UremImm, imm)),
        Opcode::Band => Some((Opcode::BandImm, imm)),
        Opcode::Bor => Some((Opcode::BorImm, imm)),
        Opcode::Bxor => Some((Opcode::BxorImm, imm)),
        Opcode::Rotl => Some((Opcode::RotlImm, imm)),
        Opcode::Rotr => Some((Opcode::RotrImm, imm)),
        Opcode::Ishl => Some((Opcode::IshlImm, imm)),
        Opcode::Ushr => Some((Opcode::UshrImm, imm)),
        Opcode::Sshr => Some((Opcode::SshrImm, imm)),
        Opcode::Isub => Some((Opcode::IaddImm, spec_wrapping_neg(imm))),
        _ => None,
    }
}

/// The immediate-form opcode and immediate that stand for `opcode` with
/// the constant `imm` as its right operand.
pub fn fold_right(opcode: Opcode, imm: i64) -> (r: Option<(Opcode, i64)>)
    ensures
        r == spec_fold_right(opcode, imm),
{
    match opcode {
        Opcode::Iadd => Some((Opcode::IaddImm, imm)),
        Opcode::Imul => Some((Opcode::ImulImm, imm)),
        Opcode::Sdiv => Some((Opcode::SdivImm, imm)),
        Opcode::Udiv => Some((Opcode::UdivImm, imm)),
        Opcode::Srem => Some((Opcode::SremImm, imm)),
        Opcode::Urem => Some((Opcode::UremImm, imm)),
        Opcode::Band => Some((Opcode::BandImm, imm)),
        Opcode::Bor => Some((Opcode::BorImm, imm)),
        Opcode::Bxor => Some((Opcode::BxorImm, imm)),
        Opcode::Rotl => Some((Opcode::RotlImm, imm)),
        Opcode::Rotr => Some((Opcode::RotrImm, imm)),
        Opcode::Ishl => Some((Opcode::IshlImm, imm)),
        Opcode::Ushr => Some((Opcode::UshrImm, imm)),
        Opcode::Sshr => Some((Opcode::SshrImm, imm)),
        Opcode::Isub => Some((Opcode::IaddImm, 0i64.wrapping_sub(imm))),
        _ => None,
    }
}

/// The payload that replaces `data` when constants are folded, or `data`
/// itself where nothing folds.
///
/// A two-operand instruction whose right operand is an `iconst` takes its
/// immediate form; a subtraction whose left operand alone is one becomes a
/// reverse subtraction. An integer comparison with a constant right
/// operand takes its immediate form. A conditional trap, a conditional
/// branch or a select whose condition is the result of a `bint` takes the
/// operand of the `bint` as its condition.
pub open spec fn simplified(f: FunctionView, data: InstructionData) -> InstructionData {
    match data {
        InstructionData::Binary { opcode, lhs, rhs } => match spec_iconst_of(f, rhs) {
            Some(imm) => match spec_fold_right(opcode, imm) {
                Some((new_opcode, new_imm)) => InstructionData::BinaryImm {
                    opcode: new_opcode,
                    arg: lhs,
                    imm: new_imm,
                },
                None => data,
            },
            None => match spec_iconst_of(f, lhs) {
                Some(imm) => if opcode == Opcode::Isub {
                    InstructionData::BinaryImm { opcode: Opcode::IrsubImm, arg: rhs, imm }
                } else {
                    data
                },
                None => data,
            },
        },
        InstructionData::IntCompare { opcode, cond, lhs, rhs } => match spec_iconst_of(f, rhs) {
            Some(imm) => InstructionData::IntCompareImm { opcode: Opcode::IcmpImm, cond, arg: lhs, imm },
            None => data,
        },
        InstructionData::CondTrap { opcode, arg } => match spec_bint_of(f, arg) {
            Some(bool_val) => InstructionData::CondTrap { opcode, arg: bool_val },
            None => data,
        },
        InstructionData::Branch { opcode, arg, destination } => match spec_bint_of(f, arg) {
            Some(bool_val) => InstructionData::Branch { opcode, arg: bool_val, destination },
            None => data,
        },
        InstructionData::Ternary { opcode: Opcode::Select, ctrl, lhs, rhs } => match spec_bint_of(f, ctrl) {
            Some(bool_val) => InstructionData::Ternary { opcode: Opcode::Select, ctrl: bool_val, lhs, rhs },
            None => data,
        },
        _ => data,
    }
}

/// The function with the instruction `inst` simplified.
pub open spec fn spec_simplify(f: FunctionView, inst: Inst) -> FunctionView {
    f.replace(inst, simplified(f, f.data(inst)))
}

/// Applies basic simplifications to `inst`: folds a constant operand into
/// an immediate-form opcode, and looks through a `bint` that feeds a
/// condition.
pub fn simplify(func: &mut Function, inst: Inst)
    requires
        old(func)@.wf(),
        old(func)@.has_inst(inst),
    ensures
        final(func)@ == spec_simplify(old(func)@, inst),
        final(func)@.wf(),
{
    let ghost f = func@;
    proof {
        f.lemma_inst(inst);
    }
    let data = func.inst_data(inst);
    match data {
        InstructionData::Binary { opcode, lhs, rhs } => {
            match iconst_of(func, rhs) {
                Some(imm) => {
                    match fold_right(opcode, imm) {
                        Some((new_opcode, new_imm)) => {
                            let new_data = InstructionData::BinaryImm {
                                opcode: new_opcode,
                                arg: lhs,
                                imm: new_imm,
                            };
                    proof {
                        f.lemma_has_operands(new_data);
                    }
                            func.replace(inst, new_data);
                        },
                        None => {},
                    }
                },
                None => {
                    match iconst_of(func, lhs) {
                        Some(imm) => {
                            match opcode {
                                Opcode::Isub => {
                                    let new_data = InstructionData::BinaryImm {
                                        opcode: Opcode::IrsubImm,
                                        arg: rhs,
                                        imm,
                                    };
                    proof {
                        f.lemma_has_operands(new_data);
                    }
                                    func.replace(inst, new_data);
                                },
                                _ => {},
                            }
                        },
                        None => {},
                    }
                },
            }
        },
        InstructionData::IntCompare { cond, lhs, rhs, .. } => {
            match iconst_of(func, rhs) {
                Some(imm) => {
                    let new_data = InstructionData::IntCompareImm {
                        opcode: Opcode::IcmpImm,
                        cond,
                        arg: lhs,
                        imm,
                    };
                    proof {
                        f.lemma_has_operands(new_data);
                    }
                    func.replace(inst, new_data);
                },
                None => {},
            }
        },
        InstructionData::CondTrap { opcode, arg } => {
            match bint_of(func, arg) {
                Some(bool_val) => {
                    let new_data = InstructionData::CondTrap { opcode, arg: bool_val };
                    proof {
                        f.lemma_has_operands(new_data);
                    }
                    func.replace(inst, new_data);
                },
                None => {},
            }
        },
        InstructionData::Branch { opcode, arg, destination } => {
            match bint_of(func, arg) {
                Some(bool_val) => {
                    let new_data = InstructionData::Branch { opcode, arg: bool_val, destination };
                    proof {
                        f.lemma_has_operands(new_data);
                    }
                    func.replace(inst, new_data);
                },
                None => {},
            }
        },
        InstructionData::Ternary { opcode: Opcode::Select, ctrl, lhs, rhs } => {
            match bint_of(func, ctrl) {
                Some(bool_val) => {
                    let new_data = InstructionData::Ternary {
                        opcode: Opcode::Select,
                        ctrl: bool_val,
                        lhs,
                        rhs,
                    };
                    proof {
                        f.lemma_has_operands(new_data);
                    }
                    func.replace(inst, new_data);
                },
                None => {},
            }
        },
        _ => {},
    }
}

} // verus!
