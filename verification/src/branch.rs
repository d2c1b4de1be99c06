//! Branch cleanup: fusing a comparison against zero into the branch that
//! tests it, and reordering the two branches that end a block so that the
//! unconditional one falls through.

use crate::cursor::FuncCursor;
use crate::entities::{Block, Inst, IntCC, Value};
use crate::flowgraph::{block_successors, ControlFlowGraph};
use crate::function::{Function, FunctionView, ValueDef};
use crate::instructions::{InstructionData, Opcode};
use vstd::prelude::*;

verus! {

/// The condition and the operand of the comparison against an immediate
/// zero that defines `v`, if one does.
pub open spec fn spec_zero_test_of(f: FunctionView, v: Value) -> Option<(IntCC, Value)> {
    match f.def(v) {
        ValueDef::Result(def_inst, _) => match f.data(def_inst) {
            InstructionData::IntCompareImm { opcode: Opcode::IcmpImm, cond, arg, imm } => if imm == 0 {
                Some((cond, arg))
            } else {
                None
            },
            _ => None,
        },
        _ => None,
    }
}

/// The condition and the operand of the comparison against an immediate
/// zero that defines `v`, if one does.
pub fn zero_test_of(func: &Function, v: Value) -> (r: Option<(IntCC, Value)>)
    requires
        func@.wf(),
        func@.has_value(v),
    ensures
        r == spec_zero_test_of(func@, v),
        r matches Some((_, a)) ==> func@.has_value(a),
{
    proof {
        func@.lemma_value(v);
    }
    match func.value_def(v) {
        ValueDef::Result(def_inst, _) => {
            proof {
                func@.lemma_inst(def_inst);
            }
            match func.inst_data(def_inst) {
                InstructionData::IntCompareImm { opcode: Opcode::IcmpImm, cond, arg, imm } => {
                    if imm == 0 {
                        Some((cond, arg))
                    } else {
                        None
                    }
                },
                _ => None,
            }
        },
        _ => None,
    }
}

/// The opcode of the branch that tests the compared value itself: the
/// opcode of the branch for `Equal`, the opposite one for `NotEqual`, and
/// none for any other condition.
pub open spec fn spec_fused_opcode(br_opcode: Opcode, cond: IntCC) -> Option<Opcode> {
    match (br_opcode, cond) {
        (Opcode::Brz, IntCC::Equal) => Some(Opcode::Brz),
        (Opcode::Brz, IntCC::NotEqual) => Some(Opcode::Brnz),
        (Opcode::Brnz, IntCC::Equal) => Some(Opcode::Brnz),
        (Opcode::Brnz, IntCC::NotEqual) => Some(Opcode::Brz),
        _ => None,
    }
}

/// The opcode of the branch that tests the compared value itself.
pub fn fused_opcode(br_opcode: Opcode, cond: IntCC) -> (r: Option<Opcode>)
    ensures
        r == spec_fused_opcode(br_opcode, cond),
{
    match (br_opcode, cond) {
        (Opcode::Brz, IntCC::Equal) => Some(Opcode::Brz),
        (Opcode::Brz, IntCC::NotEqual) => Some(Opcode::Brnz),
        (Opcode::Brnz, IntCC::Equal) => Some(Opcode::Brnz),
        (Opcode::Brnz, IntCC::NotEqual) => Some(Opcode::Brz),
        _ => None,
    }
}

/// The payload that replaces `data` when a comparison against zero is
/// fused into it, or `data` itself where nothing fuses.
pub open spec fn fused(f: FunctionView, data: InstructionData) -> InstructionData {
    match data {
        InstructionData::Branch { opcode, arg, destination } => match spec_zero_test_of(f, arg) {
            Some((cond, a)) => match spec_fused_opcode(opcode, cond) {
                Some(new_opcode) => InstructionData::Branch { opcode: new_opcode, arg: a, destination },
                None => data,
            },
            None => data,
        },
        _ => data,
    }
}

/// The function with a comparison against zero fused into the branch
/// `inst`.
pub open spec fn spec_branch_opt(f: FunctionView, inst: Inst) -> FunctionView {
    f.replace(inst, fused(f, f.data(inst)))
}

/// Folds a comparison into the branch that tests its result.
///
/// Where `inst` is a `brz` or `brnz` on the result of an `icmp_imm` with
/// zero whose condition is `Equal` or `NotEqual`, the branch comes to test
/// the compared value itself; destination and block arguments stay. The
/// comparison stays in place.
pub fn branch_opt(func: &mut Function, inst: Inst)
    requires
        old(func)@.wf(),
        old(func)@.has_inst(inst),
    ensures
        final(func)@ == spec_branch_opt(old(func)@, inst),
        final(func)@.wf(),
{
    let ghost f = func@;
    proof {
        f.lemma_inst(inst);
    }
    match func.inst_data(inst) {
        InstructionData::Branch { opcode, arg, destination } => {
            match zero_test_of(func, arg) {
                Some((cond, a)) => {
                    match fused_opcode(opcode, cond) {
                        Some(new_opcode) => {
                            let new_data = InstructionData::Branch { opcode: new_opcode, arg: a, destination };
                            proof {
                                f.lemma_has_operands(new_data);
                            }
                            func.replace(inst, new_data);
                        },
                        None => {},
                    }
                },
                None => {},
            }
        },
        _ => {},
    }
}

/// The conditional branch with the opposite condition and the
/// destination `destination`; `None` for any other payload.
pub open spec fn spec_inverted(data: InstructionData, destination: Block) -> Option<InstructionData> {
    match data {
        InstructionData::Branch { opcode: Opcode::Brz, arg, .. } => Some(
            InstructionData::Branch { opcode: Opcode::Brnz, arg, destination },
        ),
        InstructionData::Branch { opcode: Opcode::Brnz, arg, .. } => Some(
            InstructionData::Branch { opcode: Opcode::Brz, arg, destination },
        ),
        InstructionData::BranchIcmp { opcode: Opcode::BrIcmp, cond, lhs, rhs, .. } => Some(
            InstructionData::BranchIcmp {
                opcode: Opcode::BrIcmp,
                cond: cond.inverse(),
                lhs,
                rhs,
                destination,
            },
        ),
        _ => None,
    }
}

/// The conditional branch with the opposite condition and the
/// destination `destination`.
pub fn inverted(data: InstructionData, destination: Block) -> (r: Option<InstructionData>)
    ensures
        r == spec_inverted(data, destination),
{
    match data {
        InstructionData::Branch { opcode: Opcode::Brz, arg, .. } => Some(
            InstructionData::Branch { opcode: Opcode::Brnz, arg, destination },
        ),
        InstructionData::Branch { opcode: Opcode::Brnz, arg, .. } => Some(
            InstructionData::Branch { opcode: Opcode::Brz, arg, destination },
        ),
        InstructionData::BranchIcmp { opcode: Opcode::BrIcmp, cond, lhs, rhs, .. } => Some(
            InstructionData::BranchIcmp {
                opcode: Opcode::BrIcmp,
                cond: cond.inverse(),
                lhs,
                rhs,
                destination,
            },
        ),
        _ => None,
    }
}

/// Whether the jump at position `at` of `block` and the conditional
/// branch before it are to be swapped: the jump does not lead to the next
/// block in layout order, and the branch does.
pub open spec fn swaps(f: FunctionView, block: Block, at: int) -> bool {
    match f.data(f.inst_at(block, at)) {
        InstructionData::Jump { opcode: Opcode::Jump, destination } => match f.next_block(block) {
            Some(next) => destination != next && at > 0 && f.data(
                f.inst_at(block, at - 1),
            ).branch_destination() == Some(next) && spec_inverted(
                f.data(f.inst_at(block, at - 1)),
                destination,
            ) is Some,
            None => false,
        },
        _ => false,
    }
}

/// The function with the jump `term` and the conditional branch `cond`
/// swapped: the branch takes the opposite condition, and each destination
/// keeps its block arguments.
pub open spec fn swapped(f: FunctionView, term: Inst, cond: Inst) -> FunctionView {
    let term_dest = f.data(term).branch_destination().unwrap();
    let cond_dest = f.data(cond).branch_destination().unwrap();
    f.replace(term, InstructionData::Jump { opcode: Opcode::Jump, destination: cond_dest }).with_block_args(
        term,
        f.args_of(cond),
    ).replace(cond, spec_inverted(f.data(cond), term_dest).unwrap()).with_block_args(cond, f.args_of(term))
}

/// The function after the branches at the end of `block` have been
/// reordered, seen from the instruction at position `at`.
pub open spec fn spec_branch_order(f: FunctionView, block: Block, at: int) -> FunctionView {
    if swaps(f, block, at) {
        swapped(f, f.inst_at(block, at), f.inst_at(block, at - 1))
    } else {
        f
    }
}

/// Reorders branches to encourage fallthroughs.
///
/// Where `inst`, at which `pos` stands, is a jump that follows a
/// conditional branch, and the branch leads to the next block in layout
/// order while the jump does not, the two are swapped: the branch takes
/// the opposite condition and the destination of the jump, the jump the
/// destination of the branch, each with the block arguments of its
/// destination. The successors of the block are then computed anew.
pub fn branch_order(func: &mut Function, cfg: &mut ControlFlowGraph, pos: &FuncCursor, inst: Inst)
    requires
        old(func)@.wf(),
        pos.valid(old(func)@),
        pos.inst(old(func)@) == inst,
        old(cfg)@.len() == old(func)@.blocks.len(),
    ensures
        final(func)@ == spec_branch_order(old(func)@, pos.block, pos.at as int),
        final(func)@.wf(),
        final(cfg)@ == if swaps(old(func)@, pos.block, pos.at as int) {
            old(cfg)@.update(pos.block.0 as int, block_successors(final(func)@, pos.block.0 as int))
        } else {
            old(cfg)@
        },
{
    let ghost f = func@;
    proof {
        f.lemma_inst(inst);
    }
    let block = pos.block;
    let term_dest = match func.inst_data(inst) {
        InstructionData::Jump { opcode: Opcode::Jump, destination } => destination,
        _ => {
            return ;
        },
    };
    let next_block = match func.next_block(block) {
        Some(next_block) => next_block,
        None => {
            return ;
        },
    };
    if term_dest.0 == next_block.0 {
        return ;
    }
    if pos.at == 0 {
        return ;
    }
    let prev_inst = func.block_inst(block, pos.at - 1);
    proof {
        f.lemma_inst(prev_inst);
    }
    let prev_data = func.inst_data(prev_inst);
    let cond_dest = match prev_data.branch_destination() {
        Some(prev_dest) => {
            if prev_dest.0 != next_block.0 {
                return ;
            }
            prev_dest
        },
        None => {
            return ;
        },
    };
    let new_cond = match inverted(prev_data, term_dest) {
        Some(data) => data,
        None => {
            return ;
        },
    };
    let cond_args = func.inst_block_args(prev_inst).clone();
    let term_args = func.inst_block_args(inst).clone();
    let new_term = InstructionData::Jump { opcode: Opcode::Jump, destination: cond_dest };
    proof {
        f.lemma_has_operands(new_term);
        f.lemma_has_operands(new_cond);
    }
    func.replace(inst, new_term);
    func.set_block_args(inst, cond_args);
    func.replace(prev_inst, new_cond);
    func.set_block_args(prev_inst, term_args);
    cfg.recompute_block(func, block);
}

} // verus!
