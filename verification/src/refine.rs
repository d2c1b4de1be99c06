//! The pass as a whole: it keeps the function in shape, and every run of
//! the function that it leaves is a run of the function that it was
//! given.

use crate::branch::{
    fused, spec_branch_opt, spec_branch_order, spec_inverted, spec_zero_test_of, swaps,
};
use crate::divrem::{expansion, lemma_expansion_shape, spec_get_div_info};
use crate::entities::{Block, Inst, Value};
use crate::function::FunctionView;
use crate::instructions::{InstructionData, Opcode};
use crate::preopt::{
    preopt_block, preopt_blocks, preopt_inserted, preopt_inst, spec_run_preopt,
    spec_try_divrem_inserted, spec_try_divrem_rewrite,
};
use crate::laws::{lemma_eval_same_types, lemma_simplified_value, respects_others};
use crate::simplify::{simplified, spec_bint_of, spec_simplify};
use crate::soundness::lemma_divrem_rewrite_equivalent;
use vstd::prelude::*;

verus! {

/// Whether the tables of `f` have room for `k` more instructions and
/// values.
pub open spec fn room(f: FunctionView, k: nat) -> bool {
    f.insts.len() + k <= usize::MAX && f.values.len() + k <= usize::MAX
}

/// Whether `g` has the layout of `f` but for `k` more instructions before
/// position `at` of `block`.
pub open spec fn grown(g: FunctionView, f: FunctionView, block: Block, at: int, k: nat) -> bool {
    &&& g.extends(f)
    &&& g.len_of(block) == f.len_of(block) + k
    &&& g.inst_at(block, at + k) == f.inst_at(block, at)
    &&& forall|b: int| 0 <= b < f.blocks.len() && b != block.0 ==> #[trigger] g.blocks[b] == f.blocks[b]
    &&& forall|j: int| at + k < j < g.len_of(block) ==> #[trigger] g.inst_at(block, j) == f.inst_at(block, j - k)
}

/// Simplifying an instruction keeps the function well-formed, with its
/// values, results and layout.
pub proof fn lemma_simplify_wf(f: FunctionView, inst: Inst)
    requires
        f.wf(),
        f.has_inst(inst),
    ensures
        spec_simplify(f, inst).wf(),
        spec_simplify(f, inst).values == f.values,
        spec_simplify(f, inst).results == f.results,
        spec_simplify(f, inst).blocks == f.blocks,
        spec_simplify(f, inst).block_args == f.block_args,
        spec_simplify(f, inst).insts.len() == f.insts.len(),
        forall|j: int|
            0 <= j < f.insts.len() && j != inst.0 ==> #[trigger] spec_simplify(f, inst).insts[j]
                == f.insts[j],
{
    let d = f.data(inst);
    let d1 = simplified(f, d);
    f.lemma_inst(inst);
    assert(f.has_operands(d1)) by {
        match d {
            InstructionData::CondTrap { arg, .. } => {
                lemma_bint_operand(f, arg);
            },
            InstructionData::Branch { arg, .. } => {
                lemma_bint_operand(f, arg);
            },
            InstructionData::Ternary { ctrl, .. } => {
                lemma_bint_operand(f, ctrl);
            },
            _ => {},
        }
    }
    f.lemma_has_operands(d1);
    f.lemma_replace_wf(inst, d1);
}

/// The operand of a `bint` that defines a value is a value.
pub proof fn lemma_bint_operand(f: FunctionView, v: Value)
    requires
        f.wf(),
        f.has_value(v),
    ensures
        spec_bint_of(f, v) matches Some(b) ==> f.has_value(b),
{
    f.lemma_value(v);
    match f.def(v) {
        crate::function::ValueDef::Result(di, _) => {
            f.lemma_inst(di);
        },
        _ => {},
    }
}

/// The value that a comparison against zero compares is a value.
pub proof fn lemma_zero_test_operand(f: FunctionView, v: Value)
    requires
        f.wf(),
        f.has_value(v),
    ensures
        spec_zero_test_of(f, v) matches Some(t) ==> f.has_value(t.1),
{
    f.lemma_value(v);
    match f.def(v) {
        crate::function::ValueDef::Result(di, _) => {
            f.lemma_inst(di);
        },
        _ => {},
    }
}

/// Fusing a comparison into a branch keeps the function well-formed,
/// with its values, results and layout.
pub proof fn lemma_branch_opt_wf(f: FunctionView, inst: Inst)
    requires
        f.wf(),
        f.has_inst(inst),
    ensures
        spec_branch_opt(f, inst).wf(),
        spec_branch_opt(f, inst).values == f.values,
        spec_branch_opt(f, inst).results == f.results,
        spec_branch_opt(f, inst).blocks == f.blocks,
        spec_branch_opt(f, inst).insts.len() == f.insts.len(),
        forall|j: int|
            0 <= j < f.insts.len() && j != inst.0 ==> #[trigger] spec_branch_opt(f, inst).insts[j]
                == f.insts[j],
        spec_branch_opt(f, inst).data(inst) is Branch == f.data(inst) is Branch,
        !(f.data(inst) is Branch) ==> spec_branch_opt(f, inst) == f,
{
    let d = f.data(inst);
    let d1 = fused(f, d);
    f.lemma_inst(inst);
    assert(f.has_operands(d1)) by {
        match d {
            InstructionData::Branch { arg, .. } => {
                lemma_zero_test_operand(f, arg);
            },
            _ => {},
        }
    }
    f.lemma_has_operands(d1);
    f.lemma_replace_wf(inst, d1);
}

/// Reordering the branches of a block keeps the function well-formed,
/// with its values, results and layout, and changes no instruction but
/// jumps and branches.
pub proof fn lemma_branch_order_wf(f: FunctionView, block: Block, at: int)
    requires
        f.wf(),
        f.has_block(block),
        0 <= at < f.len_of(block),
    ensures
        spec_branch_order(f, block, at).wf(),
        spec_branch_order(f, block, at).values == f.values,
        spec_branch_order(f, block, at).results == f.results,
        spec_branch_order(f, block, at).blocks == f.blocks,
        spec_branch_order(f, block, at).insts.len() == f.insts.len(),
        forall|j: int|
            0 <= j < f.insts.len() ==> #[trigger] spec_branch_order(f, block, at).insts[j] == f.insts[j]
                || (f.insts[j].branch_destination() is Some && spec_branch_order(
                f,
                block,
                at,
            ).insts[j].branch_destination() is Some),
{
    if swaps(f, block, at) {
        let term = f.inst_at(block, at);
        let cond = f.inst_at(block, at - 1);
        f.lemma_distinct_places(block, at, block, at - 1);
        f.lemma_inst(term);
        f.lemma_inst(cond);
        let td = f.data(term).branch_destination().unwrap();
        let cd = f.data(cond).branch_destination().unwrap();
        let new_term = InstructionData::Jump { opcode: Opcode::Jump, destination: cd };
        let new_cond = spec_inverted(f.data(cond), td).unwrap();
        f.lemma_has_operands(new_term);
        f.lemma_has_operands(new_cond);
        let g1 = f.replace(term, new_term);
        f.lemma_replace_wf(term, new_term);
        let g2 = g1.with_block_args(term, f.args_of(cond));
        g1.lemma_with_block_args_wf(term, f.args_of(cond));
        let g3 = g2.replace(cond, new_cond);
        g2.lemma_replace_wf(cond, new_cond);
        g3.lemma_with_block_args_wf(cond, f.args_of(term));
    }
}

/// Rewriting a division by a constant keeps the function well-formed;
/// the new instructions stand before the division, and nothing else
/// moves.
pub proof fn lemma_divrem_rewrite_wf(f: FunctionView, block: Block, at: int)
    requires
        f.wf(),
        f.has_block(block),
        0 <= at < f.len_of(block),
        room(f, spec_try_divrem_inserted(f, block, at)),
    ensures
        spec_try_divrem_rewrite(f, block, at).wf(),
        grown(spec_try_divrem_rewrite(f, block, at), f, block, at, spec_try_divrem_inserted(f, block, at)),
        spec_try_divrem_rewrite(f, block, at).blocks.len() == f.blocks.len(),
        forall|j: int|
            0 <= j < f.insts.len() && j != f.inst_at(block, at).0 ==> #[trigger] spec_try_divrem_rewrite(
                f,
                block,
                at,
            ).insts[j] == f.insts[j],
{
    let inst = f.inst_at(block, at);
    let g = spec_try_divrem_rewrite(f, block, at);
    f.lemma_inst(inst);
    let s0 = Seq::<Value>::empty();
    match spec_get_div_info(f, inst) {
        Some(info) => {
            crate::soundness::lemma_div_info_operand(f, inst);
            match expansion(info, f.values.len()) {
                Some(x) => {
                    lemma_expansion_shape(info, f.values.len());
                    let b = block.0 as int;
                    let g1 = f.emit(b, at, x.ops, info.ty());
                    assert(f.can_emit(b, at, x.ops));
                    f.lemma_emit_wf(b, at, x.ops, info.ty());
                    g1.lemma_replace_wf(inst, x.last);
                    f.lemma_changes_extend(inst, x.last, s0, b, at, x.ops, info.ty());
                    g1.lemma_changes_extend(inst, x.last, s0, b, at, x.ops, info.ty());
                    g.lemma_extends_transitive(g1, f);
                    assert(g.blocks[b][at + x.ops.len()] == f.blocks[b][at]);
                    assert forall|j: int| at + x.ops.len() < j < g.len_of(block) implies #[trigger] g.inst_at(
                        block,
                        j,
                    ) == f.inst_at(block, j - x.ops.len()) by {
                        assert(g.blocks[b][j] == f.blocks[b][j - x.ops.len()]);
                    }
                },
                None => {
                    assert(g == f);
                },
            }
        },
        None => {
            assert(g == f);
        },
    }
}

/// One step of the pass keeps the function well-formed; what it inserts
/// stands before the instruction that it handles, and nothing else moves.
pub proof fn lemma_preopt_inst_wf(f: FunctionView, block: Block, at: int)
    requires
        f.wf(),
        f.has_block(block),
        0 <= at < f.len_of(block),
        room(f, preopt_inserted(f, block, at)),
    ensures
        preopt_inst(f, block, at).wf(),
        grown(preopt_inst(f, block, at), f, block, at, preopt_inserted(f, block, at)),
        preopt_inst(f, block, at).blocks.len() == f.blocks.len(),
{
    let inst = f.inst_at(block, at);
    f.lemma_inst(inst);
    let f1 = spec_simplify(f, inst);
    lemma_simplify_wf(f, inst);
    assert(f1.extends(f));
    match spec_get_div_info(f1, inst) {
        Some(_) => {
            lemma_divrem_rewrite_wf(f1, block, at);
            let g = spec_try_divrem_rewrite(f1, block, at);
            g.lemma_extends_transitive(f1, f);
        },
        None => {
            let f2 = spec_branch_opt(f1, inst);
            lemma_branch_opt_wf(f1, inst);
            lemma_branch_order_wf(f2, block, at);
            let g = spec_branch_order(f2, block, at);
            assert(g.extends(f));
        },
    }
}

/// An instruction that both functions hold, with the same result,
/// computes the same in both, where `g` has all that `f` has.
pub proof fn lemma_respects_same(f: FunctionView, g: FunctionView, env: spec_fn(Value) -> int, j: int)
    requires
        f.wf(),
        g.extends(f),
        0 <= j < f.insts.len(),
        g.insts[j] == f.insts[j],
        g.respects(env, j),
    ensures
        f.respects(env, j),
{
    f.lemma_inst_number(j);
    assert(g.results[j] == f.results[j]);
    match f.results[j] {
        Some(r) => {
            assert(g.values[r.0 as int] == f.values[r.0 as int]);
            lemma_eval_same_types(f, g, f.insts[j], f.ty(r), env);
        },
        None => {},
    }
}

/// A run of a function that has all that `f` has gives the values of `f`
/// values of their types.
pub proof fn lemma_in_range_same(f: FunctionView, g: FunctionView, env: spec_fn(Value) -> int)
    requires
        g.extends(f),
        g.in_range(env),
    ensures
        f.in_range(env),
{
    assert forall|v: Value| f.has_value(v) implies 0 <= #[trigger] env(v) < f.ty(v).modulus() by {
        assert(g.values[v.0 as int] == f.values[v.0 as int]);
        assert(g.has_value(v));
    }
}

/// Every run of the function with an instruction simplified is a run of
/// the function.
pub proof fn lemma_simplify_refines(f: FunctionView, inst: Inst, env: spec_fn(Value) -> int)
    requires
        f.wf(),
        f.has_inst(inst),
        spec_simplify(f, inst).consistent(env),
    ensures
        f.consistent(env),
{
    let g = spec_simplify(f, inst);
    lemma_simplify_wf(f, inst);
    f.lemma_inst(inst);
    assert(g.extends(f));
    lemma_in_range_same(f, g, env);
    assert forall|j: int| 0 <= j < f.insts.len() && j != inst.0 implies #[trigger] f.respects(env, j) by {
        assert(g.respects(env, j));
        lemma_respects_same(f, g, env, j);
    }
    assert(respects_others(f, env, inst));
    match f.results[inst.0 as int] {
        Some(r) => {
            lemma_simplified_value(f, inst, env, f.ty(r));
            g.lemma_inst(inst);
            lemma_eval_same_types(g, f, g.data(inst), f.ty(r), env);
            assert(g.respects(env, inst.0 as int));
        },
        None => {},
    }
    assert forall|j: int| 0 <= j < f.insts.len() implies #[trigger] f.respects(env, j) by {
        if j == inst.0 {
        }
    }
}

/// Every run of the function with a division by a constant rewritten is
/// a run of the function.
pub proof fn lemma_divrem_rewrite_refines(f: FunctionView, block: Block, at: int, env: spec_fn(Value) -> int)
    requires
        f.wf(),
        f.has_block(block),
        0 <= at < f.len_of(block),
        room(f, spec_try_divrem_inserted(f, block, at)),
        spec_try_divrem_rewrite(f, block, at).consistent(env),
    ensures
        f.consistent(env),
{
    let g = spec_try_divrem_rewrite(f, block, at);
    let inst = f.inst_at(block, at);
    f.lemma_inst(inst);
    lemma_divrem_rewrite_wf(f, block, at);
    lemma_in_range_same(f, g, env);
    assert forall|j: int| 0 <= j < f.insts.len() implies #[trigger] f.respects(env, j) by {
        assert(g.respects(env, j));
        if j != inst.0 {
            lemma_respects_same(f, g, env, j);
        } else {
            match f.results[j] {
                Some(r) => {
                    assert(g.results[j] == f.results[j]);
                    assert(g.values[r.0 as int] == f.values[r.0 as int]);
                    lemma_divrem_rewrite_equivalent(f, block, at, env, f.ty(r));
                },
                None => {},
            }
        }
    }
}

/// Every run of the function with a comparison fused into a branch, and
/// with the branches of a block reordered, is a run of the function as
/// far as values go: no jump or branch computes a value.
pub proof fn lemma_branches_refine(f: FunctionView, block: Block, at: int, env: spec_fn(Value) -> int)
    requires
        f.wf(),
        f.has_block(block),
        0 <= at < f.len_of(block),
        spec_branch_order(spec_branch_opt(f, f.inst_at(block, at)), block, at).consistent(env),
    ensures
        f.consistent(env),
{
    let inst = f.inst_at(block, at);
    let f2 = spec_branch_opt(f, inst);
    let g = spec_branch_order(f2, block, at);
    f.lemma_inst(inst);
    lemma_branch_opt_wf(f, inst);
    lemma_branch_order_wf(f2, block, at);
    assert(g.extends(f));
    lemma_in_range_same(f, g, env);
    assert forall|j: int| 0 <= j < f.insts.len() implies #[trigger] f.respects(env, j) by {
        assert(g.respects(env, j));
        f.lemma_inst_number(j);
        if g.insts[j] == f.insts[j] {
            lemma_respects_same(f, g, env, j);
        } else {
            // a jump or a branch, which computes nothing
            assert(f.insts[j].branch_destination() is Some);
        }
    }
}

/// Every run of the function after one step of the pass is a run of the
/// function before it.
pub proof fn lemma_preopt_inst_refines(f: FunctionView, block: Block, at: int, env: spec_fn(Value) -> int)
    requires
        f.wf(),
        f.has_block(block),
        0 <= at < f.len_of(block),
        room(f, preopt_inserted(f, block, at)),
        preopt_inst(f, block, at).consistent(env),
    ensures
        f.consistent(env),
{
    let inst = f.inst_at(block, at);
    f.lemma_inst(inst);
    let f1 = spec_simplify(f, inst);
    lemma_simplify_wf(f, inst);
    match spec_get_div_info(f1, inst) {
        Some(_) => {
            lemma_divrem_rewrite_refines(f1, block, at, env);
        },
        None => {
            lemma_branches_refine(f1, block, at, env);
        },
    }
    lemma_simplify_refines(f, inst, env);
}

/// One step of the pass adds as many instructions and values as it
/// inserts.
pub proof fn lemma_preopt_inst_lengths(f: FunctionView, block: Block, at: int)
    requires
        f.wf(),
        f.has_block(block),
        0 <= at < f.len_of(block),
    ensures
        preopt_inst(f, block, at).insts.len() == f.insts.len() + preopt_inserted(f, block, at),
        preopt_inst(f, block, at).values.len() == f.values.len() + preopt_inserted(f, block, at),
{
    let inst = f.inst_at(block, at);
    f.lemma_inst(inst);
    let f1 = spec_simplify(f, inst);
    lemma_simplify_wf(f, inst);
    match spec_get_div_info(f1, inst) {
        Some(info) => {
            match expansion(info, f1.values.len()) {
                Some(x) => {},
                None => {},
            }
        },
        None => {
            let f2 = spec_branch_opt(f1, inst);
            lemma_branch_opt_wf(f1, inst);
            lemma_branch_order_wf(f2, block, at);
        },
    }
}

/// Whether the tables have room for what each of the next `remaining`
/// steps of the pass in `block` may insert.
pub open spec fn block_has_room(f: FunctionView, block: Block, at: int, remaining: nat) -> bool
    decreases remaining,
{
    remaining == 0 || (room(f, preopt_inserted(f, block, at)) && block_has_room(
        preopt_inst(f, block, at),
        block,
        at + preopt_inserted(f, block, at) + 1,
        (remaining - 1) as nat,
    ))
}

/// Whether the tables have room for what each step of the pass in the
/// next `remaining` blocks may insert.
pub open spec fn blocks_have_room(f: FunctionView, block: Block, remaining: nat) -> bool
    decreases remaining,
{
    remaining == 0 || (block_has_room(f, block, 0, f.len_of(block) as nat) && blocks_have_room(
        preopt_block(f, block, 0, f.len_of(block) as nat),
        Block((block.0 + 1) as usize),
        (remaining - 1) as nat,
    ))
}

/// The pass keeps a function in shape over the rest of a block, and every
/// run of what it leaves is a run of what it was given.
pub proof fn lemma_preopt_block_refines(
    f: FunctionView,
    block: Block,
    at: int,
    remaining: nat,
    env: spec_fn(Value) -> int,
)
    requires
        f.wf(),
        f.has_block(block),
        0 <= at,
        at + remaining == f.len_of(block),
        block_has_room(f, block, at, remaining),
    ensures
        preopt_block(f, block, at, remaining).wf(),
        preopt_block(f, block, at, remaining).extends(f),
        forall|b: int|
            0 <= b < f.blocks.len() && b != block.0 ==> #[trigger] preopt_block(
                f,
                block,
                at,
                remaining,
            ).blocks[b] == f.blocks[b],
        preopt_block(f, block, at, remaining).consistent(env) ==> f.consistent(env),
    decreases remaining,
{
    if remaining > 0 {
        let g1 = preopt_inst(f, block, at);
        let k = preopt_inserted(f, block, at);
        let g = preopt_block(f, block, at, remaining);
        lemma_preopt_inst_wf(f, block, at);
        lemma_preopt_block_refines(g1, block, at + k + 1, (remaining - 1) as nat, env);
        g.lemma_extends_transitive(g1, f);
        assert forall|b: int| 0 <= b < f.blocks.len() && b != block.0 implies #[trigger] g.blocks[b]
            == f.blocks[b] by {
            assert(g1.blocks[b] == f.blocks[b]);
        }
        if g.consistent(env) {
            lemma_preopt_inst_refines(f, block, at, env);
        }
    }
}

/// The pass keeps a function in shape over the rest of its blocks, and
/// every run of what it leaves is a run of what it was given.
pub proof fn lemma_preopt_blocks_refines(f: FunctionView, block: Block, remaining: nat, env: spec_fn(Value) -> int)
    requires
        f.wf(),
        f.blocks.len() <= usize::MAX,
        block.0 + remaining == f.blocks.len(),
        blocks_have_room(f, block, remaining),
    ensures
        preopt_blocks(f, block, remaining).wf(),
        preopt_blocks(f, block, remaining).extends(f),
        preopt_blocks(f, block, remaining).consistent(env) ==> f.consistent(env),
    decreases remaining,
{
    if remaining > 0 {
        let g1 = preopt_block(f, block, 0, f.len_of(block) as nat);
        let g = preopt_blocks(f, block, remaining);
        lemma_preopt_block_refines(f, block, 0, f.len_of(block) as nat, env);
        lemma_preopt_blocks_refines(g1, Block((block.0 + 1) as usize), (remaining - 1) as nat, env);
        g.lemma_extends_transitive(g1, f);
    } else {
        assert(f.extends(f));
    }
}

/// The pass leaves a well-formed function, in which every instruction has
/// kept its result, and every value its type and its definition.
pub proof fn lemma_run_preopt_wf(f: FunctionView)
    requires
        f.wf(),
        f.blocks.len() <= usize::MAX,
        blocks_have_room(f, Block(0), f.blocks.len()),
    ensures
        spec_run_preopt(f).wf(),
        spec_run_preopt(f).extends(f),
{
    lemma_preopt_blocks_refines(f, Block(0), f.blocks.len(), |v: Value| 0int);
}

/// Every run of the function that the pass leaves is a run of the
/// function that it was given.
///
/// An environment that gives every value of the optimized function a
/// value of its type, and the result of every instruction what the
/// instruction computes, does so for the given function: wherever an
/// instruction of the given function computes a value, its result holds
/// that value after the pass as well.
pub proof fn lemma_run_preopt_refines(f: FunctionView, env: spec_fn(Value) -> int)
    requires
        f.wf(),
        f.blocks.len() <= usize::MAX,
        blocks_have_room(f, Block(0), f.blocks.len()),
        spec_run_preopt(f).consistent(env),
    ensures
        f.consistent(env),
{
    lemma_preopt_blocks_refines(f, Block(0), f.blocks.len(), env);
}

} // verus!
