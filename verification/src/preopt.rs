//! The pass: every instruction of a function, in layout order, is
//! simplified, then either expanded as a division by a constant or
//! cleaned up as a branch.

use crate::branch::{
    branch_opt, branch_order, fused, spec_branch_opt, spec_branch_order, swapped, swaps,
};
use crate::cursor::FuncCursor;
use crate::divrem::{
    divrem_inserted, divrem_rewrite, do_divrem_transformation, expansion, get_div_info,
    lemma_expansion_shape, spec_get_div_info,
};
use crate::entities::{Block, Inst, Value};
use crate::flowgraph::{
    block_successors, edges, lemma_emit_keeps_successors, lemma_replace_keeps_successors,
    lemma_successors_same, ControlFlowGraph,
};
use crate::function::{Function, FunctionView};
use crate::refine::{block_has_room, blocks_have_room, room};
use crate::simplify::{simplified, simplify, spec_simplify};
use vstd::prelude::*;

verus! {

/// Tries to rewrite `inst`, at which `pos` stands, as a division or
/// remainder by a constant. Returns whether `inst` is one.
///
/// A division by zero, and a signed division by minus one, are
/// recognized and left as they are.
pub fn try_divrem_rewrite(func: &mut Function, pos: &mut FuncCursor, inst: Inst) -> (found: bool)
    requires
        old(func)@.wf(),
        old(pos).valid(old(func)@),
        old(pos).inst(old(func)@) == inst,
    ensures
        found == spec_get_div_info(old(func)@, inst) is Some,
        final(func)@ == spec_try_divrem_rewrite(old(func)@, old(pos).block, old(pos).at as int),
        final(pos).block == old(pos).block,
        final(pos).at == old(pos).at + spec_try_divrem_inserted(
            old(func)@,
            old(pos).block,
            old(pos).at as int,
        ),
        final(func)@.wf(),
        final(pos).valid(final(func)@),
        final(pos).inst(final(func)@) == inst,
        spec_get_div_info(old(func)@, inst) matches Some(info) && (info.divisor() == 0 || (
        info.is_signed() && info.divisor() == -1)) ==> final(func)@ == old(func)@,
{
    match get_div_info(inst, func) {
        Some(divrem_info) => {
            proof {
                crate::divrem::lemma_trapping_has_no_expansion(divrem_info, func@.values.len());
            }
            do_divrem_transformation(&divrem_info, func, pos, inst);
            true
        },
        None => false,
    }
}

/// The function after the instruction at position `at` of `block` has
/// been rewritten, where it is a division or remainder by a constant.
pub open spec fn spec_try_divrem_rewrite(f: FunctionView, block: Block, at: int) -> FunctionView {
    match spec_get_div_info(f, f.inst_at(block, at)) {
        Some(info) => divrem_rewrite(f, block.0 as int, at, f.inst_at(block, at), info),
        None => f,
    }
}

/// The number of instructions that [`spec_try_divrem_rewrite`] inserts.
pub open spec fn spec_try_divrem_inserted(f: FunctionView, block: Block, at: int) -> nat {
    match spec_get_div_info(f, f.inst_at(block, at)) {
        Some(info) => divrem_inserted(f, info),
        None => 0,
    }
}

/// The function after the pass has handled the instruction at position
/// `at` of `block`.
pub open spec fn preopt_inst(f: FunctionView, block: Block, at: int) -> FunctionView {
    let inst = f.inst_at(block, at);
    let f1 = spec_simplify(f, inst);
    match spec_get_div_info(f1, inst) {
        Some(_) => spec_try_divrem_rewrite(f1, block, at),
        None => spec_branch_order(spec_branch_opt(f1, inst), block, at),
    }
}

/// The number of instructions that the pass inserts before the
/// instruction at position `at` of `block`.
pub open spec fn preopt_inserted(f: FunctionView, block: Block, at: int) -> nat {
    spec_try_divrem_inserted(spec_simplify(f, f.inst_at(block, at)), block, at)
}

/// The function after the pass has handled `remaining` instructions of
/// `block`, the first of them at position `at`.
pub open spec fn preopt_block(f: FunctionView, block: Block, at: int, remaining: nat) -> FunctionView
    decreases remaining,
{
    if remaining == 0 {
        f
    } else {
        preopt_block(
            preopt_inst(f, block, at),
            block,
            at + preopt_inserted(f, block, at) + 1,
            (remaining - 1) as nat,
        )
    }
}

/// The function after the pass has handled `remaining` blocks, the first
/// of them `block`.
pub open spec fn preopt_blocks(f: FunctionView, block: Block, remaining: nat) -> FunctionView
    decreases remaining,
{
    if remaining == 0 {
        f
    } else {
        preopt_blocks(
            preopt_block(f, block, 0, f.len_of(block) as nat),
            Block((block.0 + 1) as usize),
            (remaining - 1) as nat,
        )
    }
}

/// The function after the pass.
pub open spec fn spec_run_preopt(f: FunctionView) -> FunctionView {
    preopt_blocks(f, Block(0), f.blocks.len())
}

/// Simplifying an instruction keeps the successors of every block.
pub proof fn lemma_simplify_keeps_successors(f: FunctionView, inst: Inst, b: int)
    requires
        f.wf(),
        f.has_inst(inst),
        0 <= b < f.blocks.len(),
    ensures
        block_successors(spec_simplify(f, inst), b) == block_successors(f, b),
{
    lemma_replace_keeps_successors(f, inst, simplified(f, f.data(inst)), b);
}

/// Fusing a comparison into a branch keeps the successors of every block.
pub proof fn lemma_branch_opt_keeps_successors(f: FunctionView, inst: Inst, b: int)
    requires
        f.wf(),
        f.has_inst(inst),
        0 <= b < f.blocks.len(),
    ensures
        block_successors(spec_branch_opt(f, inst), b) == block_successors(f, b),
{
    lemma_replace_keeps_successors(f, inst, fused(f, f.data(inst)), b);
}

/// Rewriting a division by a constant keeps the successors of every
/// block.
pub proof fn lemma_divrem_keeps_successors(f: FunctionView, block: Block, at: int, b: int)
    requires
        f.wf(),
        f.has_block(block),
        0 <= at < f.len_of(block),
        f.insts.len() + spec_try_divrem_inserted(f, block, at) <= usize::MAX,
        f.values.len() + spec_try_divrem_inserted(f, block, at) <= usize::MAX,
        0 <= b < f.blocks.len(),
    ensures
        block_successors(spec_try_divrem_rewrite(f, block, at), b) == block_successors(f, b),
{
    let inst = f.inst_at(block, at);
    f.lemma_inst(inst);
    match spec_get_div_info(f, inst) {
        Some(info) => {
            match expansion(info, f.values.len()) {
                Some(x) => {
                    lemma_expansion_shape(info, f.values.len());
                    let g = f.emit(block.0 as int, at, x.ops, info.ty());
                    assert(f.can_emit(block.0 as int, at, x.ops));
                    f.lemma_emit_wf(block.0 as int, at, x.ops, info.ty());
                    lemma_emit_keeps_successors(f, block.0 as int, at, x.ops, info.ty(), b);
                    lemma_replace_keeps_successors(g, inst, x.last, b);
                },
                None => {},
            }
        },
        None => {},
    }
}

/// Reordering the branches of one block keeps the successors of the
/// others.
pub proof fn lemma_branch_order_keeps_other_successors(f: FunctionView, block: Block, at: int, b: int)
    requires
        f.wf(),
        f.has_block(block),
        0 <= at < f.len_of(block),
        0 <= b < f.blocks.len(),
        b != block.0,
    ensures
        block_successors(spec_branch_order(f, block, at), b) == block_successors(f, b),
{
    if swaps(f, block, at) {
        let term = f.inst_at(block, at);
        let cond = f.inst_at(block, at - 1);
        let g = swapped(f, term, cond);
        assert forall|j: int| 0 <= j < f.blocks[b].len() implies f.data(
            #[trigger] f.blocks[b][j],
        ).branch_destination() == g.data(f.blocks[b][j]).branch_destination() by {
            let x = f.blocks[b][j];
            assert(x.0 < f.insts.len());
            assert(f.blocks[block.0 as int][at] == term);
            assert(f.blocks[block.0 as int][at - 1] == cond);
            assert(x != term);
            assert(x != cond);
        }
        lemma_successors_same(f, g, f.blocks[b]);
    }
}

/// Handling one instruction keeps every instruction with its result, and
/// every value with its type and definition.
pub proof fn lemma_preopt_inst_extends(f: FunctionView, block: Block, at: int)
    requires
        f.wf(),
        f.has_block(block),
        0 <= at < f.len_of(block),
    ensures
        preopt_inst(f, block, at).extends(f),
{
    let inst = f.inst_at(block, at);
    f.lemma_inst(inst);
    let f1 = spec_simplify(f, inst);
    let s0 = Seq::<crate::entities::Value>::empty();
    let o0 = Seq::<crate::instructions::InstructionData>::empty();
    f.lemma_changes_extend(inst, simplified(f, f.data(inst)), s0, 0, 0, o0, crate::entities::Type::I32);
    match spec_get_div_info(f1, inst) {
        Some(info) => {
            match expansion(info, f1.values.len()) {
                Some(x) => {
                    let g1 = f1.emit(block.0 as int, at, x.ops, info.ty());
                    f1.lemma_changes_extend(inst, x.last, s0, block.0 as int, at, x.ops, info.ty());
                    g1.lemma_changes_extend(inst, x.last, s0, 0, 0, o0, info.ty());
                    g1.replace(inst, x.last).lemma_extends_transitive(g1, f1);
                    g1.replace(inst, x.last).lemma_extends_transitive(f1, f);
                },
                None => {},
            }
        },
        None => {
            let f2 = spec_branch_opt(f1, inst);
            f1.lemma_changes_extend(inst, fused(f1, f1.data(inst)), s0, 0, 0, o0, crate::entities::Type::I32);
            f2.lemma_extends_transitive(f1, f);
            if swaps(f2, block, at) {
                let term = f2.inst_at(block, at);
                let cond = f2.inst_at(block, at - 1);
                f2.lemma_distinct_places(block, at, block, at - 1);
                let g = swapped(f2, term, cond);
                assert(g.results == f2.results);
                assert(g.values == f2.values);
                assert(g.insts.len() == f2.insts.len());
                assert(g.extends(f2));
                g.lemma_extends_transitive(f2, f);
            }
        },
    }
}

/// Two functions with the same blocks, and the same successors of each,
/// have the same edges.
pub proof fn lemma_same_successors_same_edges(f: FunctionView, g: FunctionView)
    requires
        f.blocks.len() == g.blocks.len(),
        forall|b: int| 0 <= b < f.blocks.len() ==> #[trigger] block_successors(g, b) == block_successors(f, b),
    ensures
        edges(g) == edges(f),
{
    assert forall|e: (Block, Block)| edges(g).contains(e) == edges(f).contains(e) by {
        if e.0.0 < f.blocks.len() {
            assert(block_successors(g, e.0.0 as int) == block_successors(f, e.0.0 as int));
        }
    }
    assert(edges(g) =~= edges(f));
}

/// A graph that is that of two functions shows that they have the same
/// edges.
pub proof fn lemma_valid_for_both(cfg: ControlFlowGraph, f: FunctionView, g: FunctionView)
    requires
        cfg.valid_for(f),
        cfg.valid_for(g),
    ensures
        edges(g) == edges(f),
{
    assert forall|b: int| 0 <= b < f.blocks.len() implies #[trigger] block_successors(g, b)
        == block_successors(f, b) by {
        assert(cfg@[b] == block_successors(f, b));
        assert(cfg@[b] == block_successors(g, b));
    }
    lemma_same_successors_same_edges(f, g);
}

/// The pre-legalization rewriting pass.
///
/// Every instruction of `func`, block by block in layout order, is first
/// simplified. A division or remainder by a constant is then expanded
/// into cheaper operations, which are placed before it and are not
/// visited themselves. Any other instruction has a comparison against
/// zero fused into it where it is a branch, and is swapped with the
/// conditional branch before it where it is a jump that keeps the branch
/// from falling through. `cfg` follows the function.
///
/// The function stays well-formed. Every instruction keeps its result,
/// and every value its type and definition; the edges of the
/// control-flow graph stay; and every run of the function that is left is
/// a run of the function that was given: wherever an instruction computed
/// a value, its result holds that value after the pass as well.
pub fn run_preopt(func: &mut Function, cfg: &mut ControlFlowGraph)
    requires
        old(func)@.wf(),
        old(cfg).valid_for(old(func)@),
    ensures
        final(func)@ == spec_run_preopt(old(func)@),
        final(func)@.wf(),
        final(cfg).valid_for(final(func)@),
        final(func)@.extends(old(func)@),
        edges(final(func)@) == edges(old(func)@),
        forall|env: spec_fn(Value) -> int|
            #[trigger] final(func)@.consistent(env) ==> old(func)@.consistent(env),
{
    let ghost f0 = func@;
    let nblocks = func.num_blocks();
    let mut b: usize = 0;
    while b < nblocks
        invariant
            func@.wf(),
            cfg.valid_for(func@),
            func@.blocks.len() == nblocks,
            func@.extends(f0),
            edges(func@) == edges(f0),
            b <= nblocks,
            preopt_blocks(func@, Block(b), (nblocks - b) as nat) == spec_run_preopt(f0),
            blocks_have_room(func@, Block(b), (nblocks - b) as nat) ==> blocks_have_room(
                f0,
                Block(0),
                nblocks as nat,
            ),
        decreases nblocks - b,
    {
        let block = Block(b);
        let mut pos = FuncCursor { block, at: 0 };
        let ghost fb = func@;
        let ghost mut remaining: nat = fb.len_of(block) as nat;
        while pos.at < func.block_len(block)
            invariant
                func@.wf(),
                cfg.valid_for(func@),
                func@.blocks.len() == nblocks,
                func@.extends(f0),
                edges(func@) == edges(f0),
                b < nblocks,
                block == Block(b),
                pos.block == block,
                pos.at <= func@.len_of(block),
                remaining == func@.len_of(block) - pos.at,
                preopt_block(func@, block, pos.at as int, remaining) == preopt_block(
                    fb,
                    block,
                    0,
                    fb.len_of(block) as nat,
                ),
                block_has_room(func@, block, pos.at as int, remaining) ==> block_has_room(
                    fb,
                    block,
                    0,
                    fb.len_of(block) as nat,
                ),
            decreases remaining,
        {
            let ghost f = func@;
            let ghost at = pos.at as int;
            let inst = pos.current_inst(func);
            proof {
                f.lemma_inst(inst);
            }
            simplify(func, inst);
            let ghost f1 = func@;
            proof {
                assert forall|k: int| 0 <= k < f.blocks.len() implies #[trigger] cfg@[k]
                    == block_successors(f1, k) by {
                    lemma_simplify_keeps_successors(f, inst, k);
                }
                lemma_valid_for_both(*cfg, f, f1);
            }
            if !try_divrem_rewrite(func, &mut pos, inst) {
                branch_opt(func, inst);
                let ghost f2 = func@;
                proof {
                    assert forall|k: int| 0 <= k < f.blocks.len() implies #[trigger] cfg@[k]
                        == block_successors(f2, k) by {
                        lemma_branch_opt_keeps_successors(f1, inst, k);
                    }
                }
                let ghost cfg2 = *cfg;
                branch_order(func, cfg, &pos, inst);
                proof {
                    assert forall|k: int| 0 <= k < f.blocks.len() implies #[trigger] cfg@[k]
                        == block_successors(func@, k) by {
                        if k != b {
                            lemma_branch_order_keeps_other_successors(f2, block, at, k);
                        }
                    }
                    lemma_valid_for_both(cfg2, f1, f2);
                    crate::laws::lemma_branch_order_keeps_edges(f2, block, at);
                }
            } else {
                proof {
                    func.lemma_sizes();
                    assert forall|k: int| 0 <= k < f.blocks.len() implies #[trigger] cfg@[k]
                        == block_successors(func@, k) by {
                        lemma_divrem_keeps_successors(f1, block, at, k);
                    }
                    lemma_valid_for_both(*cfg, f1, func@);
                }
            }
            proof {
                func.lemma_sizes();
                lemma_preopt_inst_extends(f, block, at);
                func@.lemma_extends_transitive(f, f0);
                crate::refine::lemma_preopt_inst_lengths(f, block, at);
                assert(room(f, preopt_inserted(f, block, at)));
            }
            pos.at = pos.at + 1;
            proof {
                remaining = (remaining - 1) as nat;
            }
        }
        b = b + 1;
    }
    proof {
        assert forall|env: spec_fn(Value) -> int| #[trigger] func@.consistent(env) implies f0.consistent(
            env,
        ) by {
            crate::refine::lemma_run_preopt_refines(f0, env);
        }
    }
}

} // verus!
