//! What holds of the pass as a whole: the rewrites keep what is computed
//! and where control goes, and they keep the function in shape.

use crate::branch::{fused, spec_branch_opt, spec_branch_order, spec_zero_test_of, swaps};
use crate::entities::{Block, Inst, IntCC, Type, Value};
use crate::flowgraph::{
    block_successors, edges, lemma_successors_concat, lemma_successors_same, successors_of,
};
use crate::function::{FunctionView, ValueDef};
use crate::instructions::{InstructionData, Opcode};
use crate::divrem::{divides_by_immediate, expansion, lemma_expansion_shape, spec_get_div_info};
use crate::preopt::{
    lemma_branch_order_keeps_other_successors, preopt_block, preopt_blocks, preopt_inserted,
    preopt_inst, spec_run_preopt, spec_try_divrem_inserted, spec_try_divrem_rewrite,
};
use crate::semantics::{
    eval_binary, eval_binary_imm, holds, operands_agree, shift_count, takes_shift_count, wrap,
};
use crate::simplify::{
    simplified, spec_bint_of, spec_fold_right, spec_iconst_of, spec_simplify, spec_wrapping_neg,
};
use vstd::prelude::*;

verus! {

/// A value that an `iconst` defines holds its immediate, reduced to the
/// type of the value.
pub proof fn lemma_iconst_value(f: FunctionView, env: spec_fn(Value) -> int, v: Value)
    requires
        f.wf(),
        f.has_value(v),
        spec_iconst_of(f, v) is Some,
        f.def(v) matches ValueDef::Result(def_inst, _) ==> f.respects(env, def_inst.0 as int),
    ensures
        env(v) == wrap(f.ty(v), spec_iconst_of(f, v).unwrap() as int),
{
    f.lemma_value(v);
}

/// A value that a `bint` defines is nonzero exactly when the operand of
/// the `bint` is.
pub proof fn lemma_bint_value(f: FunctionView, env: spec_fn(Value) -> int, v: Value)
    requires
        f.wf(),
        f.has_value(v),
        spec_bint_of(f, v) is Some,
        f.def(v) matches ValueDef::Result(def_inst, _) ==> f.respects(env, def_inst.0 as int),
    ensures
        (env(v) != 0) == (env(spec_bint_of(f, v).unwrap()) != 0),
{
    f.lemma_value(v);
}

/// A shift count means the same whether it is reduced to its own integer
/// type or to the type of the value that is shifted.
pub proof fn lemma_shift_count_any(tl: Type, tr: Type, imm: int)
    requires
        tr.is_int(),
    ensures
        shift_count(tl, wrap(tr, imm)) == shift_count(tl, wrap(tl, imm)),
{
    let b = tl.bits() as int;
    assert(shift_count(tl, wrap(tr, imm)) == imm % b) by {
        lemma_mod_of_mod(imm, tr.modulus(), b);
    }
    assert(shift_count(tl, wrap(tl, imm)) == imm % b) by {
        lemma_mod_of_mod(imm, tl.modulus(), b);
    }
}

/// Reducing modulo a multiple of `b` and then modulo `b` is reducing
/// modulo `b`.
pub proof fn lemma_mod_of_mod(x: int, m: int, b: int)
    requires
        b > 0,
        m > 0,
        m % b == 0,
    ensures
        (x % m) % b == x % b,
{
    let c = m / b;
    vstd::arithmetic::div_mod::lemma_fundamental_div_mod(m, b);
    assert(c > 0) by (nonlinear_arith)
        requires
            m == b * c,
            m > 0,
            b > 0,
    ;
    vstd::arithmetic::div_mod::lemma_mod_mod(x, b, c);
}

/// Adding the negated constant is subtracting the constant.
pub proof fn lemma_add_negated(ty: Type, a: int, imm: i64)
    ensures
        eval_binary(Opcode::Iadd, ty, a, wrap(ty, spec_wrapping_neg(imm) as int)) == eval_binary(
            Opcode::Isub,
            ty,
            a,
            wrap(ty, imm as int),
        ),
{
    let m = ty.modulus();
    let c = wrap(ty, imm as int);
    let nc = wrap(ty, spec_wrapping_neg(imm) as int);
    // the negated constant is congruent to minus the constant
    assert((nc + c) % m == 0) by {
        match ty {
            Type::B1 => {},
            Type::I8 => {},
            Type::I16 => {},
            Type::I32 => {},
            Type::I64 => {},
        }
    }
    assert((a + nc) % m == (a - c) % m) by {
        let k = (nc + c) / m;
        vstd::arithmetic::div_mod::lemma_fundamental_div_mod(nc + c, m);
        assert(k * m == m * k) by (nonlinear_arith);
        assert(a + nc == (a - c) + k * m);
        crate::soundness::lemma_mod_add_multiple(a - c, k, m);
    }
}

/// A two-operand operation with a constant right operand computes what
/// its immediate form computes.
pub proof fn lemma_fold_right_equivalent(opcode: Opcode, tl: Type, tr: Type, a: int, imm: i64)
    requires
        operands_agree(opcode, tl, tr),
        spec_fold_right(opcode, imm) is Some,
    ensures
        eval_binary_imm(
            spec_fold_right(opcode, imm).unwrap().0,
            tl,
            a,
            spec_fold_right(opcode, imm).unwrap().1 as int,
        ) == eval_binary(opcode, tl, a, wrap(tr, imm as int)),
{
    if takes_shift_count(opcode) {
        lemma_shift_count_any(tl, tr, imm as int);
    } else if opcode == Opcode::Isub {
        lemma_add_negated(tl, a, imm);
    } else {
    }
}

/// Whether `env` gives every value of `f` a value of its type, and the
/// result of every instruction but `inst` what the instruction computes.
pub open spec fn respects_others(f: FunctionView, env: spec_fn(Value) -> int, inst: Inst) -> bool {
    &&& f.in_range(env)
    &&& forall|j: int| 0 <= j < f.insts.len() && j != inst.0 ==> #[trigger] f.respects(env, j)
}

/// What a value that a constant or a widened boolean defines holds, when
/// it is an operand of an instruction that is neither.
pub proof fn lemma_operand_value(f: FunctionView, env: spec_fn(Value) -> int, inst: Inst, v: Value)
    requires
        f.wf(),
        f.has_inst(inst),
        f.has_value(v),
        respects_others(f, env, inst),
        !(f.data(inst) is UnaryImm),
        !(f.data(inst) is Unary),
    ensures
        spec_iconst_of(f, v) is Some ==> env(v) == wrap(f.ty(v), spec_iconst_of(f, v).unwrap() as int),
        spec_bint_of(f, v) is Some ==> (env(v) != 0) == (env(spec_bint_of(f, v).unwrap()) != 0),
{
    f.lemma_value(v);
    match f.def(v) {
        ValueDef::Result(def_inst, _) => {
            if spec_iconst_of(f, v) is Some || spec_bint_of(f, v) is Some {
                assert(def_inst != inst);
                assert(f.respects(env, def_inst.0 as int));
            }
        },
        _ => {},
    }
    if spec_iconst_of(f, v) is Some {
        lemma_iconst_value(f, env, v);
    }
    if spec_bint_of(f, v) is Some {
        lemma_bint_value(f, env, v);
    }
}

/// The simplified payload of an instruction computes what the payload
/// computes, where that computes a value, and is taken exactly when the
/// payload is, in every environment that respects the other instructions.
pub proof fn lemma_simplified_value(f: FunctionView, inst: Inst, env: spec_fn(Value) -> int, rt: Type)
    requires
        f.wf(),
        f.has_inst(inst),
        respects_others(f, env, inst),
    ensures
        f.eval(f.data(inst), rt, env) is Some ==> f.eval(simplified(f, f.data(inst)), rt, env) == f.eval(
            f.data(inst),
            rt,
            env,
        ),
        f.taken(simplified(f, f.data(inst)), env) == f.taken(f.data(inst), env),
{
    let data = f.data(inst);
    f.lemma_inst(inst);
    match data {
        InstructionData::Binary { opcode, lhs, rhs } => {
            lemma_operand_value(f, env, inst, lhs);
            lemma_operand_value(f, env, inst, rhs);
            match spec_iconst_of(f, rhs) {
                Some(imm) => {
                    if spec_fold_right(opcode, imm) is Some && operands_agree(opcode, f.ty(lhs), f.ty(rhs)) {
                        lemma_fold_right_equivalent(opcode, f.ty(lhs), f.ty(rhs), env(lhs), imm);
                    }
                },
                None => {},
            }
        },
        InstructionData::IntCompare { opcode, cond, lhs, rhs } => {
            lemma_operand_value(f, env, inst, rhs);
        },
        InstructionData::CondTrap { opcode, arg } => {
            lemma_operand_value(f, env, inst, arg);
        },
        InstructionData::Branch { opcode, arg, destination } => {
            lemma_operand_value(f, env, inst, arg);
        },
        InstructionData::Ternary { opcode, ctrl, lhs, rhs } => {
            lemma_operand_value(f, env, inst, ctrl);
        },
        _ => {},
    }
}

/// What an instruction computes depends on the function only through the
/// types of its operands.
pub proof fn lemma_eval_same_types(
    f: FunctionView,
    g: FunctionView,
    data: InstructionData,
    rt: Type,
    env: spec_fn(Value) -> int,
)
    requires
        f.has_operands(data),
        f.values.len() <= g.values.len(),
        forall|v: int| 0 <= v < f.values.len() ==> #[trigger] g.values[v] == f.values[v],
    ensures
        g.eval(data, rt, env) == f.eval(data, rt, env),
        g.taken(data, env) == f.taken(data, env),
{
    assert forall|v: Value| f.has_value(v) implies g.ty(v) == f.ty(v) by {
        assert(g.values[v.0 as int] == f.values[v.0 as int]);
    }
}

/// Simplifying an instruction keeps what it computes, and whether it is
/// taken.
///
/// In every environment that a run of the function can produce, the
/// simplified instruction computes what it computed before, where it
/// computed a value; and a branch or conditional trap is taken exactly
/// when it was taken before.
pub proof fn lemma_simplify_equivalent(f: FunctionView, inst: Inst, env: spec_fn(Value) -> int, rt: Type)
    requires
        f.wf(),
        f.consistent(env),
        f.has_inst(inst),
    ensures
        f.eval(f.data(inst), rt, env) is Some ==> spec_simplify(f, inst).eval(
            spec_simplify(f, inst).data(inst),
            rt,
            env,
        ) == f.eval(f.data(inst), rt, env),
        spec_simplify(f, inst).taken(spec_simplify(f, inst).data(inst), env) == f.taken(
            f.data(inst),
            env,
        ),
{
    let g = spec_simplify(f, inst);
    let d1 = simplified(f, f.data(inst));
    f.lemma_inst(inst);
    crate::refine::lemma_simplify_wf(f, inst);
    g.lemma_inst(inst);
    lemma_simplified_value(f, inst, env, rt);
    lemma_eval_same_types(g, f, d1, rt, env);
}

/// The opposite condition holds exactly when the condition does not.
pub proof fn lemma_inverse_holds(cond: IntCC, ty: Type, a: int, b: int)
    ensures
        holds(cond.inverse(), ty, a, b) == !holds(cond, ty, a, b),
{
}

/// Where control goes from a conditional branch that is followed by a
/// jump, and with which block arguments: to the destination of the branch
/// where it is taken, and else to that of the jump.
pub open spec fn pair_exit(f: FunctionView, cond: Inst, term: Inst, env: spec_fn(Value) -> int) -> (
    Option<Block>,
    Seq<Value>,
) {
    if f.taken(f.data(cond), env) == Some(true) {
        (f.data(cond).branch_destination(), f.args_of(cond))
    } else {
        (f.data(term).branch_destination(), f.args_of(term))
    }
}

/// Reordering the branches at the end of a block keeps where control
/// goes, and the block arguments that go with it.
///
/// After a swap the jump leads where the branch led and passes the block
/// arguments of the branch, and the branch leads where the jump led and
/// passes the block arguments of the jump; the branch is taken exactly
/// when it was not taken before.
pub proof fn lemma_branch_order_keeps_exit(f: FunctionView, block: Block, at: int, env: spec_fn(Value) -> int)
    requires
        f.wf(),
        f.has_block(block),
        0 <= at < f.len_of(block),
        swaps(f, block, at),
    ensures
        ({
            let g = spec_branch_order(f, block, at);
            let term = f.inst_at(block, at);
            let cond = f.inst_at(block, at - 1);
            &&& pair_exit(g, cond, term, env) == pair_exit(f, cond, term, env)
            &&& g.data(term).branch_destination() == f.data(cond).branch_destination()
            &&& g.args_of(term) == f.args_of(cond)
            &&& g.data(cond).branch_destination() == f.data(term).branch_destination()
            &&& g.args_of(cond) == f.args_of(term)
            &&& g.taken(g.data(cond), env) == Some(!f.taken(f.data(cond), env).unwrap())
            &&& g.data(term).branch_destination() == f.next_block(block)
        }),
{
    let g = spec_branch_order(f, block, at);
    let term = f.inst_at(block, at);
    let cond = f.inst_at(block, at - 1);
    f.lemma_distinct_places(block, at, block, at - 1);
    f.lemma_inst(term);
    f.lemma_inst(cond);
    assert(g.values == f.values);
    match f.data(cond) {
        InstructionData::BranchIcmp { cond: cc, lhs, rhs, .. } => {
            lemma_inverse_holds(cc, f.ty(lhs), env(lhs), env(rhs));
        },
        _ => {},
    }
}

/// Reordering the branches at the end of a block keeps the edges of the
/// control-flow graph.
pub proof fn lemma_branch_order_keeps_edges(f: FunctionView, block: Block, at: int)
    requires
        f.wf(),
        f.has_block(block),
        0 <= at < f.len_of(block),
    ensures
        edges(spec_branch_order(f, block, at)) == edges(f),
        spec_branch_order(f, block, at).blocks == f.blocks,
{
    let g = spec_branch_order(f, block, at);
    if swaps(f, block, at) {
        let b = block.0 as int;
        let term = f.inst_at(block, at);
        let cond = f.inst_at(block, at - 1);
        let row = f.blocks[b];
        assert(row[at] == term);
        assert(row[at - 1] == cond);
        f.lemma_inst(term);
        f.lemma_inst(cond);
        // the successors of the block, part by part
        let pre = row.subrange(0, at - 1);
        let mid = seq![cond, term];
        let post = row.subrange(at + 1, row.len() as int);
        assert(row =~= pre + mid + post);
        lemma_successors_concat(f, pre + mid, post);
        lemma_successors_concat(f, pre, mid);
        lemma_successors_concat(g, pre + mid, post);
        lemma_successors_concat(g, pre, mid);
        assert forall|j: int| 0 <= j < pre.len() implies f.data(
            #[trigger] pre[j],
        ).branch_destination() == g.data(pre[j]).branch_destination() by {
            assert(pre[j] == row[j]);
            assert(row[j].0 < f.insts.len());
            assert(row[j] != term && row[j] != cond);
        }
        lemma_successors_same(f, g, pre);
        assert forall|j: int| 0 <= j < post.len() implies f.data(
            #[trigger] post[j],
        ).branch_destination() == g.data(post[j]).branch_destination() by {
            assert(post[j] == row[at + 1 + j]);
            assert(row[at + 1 + j].0 < f.insts.len());
            assert(row[at + 1 + j] != term && row[at + 1 + j] != cond);
        }
        lemma_successors_same(f, g, post);
        let td = f.data(term).branch_destination().unwrap();
        let cd = f.data(cond).branch_destination().unwrap();
        assert(term != cond);
        lemma_pair_successors(f, cond, term);
        lemma_pair_successors(g, cond, term);
        assert(successors_of(f, mid) == seq![cd, td]);
        assert(successors_of(g, mid) == seq![td, cd]);
        let sf = block_successors(f, b);
        let sg = block_successors(g, b);
        let sp = successors_of(f, pre);
        let so = successors_of(f, post);
        assert(sf == sp + seq![cd, td] + so);
        assert(sg == sp + seq![td, cd] + so);
        assert forall|x: Block| sf.contains(x) == sg.contains(x) by {
            lemma_swapped_contains(sp, so, cd, td, x);
        }
        assert forall|e: (Block, Block)| edges(g).contains(e) == edges(f).contains(e) by {
            if e.0.0 < f.blocks.len() {
                if e.0.0 != block.0 {
                    lemma_branch_order_keeps_other_successors(f, block, at, e.0.0 as int);
                }
            }
        }
        assert(edges(g) =~= edges(f));
    }
}

/// The successors of a branch followed by a jump.
pub proof fn lemma_pair_successors(f: FunctionView, cond: Inst, term: Inst)
    requires
        f.data(cond).branch_destination() is Some,
        f.data(term).branch_destination() is Some,
    ensures
        successors_of(f, seq![cond, term]) == seq![
            f.data(cond).branch_destination().unwrap(),
            f.data(term).branch_destination().unwrap(),
        ],
{
    let s = seq![cond, term];
    assert(s.drop_last() =~= seq![cond]);
    assert(s.last() == term);
    assert(seq![cond].drop_last() =~= Seq::<Inst>::empty());
    assert(seq![cond].last() == cond);
    assert(successors_of(f, Seq::<Inst>::empty()) =~= Seq::<Block>::empty());
    assert(successors_of(f, seq![cond]) =~= seq![f.data(cond).branch_destination().unwrap()]);
    assert(successors_of(f, s) =~= seq![
        f.data(cond).branch_destination().unwrap(),
        f.data(term).branch_destination().unwrap(),
    ]);
}

/// Swapping two neighbours of a sequence keeps what it holds.
pub proof fn lemma_swapped_contains(pre: Seq<Block>, post: Seq<Block>, a: Block, b: Block, x: Block)
    ensures
        (pre + seq![a, b] + post).contains(x) == (pre + seq![b, a] + post).contains(x),
{
    let s = pre + seq![a, b] + post;
    let t = pre + seq![b, a] + post;
    let n = pre.len() as int;
    if s.contains(x) {
        let i = choose|i: int| 0 <= i < s.len() && s[i] == x;
        let j = if i == n {
            n + 1
        } else if i == n + 1 {
            n
        } else {
            i
        };
        assert(t[j] == x);
    }
    if t.contains(x) {
        let i = choose|i: int| 0 <= i < t.len() && t[i] == x;
        let j = if i == n {
            n + 1
        } else if i == n + 1 {
            n
        } else {
            i
        };
        assert(s[j] == x);
    }
}

/// Reordering the branches at the end of a block a second time changes
/// nothing: after a swap the jump leads to the next block.
pub proof fn lemma_branch_order_idempotent(f: FunctionView, block: Block, at: int)
    requires
        f.wf(),
        f.has_block(block),
        0 <= at < f.len_of(block),
    ensures
        spec_branch_order(spec_branch_order(f, block, at), block, at) == spec_branch_order(f, block, at),
{
    if swaps(f, block, at) {
        let g = spec_branch_order(f, block, at);
        let term = f.inst_at(block, at);
        let cond = f.inst_at(block, at - 1);
        assert(f.blocks[block.0 as int][at] == term);
        assert(f.blocks[block.0 as int][at - 1] == cond);
        assert(term != cond);
        f.lemma_inst(term);
        f.lemma_inst(cond);
        assert(g.blocks == f.blocks);
        assert(g.data(term) == (InstructionData::Jump {
            opcode: Opcode::Jump,
            destination: f.data(cond).branch_destination().unwrap(),
        }));
        assert(!swaps(g, block, at));
    }
}

/// A value that a comparison against an immediate zero defines is nonzero
/// exactly when the condition holds of the compared value and zero.
pub proof fn lemma_zero_test_value(f: FunctionView, env: spec_fn(Value) -> int, v: Value)
    requires
        f.wf(),
        f.consistent(env),
        f.has_value(v),
        spec_zero_test_of(f, v) is Some,
    ensures
        (env(v) != 0) == holds(
            spec_zero_test_of(f, v).unwrap().0,
            f.ty(spec_zero_test_of(f, v).unwrap().1),
            env(spec_zero_test_of(f, v).unwrap().1),
            0,
        ),
{
    f.lemma_value(v);
    match f.def(v) {
        ValueDef::Result(def_inst, _) => {
            f.lemma_respects(env, def_inst);
        },
        _ => {},
    }
}

/// What fusing a comparison into a branch does to the branch: it goes on
/// leading to the same block with the same block arguments, it tests the
/// compared value, and it is taken exactly when the branch on the result
/// of the comparison is not.
pub proof fn lemma_branch_opt_sense(f: FunctionView, inst: Inst, env: spec_fn(Value) -> int)
    requires
        f.wf(),
        f.consistent(env),
        f.has_inst(inst),
        fused(f, f.data(inst)) != f.data(inst),
    ensures
        ({
            let g = spec_branch_opt(f, inst);
            &&& g.data(inst).branch_destination() == f.data(inst).branch_destination()
            &&& g.args_of(inst) == f.args_of(inst)
            &&& f.taken(f.data(inst), env) is Some
            &&& g.taken(g.data(inst), env) == Some(!f.taken(f.data(inst), env).unwrap())
        }),
{
    f.lemma_inst(inst);
    match f.data(inst) {
        InstructionData::Branch { opcode, arg, destination } => {
            lemma_zero_test_value(f, env, arg);
        },
        _ => {},
    }
}

/// Simplifying an instruction changes neither which values constants
/// define nor which values widened booleans define.
pub proof fn lemma_simplify_keeps_defs(f: FunctionView, inst: Inst, v: Value)
    requires
        f.wf(),
        f.has_inst(inst),
        f.has_value(v),
    ensures
        spec_bint_of(spec_simplify(f, inst), v) == spec_bint_of(f, v),
        spec_iconst_of(spec_simplify(f, inst), v) == spec_iconst_of(f, v),
        spec_bint_of(f, v) matches Some(b) ==> f.has_value(b),
{
    f.lemma_value(v);
    f.lemma_inst(inst);
    match f.def(v) {
        ValueDef::Result(di, _) => {
            f.lemma_inst(di);
        },
        _ => {},
    }
}

/// Simplifying an instruction a second time changes nothing, where the
/// operand of a `bint` is never itself the result of a `bint`.
pub proof fn lemma_simplify_idempotent(f: FunctionView, inst: Inst)
    requires
        f.wf(),
        f.has_inst(inst),
        forall|v: Value| #[trigger] spec_bint_of(f, v) matches Some(b) ==> spec_bint_of(f, b) is None,
    ensures
        spec_simplify(spec_simplify(f, inst), inst) == spec_simplify(f, inst),
{
    let g = spec_simplify(f, inst);
    let d1 = simplified(f, f.data(inst));
    f.lemma_inst(inst);
    assert(g.data(inst) == d1);
    assert(simplified(g, d1) == d1) by {
        match f.data(inst) {
            InstructionData::CondTrap { opcode, arg } => {
                lemma_simplify_keeps_defs(f, inst, arg);
                if spec_bint_of(f, arg) is Some {
                    lemma_simplify_keeps_defs(f, inst, spec_bint_of(f, arg).unwrap());
                }
            },
            InstructionData::Branch { opcode, arg, destination } => {
                lemma_simplify_keeps_defs(f, inst, arg);
                if spec_bint_of(f, arg) is Some {
                    lemma_simplify_keeps_defs(f, inst, spec_bint_of(f, arg).unwrap());
                }
            },
            InstructionData::Ternary { opcode, ctrl, lhs, rhs } => {
                lemma_simplify_keeps_defs(f, inst, ctrl);
                if spec_bint_of(f, ctrl) is Some {
                    lemma_simplify_keeps_defs(f, inst, spec_bint_of(f, ctrl).unwrap());
                }
            },
            InstructionData::Binary { opcode, lhs, rhs } => {
                lemma_simplify_keeps_defs(f, inst, lhs);
                lemma_simplify_keeps_defs(f, inst, rhs);
            },
            InstructionData::IntCompare { opcode, cond, lhs, rhs } => {
                lemma_simplify_keeps_defs(f, inst, rhs);
            },
            _ => {},
        }
    }
    assert(g.replace(inst, d1).insts =~= g.insts);
}

/// Fusing a comparison into a branch changes not which values
/// comparisons against zero define.
pub proof fn lemma_branch_opt_keeps_defs(f: FunctionView, inst: Inst, v: Value)
    requires
        f.wf(),
        f.has_inst(inst),
        f.has_value(v),
    ensures
        spec_zero_test_of(spec_branch_opt(f, inst), v) == spec_zero_test_of(f, v),
        spec_zero_test_of(f, v) matches Some(t) ==> f.has_value(t.1),
{
    f.lemma_value(v);
    f.lemma_inst(inst);
    match f.def(v) {
        ValueDef::Result(di, _) => {
            f.lemma_inst(di);
        },
        _ => {},
    }
}

/// Fusing a comparison into a branch a second time changes nothing, where
/// a value that is compared against zero is never itself the result of
/// such a comparison.
pub proof fn lemma_branch_opt_idempotent(f: FunctionView, inst: Inst)
    requires
        f.wf(),
        f.has_inst(inst),
        forall|v: Value| #[trigger] spec_zero_test_of(f, v) matches Some(t) ==> spec_zero_test_of(f, t.1) is None,
    ensures
        spec_branch_opt(spec_branch_opt(f, inst), inst) == spec_branch_opt(f, inst),
{
    let g = spec_branch_opt(f, inst);
    let d1 = fused(f, f.data(inst));
    f.lemma_inst(inst);
    assert(g.data(inst) == d1);
    assert(fused(g, d1) == d1) by {
        match f.data(inst) {
            InstructionData::Branch { opcode, arg, destination } => {
                lemma_branch_opt_keeps_defs(f, inst, arg);
                if spec_zero_test_of(f, arg) is Some {
                    lemma_branch_opt_keeps_defs(f, inst, spec_zero_test_of(f, arg).unwrap().1);
                }
            },
            _ => {},
        }
    }
    assert(g.replace(inst, d1).insts =~= g.insts);
}

/// A division or remainder that has been rewritten is none any more, and
/// none of the instructions that the rewrite added is one: trying the
/// rewrite again at the same instruction changes nothing.
pub proof fn lemma_divrem_rewrite_idempotent(f: FunctionView, block: Block, at: int)
    requires
        f.wf(),
        f.has_block(block),
        0 <= at < f.len_of(block),
        f.insts.len() + spec_try_divrem_inserted(f, block, at) <= usize::MAX,
        f.values.len() + spec_try_divrem_inserted(f, block, at) <= usize::MAX,
    ensures
        ({
            let g = spec_try_divrem_rewrite(f, block, at);
            let k = spec_try_divrem_inserted(f, block, at);
            &&& g.inst_at(block, at + k) == f.inst_at(block, at)
            &&& spec_try_divrem_rewrite(g, block, at + k) == g
            &&& forall|i: int| f.insts.len() <= i < g.insts.len() ==> !divides_by_immediate(#[trigger] g.insts[i])
        }),
{
    let inst = f.inst_at(block, at);
    let g = spec_try_divrem_rewrite(f, block, at);
    f.lemma_inst(inst);
    match spec_get_div_info(f, inst) {
        Some(info) => {
            match expansion(info, f.values.len()) {
                Some(x) => {
                    lemma_expansion_shape(info, f.values.len());
                    assert(g.data(inst) == x.last);
                    assert(g.blocks[block.0 as int][at + x.ops.len()] == inst);
                    assert forall|i: int| f.insts.len() <= i < g.insts.len() implies !divides_by_immediate(
                        #[trigger] g.insts[i],
                    ) by {
                        assert(g.insts[i] == x.ops[i - f.insts.len()]);
                    }
                },
                None => {},
            }
        },
        None => {},
    }
}

/// Whether the pass leaves every instruction of `f` as it is.
pub open spec fn at_rest(f: FunctionView) -> bool {
    forall|block: Block, at: int|
        f.has_block(block) && 0 <= at < f.len_of(block) ==> #[trigger] preopt_inst(f, block, at) == f
}

/// A step of the pass that changes nothing inserts nothing.
pub proof fn lemma_step_at_rest(f: FunctionView, block: Block, at: int)
    requires
        f.wf(),
        f.has_block(block),
        0 <= at < f.len_of(block),
        preopt_inst(f, block, at) == f,
    ensures
        preopt_inserted(f, block, at) == 0,
{
    let inst = f.inst_at(block, at);
    f.lemma_inst(inst);
    let f1 = spec_simplify(f, inst);
    match spec_get_div_info(f1, inst) {
        Some(info) => {
            match expansion(info, f1.values.len()) {
                Some(x) => {
                    let g = preopt_inst(f, block, at);
                    assert(g.insts.len() == f.insts.len() + x.ops.len());
                },
                None => {},
            }
        },
        None => {},
    }
}

/// The pass changes nothing in a block where it leaves every instruction
/// as it is.
pub proof fn lemma_block_at_rest(f: FunctionView, block: Block, at: int, remaining: nat)
    requires
        f.wf(),
        at_rest(f),
        f.has_block(block),
        0 <= at,
        at + remaining == f.len_of(block),
    ensures
        preopt_block(f, block, at, remaining) == f,
    decreases remaining,
{
    if remaining > 0 {
        assert(preopt_inst(f, block, at) == f);
        lemma_step_at_rest(f, block, at);
        lemma_block_at_rest(f, block, at + 1, (remaining - 1) as nat);
    }
}

/// The pass changes nothing in the blocks from `block` on where it leaves
/// every instruction as it is.
pub proof fn lemma_blocks_at_rest(f: FunctionView, block: Block, remaining: nat)
    requires
        f.wf(),
        at_rest(f),
        f.blocks.len() <= usize::MAX,
        block.0 + remaining == f.blocks.len(),
    ensures
        preopt_blocks(f, block, remaining) == f,
    decreases remaining,
{
    if remaining > 0 {
        lemma_block_at_rest(f, block, 0, f.len_of(block) as nat);
        lemma_blocks_at_rest(f, Block((block.0 + 1) as usize), (remaining - 1) as nat);
    }
}

/// A run of the pass changes nothing where no step of it does: a
/// function at rest is a fixed point of the pass.
pub proof fn lemma_run_preopt_fixed_point(f: FunctionView)
    requires
        f.wf(),
        f.blocks.len() <= usize::MAX,
        at_rest(f),
    ensures
        spec_run_preopt(f) == f,
{
    lemma_blocks_at_rest(f, Block(0), f.blocks.len());
}

/// Running the pass a second time changes nothing, where the first run
/// leaves every instruction so that no step of the pass changes it.
pub proof fn lemma_run_preopt_idempotent(f: FunctionView)
    requires
        f.wf(),
        f.blocks.len() <= usize::MAX,
        crate::refine::blocks_have_room(f, Block(0), f.blocks.len()),
        at_rest(spec_run_preopt(f)),
    ensures
        spec_run_preopt(spec_run_preopt(f)) == spec_run_preopt(f),
{
    crate::refine::lemma_run_preopt_wf(f);
    lemma_run_preopt_fixed_point(spec_run_preopt(f));
}

} // verus!
