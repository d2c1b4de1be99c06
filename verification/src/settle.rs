//! What a rewritten division leaves for a second run of the pass:
//! nothing, unless the dividend is a constant.

use crate::branch::{fused, spec_branch_opt, swaps};
use crate::divrem::{
    apply_expansion, divides_by_immediate, expansion, expansion_ok, fresh, lemma_expansion_length,
    lemma_expansion_shape, lemma_expansion_signed, lemma_expansion_unsigned, signed_expansion,
    signed_magic_expansion, signed_magic_ops, signed_pow2_expansion, spec_get_div_info,
    spec_signed_power_of_two, unsigned_expansion, unsigned_magic_expansion, unsigned_magic_ops,
    with_remainder, DivRemByConstInfo, Expansion,
};
use crate::entities::{Block, Inst, Value};
use crate::function::{FunctionView, ValueDef};
use crate::instructions::{InstructionData, Opcode};
use crate::preopt::{preopt_inst, spec_try_divrem_inserted, spec_try_divrem_rewrite};
use crate::simplify::{simplified, spec_iconst_of, spec_simplify};
use vstd::prelude::*;

verus! {

/// Whether simplifying finds nothing in the instruction `data` of an
/// expansion for the dividend `n`: it is no comparison and no user of a
/// condition, and where it has two operands, the right one is the
/// multiplier only for a high multiplication, the left one never, and the
/// dividend is never the first result of the expansion.
pub open spec fn folds_nothing(data: InstructionData, base: nat, n: Value, first_is_constant: bool) -> bool {
    match data {
        InstructionData::Binary { opcode, lhs, rhs } => {
            &&& rhs == fresh(base, 0) && first_is_constant ==> opcode == Opcode::Umulhi || opcode
                == Opcode::Smulhi
            &&& lhs == fresh(base, 0) && first_is_constant ==> opcode != Opcode::Isub
            &&& rhs == n || rhs.0 >= base
            &&& lhs == n || lhs.0 >= base
        },
        InstructionData::UnaryImm { .. } => true,
        InstructionData::BinaryImm { .. } => true,
        InstructionData::Unary { opcode, .. } => opcode == Opcode::Copy,
        _ => false,
    }
}

/// Whether an expansion for the dividend `n` leaves nothing to simplify:
/// only its first instruction may be a constant, and simplifying finds
/// nothing in any of its instructions.
pub open spec fn expansion_settled(x: Expansion, base: nat, n: Value) -> bool {
    let first = x.ops.len() > 0 && x.ops[0] is UnaryImm;
    &&& forall|j: int| 1 <= j < x.ops.len() ==> !(#[trigger] x.ops[j] is UnaryImm)
    &&& forall|j: int| 0 <= j < x.ops.len() ==> folds_nothing(#[trigger] x.ops[j], base, n, first)
    &&& folds_nothing(x.last, base, n, first)
}

/// Turning a settled quotient into the result leaves nothing to
/// simplify.
proof fn lemma_with_remainder_settled(ops: Seq<InstructionData>, qf: Value, n: Value, d_imm: i64, is_rem: bool, base: nat)
    requires
        ops.len() >= 2,
        ops[0] is UnaryImm,
        forall|j: int| 1 <= j < ops.len() ==> !(#[trigger] ops[j] is UnaryImm),
        forall|j: int| 0 <= j < ops.len() ==> folds_nothing(#[trigger] ops[j], base, n, true),
        n.0 < base,
        base + ops.len() + 1 <= usize::MAX,
    ensures
        expansion_settled(with_remainder(ops, qf, n, d_imm, is_rem, base), base, n),
{
    let x = with_remainder(ops, qf, n, d_imm, is_rem, base);
    assert(x.ops[0] == ops[0]);
    assert forall|j: int| 1 <= j < x.ops.len() implies !(#[trigger] x.ops[j] is UnaryImm) by {
        if j < ops.len() {
            assert(x.ops[j] == ops[j]);
        }
    }
    assert forall|j: int| 0 <= j < x.ops.len() implies folds_nothing(#[trigger] x.ops[j], base, n, true) by {
        if j < ops.len() {
            assert(x.ops[j] == ops[j]);
        }
    }
    if is_rem {
        assert(fresh(base, ops.len() as int).0 == base + ops.len());
    }
}

/// Unsigned division by multiplication leaves nothing to simplify.
proof fn lemma_unsigned_magic_settled(
    n: Value,
    d_imm: i64,
    mul_imm: i64,
    do_add: bool,
    shift_by: int,
    is_rem: bool,
    base: nat,
)
    requires
        n.0 < base,
        base + 7 <= usize::MAX,
    ensures
        expansion_settled(
            unsigned_magic_expansion(n, d_imm, mul_imm, do_add, shift_by, is_rem, base),
            base,
            n,
        ),
{
    let ops = unsigned_magic_ops(n, mul_imm, do_add, shift_by, base);
    assert forall|j: int| 0 <= j < ops.len() implies folds_nothing(#[trigger] ops[j], base, n, true) by {
        lemma_fresh(base, 0);
        lemma_fresh(base, 1);
        lemma_fresh(base, 2);
        lemma_fresh(base, 3);
        lemma_fresh(base, 4);
    }
    lemma_with_remainder_settled(ops, fresh(base, ops.len() - 1), n, d_imm, is_rem, base);
}

/// Signed division by multiplication leaves nothing to simplify.
proof fn lemma_signed_magic_settled(n: Value, d: int, mul_by: i64, shift_by: int, is_rem: bool, bits: int, base: nat)
    requires
        n.0 < base,
        base + 7 <= usize::MAX,
    ensures
        expansion_settled(signed_magic_expansion(n, d, mul_by, shift_by, is_rem, bits, base), base, n),
{
    let ops = signed_magic_ops(n, d, mul_by, shift_by, bits, base);
    crate::soundness::lemma_signed_magic_ops_shape(n, d, mul_by, shift_by, bits, base);
    assert forall|j: int| 0 <= j < ops.len() implies folds_nothing(#[trigger] ops[j], base, n, true) && (j
        >= 1 ==> !(ops[j] is UnaryImm)) by {
        lemma_fresh(base, 0);
        lemma_fresh(base, 1);
        lemma_fresh(base, 2);
        lemma_fresh(base, 3);
        lemma_fresh(base, 4);
    }
    lemma_with_remainder_settled(ops, fresh(base, ops.len() - 1), n, d as i64, is_rem, base);
}

/// Signed division by a power of two leaves nothing to simplify.
proof fn lemma_signed_pow2_settled(n: Value, k: int, is_negative: bool, is_rem: bool, bits: int, base: nat)
    requires
        n.0 < base,
        base + 7 <= usize::MAX,
    ensures
        expansion_settled(signed_pow2_expansion(n, k, is_negative, is_rem, bits, base), base, n),
{
    let x = signed_pow2_expansion(n, k, is_negative, is_rem, bits, base);
    lemma_fresh(base, 0);
    lemma_fresh(base, 1);
    lemma_fresh(base, 2);
    lemma_fresh(base, 3);
    assert forall|j: int| 0 <= j < x.ops.len() implies folds_nothing(#[trigger] x.ops[j], base, n, false)
        && !(x.ops[j] is UnaryImm) by {}
}

/// The value `fresh(base, j)` has the number `base + j`.
proof fn lemma_fresh(base: nat, j: int)
    requires
        0 <= j,
        base + j <= usize::MAX,
    ensures
        fresh(base, j).0 == base + j,
{
}

/// An expansion leaves nothing to simplify.
pub proof fn lemma_expansion_settled(info: DivRemByConstInfo, base: nat)
    requires
        info.operand().0 < base,
        base + 7 <= usize::MAX,
        expansion(info, base) is Some,
    ensures
        expansion_settled(expansion(info, base).unwrap(), base, info.operand()),
{
    let n = info.operand();
    let d = info.divisor();
    let is_rem = info.is_rem();
    if info.is_signed() {
        lemma_expansion_signed(info, base);
        reveal(signed_expansion);
        if d != 1 {
            match spec_signed_power_of_two(d) {
                Some((neg, k)) => {
                    lemma_signed_pow2_settled(n, k as int, neg, is_rem, info.ty().bits() as int, base);
                },
                None => {
                    match info {
                        DivRemByConstInfo::DivS32(_, dd) | DivRemByConstInfo::RemS32(_, dd) => {
                            let m = crate::magic::spec_magic_s32(dd);
                            lemma_signed_magic_settled(n, d, m.mul_by as i64, m.shift_by as int, is_rem, 32, base);
                        },
                        DivRemByConstInfo::DivS64(_, dd) | DivRemByConstInfo::RemS64(_, dd) => {
                            let m = crate::magic::spec_magic_s64(dd);
                            lemma_signed_magic_settled(n, d, m.mul_by, m.shift_by as int, is_rem, 64, base);
                        },
                        _ => {},
                    }
                },
            }
        }
    } else {
        lemma_expansion_unsigned(info, base);
        reveal(unsigned_expansion);
        if d != 1 && !crate::divrem::is_power_of_two(d) {
            match info {
                DivRemByConstInfo::DivU32(_, dd) | DivRemByConstInfo::RemU32(_, dd) => {
                    let m = crate::magic::spec_magic_u32(dd);
                    lemma_unsigned_magic_settled(
                        n,
                        dd as i64,
                        m.mul_by as i64,
                        m.do_add,
                        m.shift_by as int,
                        is_rem,
                        base,
                    );
                },
                DivRemByConstInfo::DivU64(_, dd) | DivRemByConstInfo::RemU64(_, dd) => {
                    let m = crate::magic::spec_magic_u64(dd);
                    lemma_unsigned_magic_settled(
                        n,
                        crate::convert::spec_u64_as_i64(dd),
                        crate::convert::spec_u64_as_i64(m.mul_by),
                        m.do_add,
                        m.shift_by as int,
                        is_rem,
                        base,
                    );
                },
                _ => {},
            }
        }
    }
}

/// Whether a constant defines the operand `v` of an instruction of the
/// expansion `x`, once `x` has been applied to `f` at `inst`.
proof fn lemma_operand_constant(
    f: FunctionView,
    block: int,
    at: int,
    inst: Inst,
    info: DivRemByConstInfo,
    x: Expansion,
    v: Value,
)
    requires
        f.wf(),
        f.has_inst(inst),
        f.has_value(info.operand()),
        f.insts.len() + 7 <= usize::MAX,
        f.values.len() + 7 <= usize::MAX,
        x.ops.len() <= 7,
        expansion_ok(x, f.values.len()),
        expansion_settled(x, f.values.len(), info.operand()),
        spec_iconst_of(f, info.operand()) is None,
        !(x.last is UnaryImm),
        v == info.operand() || f.values.len() <= v.0 < f.values.len() + x.ops.len(),
    ensures
        spec_iconst_of(apply_expansion(f, block, at, inst, info.ty(), x), v) is Some <==> v == fresh(
            f.values.len(),
            0,
        ) && x.ops.len() > 0 && x.ops[0] is UnaryImm,
{
    let g = apply_expansion(f, block, at, inst, info.ty(), x);
    let base = f.values.len();
    let n0 = f.insts.len();
    if v.0 >= base {
        let j = v.0 - base;
        assert(v == fresh(base, j));
        assert(g.values[v.0 as int].def == ValueDef::Result(Inst((n0 + j) as usize), 0));
        assert(g.insts[n0 + j] == x.ops[j]);
        assert(folds_nothing(x.ops[j], base, info.operand(), x.ops.len() > 0 && x.ops[0] is UnaryImm));
        if j >= 1 {
            assert(!(x.ops[j] is UnaryImm));
        }
    } else {
        let n = info.operand();
        f.lemma_value(n);
        assert(g.values[n.0 as int] == f.values[n.0 as int]);
        match f.def(n) {
            ValueDef::Result(di, _) => {
                if di != inst {
                    assert(g.insts[di.0 as int] == f.insts[di.0 as int]);
                } else {
                    assert(g.insts[di.0 as int] == x.last);
                    assert(folds_nothing(x.last, base, n, x.ops.len() > 0 && x.ops[0] is UnaryImm));
                }
            },
            _ => {},
        }
    }
}

/// Simplifying finds nothing in an instruction of an expansion that has
/// been applied, where no constant defines the dividend.
proof fn lemma_applied_op_simplified(
    f: FunctionView,
    block: int,
    at: int,
    inst: Inst,
    info: DivRemByConstInfo,
    x: Expansion,
    data: InstructionData,
)
    requires
        f.wf(),
        f.has_inst(inst),
        f.has_value(info.operand()),
        f.insts.len() + 7 <= usize::MAX,
        f.values.len() + 7 <= usize::MAX,
        x.ops.len() <= 7,
        expansion_ok(x, f.values.len()),
        expansion_settled(x, f.values.len(), info.operand()),
        spec_iconst_of(f, info.operand()) is None,
        folds_nothing(data, f.values.len(), info.operand(), x.ops.len() > 0 && x.ops[0] is UnaryImm),
        data.args_below(f.values.len() + x.ops.len()),
        data is Binary ==> !(x.last is UnaryImm),
    ensures
        simplified(apply_expansion(f, block, at, inst, info.ty(), x), data) == data,
{
    let g = apply_expansion(f, block, at, inst, info.ty(), x);
    match data {
        InstructionData::Binary { opcode, lhs, rhs } => {
            assert(data.fixed_args()[0] == lhs && data.fixed_args()[1] == rhs);
            lemma_operand_constant(f, block, at, inst, info, x, rhs);
            lemma_operand_constant(f, block, at, inst, info, x, lhs);
        },
        _ => {},
    }
}

/// An expansion whose last payload is a constant inserts nothing.
proof fn lemma_constant_result(info: DivRemByConstInfo, base: nat)
    requires
        expansion(info, base) is Some,
        expansion(info, base).unwrap().last is UnaryImm,
    ensures
        expansion(info, base).unwrap().ops.len() == 0,
{
    reveal(expansion);
    reveal(unsigned_expansion);
    reveal(signed_expansion);
}

/// The pass leaves an instruction as it is where simplifying finds
/// nothing in it and it is no division by an immediate, no jump and no
/// branch.
proof fn lemma_plain_at_rest(g: FunctionView, block: Block, j: int)
    requires
        g.wf(),
        g.has_block(block),
        0 <= j < g.len_of(block),
        simplified(g, g.data(g.inst_at(block, j))) == g.data(g.inst_at(block, j)),
        !divides_by_immediate(g.data(g.inst_at(block, j))),
        g.data(g.inst_at(block, j)).branch_destination() is None,
    ensures
        preopt_inst(g, block, j) == g,
{
    let inst = g.inst_at(block, j);
    g.lemma_inst(inst);
    assert(spec_simplify(g, inst) == g);
    assert(spec_get_div_info(g, inst) is None);
    assert(fused(g, g.data(inst)) == g.data(inst));
    assert(spec_branch_opt(g, inst) == g);
    assert(!swaps(g, block, j));
}

/// A rewritten division leaves nothing for a second run of the pass,
/// where no constant defines its dividend: the pass leaves the
/// instructions that the rewrite inserted, and the instruction that it
/// replaced, as they are.
pub proof fn lemma_divrem_rewrite_at_rest(f: FunctionView, block: Block, at: int, j: int)
    requires
        f.wf(),
        f.has_block(block),
        0 <= at < f.len_of(block),
        f.insts.len() + 7 <= usize::MAX,
        f.values.len() + 7 <= usize::MAX,
        spec_get_div_info(f, f.inst_at(block, at)) matches Some(info) && expansion(info, f.values.len())
            is Some && spec_iconst_of(f, info.operand()) is None,
        at <= j <= at + spec_try_divrem_inserted(f, block, at),
    ensures
        preopt_inst(spec_try_divrem_rewrite(f, block, at), block, j) == spec_try_divrem_rewrite(
            f,
            block,
            at,
        ),
{
    let inst = f.inst_at(block, at);
    let info = spec_get_div_info(f, inst).unwrap();
    let base = f.values.len();
    let n0 = f.insts.len();
    let x = expansion(info, base).unwrap();
    let g = spec_try_divrem_rewrite(f, block, at);
    let k = x.ops.len() as int;
    let b = block.0 as int;
    f.lemma_inst(inst);
    crate::soundness::lemma_div_info_operand(f, inst);
    lemma_expansion_length(info, base);
    lemma_expansion_shape(info, base);
    lemma_expansion_settled(info, base);
    crate::refine::lemma_divrem_rewrite_wf(f, block, at);
    assert(g == apply_expansion(f, b, at, inst, info.ty(), x));
    let first = x.ops.len() > 0 && x.ops[0] is UnaryImm;
    let inst_j = g.inst_at(block, j);
    let data = g.data(inst_j);
    if x.last is UnaryImm {
        lemma_constant_result(info, base);
    }
    if j < at + k {
        assert(g.blocks[b][j] == Inst((n0 + (j - at)) as usize));
        assert(data == x.ops[j - at]);
        assert(folds_nothing(x.ops[j - at], base, info.operand(), first));
        assert(expansion_ok(x, base));
        assert(crate::divrem::expansion_op_ok(x.ops[j - at], base, j - at));
    } else {
        assert(inst_j == inst);
        assert(data == x.last);
    }
    assert(data.args_below((base + k) as nat)) by {
        let a = data.fixed_args();
        assert forall|i: int| 0 <= i < a.len() implies (#[trigger] a[i]).0 < base + k by {}
    }
    lemma_applied_op_simplified(f, b, at, inst, info, x, data);
    lemma_plain_at_rest(g, block, j);
}

} // verus!
