//! The function under optimization: its data-flow graph and its layout.
//!
//! Instructions and values live in tables and are named by their index.
//! The layout lists, block by block, the instructions in program order.
//! Contracts speak of a function through its view, a [`FunctionView`].

use crate::entities::{Block, Inst, Type, Value};
use crate::instructions::{InstructionData, Opcode};
use vstd::prelude::*;

verus! {

/// Where a value is defined.
#[derive(Clone, Copy, Debug, PartialEq, Eq, Structural)]
pub enum ValueDef {
    /// The numbered result of an instruction.
    Result(Inst, usize),
    /// The numbered parameter of a block.
    Param(Block, usize),
}

/// Type and definition of a value.
#[derive(Clone, Copy, Debug, PartialEq, Eq, Structural)]
pub struct ValueData {
    pub ty: Type,
    pub def: ValueDef,
}

/// Instructions and values of a function, with the edges between them.
#[derive(Debug)]
pub struct DataFlowGraph {
    /// Payload of each instruction.
    pub insts: Vec<InstructionData>,
    /// Result of each instruction, if it has one.
    pub results: Vec<Option<Value>>,
    /// Block arguments that each jump or branch passes to its destination.
    pub block_args: Vec<Vec<Value>>,
    /// Type and definition of each value.
    pub values: Vec<ValueData>,
}

/// Blocks in layout order, each with its instructions in program order.
#[derive(Debug)]
pub struct Layout {
    pub blocks: Vec<Vec<Inst>>,
}

/// A function in SSA form.
#[derive(Debug)]
pub struct Function {
    pub dfg: DataFlowGraph,
    pub layout: Layout,
}

/// Mathematical content of a [`Function`].
pub struct FunctionView {
    pub insts: Seq<InstructionData>,
    pub results: Seq<Option<Value>>,
    pub block_args: Seq<Seq<Value>>,
    pub values: Seq<ValueData>,
    pub blocks: Seq<Seq<Inst>>,
}

impl InstructionData {
    /// The opcode of the payload.
    pub open spec fn spec_opcode(self) -> Opcode {
        match self {
            InstructionData::NullAry { opcode } => opcode,
            InstructionData::Unary { opcode, .. } => opcode,
            InstructionData::UnaryImm { opcode, .. } => opcode,
            InstructionData::Binary { opcode, .. } => opcode,
            InstructionData::BinaryImm { opcode, .. } => opcode,
            InstructionData::Ternary { opcode, .. } => opcode,
            InstructionData::IntCompare { opcode, .. } => opcode,
            InstructionData::IntCompareImm { opcode, .. } => opcode,
            InstructionData::Jump { opcode, .. } => opcode,
            InstructionData::Branch { opcode, .. } => opcode,
            InstructionData::BranchIcmp { opcode, .. } => opcode,
            InstructionData::CondTrap { opcode, .. } => opcode,
        }
    }

    /// The opcode of the payload.
    #[verifier::when_used_as_spec(spec_opcode)]
    pub fn opcode(self) -> (r: Opcode)
        ensures
            r == self.spec_opcode(),
    {
        match self {
            InstructionData::NullAry { opcode } => opcode,
            InstructionData::Unary { opcode, .. } => opcode,
            InstructionData::UnaryImm { opcode, .. } => opcode,
            InstructionData::Binary { opcode, .. } => opcode,
            InstructionData::BinaryImm { opcode, .. } => opcode,
            InstructionData::Ternary { opcode, .. } => opcode,
            InstructionData::IntCompare { opcode, .. } => opcode,
            InstructionData::IntCompareImm { opcode, .. } => opcode,
            InstructionData::Jump { opcode, .. } => opcode,
            InstructionData::Branch { opcode, .. } => opcode,
            InstructionData::BranchIcmp { opcode, .. } => opcode,
            InstructionData::CondTrap { opcode, .. } => opcode,
        }
    }

    /// The fixed value operands of the payload, in order.
    pub open spec fn fixed_args(self) -> Seq<Value> {
        match self {
            InstructionData::NullAry { .. } => seq![],
            InstructionData::Unary { arg, .. } => seq![arg],
            InstructionData::UnaryImm { .. } => seq![],
            InstructionData::Binary { lhs, rhs, .. } => seq![lhs, rhs],
            InstructionData::BinaryImm { arg, .. } => seq![arg],
            InstructionData::Ternary { ctrl, lhs, rhs, .. } => seq![ctrl, lhs, rhs],
            InstructionData::IntCompare { lhs, rhs, .. } => seq![lhs, rhs],
            InstructionData::IntCompareImm { arg, .. } => seq![arg],
            InstructionData::Jump { .. } => seq![],
            InstructionData::Branch { arg, .. } => seq![arg],
            InstructionData::BranchIcmp { lhs, rhs, .. } => seq![lhs, rhs],
            InstructionData::CondTrap { arg, .. } => seq![arg],
        }
    }

    /// Whether the opcode is one that takes operands of this shape.
    pub open spec fn format_ok(self) -> bool {
        match self {
            InstructionData::NullAry { opcode } => matches!(opcode, Opcode::Nop | Opcode::Trap | Opcode::Return),
            InstructionData::Unary { opcode, .. } => matches!(opcode, Opcode::Copy | Opcode::Bint | Opcode::Bnot),
            InstructionData::UnaryImm { opcode, .. } => opcode == Opcode::Iconst,
            InstructionData::Binary { opcode, .. } => matches!(
                opcode,
                Opcode::Iadd | Opcode::Isub | Opcode::Imul | Opcode::Umulhi | Opcode::Smulhi | Opcode::Udiv
                    | Opcode::Urem | Opcode::Sdiv | Opcode::Srem | Opcode::Band | Opcode::Bor | Opcode::Bxor
                    | Opcode::Ishl | Opcode::Ushr | Opcode::Sshr | Opcode::Rotl | Opcode::Rotr
            ),
            InstructionData::BinaryImm { opcode, .. } => matches!(
                opcode,
                Opcode::IaddImm | Opcode::ImulImm | Opcode::IrsubImm | Opcode::UdivImm | Opcode::UremImm
                    | Opcode::SdivImm | Opcode::SremImm | Opcode::BandImm | Opcode::BorImm | Opcode::BxorImm
                    | Opcode::IshlImm | Opcode::UshrImm | Opcode::SshrImm | Opcode::RotlImm | Opcode::RotrImm
            ),
            InstructionData::Ternary { opcode, .. } => opcode == Opcode::Select,
            InstructionData::IntCompare { opcode, .. } => opcode == Opcode::Icmp,
            InstructionData::IntCompareImm { opcode, .. } => opcode == Opcode::IcmpImm,
            InstructionData::Jump { opcode, .. } => matches!(opcode, Opcode::Jump | Opcode::Fallthrough),
            InstructionData::Branch { opcode, .. } => matches!(opcode, Opcode::Brz | Opcode::Brnz),
            InstructionData::BranchIcmp { opcode, .. } => opcode == Opcode::BrIcmp,
            InstructionData::CondTrap { opcode, .. } => matches!(opcode, Opcode::Trapz | Opcode::Trapnz),
        }
    }

    /// Whether every fixed operand names one of the first `n` values.
    pub open spec fn args_below(self, n: nat) -> bool {
        forall|k: int| 0 <= k < self.fixed_args().len() ==> (#[trigger] self.fixed_args()[k]).0 < n
    }

    /// Whether the payload can stand in a function with `n` values: its
    /// opcode fits its shape and its operands are among the values.
    pub open spec fn fits(self, n: nat) -> bool {
        self.format_ok() && self.args_below(n)
    }

    /// The destination of a jump or branch.
    pub open spec fn spec_branch_destination(self) -> Option<Block> {
        match self {
            InstructionData::Jump { destination, .. } => Some(destination),
            InstructionData::Branch { destination, .. } => Some(destination),
            InstructionData::BranchIcmp { destination, .. } => Some(destination),
            _ => None,
        }
    }

    /// The destination of a jump or branch.
    #[verifier::when_used_as_spec(spec_branch_destination)]
    pub fn branch_destination(self) -> (r: Option<Block>)
        ensures
            r == self.spec_branch_destination(),
    {
        match self {
            InstructionData::Jump { destination, .. } => Some(destination),
            InstructionData::Branch { destination, .. } => Some(destination),
            InstructionData::BranchIcmp { destination, .. } => Some(destination),
            _ => None,
        }
    }
}

impl FunctionView {
    /// Whether `v` names a value of the function.
    pub open spec fn has_value(self, v: Value) -> bool {
        v.0 < self.values.len()
    }

    /// Whether `inst` names an instruction of the function.
    pub open spec fn has_inst(self, inst: Inst) -> bool {
        inst.0 < self.insts.len()
    }

    /// The type of the value `v`.
    pub open spec fn ty(self, v: Value) -> Type {
        self.values[v.0 as int].ty
    }

    /// The payload of the instruction `inst`.
    pub open spec fn data(self, inst: Inst) -> InstructionData {
        self.insts[inst.0 as int]
    }

    /// Where the value `v` is defined.
    pub open spec fn def(self, v: Value) -> ValueDef {
        self.values[v.0 as int].def
    }

    /// The instruction at position `at` of `block`.
    pub open spec fn inst_at(self, block: Block, at: int) -> Inst {
        self.blocks[block.0 as int][at]
    }

    /// The number of instructions in `block`.
    pub open spec fn len_of(self, block: Block) -> int {
        self.blocks[block.0 as int].len() as int
    }

    /// Whether `block` names a block of the function.
    pub open spec fn has_block(self, block: Block) -> bool {
        block.0 < self.blocks.len()
    }

    /// The block that follows `block` in layout order, if any.
    pub open spec fn next_block(self, block: Block) -> Option<Block> {
        if block.0 + 1 < self.blocks.len() {
            Some(Block((block.0 + 1) as usize))
        } else {
            None
        }
    }

    /// The block arguments of the instruction `inst`.
    pub open spec fn args_of(self, inst: Inst) -> Seq<Value> {
        self.block_args[inst.0 as int]
    }

    /// Whether every operand of `data` is a value of the function.
    pub open spec fn has_operands(self, data: InstructionData) -> bool {
        match data {
            InstructionData::NullAry { .. } => true,
            InstructionData::Unary { arg, .. } => self.has_value(arg),
            InstructionData::UnaryImm { .. } => true,
            InstructionData::Binary { lhs, rhs, .. } => self.has_value(lhs) && self.has_value(rhs),
            InstructionData::BinaryImm { arg, .. } => self.has_value(arg),
            InstructionData::Ternary { ctrl, lhs, rhs, .. } => self.has_value(ctrl) && self.has_value(lhs)
                && self.has_value(rhs),
            InstructionData::IntCompare { lhs, rhs, .. } => self.has_value(lhs) && self.has_value(rhs),
            InstructionData::IntCompareImm { arg, .. } => self.has_value(arg),
            InstructionData::Jump { .. } => true,
            InstructionData::Branch { arg, .. } => self.has_value(arg),
            InstructionData::BranchIcmp { lhs, rhs, .. } => self.has_value(lhs) && self.has_value(rhs),
            InstructionData::CondTrap { arg, .. } => self.has_value(arg),
        }
    }

    /// The instruction `inst` is sound: its opcode fits its shape, its
    /// operands and block arguments name values of the function, and its
    /// result, if any, is a value that is defined as its first result.
    pub open spec fn inst_ok(self, i: int) -> bool {
        &&& self.insts[i].fits(self.values.len())
        &&& forall|k: int|
            0 <= k < self.block_args[i].len() ==> (#[trigger] self.block_args[i][k]).0
                < self.values.len()
        &&& match self.results[i] {
            Some(v) => v.0 < self.values.len() && self.values[v.0 as int].def == ValueDef::Result(
                Inst(i as usize),
                0,
            ),
            None => true,
        }
    }

    /// The value `v` is sound: if an instruction defines it, that
    /// instruction exists and has it as its result.
    pub open spec fn value_ok(self, v: int) -> bool {
        match self.values[v].def {
            ValueDef::Result(inst, num) => inst.0 < self.insts.len() && num == 0
                && self.results[inst.0 as int] == Some(Value(v as usize)),
            ValueDef::Param(_, _) => true,
        }
    }

    /// Well-formedness: the tables agree in length, every instruction and
    /// value is sound, each result is defined once, and the layout names
    /// instructions of the function.
    pub open spec fn wf(self) -> bool {
        &&& self.insts.len() == self.results.len()
        &&& self.insts.len() == self.block_args.len()
        &&& forall|i: int| 0 <= i < self.insts.len() ==> #[trigger] self.inst_ok(i)
        &&& forall|v: int| 0 <= v < self.values.len() ==> #[trigger] self.value_ok(v)
        &&& forall|b: int, j: int|
            0 <= b < self.blocks.len() && 0 <= j < self.blocks[b].len() ==> (
            #[trigger] self.blocks[b][j]).0 < self.insts.len()
        &&& self.layout_unique()
    }

    /// No instruction stands at two places of the layout.
    pub open spec fn layout_unique(self) -> bool {
        forall|b1: int, j1: int, b2: int, j2: int|
            0 <= b1 < self.blocks.len() && 0 <= j1 < self.blocks[b1].len() && 0 <= b2
                < self.blocks.len() && 0 <= j2 < self.blocks[b2].len() && #[trigger] self.blocks[b1][j1]
                == #[trigger] self.blocks[b2][j2] ==> b1 == b2 && j1 == j2
    }

    /// Whether the function has all that `f` has: each instruction of `f`
    /// with its result, each value of `f` with its type and definition,
    /// and the blocks of `f`.
    pub open spec fn extends(self, f: FunctionView) -> bool {
        &&& f.insts.len() <= self.insts.len()
        &&& f.values.len() <= self.values.len()
        &&& self.results.len() == self.insts.len()
        &&& f.results.len() == f.insts.len()
        &&& self.blocks.len() == f.blocks.len()
        &&& forall|i: int| 0 <= i < f.insts.len() ==> #[trigger] self.results[i] == f.results[i]
        &&& forall|v: int| 0 <= v < f.values.len() ==> #[trigger] self.values[v] == f.values[v]
    }

    /// The function with the payload of `inst` replaced; its result value
    /// and its place in the layout stay.
    pub open spec fn replace(self, inst: Inst, data: InstructionData) -> FunctionView {
        FunctionView { insts: self.insts.update(inst.0 as int, data), ..self }
    }

    /// The function with the block arguments of `inst` replaced.
    pub open spec fn with_block_args(self, inst: Inst, args: Seq<Value>) -> FunctionView {
        FunctionView { block_args: self.block_args.update(inst.0 as int, args), ..self }
    }

    /// The function with the instructions `ops` added, each with a fresh
    /// result of type `ty` and no block arguments, and placed in order
    /// before position `at` of block `block`.
    pub open spec fn emit(self, block: int, at: int, ops: Seq<InstructionData>, ty: Type) -> FunctionView {
        let n = self.insts.len();
        let v = self.values.len();
        FunctionView {
            insts: self.insts + ops,
            results: self.results + Seq::new(ops.len(), |j: int| Some(Value((v + j) as usize))),
            block_args: self.block_args + Seq::new(ops.len(), |j: int| Seq::<Value>::empty()),
            values: self.values + Seq::new(
                ops.len(),
                |j: int| ValueData { ty, def: ValueDef::Result(Inst((n + j) as usize), 0) },
            ),
            blocks: self.blocks.update(
                block,
                self.blocks[block].subrange(0, at) + Seq::new(
                    ops.len(),
                    |j: int| Inst((n + j) as usize),
                ) + self.blocks[block].subrange(at, self.blocks[block].len() as int),
            ),
        }
    }
}

impl View for Function {
    type V = FunctionView;

    open spec fn view(&self) -> FunctionView {
        FunctionView {
            insts: self.dfg.insts@,
            results: self.dfg.results@,
            block_args: Seq::new(self.dfg.block_args@.len(), |i: int| self.dfg.block_args@[i]@),
            values: self.dfg.values@,
            blocks: Seq::new(self.layout.blocks@.len(), |b: int| self.layout.blocks@[b]@),
        }
    }
}


impl FunctionView {
    /// A payload has its operands among the values of the function exactly
    /// when its operand list lies below the number of values.
    pub proof fn lemma_has_operands(self, data: InstructionData)
        ensures
            self.has_operands(data) == data.args_below(self.values.len()),
    {
        let a = data.fixed_args();
        if self.has_operands(data) {
            assert forall|k: int| 0 <= k < a.len() implies (#[trigger] a[k]).0 < self.values.len() by {}
        }
        if data.args_below(self.values.len()) {
            if a.len() > 0 {
                assert(a[0].0 < self.values.len());
            }
            if a.len() > 1 {
                assert(a[1].0 < self.values.len());
            }
            if a.len() > 2 {
                assert(a[2].0 < self.values.len());
            }
        }
    }

    /// What well-formedness says of one instruction.
    pub proof fn lemma_inst(self, inst: Inst)
        requires
            self.wf(),
            self.has_inst(inst),
        ensures
            self.data(inst).format_ok(),
            self.has_operands(self.data(inst)),
            self.inst_ok(inst.0 as int),
            self.replace(inst, self.data(inst)) == self,
            forall|k: int|
                0 <= k < self.args_of(inst).len() ==> self.has_value(#[trigger] self.args_of(inst)[k]),
    {
        assert(self.inst_ok(inst.0 as int));
        self.lemma_has_operands(self.data(inst));
        assert(self.replace(inst, self.data(inst)).insts =~= self.insts);
    }

    /// Two places of the layout hold different instructions.
    pub proof fn lemma_distinct_places(self, b1: Block, j1: int, b2: Block, j2: int)
        requires
            self.wf(),
            self.has_block(b1),
            self.has_block(b2),
            0 <= j1 < self.len_of(b1),
            0 <= j2 < self.len_of(b2),
            b1 != b2 || j1 != j2,
        ensures
            self.inst_at(b1, j1) != self.inst_at(b2, j2),
            self.has_inst(self.inst_at(b1, j1)),
            self.has_inst(self.inst_at(b2, j2)),
    {
        let x = self.blocks[b1.0 as int][j1];
        let y = self.blocks[b2.0 as int][j2];
        assert(x.0 < self.insts.len());
        assert(y.0 < self.insts.len());
        if x == y {
            assert(b1.0 as int == b2.0 as int && j1 == j2);
        }
    }

    /// Having all that another function has carries over.
    pub proof fn lemma_extends_transitive(self, g: FunctionView, f: FunctionView)
        requires
            self.extends(g),
            g.extends(f),
        ensures
            self.extends(f),
    {
        assert forall|i: int| 0 <= i < f.insts.len() implies #[trigger] self.results[i] == f.results[i] by {
            assert(g.results[i] == f.results[i]);
        }
        assert forall|v: int| 0 <= v < f.values.len() implies #[trigger] self.values[v] == f.values[v] by {
            assert(g.values[v] == f.values[v]);
        }
    }

    /// Replacing a payload or block arguments, and emitting instructions,
    /// keep all that the function has.
    pub proof fn lemma_changes_extend(
        self,
        inst: Inst,
        data: InstructionData,
        args: Seq<Value>,
        block: int,
        at: int,
        ops: Seq<InstructionData>,
        ty: Type,
    )
        requires
            self.insts.len() == self.results.len(),
        ensures
            self.has_inst(inst) ==> self.replace(inst, data).extends(self),
            self.has_inst(inst) ==> self.with_block_args(inst, args).extends(self),
            0 <= block < self.blocks.len() ==> self.emit(block, at, ops, ty).extends(self),
    {
    }

    /// What well-formedness says of the instruction with the number `j`.
    pub proof fn lemma_inst_number(self, j: int)
        requires
            self.wf(),
            0 <= j < self.insts.len(),
        ensures
            self.insts[j].format_ok(),
            self.has_operands(self.insts[j]),
            self.results[j] matches Some(r) ==> self.has_value(r),
    {
        assert(self.inst_ok(j));
        self.lemma_has_operands(self.insts[j]);
    }

    /// What well-formedness says of one value.
    pub proof fn lemma_value(self, v: Value)
        requires
            self.wf(),
            self.has_value(v),
        ensures
            self.values[v.0 as int].def matches ValueDef::Result(inst, _) ==> self.has_inst(inst)
                && self.results[inst.0 as int] == Some(v),
    {
        assert(self.value_ok(v.0 as int));
    }

    /// Replacing a payload by one whose operands are values of the
    /// function keeps the function well-formed.
    pub proof fn lemma_replace_wf(self, inst: Inst, data: InstructionData)
        requires
            self.wf(),
            self.has_inst(inst),
            data.fits(self.values.len()),
        ensures
            self.replace(inst, data).wf(),
    {
        let g = self.replace(inst, data);
        assert forall|i: int| 0 <= i < g.insts.len() implies #[trigger] g.inst_ok(i) by {
            assert(self.inst_ok(i));
        }
        assert forall|v: int| 0 <= v < g.values.len() implies #[trigger] g.value_ok(v) by {
            assert(self.value_ok(v));
        }
    }

    /// Replacing block arguments by values of the function keeps the
    /// function well-formed.
    pub proof fn lemma_with_block_args_wf(self, inst: Inst, args: Seq<Value>)
        requires
            self.wf(),
            self.has_inst(inst),
            forall|k: int| 0 <= k < args.len() ==> (#[trigger] args[k]).0 < self.values.len(),
        ensures
            self.with_block_args(inst, args).wf(),
    {
        let g = self.with_block_args(inst, args);
        assert forall|i: int| 0 <= i < g.insts.len() implies #[trigger] g.inst_ok(i) by {
            assert(self.inst_ok(i));
        }
        assert forall|v: int| 0 <= v < g.values.len() implies #[trigger] g.value_ok(v) by {
            assert(self.value_ok(v));
        }
    }

    /// Whether the instructions `ops` can be emitted: each takes its
    /// operands from the values of the function and the results of the
    /// instructions before it, and the tables have room.
    pub open spec fn can_emit(self, block: int, at: int, ops: Seq<InstructionData>) -> bool {
        &&& 0 <= block < self.blocks.len()
        &&& 0 <= at <= self.blocks[block].len()
        &&& self.insts.len() + ops.len() <= usize::MAX
        &&& self.values.len() + ops.len() <= usize::MAX
        &&& forall|j: int|
            0 <= j < ops.len() ==> (#[trigger] ops[j]).fits((self.values.len() + j) as nat)
    }

    /// Emitting keeps the function well-formed.
    pub proof fn lemma_emit_wf(self, block: int, at: int, ops: Seq<InstructionData>, ty: Type)
        requires
            self.wf(),
            self.can_emit(block, at, ops),
        ensures
            self.emit(block, at, ops, ty).wf(),
    {
        let g = self.emit(block, at, ops, ty);
        let n = self.insts.len();
        assert forall|i: int| 0 <= i < g.insts.len() implies #[trigger] g.inst_ok(i) by {
            if i < n {
                assert(self.inst_ok(i));
                assert(g.insts[i] == self.insts[i]);
                assert(g.block_args[i] == self.block_args[i]);
            } else {
                assert(g.insts[i] == ops[i - n]);
                assert(ops[i - n].fits((self.values.len() + (i - n)) as nat));
            }
        }
        assert forall|v: int| 0 <= v < g.values.len() implies #[trigger] g.value_ok(v) by {
            if v < self.values.len() {
                assert(self.value_ok(v));
            }
        }
        assert forall|b: int, j: int|
            0 <= b < g.blocks.len() && 0 <= j < g.blocks[b].len() implies (
        #[trigger] g.blocks[b][j]).0 < g.insts.len() by {
            if b == block {
                if j < at {
                    assert(g.blocks[b][j] == self.blocks[b][j]);
                } else if j < at + ops.len() {
                } else {
                    assert(g.blocks[b][j] == self.blocks[b][j - ops.len()]);
                }
            } else {
                assert(g.blocks[b][j] == self.blocks[b][j]);
            }
        }
    }

    /// Emitting nothing changes nothing.
    pub proof fn lemma_emit_nothing(self, block: int, at: int, ty: Type)
        requires
            0 <= block < self.blocks.len(),
            0 <= at <= self.blocks[block].len(),
        ensures
            self.emit(block, at, Seq::empty(), ty) == self,
    {
        let g = self.emit(block, at, Seq::empty(), ty);
        assert(g.insts =~= self.insts);
        assert(g.results =~= self.results);
        assert(g.block_args =~= self.block_args);
        assert(g.values =~= self.values);
        assert(g.blocks[block] =~= self.blocks[block]);
        assert(g.blocks =~= self.blocks);
    }

    /// Emitting one more instruction behind those of an emission is
    /// emitting the longer sequence.
    pub proof fn lemma_emit_push(self, block: int, at: int, ops: Seq<InstructionData>, data: InstructionData, ty: Type)
        requires
            0 <= block < self.blocks.len(),
            0 <= at <= self.blocks[block].len(),
        ensures
            self.emit(block, at, ops, ty).emit(block, at + ops.len(), seq![data], ty) == self.emit(
                block,
                at,
                ops.push(data),
                ty,
            ),
    {
        let g1 = self.emit(block, at, ops, ty);
        let g = g1.emit(block, at + ops.len(), seq![data], ty);
        let h = self.emit(block, at, ops.push(data), ty);
        assert(g.insts =~= h.insts);
        assert(g.results =~= h.results);
        assert(g.block_args =~= h.block_args);
        assert(g.values =~= h.values);
        assert(g.blocks[block] =~= h.blocks[block]);
        assert(g.blocks =~= h.blocks);
    }
}

impl Function {
    /// The tables and blocks of a function have machine-word sizes.
    pub proof fn lemma_sizes(&self)
        ensures
            self@.insts.len() <= usize::MAX,
            self@.values.len() <= usize::MAX,
            self@.blocks.len() <= usize::MAX,
            forall|b: int| 0 <= b < self@.blocks.len() ==> (#[trigger] self@.blocks[b]).len() <= usize::MAX,
    {
        assert(self.dfg.insts.len() <= usize::MAX);
        assert(self.dfg.values.len() <= usize::MAX);
        assert(self.layout.blocks.len() <= usize::MAX);
        assert forall|b: int| 0 <= b < self@.blocks.len() implies (#[trigger] self@.blocks[b]).len()
            <= usize::MAX by {
            assert(self.layout.blocks@[b].len() <= usize::MAX);
        }
    }

    /// An empty function.
    pub fn new() -> (f: Function)
        ensures
            f@.wf(),
            f@ == (FunctionView {
                insts: Seq::empty(),
                results: Seq::empty(),
                block_args: Seq::empty(),
                values: Seq::empty(),
                blocks: Seq::empty(),
            }),
    {
        let f = Function {
            dfg: DataFlowGraph {
                insts: Vec::new(),
                results: Vec::new(),
                block_args: Vec::new(),
                values: Vec::new(),
            },
            layout: Layout { blocks: Vec::new() },
        };
        proof {
            assert(f@.block_args =~= Seq::empty());
            assert(f@.blocks =~= Seq::empty());
        }
        f
    }

    /// Number of instructions.
    pub fn num_insts(&self) -> (n: usize)
        ensures
            n == self@.insts.len(),
    {
        self.dfg.insts.len()
    }

    /// Number of values.
    pub fn num_values(&self) -> (n: usize)
        ensures
            n == self@.values.len(),
    {
        self.dfg.values.len()
    }

    /// Number of blocks.
    pub fn num_blocks(&self) -> (n: usize)
        ensures
            n == self@.blocks.len(),
    {
        self.layout.blocks.len()
    }

    /// Number of instructions in `block`.
    pub fn block_len(&self, block: Block) -> (n: usize)
        requires
            block.0 < self@.blocks.len(),
        ensures
            n == self@.blocks[block.0 as int].len(),
    {
        self.layout.blocks[block.0].len()
    }

    /// The instruction at position `at` of `block`.
    pub fn block_inst(&self, block: Block, at: usize) -> (inst: Inst)
        requires
            block.0 < self@.blocks.len(),
            at < self@.blocks[block.0 as int].len(),
        ensures
            inst == self@.blocks[block.0 as int][at as int],
    {
        self.layout.blocks[block.0][at]
    }

    /// The block that follows `block` in layout order, if any.
    pub fn next_block(&self, block: Block) -> (r: Option<Block>)
        requires
            block.0 < self@.blocks.len(),
        ensures
            r == self@.next_block(block),
    {
        assert(self@.blocks.len() == self.layout.blocks@.len());
        if block.0 < self.layout.blocks.len() - 1 {
            Some(Block(block.0 + 1))
        } else {
            None
        }
    }

    /// The payload of `inst`.
    pub fn inst_data(&self, inst: Inst) -> (data: InstructionData)
        requires
            self@.has_inst(inst),
        ensures
            data == self@.insts[inst.0 as int],
    {
        self.dfg.insts[inst.0]
    }

    /// The result of `inst`, if it has one.
    pub fn inst_result(&self, inst: Inst) -> (r: Option<Value>)
        requires
            inst.0 < self@.results.len(),
        ensures
            r == self@.results[inst.0 as int],
    {
        self.dfg.results[inst.0]
    }

    /// The block arguments that `inst` passes to its destination.
    pub fn inst_block_args(&self, inst: Inst) -> (args: &Vec<Value>)
        requires
            inst.0 < self@.block_args.len(),
        ensures
            args@ == self@.block_args[inst.0 as int],
    {
        &self.dfg.block_args[inst.0]
    }

    /// Where `v` is defined.
    pub fn value_def(&self, v: Value) -> (def: ValueDef)
        requires
            self@.has_value(v),
        ensures
            def == self@.values[v.0 as int].def,
    {
        self.dfg.values[v.0].def
    }

    /// The type of `v`.
    pub fn value_type(&self, v: Value) -> (ty: Type)
        requires
            self@.has_value(v),
        ensures
            ty == self@.values[v.0 as int].ty,
    {
        self.dfg.values[v.0].ty
    }

    /// Adds an empty block at the end of the layout.
    pub fn add_block(&mut self) -> (block: Block)
        requires
            old(self)@.wf(),
        ensures
            final(self)@.wf(),
            block.0 == old(self)@.blocks.len(),
            final(self)@ == (FunctionView {
                blocks: old(self)@.blocks.push(Seq::empty()),
                ..old(self)@
            }),
    {
        let block = Block(self.layout.blocks.len());
        self.layout.blocks.push(Vec::new());
        proof {
            let g = self@;
            let f = old(self)@;
            assert(g.blocks =~= f.blocks.push(Seq::empty()));
            assert(g.block_args =~= f.block_args);
            assert forall|i: int| 0 <= i < g.insts.len() implies #[trigger] g.inst_ok(i) by {
                assert(f.inst_ok(i));
            }
            assert forall|v: int| 0 <= v < g.values.len() implies #[trigger] g.value_ok(v) by {
                assert(f.value_ok(v));
            }
        }
        block
    }

    /// Adds a value of type `ty` that stands for parameter `num` of
    /// `block`.
    pub fn add_block_param(&mut self, block: Block, num: usize, ty: Type) -> (v: Value)
        requires
            old(self)@.wf(),
        ensures
            final(self)@.wf(),
            v.0 == old(self)@.values.len(),
            final(self)@ == (FunctionView {
                values: old(self)@.values.push(ValueData { ty, def: ValueDef::Param(block, num) }),
                ..old(self)@
            }),
    {
        let v = Value(self.dfg.values.len());
        self.dfg.values.push(ValueData { ty, def: ValueDef::Param(block, num) });
        proof {
            let g = self@;
            let f = old(self)@;
            assert(g.blocks =~= f.blocks);
            assert(g.block_args =~= f.block_args);
            assert forall|i: int| 0 <= i < g.insts.len() implies #[trigger] g.inst_ok(i) by {
                assert(f.inst_ok(i));
            }
            assert forall|v: int| 0 <= v < g.values.len() implies #[trigger] g.value_ok(v) by {
                if v < f.values.len() {
                    assert(f.value_ok(v));
                }
            }
        }
        v
    }

    /// Adds an instruction without a result at the end of `block`.
    pub fn append_inst(&mut self, block: Block, data: InstructionData) -> (inst: Inst)
        requires
            old(self)@.wf(),
            block.0 < old(self)@.blocks.len(),
            data.fits(old(self)@.values.len()),
        ensures
            final(self)@.wf(),
            inst.0 == old(self)@.insts.len(),
            final(self)@ == (FunctionView {
                insts: old(self)@.insts.push(data),
                results: old(self)@.results.push(None),
                block_args: old(self)@.block_args.push(Seq::empty()),
                blocks: old(self)@.blocks.update(
                    block.0 as int,
                    old(self)@.blocks[block.0 as int].push(inst),
                ),
                ..old(self)@
            }),
    {
        let inst = Inst(self.dfg.insts.len());
        self.dfg.insts.push(data);
        self.dfg.results.push(None);
        self.dfg.block_args.push(Vec::new());
        self.layout.blocks[block.0].push(inst);
        proof {
            let g = self@;
            let f = old(self)@;
            assert(g.blocks =~= f.blocks.update(block.0 as int, f.blocks[block.0 as int].push(inst)));
            assert(g.block_args =~= f.block_args.push(Seq::empty()));
            assert forall|i: int| 0 <= i < g.insts.len() implies #[trigger] g.inst_ok(i) by {
                if i < f.insts.len() {
                    assert(f.inst_ok(i));
                }
            }
            assert forall|v: int| 0 <= v < g.values.len() implies #[trigger] g.value_ok(v) by {
                assert(f.value_ok(v));
            }
            assert forall|b: int, j: int|
                0 <= b < g.blocks.len() && 0 <= j < g.blocks[b].len() implies (
            #[trigger] g.blocks[b][j]).0 < g.insts.len() by {
                if b == block.0 && j == f.blocks[b].len() {
                } else {
                    assert(g.blocks[b][j] == f.blocks[b][j]);
                }
            }
        }
        inst
    }

    /// Adds an instruction with a result of type `ty` at the end of
    /// `block`, and returns the result.
    pub fn append_inst_with_result(&mut self, block: Block, data: InstructionData, ty: Type) -> (v: Value)
        requires
            old(self)@.wf(),
            block.0 < old(self)@.blocks.len(),
            data.fits(old(self)@.values.len()),
        ensures
            final(self)@.wf(),
            v.0 == old(self)@.values.len(),
            final(self)@ == old(self)@.emit(
                block.0 as int,
                old(self)@.blocks[block.0 as int].len() as int,
                seq![data],
                ty,
            ),
    {
        let at = self.layout.blocks[block.0].len();
        self.insert_before(block, at, data, ty)
    }

    /// Replaces the block arguments of `inst`.
    pub fn set_block_args(&mut self, inst: Inst, args: Vec<Value>)
        requires
            old(self)@.wf(),
            old(self)@.has_inst(inst),
            forall|k: int| 0 <= k < args@.len() ==> (#[trigger] args@[k]).0 < old(self)@.values.len(),
        ensures
            final(self)@.wf(),
            final(self)@ == old(self)@.with_block_args(inst, args@),
    {
        self.dfg.block_args[inst.0] = args;
        proof {
            assert(self@.block_args =~= old(self)@.block_args.update(inst.0 as int, args@));
            assert(self@.blocks =~= old(self)@.blocks);
            old(self)@.lemma_with_block_args_wf(inst, args@);
        }
    }

    /// Replaces the payload of `inst`. The result of `inst` and its place
    /// in the layout stay.
    pub fn replace(&mut self, inst: Inst, data: InstructionData)
        requires
            old(self)@.wf(),
            old(self)@.has_inst(inst),
            data.fits(old(self)@.values.len()),
        ensures
            final(self)@.wf(),
            final(self)@ == old(self)@.replace(inst, data),
    {
        self.dfg.insts[inst.0] = data;
        proof {
            assert(self@.block_args =~= old(self)@.block_args);
            assert(self@.blocks =~= old(self)@.blocks);
            old(self)@.lemma_replace_wf(inst, data);
        }
    }

    /// Adds an instruction with a fresh result of type `ty` and places it
    /// before position `at` of `block`. Returns the result.
    pub fn insert_before(&mut self, block: Block, at: usize, data: InstructionData, ty: Type) -> (v: Value)
        requires
            old(self)@.wf(),
            block.0 < old(self)@.blocks.len(),
            at <= old(self)@.blocks[block.0 as int].len(),
            data.fits(old(self)@.values.len()),
        ensures
            final(self)@.wf(),
            v.0 == old(self)@.values.len(),
            final(self)@ == old(self)@.emit(block.0 as int, at as int, seq![data], ty),
    {
        let inst = Inst(self.dfg.insts.len());
        let v = Value(self.dfg.values.len());
        self.dfg.insts.push(data);
        self.dfg.results.push(Some(v));
        self.dfg.block_args.push(Vec::new());
        self.dfg.values.push(ValueData { ty, def: ValueDef::Result(inst, 0) });
        self.layout.blocks[block.0].insert(at, inst);
        proof {
            let f = old(self)@;
            let g = f.emit(block.0 as int, at as int, seq![data], ty);
            assert(self@.insts =~= g.insts);
            assert(self@.results =~= g.results);
            assert(self@.block_args =~= g.block_args);
            assert(self@.values =~= g.values);
            assert(self@.blocks[block.0 as int] =~= g.blocks[block.0 as int]);
            assert(self@.blocks =~= g.blocks);
            assert(self.dfg.insts@.len() == f.insts.len() + 1);
            assert(self.dfg.values@.len() == f.values.len() + 1);
            assert(self.dfg.insts.len() <= usize::MAX);
            assert(self.dfg.values.len() <= usize::MAX);
            f.lemma_emit_wf(block.0 as int, at as int, seq![data], ty);
        }
        v
    }
}

} // verus!
