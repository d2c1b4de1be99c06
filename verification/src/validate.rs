//! Checking at run time that a function, and a control-flow graph for it,
//! are in the shape that the pass asks for.

use crate::entities::{Block, Inst};
use crate::flowgraph::{block_successors, ControlFlowGraph};
use crate::function::{Function, ValueDef};
use crate::instructions::{InstructionData, Opcode};
use vstd::prelude::*;

verus! {

impl InstructionData {
    /// Whether the opcode is one that takes operands of this shape.
    pub fn check_format(self) -> (r: bool)
        ensures
            r == self.format_ok(),
    {
        match self {
            InstructionData::NullAry { opcode } => match opcode {
                Opcode::Nop | Opcode::Trap | Opcode::Return => true,
                _ => false,
            },
            InstructionData::Unary { opcode, .. } => match opcode {
                Opcode::Copy | Opcode::Bint | Opcode::Bnot => true,
                _ => false,
            },
            InstructionData::UnaryImm { opcode, .. } => match opcode {
                Opcode::Iconst => true,
                _ => false,
            },
            InstructionData::Binary { opcode, .. } => match opcode {
                Opcode::Iadd
                | Opcode::Isub
                | Opcode::Imul
                | Opcode::Umulhi
                | Opcode::Smulhi
                | Opcode::Udiv
                | Opcode::Urem
                | Opcode::Sdiv
                | Opcode::Srem
                | Opcode::Band
                | Opcode::Bor
                | Opcode::Bxor
                | Opcode::Ishl
                | Opcode::Ushr
                | Opcode::Sshr
                | Opcode::Rotl
                | Opcode::Rotr => true,
                _ => false,
            },
            InstructionData::BinaryImm { opcode, .. } => match opcode {
                Opcode::IaddImm
                | Opcode::ImulImm
                | Opcode::IrsubImm
                | Opcode::UdivImm
                | Opcode::UremImm
                | Opcode::SdivImm
                | Opcode::SremImm
                | Opcode::BandImm
                | Opcode::BorImm
                | Opcode::BxorImm
                | Opcode::IshlImm
                | Opcode::UshrImm
                | Opcode::SshrImm
                | Opcode::RotlImm
                | Opcode::RotrImm => true,
                _ => false,
            },
            InstructionData::Ternary { opcode, .. } => match opcode {
                Opcode::Select => true,
                _ => false,
            },
            InstructionData::IntCompare { opcode, .. } => match opcode {
                Opcode::Icmp => true,
                _ => false,
            },
            InstructionData::IntCompareImm { opcode, .. } => match opcode {
                Opcode::IcmpImm => true,
                _ => false,
            },
            InstructionData::Jump { opcode, .. } => match opcode {
                Opcode::Jump | Opcode::Fallthrough => true,
                _ => false,
            },
            InstructionData::Branch { opcode, .. } => match opcode {
                Opcode::Brz | Opcode::Brnz => true,
                _ => false,
            },
            InstructionData::BranchIcmp { opcode, .. } => match opcode {
                Opcode::BrIcmp => true,
                _ => false,
            },
            InstructionData::CondTrap { opcode, .. } => match opcode {
                Opcode::Trapz | Opcode::Trapnz => true,
                _ => false,
            },
        }
    }
}

/// Whether every operand of `data` is among the first `n` values.
pub fn check_operands(func: &Function, data: InstructionData) -> (r: bool)
    ensures
        r == data.args_below(func@.values.len()),
{
    let n = func.num_values();
    proof {
        func@.lemma_has_operands(data);
    }
    match data {
        InstructionData::NullAry { .. } => true,
        InstructionData::Unary { arg, .. } => arg.0 < n,
        InstructionData::UnaryImm { .. } => true,
        InstructionData::Binary { lhs, rhs, .. } => lhs.0 < n && rhs.0 < n,
        InstructionData::BinaryImm { arg, .. } => arg.0 < n,
        InstructionData::Ternary { ctrl, lhs, rhs, .. } => ctrl.0 < n && lhs.0 < n && rhs.0 < n,
        InstructionData::IntCompare { lhs, rhs, .. } => lhs.0 < n && rhs.0 < n,
        InstructionData::IntCompareImm { arg, .. } => arg.0 < n,
        InstructionData::Jump { .. } => true,
        InstructionData::Branch { arg, .. } => arg.0 < n,
        InstructionData::BranchIcmp { lhs, rhs, .. } => lhs.0 < n && rhs.0 < n,
        InstructionData::CondTrap { arg, .. } => arg.0 < n,
    }
}

/// Whether `def` says that a value is the first result of `inst`.
fn defines_result(def: ValueDef, inst: usize) -> (r: bool)
    ensures
        r == (def == ValueDef::Result(Inst(inst), 0)),
{
    match def {
        ValueDef::Result(i, num) => i.0 == inst && num == 0,
        ValueDef::Param(_, _) => false,
    }
}

impl Function {
    /// Whether instruction `i` is sound.
    fn check_inst(&self, i: usize) -> (r: bool)
        requires
            i < self@.insts.len(),
            self@.insts.len() == self@.results.len(),
            self@.insts.len() == self@.block_args.len(),
        ensures
            r == self@.inst_ok(i as int),
    {
        let data = self.dfg.insts[i];
        if !data.check_format() || !check_operands(self, data) {
            return false;
        }
        let n = self.dfg.values.len();
        let args = &self.dfg.block_args[i];
        let mut k: usize = 0;
        while k < args.len()
            invariant
                k <= args@.len(),
                args@ == self@.block_args[i as int],
                n == self@.values.len(),
                forall|j: int| 0 <= j < k ==> (#[trigger] args@[j]).0 < n,
            decreases args@.len() - k,
        {
            if args[k].0 >= n {
                return false;
            }
            k = k + 1;
        }
        match self.dfg.results[i] {
            Some(v) => v.0 < n && defines_result(self.dfg.values[v.0].def, i),
            None => true,
        }
    }

    /// Whether value `v` is sound.
    fn check_value(&self, v: usize) -> (r: bool)
        requires
            v < self@.values.len(),
            self@.insts.len() == self@.results.len(),
        ensures
            r == self@.value_ok(v as int),
    {
        match self.dfg.values[v].def {
            ValueDef::Result(inst, num) => {
                if inst.0 < self.dfg.insts.len() && num == 0 {
                    match self.dfg.results[inst.0] {
                        Some(r) => r.0 == v,
                        None => false,
                    }
                } else {
                    false
                }
            },
            ValueDef::Param(_, _) => true,
        }
    }

    /// Whether the layout names instructions of the function, each at one
    /// place.
    fn check_layout(&self) -> (r: bool)
        ensures
            r == (self@.layout_unique() && forall|b: int, j: int|
                0 <= b < self@.blocks.len() && 0 <= j < self@.blocks[b].len() ==> (
                #[trigger] self@.blocks[b][j]).0 < self@.insts.len()),
    {
        let n = self.dfg.insts.len();
        let mut seen: Vec<bool> = Vec::new();
        let mut i: usize = 0;
        while i < n
            invariant
                i <= n,
                seen@.len() == i,
                forall|x: int| 0 <= x < i ==> !(#[trigger] seen@[x]),
            decreases n - i,
        {
            seen.push(false);
            i = i + 1;
        }
        let ghost f = self@;
        let ghost mut place: Map<int, (int, int)> = Map::empty();
        let nb = self.layout.blocks.len();
        let mut b: usize = 0;
        while b < nb
            invariant
                f == self@,
                n == f.insts.len(),
                nb == f.blocks.len(),
                b <= nb,
                seen@.len() == n,
                forall|x: int|
                    0 <= x < n && #[trigger] seen@[x] ==> place.contains_key(x) && 0 <= place[x].0 < b
                        && 0 <= place[x].1 < f.blocks[place[x].0].len() && f.blocks[place[x].0][place[x].1]
                        == Inst(x as usize),
                forall|b1: int, j1: int|
                    0 <= b1 < b && 0 <= j1 < f.blocks[b1].len() ==> (#[trigger] f.blocks[b1][j1]).0 < n
                        && seen@[f.blocks[b1][j1].0 as int] && place[f.blocks[b1][j1].0 as int] == (b1, j1),
            decreases nb - b,
        {
            let row = &self.layout.blocks[b];
            let mut j: usize = 0;
            while j < row.len()
                invariant
                    f == self@,
                    n == f.insts.len(),
                    nb == f.blocks.len(),
                    b < nb,
                    row@ == f.blocks[b as int],
                    j <= row@.len(),
                    seen@.len() == n,
                    forall|x: int|
                        0 <= x < n && #[trigger] seen@[x] ==> place.contains_key(x) && ((0 <= place[x].0 < b
                            && 0 <= place[x].1 < f.blocks[place[x].0].len()) || (place[x].0 == b && 0
                            <= place[x].1 < j)) && f.blocks[place[x].0][place[x].1] == Inst(x as usize),
                    forall|b1: int, j1: int|
                        (0 <= b1 < b && 0 <= j1 < f.blocks[b1].len()) || (b1 == b && 0 <= j1 < j) ==> (
                        #[trigger] f.blocks[b1][j1]).0 < n && seen@[f.blocks[b1][j1].0 as int]
                            && place[f.blocks[b1][j1].0 as int] == (b1, j1),
                decreases row@.len() - j,
            {
                let inst = row[j];
                if inst.0 >= n {
                    proof {
                        assert(f.blocks[b as int][j as int] == inst);
                    }
                    return false;
                }
                if seen[inst.0] {
                    proof {
                        let p = place[inst.0 as int];
                        assert(f.blocks[p.0][p.1] == inst);
                        assert(f.blocks[b as int][j as int] == inst);
                        assert(p != (b as int, j as int));
                        assert(!f.layout_unique());
                    }
                    return false;
                }
                seen.set(inst.0, true);
                proof {
                    place = place.insert(inst.0 as int, (b as int, j as int));
                }
                j = j + 1;
            }
            b = b + 1;
        }
        proof {
            assert forall|b1: int, j1: int, b2: int, j2: int|
                0 <= b1 < f.blocks.len() && 0 <= j1 < f.blocks[b1].len() && 0 <= b2 < f.blocks.len() && 0
                    <= j2 < f.blocks[b2].len() && #[trigger] f.blocks[b1][j1]
                    == #[trigger] f.blocks[b2][j2] implies b1 == b2 && j1 == j2 by {
                let x = f.blocks[b1][j1].0 as int;
                assert(place[x] == (b1, j1));
                assert(place[f.blocks[b2][j2].0 as int] == (b2, j2));
            }
        }
        true
    }

    /// Whether the function is well-formed.
    pub fn is_well_formed(&self) -> (r: bool)
        ensures
            r == self@.wf(),
    {
        let n = self.dfg.insts.len();
        if self.dfg.results.len() != n || self.dfg.block_args.len() != n {
            return false;
        }
        let mut i: usize = 0;
        while i < n
            invariant
                n == self@.insts.len(),
                n == self@.results.len(),
                n == self@.block_args.len(),
                i <= n,
                forall|k: int| 0 <= k < i ==> #[trigger] self@.inst_ok(k),
            decreases n - i,
        {
            if !self.check_inst(i) {
                return false;
            }
            i = i + 1;
        }
        let nv = self.dfg.values.len();
        let mut v: usize = 0;
        while v < nv
            invariant
                n == self@.insts.len(),
                n == self@.results.len(),
                nv == self@.values.len(),
                v <= nv,
                forall|k: int| 0 <= k < v ==> #[trigger] self@.value_ok(k),
            decreases nv - v,
        {
            if !self.check_value(v) {
                return false;
            }
            v = v + 1;
        }
        self.check_layout()
    }
}

/// Whether two lists of blocks are the same.
fn same_blocks(a: &Vec<Block>, b: &Vec<Block>) -> (r: bool)
    ensures
        r == (a@ == b@),
{
    if a.len() != b.len() {
        return false;
    }
    let mut i: usize = 0;
    while i < a.len()
        invariant
            a@.len() == b@.len(),
            i <= a@.len(),
            forall|k: int| 0 <= k < i ==> a@[k] == b@[k],
        decreases a@.len() - i,
    {
        if a[i].0 != b[i].0 {
            return false;
        }
        i = i + 1;
    }
    proof {
        assert(a@ =~= b@);
    }
    true
}

impl ControlFlowGraph {
    /// Whether the graph is that of `func`.
    pub fn is_valid_for(&self, func: &Function) -> (r: bool)
        requires
            func@.wf(),
        ensures
            r == self.valid_for(func@),
    {
        let fresh = ControlFlowGraph::with_function(func);
        let n = func.num_blocks();
        if self.succs.len() != n {
            return false;
        }
        let mut b: usize = 0;
        while b < n
            invariant
                n == func@.blocks.len(),
                self@.len() == n,
                fresh.valid_for(func@),
                b <= n,
                forall|k: int| 0 <= k < b ==> #[trigger] self@[k] == block_successors(func@, k),
            decreases n - b,
        {
            if !same_blocks(&self.succs[b], &fresh.succs[b]) {
                proof {
                    assert(fresh@[b as int] == block_successors(func@, b as int));
                    assert(self@[b as int] != block_successors(func@, b as int));
                }
                return false;
            }
            proof {
                assert(fresh@[b as int] == block_successors(func@, b as int));
            }
            b = b + 1;
        }
        true
    }
}

} // verus!
