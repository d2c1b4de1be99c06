//! A position in the layout of a function, at which instructions are
//! inserted.

use crate::entities::{Block, Inst, Type, Value};
use crate::function::{Function, FunctionView};
use crate::instructions::InstructionData;
use vstd::prelude::*;

verus! {

/// A position in a function: an instruction, named by its block and its
/// place in the block.
#[derive(Clone, Copy, Debug)]
pub struct FuncCursor {
    pub block: Block,
    pub at: usize,
}

impl FuncCursor {
    /// Whether the cursor stands at an instruction of `f`.
    pub open spec fn valid(self, f: FunctionView) -> bool {
        self.block.0 < f.blocks.len() && self.at < f.blocks[self.block.0 as int].len()
    }

    /// The instruction at which the cursor stands.
    pub open spec fn inst(self, f: FunctionView) -> Inst {
        f.blocks[self.block.0 as int][self.at as int]
    }

    /// The instruction at which the cursor stands.
    pub fn current_inst(&self, func: &Function) -> (inst: Inst)
        requires
            self.valid(func@),
        ensures
            inst == self.inst(func@),
    {
        func.block_inst(self.block, self.at)
    }

    /// Inserts an instruction with a fresh result of type `ty` before the
    /// instruction at which the cursor stands, and returns the result. The
    /// cursor goes on standing at the same instruction.
    pub fn ins(&mut self, func: &mut Function, data: InstructionData, ty: Type) -> (v: Value)
        requires
            old(func)@.wf(),
            old(self).valid(old(func)@),
            data.fits(old(func)@.values.len()),
        ensures
            final(func)@.wf(),
            final(func)@ == old(func)@.emit(
                old(self).block.0 as int,
                old(self).at as int,
                seq![data],
                ty,
            ),
            v.0 == old(func)@.values.len(),
            final(self).block == old(self).block,
            final(self).at == old(self).at + 1,
            final(self).valid(final(func)@),
            final(self).inst(final(func)@) == old(self).inst(old(func)@),
    {
        let v = func.insert_before(self.block, self.at, data, ty);
        proof {
            func.lemma_sizes();
            assert(func@.blocks[self.block.0 as int].len() <= usize::MAX);
        }
        self.at = self.at + 1;
        v
    }
}

} // verus!
