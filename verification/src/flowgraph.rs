//! The control-flow graph: for each block, the destinations of its jumps
//! and branches.

use crate::entities::{Block, Inst};
use crate::function::{Function, FunctionView};
use crate::instructions::InstructionData;
use vstd::prelude::*;

verus! {

/// Successor lists of the blocks of a function, in layout order.
#[derive(Debug)]
pub struct ControlFlowGraph {
    pub succs: Vec<Vec<Block>>,
}

/// The destinations of the jumps and branches among `insts`, in order.
pub open spec fn successors_of(f: FunctionView, insts: Seq<Inst>) -> Seq<Block>
    decreases insts.len(),
{
    if insts.len() == 0 {
        Seq::empty()
    } else {
        let rest = successors_of(f, insts.drop_last());
        match f.data(insts.last()).branch_destination() {
            Some(d) => rest.push(d),
            None => rest,
        }
    }
}

/// The successors of the block at position `b`, in program order of the
/// instructions that lead to them.
pub open spec fn block_successors(f: FunctionView, b: int) -> Seq<Block> {
    successors_of(f, f.blocks[b])
}

/// The edges of the control-flow graph of `f`: the pairs of a block and
/// one of its successors.
pub open spec fn edges(f: FunctionView) -> Set<(Block, Block)> {
    Set::new(
        |e: (Block, Block)|
            e.0.0 < f.blocks.len() && block_successors(f, e.0.0 as int).contains(e.1),
    )
}

/// The successors of a concatenation are those of its parts.
pub proof fn lemma_successors_concat(f: FunctionView, a: Seq<Inst>, b: Seq<Inst>)
    ensures
        successors_of(f, a + b) == successors_of(f, a) + successors_of(f, b),
    decreases b.len(),
{
    if b.len() == 0 {
        assert(a + b =~= a);
        assert(successors_of(f, a) + successors_of(f, b) =~= successors_of(f, a));
    } else {
        assert((a + b).drop_last() =~= a + b.drop_last());
        assert((a + b).last() == b.last());
        lemma_successors_concat(f, a, b.drop_last());
        let rest = successors_of(f, b.drop_last());
        match f.data(b.last()).branch_destination() {
            Some(d) => {
                assert((successors_of(f, a) + rest).push(d) =~= successors_of(f, a) + rest.push(d));
            },
            None => {},
        }
    }
}

/// Two functions whose instructions of a list lead to the same
/// destinations give the list the same successors.
pub proof fn lemma_successors_same(f: FunctionView, g: FunctionView, insts: Seq<Inst>)
    requires
        forall|j: int|
            0 <= j < insts.len() ==> f.data(#[trigger] insts[j]).branch_destination() == g.data(
                insts[j],
            ).branch_destination(),
    ensures
        successors_of(f, insts) == successors_of(g, insts),
    decreases insts.len(),
{
    if insts.len() > 0 {
        let init = insts.drop_last();
        assert forall|j: int| 0 <= j < init.len() implies f.data(
            #[trigger] init[j],
        ).branch_destination() == g.data(init[j]).branch_destination() by {
            assert(init[j] == insts[j]);
        }
        lemma_successors_same(f, g, init);
        assert(insts.last() == insts[insts.len() - 1]);
    }
}

/// Instructions that lead nowhere have no successors.
pub proof fn lemma_successors_none(f: FunctionView, insts: Seq<Inst>)
    requires
        forall|j: int| 0 <= j < insts.len() ==> f.data(#[trigger] insts[j]).branch_destination() is None,
    ensures
        successors_of(f, insts) == Seq::<Block>::empty(),
    decreases insts.len(),
{
    if insts.len() > 0 {
        let init = insts.drop_last();
        assert forall|j: int| 0 <= j < init.len() implies f.data(
            #[trigger] init[j],
        ).branch_destination() is None by {
            assert(init[j] == insts[j]);
        }
        lemma_successors_none(f, init);
        assert(insts.last() == insts[insts.len() - 1]);
    }
}

impl View for ControlFlowGraph {
    type V = Seq<Seq<Block>>;

    open spec fn view(&self) -> Seq<Seq<Block>> {
        Seq::new(self.succs@.len(), |b: int| self.succs@[b]@)
    }
}

impl ControlFlowGraph {
    /// Whether the graph is that of `f`.
    pub open spec fn valid_for(self, f: FunctionView) -> bool {
        &&& self@.len() == f.blocks.len()
        &&& forall|b: int| 0 <= b < f.blocks.len() ==> #[trigger] self@[b] == block_successors(f, b)
    }

    /// The successors of `block`.
    pub fn successors(&self, block: Block) -> (r: &Vec<Block>)
        requires
            block.0 < self@.len(),
        ensures
            r@ == self@[block.0 as int],
    {
        &self.succs[block.0]
    }

    /// The destinations of the jumps and branches of `block`, in order.
    fn compute_block(func: &Function, block: Block) -> (r: Vec<Block>)
        requires
            func@.wf(),
            func@.has_block(block),
        ensures
            r@ == block_successors(func@, block.0 as int),
    {
        let mut acc: Vec<Block> = Vec::new();
        let n = func.block_len(block);
        let mut i: usize = 0;
        let ghost insts = func@.blocks[block.0 as int];
        while i < n
            invariant
                func@.wf(),
                func@.has_block(block),
                insts == func@.blocks[block.0 as int],
                n == insts.len(),
                i <= n,
                acc@ == successors_of(func@, insts.subrange(0, i as int)),
            decreases n - i,
        {
            let inst = func.block_inst(block, i);
            proof {
                assert(insts.subrange(0, i + 1).drop_last() =~= insts.subrange(0, i as int));
                assert(insts.subrange(0, i + 1).last() == inst);
            }
            match func.inst_data(inst).branch_destination() {
                Some(d) => {
                    acc.push(d);
                },
                None => {},
            }
            i = i + 1;
        }
        proof {
            assert(insts.subrange(0, n as int) =~= insts);
        }
        acc
    }

    /// The control-flow graph of `func`.
    pub fn with_function(func: &Function) -> (cfg: ControlFlowGraph)
        requires
            func@.wf(),
        ensures
            cfg.valid_for(func@),
    {
        let mut succs: Vec<Vec<Block>> = Vec::new();
        let n = func.num_blocks();
        let mut b: usize = 0;
        while b < n
            invariant
                func@.wf(),
                n == func@.blocks.len(),
                b <= n,
                succs@.len() == b,
                forall|k: int| 0 <= k < b ==> (#[trigger] succs@[k])@ == block_successors(func@, k),
            decreases n - b,
        {
            let row = Self::compute_block(func, Block(b));
            succs.push(row);
            b = b + 1;
        }
        ControlFlowGraph { succs }
    }

    /// Computes the successors of `block` anew, after its jumps or
    /// branches have changed.
    pub fn recompute_block(&mut self, func: &Function, block: Block)
        requires
            func@.wf(),
            func@.has_block(block),
            old(self)@.len() == func@.blocks.len(),
        ensures
            final(self)@ == old(self)@.update(block.0 as int, block_successors(func@, block.0 as int)),
    {
        let row = Self::compute_block(func, block);
        self.succs[block.0] = row;
        proof {
            assert(self@ =~= old(self)@.update(block.0 as int, block_successors(func@, block.0 as int)));
        }
    }
}


/// Replacing a payload by one that leads to the same place keeps the
/// successors of every block.
pub proof fn lemma_replace_keeps_successors(f: FunctionView, inst: Inst, data: InstructionData, b: int)
    requires
        f.wf(),
        f.has_inst(inst),
        data.branch_destination() == f.data(inst).branch_destination(),
        0 <= b < f.blocks.len(),
    ensures
        block_successors(f.replace(inst, data), b) == block_successors(f, b),
{
    let g = f.replace(inst, data);
    assert forall|j: int| 0 <= j < f.blocks[b].len() implies f.data(
        #[trigger] f.blocks[b][j],
    ).branch_destination() == g.data(f.blocks[b][j]).branch_destination() by {
        assert(f.blocks[b][j].0 < f.insts.len());
    }
    lemma_successors_same(f, g, f.blocks[b]);
}

/// Replacing block arguments keeps the successors of every block.
pub proof fn lemma_args_keep_successors(f: FunctionView, inst: Inst, args: Seq<crate::entities::Value>, b: int)
    requires
        0 <= b < f.blocks.len(),
    ensures
        block_successors(f.with_block_args(inst, args), b) == block_successors(f, b),
{
    let g = f.with_block_args(inst, args);
    lemma_successors_same(f, g, f.blocks[b]);
}

/// Emitting instructions that lead nowhere keeps the successors of every
/// block.
pub proof fn lemma_emit_keeps_successors(
    f: FunctionView,
    block: int,
    at: int,
    ops: Seq<InstructionData>,
    ty: crate::entities::Type,
    b: int,
)
    requires
        f.wf(),
        f.can_emit(block, at, ops),
        forall|j: int| 0 <= j < ops.len() ==> (#[trigger] ops[j]).branch_destination() is None,
        0 <= b < f.blocks.len(),
    ensures
        block_successors(f.emit(block, at, ops, ty), b) == block_successors(f, b),
{
    let g = f.emit(block, at, ops, ty);
    let n = f.insts.len();
    if b != block {
        assert(g.blocks[b] == f.blocks[b]);
        assert forall|j: int| 0 <= j < f.blocks[b].len() implies f.data(
            #[trigger] f.blocks[b][j],
        ).branch_destination() == g.data(f.blocks[b][j]).branch_destination() by {
            assert(f.blocks[b][j].0 < n);
        }
        lemma_successors_same(f, g, f.blocks[b]);
    } else {
        let row = f.blocks[b];
        let pre = row.subrange(0, at);
        let post = row.subrange(at, row.len() as int);
        let mid = Seq::new(ops.len(), |j: int| Inst((n + j) as usize));
        assert(row =~= pre + post);
        assert(g.blocks[b] == pre + mid + post);
        lemma_successors_concat(g, pre + mid, post);
        lemma_successors_concat(g, pre, mid);
        lemma_successors_concat(f, pre, post);
        assert forall|j: int| 0 <= j < mid.len() implies g.data(#[trigger] mid[j]).branch_destination() is None by {
            assert(g.data(mid[j]) == ops[j]);
        }
        lemma_successors_none(g, mid);
        assert forall|j: int| 0 <= j < pre.len() implies f.data(
            #[trigger] pre[j],
        ).branch_destination() == g.data(pre[j]).branch_destination() by {
            assert(pre[j] == row[j]);
            assert(row[j].0 < n);
        }
        lemma_successors_same(f, g, pre);
        assert forall|j: int| 0 <= j < post.len() implies f.data(
            #[trigger] post[j],
        ).branch_destination() == g.data(post[j]).branch_destination() by {
            assert(post[j] == row[at + j]);
            assert(row[at + j].0 < n);
        }
        lemma_successors_same(f, g, post);
        assert(successors_of(g, pre) + Seq::<Block>::empty() =~= successors_of(g, pre));
    }
}

} // verus!
