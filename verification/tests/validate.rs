use preopt::entities::{Block, Inst, Type, Value};
use preopt::flowgraph::ControlFlowGraph;
use preopt::function::{Function, ValueData, ValueDef};
use preopt::instructions::{InstructionData, Opcode};
use preopt::preopt::run_preopt;

fn sample() -> Function {
    let mut func = Function::new();
    let b0 = func.add_block();
    let b1 = func.add_block();
    let x = func.add_block_param(b0, 0, Type::I32);
    let y = func.append_inst_with_result(
        b0,
        InstructionData::BinaryImm { opcode: Opcode::SdivImm, arg: x, imm: 12 },
        Type::I32,
    );
    let br = func.append_inst(b0, InstructionData::Branch { opcode: Opcode::Brz, arg: y, destination: b1 });
    func.set_block_args(br, vec![x, y]);
    func.append_inst(b0, InstructionData::Jump { opcode: Opcode::Jump, destination: b1 });
    func.append_inst(b1, InstructionData::NullAry { opcode: Opcode::Return });
    func
}

#[test]
fn built_functions_are_well_formed() {
    assert!(Function::new().is_well_formed());
    let mut func = sample();
    assert!(func.is_well_formed());
    let mut cfg = ControlFlowGraph::with_function(&func);
    assert!(cfg.is_valid_for(&func));
    run_preopt(&mut func, &mut cfg);
    assert!(func.is_well_formed());
    assert!(cfg.is_valid_for(&func));
}

#[test]
fn broken_tables_are_found() {
    let mut func = sample();
    func.dfg.results.pop();
    assert!(!func.is_well_formed());
    let mut func = sample();
    func.dfg.block_args.push(Vec::new());
    assert!(!func.is_well_formed());
}

#[test]
fn broken_instructions_are_found() {
    // an operand that is no value
    let mut func = sample();
    func.dfg.insts[0] = InstructionData::BinaryImm { opcode: Opcode::SdivImm, arg: Value(9), imm: 12 };
    assert!(!func.is_well_formed());
    // an opcode that does not fit the shape
    let mut func = sample();
    func.dfg.insts[1] = InstructionData::Branch { opcode: Opcode::Jump, arg: Value(0), destination: Block(1) };
    assert!(!func.is_well_formed());
    // a block argument that is no value
    let mut func = sample();
    func.dfg.block_args[1] = vec![Value(0), Value(2)];
    assert!(!func.is_well_formed());
    // a result that another instruction defines
    let mut func = sample();
    func.dfg.results[2] = Some(Value(1));
    assert!(!func.is_well_formed());
    // a result that is no value
    let mut func = sample();
    func.dfg.results[2] = Some(Value(5));
    assert!(!func.is_well_formed());
}

#[test]
fn broken_values_are_found() {
    let mut func = sample();
    func.dfg.values[0] = ValueData { ty: Type::I32, def: ValueDef::Result(Inst(0), 0) };
    assert!(!func.is_well_formed());
    let mut func = sample();
    func.dfg.values[1] = ValueData { ty: Type::I32, def: ValueDef::Result(Inst(0), 1) };
    assert!(!func.is_well_formed());
    let mut func = sample();
    func.dfg.values[1] = ValueData { ty: Type::I32, def: ValueDef::Result(Inst(7), 0) };
    assert!(!func.is_well_formed());
}

#[test]
fn broken_layouts_are_found() {
    let mut func = sample();
    func.layout.blocks[1].push(Inst(0));
    assert!(!func.is_well_formed());
    let mut func = sample();
    func.layout.blocks[0].push(Inst(2));
    assert!(!func.is_well_formed());
    let mut func = sample();
    func.layout.blocks[1].push(Inst(4));
    assert!(!func.is_well_formed());
    // an instruction outside the layout is no fault
    let mut func = sample();
    func.layout.blocks[1].pop();
    assert!(func.is_well_formed());
}

#[test]
fn stale_graphs_are_found() {
    let func = sample();
    let mut cfg = ControlFlowGraph::with_function(&func);
    assert_eq!(cfg.successors(Block(0)), &vec![Block(1), Block(1)]);
    cfg.succs[0].pop();
    assert!(!cfg.is_valid_for(&func));
    let mut cfg = ControlFlowGraph::with_function(&func);
    cfg.succs[1].push(Block(0));
    assert!(!cfg.is_valid_for(&func));
    let mut cfg = ControlFlowGraph::with_function(&func);
    cfg.succs.push(Vec::new());
    assert!(!cfg.is_valid_for(&func));
    let mut cfg = ControlFlowGraph::with_function(&func);
    cfg.succs[0] = vec![Block(1), Block(0)];
    assert!(!cfg.is_valid_for(&func));
    cfg.recompute_block(&func, Block(0));
    assert!(cfg.is_valid_for(&func));
}
