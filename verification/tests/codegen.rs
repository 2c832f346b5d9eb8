use evml::compile::build_cfg;
use evml::ir::{Block, Expr, Proc, Program, TailExpr};
use evml::isa::Instr::{self, Jump, JumpDest, JumpIf, Pop, Push, PushLabel, Stop, Swap};
use evml::{compile, IdGen, U256};
use evml::analysis::Procedure;
use evml::compile::CfgId;
use evml::graph::{EntryNode, Graph, Predecessors, Successors};

fn program(main: Block, rets: usize) -> Program {
    Program { main, rets, procs: vec![] }
}

fn c(v: u64) -> U256 {
    U256::from_u64(v)
}

fn leaf(x: evml::Id, v: u64) -> Block {
    Block { priors: vec![(Some(x), Expr::Const(c(v)))], tail: TailExpr::Var(x) }
}

#[test]
fn compile_test_index_trivial() {
    let mut ids = IdGen::new();
    let x = ids.generate();
    let block = Block { priors: vec![], tail: TailExpr::Var(x) };
    let indexed = build_cfg(block, Some(1), &mut ids).unwrap();
    assert_eq!(indexed.len(), 1);
    assert!(indexed.successors(indexed.entry()).is_empty());
}

#[test]
fn compile_test_index_if_then_else_tail() {
    let mut ids = IdGen::new();
    let x = ids.generate();
    let y = ids.generate();
    let z = ids.generate();
    let block = Block {
        priors: vec![],
        tail: TailExpr::IfThenElse(
            x,
            Box::new(Block { priors: vec![], tail: TailExpr::Var(y) }),
            Box::new(Block { priors: vec![], tail: TailExpr::Var(z) }),
        ),
    };
    let indexed = build_cfg(block, Some(1), &mut ids).unwrap();
    assert_eq!(indexed.len(), 3);
    let entry_successors = indexed.successors(indexed.entry()).to_vec();
    assert_eq!(entry_successors.len(), 2);
    let s0 = indexed.successors(evml::compile::CfgId(entry_successors[0])).to_vec();
    let s1 = indexed.successors(evml::compile::CfgId(entry_successors[1])).to_vec();
    assert_eq!(s0, s1);
    assert!(s0.is_empty());
}

#[test]
fn compile_test_index_if_then_else_prior() {
    let mut ids = IdGen::new();
    let x = ids.generate();
    let y = ids.generate();
    let t = ids.generate();
    let f = ids.generate();
    let block = Block {
        priors: vec![
            (Some(x), Expr::Const(c(1))),
            (Some(y), Expr::IfThenElse(x, Box::new(leaf(t, 1)), Box::new(leaf(f, 0)))),
        ],
        tail: TailExpr::Var(y),
    };
    let indexed = build_cfg(block, Some(1), &mut ids).unwrap();
    assert_eq!(indexed.len(), 4);
    let entry_successors = indexed.successors(indexed.entry()).to_vec();
    assert_eq!(entry_successors.len(), 2);
    let s0 = indexed.successors(evml::compile::CfgId(entry_successors[0])).to_vec();
    let s1 = indexed.successors(evml::compile::CfgId(entry_successors[1])).to_vec();
    assert_eq!(s0, s1);
    assert_eq!(s0.len(), 1);
    assert!(indexed.successors(evml::compile::CfgId(s0[0])).is_empty());
}

#[test]
fn compile_test_compile_if_then_else_tail() {
    let mut ids = IdGen::new();
    let x = ids.generate();
    let t = ids.generate();
    let f = ids.generate();
    let block = Block {
        priors: vec![(Some(x), Expr::Const(c(2)))],
        tail: TailExpr::IfThenElse(x, Box::new(leaf(t, 1)), Box::new(leaf(f, 0))),
    };
    let code = compile(program(block, 1), &mut ids.clone()).unwrap();
    let label = ids.generate();
    let expected: Vec<Instr> = vec![
        Push(c(2)),
        PushLabel(label),
        JumpIf,
        Push(c(0)),
        Stop,
        JumpDest(label),
        Push(c(1)),
        Stop,
    ];
    assert_eq!(code, expected);
}

#[test]
fn compile_test_compile_if_then_else_prior() {
    let mut ids = IdGen::new();
    let x = ids.generate();
    let y = ids.generate();
    let t = ids.generate();
    let f = ids.generate();
    let block = Block {
        priors: vec![
            (Some(x), Expr::Const(c(2))),
            (Some(y), Expr::IfThenElse(x, Box::new(leaf(t, 1)), Box::new(leaf(f, 0)))),
        ],
        tail: TailExpr::Var(y),
    };
    let code = compile(program(block, 1), &mut ids.clone()).unwrap();
    let label1 = ids.generate();
    let label2 = ids.generate();
    let expected: Vec<Instr> = vec![
        Push(c(2)),
        PushLabel(label2),
        JumpIf,
        Push(c(0)),
        PushLabel(label1),
        Jump,
        JumpDest(label2),
        Push(c(1)),
        JumpDest(label1),
        Stop,
    ];
    assert_eq!(code, expected);
}

#[test]
fn compile_test_compile_if_nested() {
    let mut ids = IdGen::new();
    let x = ids.generate();
    let y = ids.generate();
    let a = ids.generate();
    let b = ids.generate();
    let cc = ids.generate();
    let block = Block {
        priors: vec![(Some(x), Expr::Const(c(1))), (Some(y), Expr::Const(c(0)))],
        tail: TailExpr::IfThenElse(
            x,
            Box::new(Block {
                priors: vec![],
                tail: TailExpr::IfThenElse(y, Box::new(leaf(a, 1)), Box::new(leaf(b, 2))),
            }),
            Box::new(leaf(cc, 3)),
        ),
    };
    let code = compile(program(block, 1), &mut ids.clone()).unwrap();
    let label1 = ids.generate();
    let label2 = ids.generate();
    let expected: Vec<Instr> = vec![
        Push(c(1)),
        Push(c(0)),
        Swap(1),
        PushLabel(label1),
        JumpIf,
        Push(c(3)),
        Swap(1),
        Pop,
        Stop,
        JumpDest(label1),
        PushLabel(label2),
        JumpIf,
        Push(c(2)),
        Stop,
        JumpDest(label2),
        Push(c(1)),
        Stop,
    ];
    assert_eq!(code, expected);
}

#[test]
fn compile_marks_each_procedure_label() {
    let mut ids = IdGen::new();
    let main_x = ids.generate();
    let p = ids.generate();
    let arg = ids.generate();
    let prog = Program {
        main: leaf(main_x, 7),
        rets: 1,
        procs: vec![(
            p,
            evml::ir::Proc { args: vec![arg], rets: 1, body: Block { priors: vec![], tail: TailExpr::Var(arg) } },
        )],
    };
    let code = compile(prog, &mut ids).unwrap();
    assert!(code.contains(&JumpDest(p)));
    assert_eq!(code[0], Push(c(7)));
}

/// The graph of an entry procedure, built from the procedure itself: its
/// body, stopping with as many values as it returns.
fn build_entry_cfg(proc: Proc, ids: &mut IdGen) -> evml::compile::ProcCfg {
    build_cfg(proc.body, Some(proc.rets), ids).unwrap()
}

#[test]
fn mod_test_index_trivial() {
    let mut ids = IdGen::new();
    let x = ids.generate();
    let block = Block { priors: vec![], tail: TailExpr::Var(x) };
    let indexed = build_entry_cfg(Proc { args: vec![], rets: 1, body: block }, &mut ids);
    assert_eq!(indexed.len(), 1);
    assert!(indexed.successors(indexed.entry()).is_empty());
}

#[test]
fn mod_test_index_if_then_else_tail() {
    let mut ids = IdGen::new();
    let x = ids.generate();
    let y = ids.generate();
    let z = ids.generate();
    let block = Block {
        priors: vec![],
        tail: TailExpr::IfThenElse(
            x,
            Box::new(Block { priors: vec![], tail: TailExpr::Var(y) }),
            Box::new(Block { priors: vec![], tail: TailExpr::Var(z) }),
        ),
    };
    let indexed = build_entry_cfg(Proc { args: vec![], rets: 1, body: block }, &mut ids);
    assert_eq!(indexed.len(), 3);
    let entry_successors = indexed.successors(indexed.entry()).to_vec();
    assert_eq!(entry_successors.len(), 2);
    let s0 = indexed.successors(evml::compile::CfgId(entry_successors[0])).to_vec();
    let s1 = indexed.successors(evml::compile::CfgId(entry_successors[1])).to_vec();
    assert_eq!(s0, s1);
    assert!(s0.is_empty());
}

#[test]
fn mod_test_index_if_then_else_prior() {
    let mut ids = IdGen::new();
    let x = ids.generate();
    let y = ids.generate();
    let t = ids.generate();
    let f = ids.generate();
    let block = Block {
        priors: vec![
            (Some(x), Expr::Const(c(1))),
            (Some(y), Expr::IfThenElse(x, Box::new(leaf(t, 1)), Box::new(leaf(f, 0)))),
        ],
        tail: TailExpr::Var(y),
    };
    let indexed = build_entry_cfg(Proc { args: vec![], rets: 1, body: block }, &mut ids);
    assert_eq!(indexed.len(), 4);
    let entry_successors = indexed.successors(indexed.entry()).to_vec();
    assert_eq!(entry_successors.len(), 2);
    let s0 = indexed.successors(evml::compile::CfgId(entry_successors[0])).to_vec();
    let s1 = indexed.successors(evml::compile::CfgId(entry_successors[1])).to_vec();
    assert_eq!(s0, s1);
    assert_eq!(s0.len(), 1);
    assert!(indexed.successors(evml::compile::CfgId(s0[0])).is_empty());
}

#[test]
fn mod_test_compile_if_then_else_tail() {
    let mut ids = IdGen::new();
    let x = ids.generate();
    let t = ids.generate();
    let f = ids.generate();
    let block = Block {
        priors: vec![(Some(x), Expr::Const(c(2)))],
        tail: TailExpr::IfThenElse(x, Box::new(leaf(t, 1)), Box::new(leaf(f, 0))),
    };
    let code = compile(program(block, 1), &mut ids.clone()).unwrap();
    let label = ids.generate();
    let expected: Vec<Instr> = vec![
        Push(c(2)),
        PushLabel(label),
        JumpIf,
        Push(c(0)),
        Stop,
        JumpDest(label),
        Push(c(1)),
        Stop,
    ];
    assert_eq!(code, expected);
}

#[test]
fn mod_test_compile_if_then_else_prior() {
    let mut ids = IdGen::new();
    let x = ids.generate();
    let y = ids.generate();
    let t = ids.generate();
    let f = ids.generate();
    let block = Block {
        priors: vec![
            (Some(x), Expr::Const(c(2))),
            (Some(y), Expr::IfThenElse(x, Box::new(leaf(t, 1)), Box::new(leaf(f, 0)))),
        ],
        tail: TailExpr::Var(y),
    };
    let code = compile(program(block, 1), &mut ids.clone()).unwrap();
    let label1 = ids.generate();
    let label2 = ids.generate();
    let expected: Vec<Instr> = vec![
        Push(c(2)),
        PushLabel(label2),
        JumpIf,
        Push(c(0)),
        PushLabel(label1),
        Jump,
        JumpDest(label2),
        Push(c(1)),
        JumpDest(label1),
        Stop,
    ];
    assert_eq!(code, expected);
}

#[test]
fn mod_test_compile_if_nested() {
    let mut ids = IdGen::new();
    let x = ids.generate();
    let y = ids.generate();
    let a = ids.generate();
    let b = ids.generate();
    let cc = ids.generate();
    let block = Block {
        priors: vec![(Some(x), Expr::Const(c(1))), (Some(y), Expr::Const(c(0)))],
        tail: TailExpr::IfThenElse(
            x,
            Box::new(Block {
                priors: vec![],
                tail: TailExpr::IfThenElse(y, Box::new(leaf(a, 1)), Box::new(leaf(b, 2))),
            }),
            Box::new(leaf(cc, 3)),
        ),
    };
    let code = compile(program(block, 1), &mut ids.clone()).unwrap();
    let label1 = ids.generate();
    let label2 = ids.generate();
    let expected: Vec<Instr> = vec![
        Push(c(1)),
        Push(c(0)),
        Swap(1),
        PushLabel(label1),
        JumpIf,
        Push(c(3)),
        Swap(1),
        Pop,
        Stop,
        JumpDest(label1),
        PushLabel(label2),
        JumpIf,
        Push(c(2)),
        Stop,
        JumpDest(label2),
        Push(c(1)),
        Stop,
    ];
    assert_eq!(code, expected);
}

#[test]
fn constant_bindings_compile_to_pushes_moves_and_stop() {
    let mut ids = IdGen::new();
    let a = ids.generate();
    let b = ids.generate();
    let block = Block {
        priors: vec![(Some(a), Expr::Const(c(1))), (Some(b), Expr::Const(c(2)))],
        tail: TailExpr::Var(b),
    };
    let code = compile(program(block, 1), &mut ids).unwrap();
    let expected: Vec<Instr> = vec![Push(c(1)), Push(c(2)), Swap(1), Pop, Stop];
    assert_eq!(code, expected);
}

#[test]
fn block_graph_answers_through_the_graph_traits() {
    let mut ids = IdGen::new();
    let x = ids.generate();
    let y = ids.generate();
    let z = ids.generate();
    let block = Block {
        priors: vec![],
        tail: TailExpr::IfThenElse(
            x,
            Box::new(Block { priors: vec![], tail: TailExpr::Var(y) }),
            Box::new(Block { priors: vec![], tail: TailExpr::Var(z) }),
        ),
    };
    let cfg = build_cfg(block, Some(1), &mut ids).unwrap();
    assert_eq!(Graph::node_count(&cfg), 3);
    assert_eq!(Graph::nodes(&cfg), vec![CfgId(0), CfgId(1), CfgId(2)]);
    let entry = EntryNode::entry(&cfg);
    assert_eq!(entry, CfgId(2));
    let mut succs = Successors::successors(&cfg, entry);
    succs.sort_by_key(|b| b.0);
    assert_eq!(succs, vec![CfgId(0), CfgId(1)]);
    assert_eq!(Predecessors::predecessors(&cfg, CfgId(0)), vec![CfgId(2)]);
    assert!(Predecessors::predecessors(&cfg, entry).is_empty());
    let instrs = Procedure::instructions(&cfg, entry);
    assert_eq!(instrs.len(), 1);
    assert_eq!(instrs[0].1, x.0);
}

#[test]
fn nested_ifs_give_one_block_per_branch_and_join() {
    let mut ids = IdGen::new();
    let x = ids.generate();
    let y = ids.generate();
    let r = ids.generate();
    let a = ids.generate();
    let b = ids.generate();
    let f = ids.generate();
    // let r = if x { if y { a } else { b } } else { f }; r
    let inner = Block {
        priors: vec![],
        tail: TailExpr::IfThenElse(y, Box::new(leaf(a, 1)), Box::new(leaf(b, 2))),
    };
    let block = Block {
        priors: vec![
            (Some(x), Expr::Const(c(1))),
            (Some(y), Expr::Const(c(0))),
            (Some(r), Expr::IfThenElse(x, Box::new(inner), Box::new(leaf(f, 3)))),
        ],
        tail: TailExpr::Var(r),
    };
    let cfg = build_cfg(block, Some(1), &mut ids).unwrap();
    assert_eq!(cfg.len(), 6);
}
