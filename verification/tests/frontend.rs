use evml::ast::{Block, Expr, Func, Program, Stmt};
use evml::ir;
use evml::resolve::ResolveErrorKind;
use evml::{lower, parse, resolve, type_check, IdGen, TypeError, U256};

fn checked(source: &str) -> Result<(), TypeError> {
    let mut ids = IdGen::new();
    let ast = parse(source).unwrap();
    let ast = resolve(&ast, &mut ids).unwrap();
    type_check(&ast)
}

fn konst(v: u64) -> Expr<evml::Id> {
    Expr::Const(U256::from_u64(v))
}

#[test]
fn test_type_check_div_ok() {
    let mut ids = IdGen::new();
    let main = ids.generate();
    let program = Program {
        funcs: vec![(
            main,
            Func {
                args: vec![],
                rets: 1,
                body: Block { stmts: vec![], tail: Expr::Op(0x04, vec![konst(84), konst(2)]) },
            },
        )],
    };
    assert!(type_check(&program).is_ok());
}

#[test]
fn test_type_check_div_err() {
    let mut ids = IdGen::new();
    let main = ids.generate();
    let program = Program {
        funcs: vec![(
            main,
            Func {
                args: vec![],
                rets: 1,
                body: Block { stmts: vec![], tail: Expr::Op(0x04, vec![konst(84)]) },
            },
        )],
    };
    assert!(type_check(&program).is_err());
}

#[test]
fn test_type_check_pop_err() {
    let mut ids = IdGen::new();
    let main = ids.generate();
    let x = ids.generate();
    let program = Program {
        funcs: vec![(
            main,
            Func {
                args: vec![],
                rets: 0,
                body: Block {
                    stmts: vec![Stmt::Let(Some(x), Expr::Op(0x50, vec![konst(42)]))],
                    tail: konst(0),
                },
            },
        )],
    };
    assert!(type_check(&program).is_err());
}

#[test]
fn test_type_check_rejects_void_arg_expr() {
    let mut ids = IdGen::new();
    let main = ids.generate();
    let program = Program {
        funcs: vec![(
            main,
            Func {
                args: vec![],
                rets: 1,
                body: Block {
                    stmts: vec![],
                    tail: Expr::Op(0x01, vec![Expr::Op(0x50, vec![konst(42)]), konst(1)]),
                },
            },
        )],
    };
    assert!(type_check(&program).is_err());
}

#[test]
fn test_type_check_func_ok() {
    assert!(checked("fn main() -> u256 { fn f(x) -> u256 { @add(x, 1) } f(0) }").is_ok());
}

#[test]
fn test_type_check_func_wrong_args() {
    assert!(checked("fn main() -> u256 { fn f(x) -> u256 { @add(x, 1) } f(0, 0) }").is_err());
}

#[test]
fn test_type_check_func_multiple_args() {
    assert!(checked("fn main() -> u256 { fn f(x, y) -> u256 { @add(x, y) } f(0, 0) }").is_ok());
}

#[test]
fn test_type_check_func_only_tail_calls() {
    assert!(checked("fn main() -> u256 { fn f(x) -> u256 { @add(x, 1) } let x = f(0); x }").is_err());
}

#[test]
fn test_type_check_func_in_tail_if_branch() {
    assert!(checked("fn main() -> u256 { fn f(x) -> u256 { @add(x, 1) } if 1 { f(0) } else { 0 } }").is_ok());
}

#[test]
fn test_type_check_func_recursive() {
    assert!(checked("fn main() -> u256 { fn f(x) -> u256 { if x { f(@sub(x, 1)) } else { 0 } } f(3) }").is_ok());
}

#[test]
fn type_errors_name_their_cause() {
    assert_eq!(checked("fn main() -> u256 { let x = @mstore(0, 1); 1 }"), Err(TypeError::VoidAssigned));
    assert_eq!(checked("fn main() -> u256 { @add(1) }"), Err(TypeError::WrongOperandCount));
    assert_eq!(checked("fn main() -> u256 { if @mstore(0, 1) { 1 } else { 2 } }"), Err(TypeError::ConditionNotValue));
    assert_eq!(checked("fn main() -> u256 { if 1 { 1 } else { @mstore(0, 1) } }"), Err(TypeError::BranchSizeMismatch));
    assert_eq!(checked("fn main() -> u256 { f(1) } fn f() -> u256 { 1 }"), Err(TypeError::WrongArgumentCount));
    assert_eq!(checked("fn main() -> u256 { 1 } fn f(x) -> u256 { x(1) }"), Err(TypeError::NotAProcedure));
    assert_eq!(checked("fn main() -> u256 { f } fn f() -> u256 { 1 }"), Err(TypeError::NotAValue));
}

#[test]
fn test_lower_func() {
    let mut ids = IdGen::new();
    let ast = parse("fn main() -> u256 { fn f(x) -> u256 { @add(x, 1) } f(0) }").unwrap();
    let ast = resolve(&ast, &mut ids).unwrap();
    let ir = lower(ast, &mut ids);

    let (Some(f), ir::Expr::Join(args, rets, body)) = &ir.main.priors[0] else {
        panic!("expected lowered join");
    };
    let [x] = args.as_slice() else {
        panic!("expected one join argument");
    };
    assert_eq!(rets, &1);
    assert!(matches!(body.tail, ir::TailExpr::Var(_)));
    assert!(matches!(ir.main.tail, ir::TailExpr::Jump(target, _) if target == *f));
    assert_ne!(f, x);
}

#[test]
fn lowering_binds_operands_to_fresh_variables() {
    let mut ids = IdGen::new();
    let ast = parse("fn main() -> u256 { @add(1, @mul(2, 3)) }").unwrap();
    let ast = resolve(&ast, &mut ids).unwrap();
    let ir = lower(ast, &mut ids);
    // 1, 2, 3 and the product become bindings, then the sum is bound for the tail.
    assert_eq!(ir.main.priors.len(), 5);
    assert!(matches!(ir.main.tail, ir::TailExpr::Var(_)));
    assert!(matches!(ir.main.priors[4].1, ir::Expr::Op(0x01, _)));
}

#[test]
fn lowering_drops_the_value_of_a_void_tail() {
    let mut ids = IdGen::new();
    let ast = parse("fn main() { @mstore(0, 1) }").unwrap();
    let ast = resolve(&ast, &mut ids).unwrap();
    let ir = lower(ast, &mut ids);
    assert!(matches!(ir.main.tail, ir::TailExpr::Unit));
    assert!(matches!(ir.main.priors.last(), Some((None, ir::Expr::Op(0x52, _)))));
}

#[test]
fn resolve_errors_name_the_culprit() {
    let mut ids = IdGen::new();
    let ast = parse("fn main() -> u256 { y }").unwrap();
    let e = resolve(&ast, &mut ids).unwrap_err();
    assert_eq!(e.kind, ResolveErrorKind::UnboundVariable);
    assert_eq!(e.name, b"y".to_vec());

    let ast = parse("fn f() { 1 } fn f() { 2 }").unwrap();
    let e = resolve(&ast, &mut IdGen::new()).unwrap_err();
    assert_eq!(e.kind, ResolveErrorKind::DuplicateProcedure);

    let ast = parse("fn f(a, a) { 1 }").unwrap();
    let e = resolve(&ast, &mut IdGen::new()).unwrap_err();
    assert_eq!(e.kind, ResolveErrorKind::DuplicateArgument);

    let ast = parse("fn main() -> u256 { g(1) }").unwrap();
    let e = resolve(&ast, &mut IdGen::new()).unwrap_err();
    assert_eq!(e.kind, ResolveErrorKind::UnboundProcedure);
}

#[test]
fn parse_reads_decimal_constants_of_a_full_word() {
    let p = parse("fn main() -> u256 { 115792089237316195423570985008687907853269984665640564039457584007913129639935 }").unwrap();
    match &p.funcs[0].1.body.tail {
        Expr::Const(c) => assert_eq!(c.be_bytes, [0xff; 32]),
        _ => panic!("expected a constant"),
    }
    assert!(parse("fn main() -> u256 { 115792089237316195423570985008687907853269984665640564039457584007913129639936 }").is_err());
}

#[test]
fn parse_builds_the_tree() {
    let p = parse("fn main() -> u256 { let x = @add(1, 2); x }\nfn g(a, b) { }").unwrap();
    assert_eq!(p.funcs.len(), 2);
    assert_eq!(p.funcs[0].0, b"main".to_vec());
    assert_eq!(p.funcs[0].1.rets, 1);
    assert_eq!(p.funcs[1].1.args, vec![b"a".to_vec(), b"b".to_vec()]);
    assert_eq!(p.funcs[1].1.rets, 0);
    match &p.funcs[0].1.body.stmts[0] {
        Stmt::Let(Some(x), Expr::Op(0x01, args)) => {
            assert_eq!(x, &b"x".to_vec());
            assert_eq!(args.len(), 2);
        }
        _ => panic!("expected a let of an addition"),
    }
}
