use evml::{compile_from_source, CompileError, Error};
use revm::context::tx::TxEnvBuilder;
use revm::interpreter::interpreter_types::LoopControl;
use revm::interpreter::{InstructionResult, Interpreter};
use revm::primitives::{Bytes, U256};
use revm::{Context, InspectEvm, Inspector, MainBuilder, MainContext};

struct StackInspector(Option<(InstructionResult, Vec<U256>)>);

impl<CTX> Inspector<CTX> for StackInspector {
    fn step_end(&mut self, interp: &mut Interpreter, _context: &mut CTX) {
        if interp.bytecode.is_end() {
            let result = interp.bytecode.instruction_result().unwrap();
            let stack = std::mem::take(&mut interp.stack).into_data();
            self.0 = Some((result, stack));
        }
    }
}

fn run(code: &[u8]) -> Vec<U256> {
    let mut evm = Context::mainnet().build_mainnet_with_inspector(StackInspector(None));
    let tx = TxEnvBuilder::new().create().data(Bytes::copy_from_slice(code)).build_fill();
    evm.inspect_one_tx(tx).expect("execution failed");
    evm.inspector.0.expect("execution did not stop").1
}

fn assert_e2e_result(result: u64, source: &str) {
    let bytecode = compile_from_source(source).unwrap();
    let stack = run(&bytecode);
    assert_eq!(stack, vec![U256::from(result)]);
}

#[test]
fn test_e2e_const() {
    assert_e2e_result(42, "fn main() -> u256 { 42 }");
}

#[test]
fn test_e2e_op() {
    assert_e2e_result(42, "fn main() -> u256 { @div(84, 2) }");
}

#[test]
fn test_e2e_let() {
    assert_e2e_result(42, r#"
        fn main() -> u256 {
            let x = 2;
            let y = @div(84, x);
            let unused = 99;
            y
        }
    "#);
}

#[test]
fn values_deeper_than_sixteen_slots_are_refused_by_the_assembler() {
    let r = compile_from_source(r#"
        fn main() -> u256 {
            let v1 = 1;
            let v2 = 2;
            let v3 = 3;
            let v4 = 4;
            let v5 = 5;
            let v6 = 6;
            let v7 = 7;
            let v8 = 8;
            let v9 = 9;
            let v10 = 10;
            let v11 = 11;
            let v12 = 12;
            let v13 = 13;
            let v14 = 14;
            let v15 = 15;
            let v16 = 16;
            let v17 = 17;
            let v18 = 18;
            let v19 = 19;
            let v20 = 20;
            @add(v1, v20)
        }
    "#);
    assert!(matches!(r, Err(Error::Assemble)));
}

#[test]
fn test_e2e_if() {
    assert_e2e_result(1, "fn main() -> u256 { if 1 { 1 } else { 0 } }");
    assert_e2e_result(0, "fn main() -> u256 { if 0 { 1 } else { 0 } }");
    assert_e2e_result(10, "fn main() -> u256 { if @gt(5, 3) { 10 } else { 20 } }");
}

#[test]
fn test_e2e_if_nested() {
    assert_e2e_result(11, r#"
        fn main() -> u256 {
            let a = 1;
            let b = 0;
            if a { if b { 10 } else { 11 } } else { 12 }
        }
    "#);
}

#[test]
fn test_e2e_if_without_else() {
    assert_e2e_result(42, r#"
        fn main() -> u256 {
            if 1 { @mstore(0, 42) };
            @mload(0)
        }
    "#);
}

#[test]
fn test_e2e_apply() {
    assert_e2e_result(16, r#"
        fn main() -> u256 {
            let x = double(4);
            double(x)
        }
        fn double(x) -> u256 { @mul(x, 2) }
    "#);
}

#[test]
fn test_e2e_apply_multiple_args() {
    assert_e2e_result(11, r#"
        fn main() -> u256 {
            let x = 7;
            add(3, x, 1)
        }
        fn add(a, b, c) -> u256 {
            let r = @add(a, b);
            @add(r, c)
        }
    "#);
}

#[test]
fn test_e2e_args_left_to_right() {
    assert_e2e_result(12, r#"
        fn main() -> u256 {
            @mstore(0, 5);
            @add(store_and_return_old(7), store_and_return_old(11))
        }
        fn store_and_return_old(x) -> u256 {
            let old = @mload(0);
            @mstore(0, x);
            old
        }
    "#);
}

#[test]
fn test_e2e_apply_args_eval_left_to_right() {
    assert_e2e_result(12, r#"
        fn main() -> u256 {
            @mstore(0, 5);
            add(store_and_return_old(7), store_and_return_old(11))
        }
        fn add(a, b) -> u256 { @add(a, b) }
        fn store_and_return_old(x) -> u256 {
            let old = @mload(0);
            @mstore(0, x);
            old
        }
    "#);
}

#[test]
fn test_e2e_tail_call() {
    assert_e2e_result(42, r#"
        fn main() -> u256 { outer(21) }
        fn outer(x) -> u256 { inner(x) }
        fn inner(x) -> u256 { @mul(x, 2) }
    "#);
}

#[test]
fn test_e2e_local_func_rejects_outer_block_continuation() {
    assert!(compile_from_source(r#"
        fn main() -> u256 {
            fn k(x) -> u256 { x }
            let y = if 1 {
                k(10)
            } else {
                20
            };
            @add(y, 1)
        }
    "#).is_err());
}

#[test]
fn test_e2e_if_in_apply() {
    assert_e2e_result(10, r#"
        fn main() -> u256 { choose(1) }
        fn choose(x) -> u256 { if x { 10 } else { 20 } }
    "#);
}

#[test]
fn test_e2e_apply_in_if_expr() {
    assert_e2e_result(9, r#"
        fn main() -> u256 {
            let x = if 1 { double(4) } else { double(5) };
            @add(x, 1)
        }
        fn double(x) -> u256 { @mul(x, 2) }
    "#);
}

#[test]
fn test_e2e_void_proc() {
    assert_e2e_result(99, r#"
        fn main() -> u256 {
            store(99);
            @mload(0)
        }
        fn store(x) { @mstore(0, x) }
    "#);
}

#[test]
fn test_e2e_expr_statement_requires_void() {
    assert!(compile_from_source(r#"
        fn main() -> u256 {
            1;
            2
        }
    "#).is_err());
}

#[test]
fn test_e2e_stack_across_if() {
    assert_e2e_result(3, r#"
        fn main() -> u256 {
            let a = 1;
            let b = 2;
            let dead = 99;
            let r = if 1 { a } else { b };
            @add(r, b)
        }
    "#);
}

#[test]
fn test_e2e_recursive() {
    assert_e2e_result(55, r#"
        fn main() -> u256 {
            fib(10)
        }
        fn fib(n) -> u256 {
            let c = @lt(n, 2);
            if c {
                n
            } else {
                let a = @sub(n, 1);
                let b = @sub(n, 2);
                let fa = fib(a);
                let fb = fib(b);
                @add(fa, fb)
            }
        }
    "#);
}

#[test]
fn test_e2e_mutual_recursion() {
    assert_e2e_result(1, r#"
        fn main() -> u256 { is_even(4) }
        fn is_even(n) -> u256 {
            if n {
                let m = @sub(n, 1);
                is_odd(m)
            } else { 1 }
        }
        fn is_odd(n) -> u256 {
            if n {
                let m = @sub(n, 1);
                is_even(m)
            } else { 0 }
        }
    "#);
}

#[test]
fn test_e2e_if_as_prior() {
    assert_e2e_result(42, r#"
        fn main() -> u256 {
            let x = if 1 { 21 } else { 0 };
            let y = if 1 { 21 } else { 0 };
            @add(x, y)
        }
    "#);
}

#[test]
fn local_functions_are_not_placed_by_the_code_generator() {
    let r = compile_from_source(r#"
        fn main() -> u256 {
            fn twice(y) -> u256 { @add(y, y) }
            twice(5)
        }
    "#);
    assert!(matches!(r, Err(Error::Compile(CompileError::LocalFunction))));
}

#[test]
fn parse_errors_point_at_the_function_that_fails() {
    match compile_from_source("fn main() -> u256 { 42 ") {
        Err(Error::Parse(e)) => assert_eq!(e.offset, 0),
        _ => panic!("expected a parse error"),
    }
    match compile_from_source("fn main() -> u256 { 42 }\nfn broken( { }") {
        Err(Error::Parse(e)) => assert_eq!(e.offset, 25),
        _ => panic!("expected a parse error"),
    }
}

#[test]
fn empty_program_has_no_entry() {
    assert!(matches!(compile_from_source(""), Err(Error::NoEntry)));
}

#[test]
fn entry_with_arguments_is_refused() {
    assert!(matches!(compile_from_source("fn main(x) -> u256 { x }"), Err(Error::NoEntry)));
}

#[test]
fn unbound_variable_is_a_resolve_error() {
    assert!(matches!(compile_from_source("fn main() -> u256 { y }"), Err(Error::Resolve(_))));
}

#[test]
fn wrong_return_size_is_a_type_error() {
    assert!(matches!(
        compile_from_source("fn main() -> u256 { @mstore(0, 1) }"),
        Err(Error::Type(evml::TypeError::ReturnSizeMismatch))
    ));
}

#[test]
fn fifteen_constant_bindings_always_compile() {
    assert_e2e_result(24, r#"
        fn main() -> u256 {
            let c1 = 3;
            let c2 = 6;
            let c3 = 9;
            let c4 = 12;
            let c5 = 15;
            let c6 = 18;
            let c7 = 21;
            let c8 = 24;
            let c9 = 27;
            let c10 = 30;
            let c11 = 33;
            let c12 = 36;
            let c13 = 39;
            let c14 = 42;
            let c15 = 45;
            c8
        }
    "#);
}
