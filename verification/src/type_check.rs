//! Checks that every expression produces the number of values its context
//! expects and that local functions are only called in tail position of
//! the scope that defines them.

use vstd::prelude::*;
use std::collections::HashMap;
use crate::ast::{Block, Expr, Func, Program, Stmt};
use crate::opcodes::{self, opcode_arity};
use crate::Id;

verus! {

broadcast use vstd::std_specs::hash::group_hash_axioms;

/// What a name stands for.
#[derive(Clone, Copy, PartialEq, Eq, Structural, Debug)]
pub enum Type {
    Val,
    Proc { args: usize, rets: usize },
    Join { args: usize, rets: usize, depth: usize },
}

/// Why a program was rejected.
#[derive(Clone, Copy, PartialEq, Eq, Structural, Debug)]
pub enum TypeError {
    /// A function body produces another number of values than declared.
    ReturnSizeMismatch,
    /// A `let` binds a name to something other than one value, or drops a value.
    VoidAssigned,
    /// An argument expression does not produce exactly one value.
    ArgumentNotValue,
    /// A variable refers to something other than a value.
    NotAValue,
    /// An operation byte the language does not know.
    UnknownOpcode,
    /// An operation is given another number of operands than it takes.
    WrongOperandCount,
    /// A local function is called outside tail position.
    NotTailCall,
    /// A local function is called at the tail of another scope than its own.
    CallOutsideScope,
    /// A call names something that is not a procedure or local function.
    NotAProcedure,
    /// A call passes another number of arguments than declared.
    WrongArgumentCount,
    /// An `if` condition does not produce exactly one value.
    ConditionNotValue,
    /// The two branches of an `if` produce different numbers of values.
    BranchSizeMismatch,
    /// `if`s nest deeper than a machine word can count.
    NestingTooDeep,
}

pub type Env = Map<usize, Type>;

/// The environment with each argument bound to a value.
pub open spec fn bind_args(env: Env, args: Seq<Id>, n: int) -> Env
    decreases n,
{
    if n <= 0 {
        env
    } else {
        bind_args(env, args, n - 1).insert(args[n - 1].0, Type::Val)
    }
}

/// The environment of procedure names a program starts from.
pub open spec fn proc_env(funcs: Seq<(Id, Func<Id>)>, n: int) -> Env
    decreases n,
{
    if n <= 0 {
        Map::empty()
    } else {
        proc_env(funcs, n - 1).insert(
            funcs[n - 1].0.0,
            Type::Proc { args: funcs[n - 1].1.args@.len() as usize, rets: funcs[n - 1].1.rets },
        )
    }
}

/// The outcome of checking a function body against its declaration.
pub open spec fn check_func(f: Func<Id>, env: Env) -> Result<(), TypeError>
    decreases f, 3nat,
{
    match check_block(f.body, 0, bind_args(env, f.args@, f.args@.len() as int), 0) {
        Ok(rets) => if rets == f.rets {
            Ok(())
        } else {
            Err(TypeError::ReturnSizeMismatch)
        },
        Err(e) => Err(e),
    }
}

/// The number of values a block produces, from statement `i` on.
pub open spec fn check_block(b: Block<Id>, i: int, env: Env, depth: nat) -> Result<nat, TypeError>
    decreases b, 2nat, b.stmts@.len() - i,
{
    if i < 0 || i >= b.stmts@.len() {
        check_expr(b.tail, env, depth, true)
    } else {
        match b.stmts@[i] {
            Stmt::Let(x, e) => match check_expr(e, env, depth, false) {
                Ok(outputs) => if outputs != (if x is Some { 1nat } else { 0nat }) {
                    Err(TypeError::VoidAssigned)
                } else {
                    let env2 = match x {
                        Some(x) => env.insert(x.0, Type::Val),
                        None => env,
                    };
                    check_block(b, i + 1, env2, depth)
                },
                Err(e) => Err(e),
            },
            Stmt::Func(name, f) => {
                let env2 = env.insert(
                    name.0,
                    Type::Join { args: f.args@.len() as usize, rets: f.rets, depth: depth as usize },
                );
                match check_func(f, env2) {
                    Ok(()) => check_block(b, i + 1, env2, depth),
                    Err(e) => Err(e),
                }
            },
        }
    }
}

/// Whether each argument from `i` on produces one value.
pub open spec fn check_args(args: Seq<Expr<Id>>, i: int, env: Env, depth: nat) -> Result<(), TypeError>
    decreases args, 1nat, args.len() - i,
{
    if i < 0 || i >= args.len() {
        Ok(())
    } else {
        match check_expr(args[i], env, depth, false) {
            Ok(n) => if n == 1 {
                check_args(args, i + 1, env, depth)
            } else {
                Err(TypeError::ArgumentNotValue)
            },
            Err(e) => Err(e),
        }
    }
}

/// The number of values an expression produces.
pub open spec fn check_expr(e: Expr<Id>, env: Env, depth: nat, at_tail: bool) -> Result<nat, TypeError>
    decreases e, 0nat, 0int,
{
    match e {
        Expr::Unit => Ok(0),
        Expr::Const(_) => Ok(1),
        Expr::Var(x) => if env.contains_key(x.0) && env[x.0] == Type::Val {
            Ok(1)
        } else {
            Err(TypeError::NotAValue)
        },
        Expr::Op(op, args) => match opcode_arity(op) {
            None => Err(TypeError::UnknownOpcode),
            Some((inputs, outputs)) => if args@.len() != inputs {
                Err(TypeError::WrongOperandCount)
            } else {
                match check_args(args@, 0, env, depth) {
                    Ok(()) => Ok(outputs),
                    Err(e) => Err(e),
                }
            },
        },
        Expr::Apply(f, args) => {
            let callee: Result<(nat, nat), TypeError> = if !env.contains_key(f.0) {
                Err(TypeError::NotAProcedure)
            } else {
                match env[f.0] {
                    Type::Proc { args, rets } => Ok((args as nat, rets as nat)),
                    Type::Join { args, rets, depth: join_depth } => if !at_tail {
                        Err(TypeError::NotTailCall)
                    } else if depth != join_depth {
                        Err(TypeError::CallOutsideScope)
                    } else {
                        Ok((args as nat, rets as nat))
                    },
                    Type::Val => Err(TypeError::NotAProcedure),
                }
            };
            match callee {
                Err(e) => Err(e),
                Ok((expected, rets)) => if args@.len() != expected {
                    Err(TypeError::WrongArgumentCount)
                } else {
                    match check_args(args@, 0, env, depth) {
                        Ok(()) => Ok(rets),
                        Err(e) => Err(e),
                    }
                },
            }
        },
        Expr::IfThenElse(cond, then_block, else_block) => match check_expr(*cond, env, depth, false) {
            Err(e) => Err(e),
            Ok(n) => if n != 1 {
                Err(TypeError::ConditionNotValue)
            } else if !at_tail && depth >= usize::MAX {
                Err(TypeError::NestingTooDeep)
            } else {
                let branch_depth = if at_tail { depth } else { depth + 1 };
                match check_block(*then_block, 0, env, branch_depth) {
                    Err(e) => Err(e),
                    Ok(t) => match check_block(*else_block, 0, env, branch_depth) {
                        Err(e) => Err(e),
                        Ok(f) => if t == f {
                            Ok(t)
                        } else {
                            Err(TypeError::BranchSizeMismatch)
                        },
                    },
                }
            },
        },
    }
}

proof fn lemma_args_values(args: Seq<Expr<Id>>, i: int, env: Env, depth: nat)
    requires
        0 <= i,
        forall|k: int| 0 <= k < args.len() ==> #[trigger] check_expr(args[k], env, depth, false) == Ok::<nat, TypeError>(1),
    ensures
        check_args(args, i, env, depth) == Ok::<(), TypeError>(()),
    decreases args.len() - i,
{
    if i < args.len() {
        assert(check_expr(args[i], env, depth, false) == Ok::<nat, TypeError>(1));
        lemma_args_values(args, i + 1, env, depth);
    }
}

/// An operation is checked by its opcode's table entry alone: given as many
/// operands as the opcode takes, each producing one value, it produces the
/// opcode's outputs (whatever the count, none included); given another
/// number of operands it is refused for that.
pub proof fn lemma_operation_arity(op: u8, args: Vec<Expr<Id>>, env: Env, depth: nat, at_tail: bool)
    requires
        opcode_arity(op) is Some,
    ensures
        ({
            let (inputs, outputs) = opcode_arity(op).unwrap();
            &&& args@.len() == inputs && (forall|k: int| 0 <= k < args@.len()
                ==> #[trigger] check_expr(args@[k], env, depth, false) == Ok::<nat, TypeError>(1))
                ==> check_expr(Expr::Op(op, args), env, depth, at_tail) == Ok::<nat, TypeError>(outputs)
            &&& args@.len() != inputs
                ==> check_expr(Expr::Op(op, args), env, depth, at_tail) == Err::<nat, TypeError>(TypeError::WrongOperandCount)
        }),
{
    let (inputs, outputs) = opcode_arity(op).unwrap();
    if args@.len() == inputs && (forall|k: int| 0 <= k < args@.len()
        ==> #[trigger] check_expr(args@[k], env, depth, false) == Ok::<nat, TypeError>(1)) {
        lemma_args_values(args@, 0, env, depth);
    }
}

/// The outcome of checking every function of a program, in order, from `i` on.
pub open spec fn check_funcs(funcs: Seq<(Id, Func<Id>)>, i: int, env: Env) -> Result<(), TypeError>
    decreases funcs.len() - i,
{
    if i < 0 || i >= funcs.len() {
        Ok(())
    } else {
        match check_func(funcs[i].1, env) {
            Ok(()) => check_funcs(funcs, i + 1, env),
            Err(e) => Err(e),
        }
    }
}

/// The outcome of checking a whole program.
pub open spec fn check_program(p: Program<Id>) -> Result<(), TypeError> {
    check_funcs(p.funcs@, 0, proc_env(p.funcs@, p.funcs@.len() as int))
}


fn bind_args_exec(env: &mut HashMap<usize, Type>, args: &Vec<Id>)
    ensures
        final(env)@ == bind_args(old(env)@, args@, args@.len() as int),
{
    let mut i: usize = 0;
    while i < args.len()
        invariant
            i <= args@.len(),
            env@ == bind_args(old(env)@, args@, i as int),
        decreases args@.len() - i,
    {
        env.insert(args[i].0, Type::Val);
        i = i + 1;
    }
}

/// Checks a program: every function's body against its declaration.
pub fn type_check(program: &Program<Id>) -> (r: Result<(), TypeError>)
    ensures
        r == check_program(*program),
{
    let mut env: HashMap<usize, Type> = HashMap::new();
    let mut i: usize = 0;
    while i < program.funcs.len()
        invariant
            i <= program.funcs@.len(),
            env@ == proc_env(program.funcs@, i as int),
        decreases program.funcs@.len() - i,
    {
        let (name, func) = &program.funcs[i];
        env.insert(name.0, Type::Proc { args: func.args.len(), rets: func.rets });
        i = i + 1;
    }
    let mut i: usize = 0;
    while i < program.funcs.len()
        invariant
            i <= program.funcs@.len(),
            env@ == proc_env(program.funcs@, program.funcs@.len() as int),
            check_program(*program) == check_funcs(program.funcs@, i as int, env@),
        decreases program.funcs@.len() - i,
    {
        let (_, func) = &program.funcs[i];
        match type_check_func(func, &env) {
            Ok(()) => {},
            Err(e) => {
                return Err(e);
            },
        }
        i = i + 1;
    }
    Ok(())
}

fn type_check_func(f: &Func<Id>, env: &HashMap<usize, Type>) -> (r: Result<(), TypeError>)
    ensures
        r == check_func(*f, env@),
    decreases *f, 3nat,
{
    let mut env = env.clone();
    bind_args_exec(&mut env, &f.args);
    let rets = type_check_block(&f.body, env, 0)?;
    if rets != f.rets {
        return Err(TypeError::ReturnSizeMismatch);
    }
    Ok(())
}

fn type_check_block(block: &Block<Id>, env_in: HashMap<usize, Type>, tail_depth: usize) -> (r: Result<usize, TypeError>)
    ensures
        match (r, check_block(*block, 0, env_in@, tail_depth as nat)) {
            (Ok(a), Ok(b)) => a == b,
            (Err(a), Err(b)) => a == b,
            _ => false,
        },
    decreases *block, 2nat, block.stmts@.len() + 1,
{
    let ghost env0 = env_in@;
    let mut env = env_in;
    let mut i: usize = 0;
    while i < block.stmts.len()
        invariant
            i <= block.stmts@.len(),
            check_block(*block, 0, env0, tail_depth as nat) == check_block(*block, i as int, env@, tail_depth as nat),
            env0 == env_in@,
        decreases block.stmts@.len() - i,
    {
        let ghost before = env@;
        proof {
            assert(check_block(*block, i as int, before, tail_depth as nat) == match block.stmts@[i as int] {
                Stmt::Let(x, e) => match check_expr(e, before, tail_depth as nat, false) {
                    Ok(outputs) => if outputs != (if x is Some { 1nat } else { 0nat }) {
                        Err(TypeError::VoidAssigned)
                    } else {
                        let env2 = match x {
                            Some(x) => before.insert(x.0, Type::Val),
                            None => before,
                        };
                        check_block(*block, i + 1, env2, tail_depth as nat)
                    },
                    Err(e) => Err(e),
                },
                Stmt::Func(name, f) => {
                    let env2 = before.insert(
                        name.0,
                        Type::Join { args: f.args@.len() as usize, rets: f.rets, depth: tail_depth },
                    );
                    match check_func(f, env2) {
                        Ok(()) => check_block(*block, i + 1, env2, tail_depth as nat),
                        Err(e) => Err(e),
                    }
                },
            });
        }
        match &block.stmts[i] {
            Stmt::Let(x, e) => {
                let outputs = match type_check_expr(e, &env, tail_depth, false) {
                    Ok(n) => n,
                    Err(err) => {
                        return Err(err);
                    },
                };
                let expected: usize = if x.is_some() { 1 } else { 0 };
                if outputs != expected {
                    return Err(TypeError::VoidAssigned);
                }
                if let Some(x) = x {
                    env.insert(x.0, Type::Val);
                }
            },
            Stmt::Func(name, f) => {
                env.insert(name.0, Type::Join { args: f.args.len(), rets: f.rets, depth: tail_depth });
                match type_check_func(f, &env) {
                    Ok(()) => {},
                    Err(err) => {
                        return Err(err);
                    },
                }
            },
        }
        i = i + 1;
    }
    type_check_expr(&block.tail, &env, tail_depth, true)
}

fn type_check_args(args: &Vec<Expr<Id>>, env: &HashMap<usize, Type>, tail_depth: usize) -> (r: Result<(), TypeError>)
    ensures
        r == check_args(args@, 0, env@, tail_depth as nat),
    decreases args@, 1nat, args@.len() + 1,
{
    let mut i: usize = 0;
    while i < args.len()
        invariant
            i <= args@.len(),
            check_args(args@, 0, env@, tail_depth as nat) == check_args(args@, i as int, env@, tail_depth as nat),
        decreases args@.len() - i,
    {
        let n = type_check_expr(&args[i], env, tail_depth, false)?;
        if n != 1 {
            return Err(TypeError::ArgumentNotValue);
        }
        i = i + 1;
    }
    Ok(())
}

fn type_check_expr(expr: &Expr<Id>, env: &HashMap<usize, Type>, tail_depth: usize, at_tail: bool) -> (r: Result<usize, TypeError>)
    ensures
        match (r, check_expr(*expr, env@, tail_depth as nat, at_tail)) {
            (Ok(a), Ok(b)) => a == b,
            (Err(a), Err(b)) => a == b,
            _ => false,
        },
    decreases *expr, 0nat, 0int,
{
    match expr {
        Expr::Unit => Ok(0),
        Expr::Const(_) => Ok(1),
        Expr::Var(x) => {
            match env.get(&x.0) {
                Some(Type::Val) => Ok(1),
                _ => Err(TypeError::NotAValue),
            }
        },
        Expr::Op(op, args) => {
            let info = match opcodes::info(*op) {
                Some(info) => info,
                None => {
                    return Err(TypeError::UnknownOpcode);
                },
            };
            if args.len() != info.inputs {
                return Err(TypeError::WrongOperandCount);
            }
            type_check_args(args, env, tail_depth)?;
            Ok(info.outputs)
        },
        Expr::Apply(f, args) => {
            let (expected_args, rets) = match env.get(&f.0) {
                Some(Type::Proc { args, rets }) => (*args, *rets),
                Some(Type::Join { args, rets, depth: join_depth }) => {
                    if !at_tail {
                        return Err(TypeError::NotTailCall);
                    }
                    if tail_depth != *join_depth {
                        return Err(TypeError::CallOutsideScope);
                    }
                    (*args, *rets)
                },
                _ => {
                    return Err(TypeError::NotAProcedure);
                },
            };
            if args.len() != expected_args {
                return Err(TypeError::WrongArgumentCount);
            }
            type_check_args(args, env, tail_depth)?;
            Ok(rets)
        },
        Expr::IfThenElse(cond, then_block, else_block) => {
            let outputs = type_check_expr(cond, env, tail_depth, false)?;
            if outputs != 1 {
                return Err(TypeError::ConditionNotValue);
            }
            if !at_tail && tail_depth == usize::MAX {
                return Err(TypeError::NestingTooDeep);
            }
            let branch_depth = if at_tail { tail_depth } else { tail_depth + 1 };
            let then_outputs = type_check_block(then_block, env.clone(), branch_depth)?;
            let else_outputs = type_check_block(else_block, env.clone(), branch_depth)?;
            if then_outputs != else_outputs {
                return Err(TypeError::BranchSizeMismatch);
            }
            Ok(then_outputs)
        },
    }
}

} // verus!

