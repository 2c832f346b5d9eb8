//! Lowers the surface syntax to the intermediate form: operands become
//! variables, nested operations become earlier bindings ("priors"), and
//! local functions become join points.

use vstd::prelude::*;
use std::collections::HashSet;
use crate::ast;
use crate::ir::{self, BlockM, ExprM, TailM};
use crate::opcodes::{self, opcode_arity};
use crate::resolve::{add_checked, counted};
use crate::type_check::{self, check_args, check_block, check_expr, check_func, check_funcs, check_program};
use crate::{Id, IdGen};

verus! {

broadcast use vstd::std_specs::hash::group_hash_axioms;

/// The state threaded through lowering: the bindings emitted so far in
/// the current block, the next fresh identifier, and the names of the
/// local functions seen so far.
pub struct Lowering {
    pub priors: Seq<(Option<Id>, ExprM)>,
    pub next: nat,
    pub joins: Set<usize>,
}

/// Whether every operation that ends a block inside an expression is one
/// the language knows: lowering asks how many values such an operation
/// produces.
pub open spec fn ops_known_expr(e: ast::Expr<Id>) -> bool
    decreases e, 0nat, 0int,
{
    match e {
        ast::Expr::Op(op, args) => ops_known_args(args@, args@.len() as int),
        ast::Expr::Apply(_, args) => ops_known_args(args@, args@.len() as int),
        ast::Expr::IfThenElse(c, t, f) => ops_known_expr(*c) && ops_known_block(*t) && ops_known_block(*f),
        _ => true,
    }
}

pub open spec fn ops_known_args(args: Seq<ast::Expr<Id>>, n: int) -> bool
    decreases args, 1nat, n,
{
    if n <= 0 || n > args.len() {
        true
    } else {
        ops_known_args(args, n - 1) && ops_known_expr(args[n - 1])
    }
}

pub open spec fn ops_known_stmts(b: ast::Block<Id>, n: int) -> bool
    decreases b, 1nat, n,
{
    if n <= 0 || n > b.stmts@.len() {
        true
    } else {
        ops_known_stmts(b, n - 1) && match b.stmts@[n - 1] {
            ast::Stmt::Let(_, e) => ops_known_expr(e),
            ast::Stmt::Func(_, f) => ops_known_block(f.body),
        }
    }
}

pub open spec fn ops_known_block(b: ast::Block<Id>) -> bool
    decreases b, 2nat, 0int,
{
    &&& ops_known_stmts(b, b.stmts@.len() as int)
    &&& ops_known_expr(b.tail)
    &&& (b.tail matches ast::Expr::Op(op, _) ==> opcode_arity(op) is Some)
}

/// Whether every operation that ends a block of a program is one the
/// language knows.
pub open spec fn ops_known(p: ast::Program<Id>) -> bool {
    forall|i: int| 0 <= i < p.funcs@.len() ==> #[trigger] ops_known_block(p.funcs@[i].1.body)
}

proof fn lemma_args_known_from(args: Seq<ast::Expr<Id>>, n: int)
    requires
        n <= args.len(),
        forall|j: int| 0 <= j < n ==> #[trigger] ops_known_expr(args[j]),
    ensures
        ops_known_args(args, n),
    decreases n,
{
    if n > 0 {
        lemma_args_known_from(args, n - 1);
        assert(ops_known_expr(args[n - 1]));
    }
}

proof fn lemma_stmts_known_from(b: ast::Block<Id>, n: int)
    requires
        n <= b.stmts@.len(),
        forall|j: int| 0 <= j < n ==> match #[trigger] b.stmts@[j] {
            ast::Stmt::Let(_, e) => ops_known_expr(e),
            ast::Stmt::Func(_, f) => ops_known_block(f.body),
        },
    ensures
        ops_known_stmts(b, n),
    decreases n,
{
    if n > 0 {
        lemma_stmts_known_from(b, n - 1);
    }
}

proof fn lemma_checked_expr(e: ast::Expr<Id>, env: type_check::Env, depth: nat, at_tail: bool)
    requires
        check_expr(e, env, depth, at_tail) is Ok,
    ensures
        ops_known_expr(e),
        e matches ast::Expr::Op(op, _) ==> opcode_arity(op) is Some,
    decreases e, 0nat, 0int,
{
    match e {
        ast::Expr::Op(op, args) => {
            lemma_checked_args(args@, 0, env, depth);
            lemma_args_known_from(args@, args@.len() as int);
        },
        ast::Expr::Apply(f, args) => {
            lemma_checked_args(args@, 0, env, depth);
            lemma_args_known_from(args@, args@.len() as int);
        },
        ast::Expr::IfThenElse(c, t, f) => {
            lemma_checked_expr(*c, env, depth, false);
            let bd = if at_tail { depth } else { depth + 1 };
            lemma_checked_block(*t, 0, env, bd);
            lemma_checked_block(*f, 0, env, bd);
        },
        _ => {},
    }
}

proof fn lemma_checked_args(args: Seq<ast::Expr<Id>>, i: int, env: type_check::Env, depth: nat)
    requires
        0 <= i,
        check_args(args, i, env, depth) is Ok,
    ensures
        forall|j: int| i <= j < args.len() ==> #[trigger] ops_known_expr(args[j]),
    decreases args, 1nat, args.len() - i,
{
    if i < args.len() {
        lemma_checked_expr(args[i], env, depth, false);
        lemma_checked_args(args, i + 1, env, depth);
    }
}

proof fn lemma_checked_block(b: ast::Block<Id>, i: int, env: type_check::Env, depth: nat)
    requires
        0 <= i,
        check_block(b, i, env, depth) is Ok,
    ensures
        forall|j: int| i <= j < b.stmts@.len() ==> match #[trigger] b.stmts@[j] {
            ast::Stmt::Let(_, e) => ops_known_expr(e),
            ast::Stmt::Func(_, f) => ops_known_block(f.body),
        },
        ops_known_expr(b.tail),
        b.tail matches ast::Expr::Op(op, _) ==> opcode_arity(op) is Some,
        i == 0 ==> ops_known_block(b),
    decreases b, 2nat, b.stmts@.len() - i,
{
    if i >= b.stmts@.len() {
        lemma_checked_expr(b.tail, env, depth, true);
    } else {
        match b.stmts@[i] {
            ast::Stmt::Let(x, e) => {
                lemma_checked_expr(e, env, depth, false);
                let env2 = match x {
                    Some(x) => env.insert(x.0, type_check::Type::Val),
                    None => env,
                };
                lemma_checked_block(b, i + 1, env2, depth);
            },
            ast::Stmt::Func(name, f) => {
                let env2 = env.insert(
                    name.0,
                    type_check::Type::Join { args: f.args@.len() as usize, rets: f.rets, depth: depth as usize },
                );
                lemma_checked_func(f, env2);
                lemma_checked_block(b, i + 1, env2, depth);
            },
        }
    }
    if i == 0 {
        lemma_stmts_known_from(b, b.stmts@.len() as int);
    }
}

proof fn lemma_checked_func(f: ast::Func<Id>, env: type_check::Env)
    requires
        check_func(f, env) is Ok,
    ensures
        ops_known_block(f.body),
    decreases f, 3nat,
{
    lemma_checked_block(f.body, 0, type_check::bind_args(env, f.args@, f.args@.len() as int), 0);
}

proof fn lemma_checked_funcs(funcs: Seq<(Id, ast::Func<Id>)>, i: int, env: type_check::Env)
    requires
        0 <= i,
        check_funcs(funcs, i, env) is Ok,
    ensures
        forall|j: int| i <= j < funcs.len() ==> #[trigger] ops_known_block(funcs[j].1.body),
    decreases funcs.len() - i,
{
    if i < funcs.len() {
        lemma_checked_func(funcs[i].1, env);
        lemma_checked_funcs(funcs, i + 1, env);
    }
}

/// A program that passes the type check uses only operations the language
/// knows, so lowering never asks about an unknown one.
pub proof fn lemma_checked_ops_known(p: ast::Program<Id>)
    requires
        check_program(p) is Ok,
    ensures
        ops_known(p),
{
    lemma_checked_funcs(p.funcs@, 0, type_check::proc_env(p.funcs@, p.funcs@.len() as int));
}

/// Lowers an expression, emitting bindings for its operands.
pub open spec fn low_expr(e: ast::Expr<Id>, st: Lowering) -> (ExprM, Lowering)
    decreases e, 0nat, 0int,
{
    match e {
        ast::Expr::Unit => (ExprM::Unit, st),
        ast::Expr::Const(c) => (ExprM::Const(c), st),
        ast::Expr::Var(x) => (ExprM::Var(x), st),
        ast::Expr::Op(op, args) => {
            let (ids, st1) = low_args(args@, args@.len() as int, st);
            (ExprM::Op(op, ids), st1)
        },
        ast::Expr::Apply(f, args) => {
            let (ids, st1) = low_args(args@, args@.len() as int, st);
            (ExprM::Apply(f, ids), st1)
        },
        ast::Expr::IfThenElse(c, t, f) => {
            let (x, st1) = low_to_var(*c, st);
            let (tb, n2, j2) = low_block(*t, st1.next, st1.joins);
            let (fb, n3, j3) = low_block(*f, n2, j2);
            (
                ExprM::IfThenElse(x, Box::new(tb), Box::new(fb)),
                Lowering { priors: st1.priors, next: n3, joins: j3 },
            )
        },
    }
}

/// Lowers an expression to a variable, binding it to a fresh one unless
/// it already is one.
pub open spec fn low_to_var(e: ast::Expr<Id>, st: Lowering) -> (Id, Lowering)
    decreases e, 1nat, 0int,
{
    let (le, st1) = low_expr(e, st);
    match le {
        ExprM::Var(x) => (x, st1),
        _ => {
            let x = Id(st1.next as usize);
            (x, Lowering { priors: st1.priors.push((Some(x), le)), next: st1.next + 1, joins: st1.joins })
        },
    }
}

/// Lowers the first `n` arguments, left to right.
pub open spec fn low_args(args: Seq<ast::Expr<Id>>, n: int, st: Lowering) -> (Seq<Id>, Lowering)
    decreases args, 1nat, n,
{
    if n <= 0 || n > args.len() {
        (Seq::empty(), st)
    } else {
        let (ids, st1) = low_args(args, n - 1, st);
        let (x, st2) = low_to_var(args[n - 1], st1);
        (ids.push(x), st2)
    }
}

/// Lowers the first `n` statements of a block.
pub open spec fn low_stmts(b: ast::Block<Id>, n: int, st: Lowering) -> Lowering
    decreases b, 1nat, n,
{
    if n <= 0 || n > b.stmts@.len() {
        st
    } else {
        let st1 = low_stmts(b, n - 1, st);
        match b.stmts@[n - 1] {
            ast::Stmt::Let(x, e) => {
                let (le, st2) = low_expr(e, st1);
                Lowering { priors: st2.priors.push((x, le)), next: st2.next, joins: st2.joins }
            },
            ast::Stmt::Func(name, f) => {
                let (body, n2, j2) = low_block(f.body, st1.next, st1.joins.insert(name.0));
                Lowering {
                    priors: st1.priors.push((Some(name), ExprM::Join(f.args@, f.rets, Box::new(body)))),
                    next: n2,
                    joins: j2,
                }
            },
        }
    }
}

/// Turns the lowered tail expression of a block into a tail.
pub open spec fn low_tail(e: ExprM, st: Lowering) -> (TailM, Lowering) {
    match e {
        ExprM::Unit => (TailM::Unit, st),
        ExprM::Var(x) => (TailM::Var(x), st),
        ExprM::Apply(f, args) => if st.joins.contains(f.0) {
            (TailM::Jump(f, args), st)
        } else {
            (TailM::Apply(f, args), st)
        },
        ExprM::IfThenElse(c, t, f) => (TailM::IfThenElse(c, t, f), st),
        ExprM::Op(op, _) => if opcode_arity(op) matches Some((_, outputs)) && outputs == 0 {
            (TailM::Unit, Lowering { priors: st.priors.push((None, e)), next: st.next, joins: st.joins })
        } else {
            let x = Id(st.next as usize);
            (TailM::Var(x), Lowering { priors: st.priors.push((Some(x), e)), next: st.next + 1, joins: st.joins })
        },
        _ => {
            let x = Id(st.next as usize);
            (TailM::Var(x), Lowering { priors: st.priors.push((Some(x), e)), next: st.next + 1, joins: st.joins })
        },
    }
}

/// Lowers a block, given the next fresh identifier and the local
/// functions seen so far; returns the block, the next fresh identifier
/// and the local functions seen afterwards.
pub open spec fn low_block(b: ast::Block<Id>, next: nat, joins: Set<usize>) -> (BlockM, nat, Set<usize>)
    decreases b, 2nat, 0int,
{
    let st1 = low_stmts(b, b.stmts@.len() as int, Lowering { priors: Seq::empty(), next, joins });
    let (te, st2) = low_expr(b.tail, st1);
    let (tail, st3) = low_tail(te, st2);
    (BlockM { priors: st3.priors, tail }, st3.next, st3.joins)
}


/// The model of a lowered program, and the next fresh identifier after it.
pub open spec fn low_procs(funcs: Seq<(Id, ast::Func<Id>)>, n: int, next: nat) -> (Seq<(Id, ir::ProcM)>, nat)
    decreases n,
{
    if n <= 1 || n > funcs.len() {
        (Seq::empty(), next)
    } else {
        let (procs, next1) = low_procs(funcs, n - 1, next);
        let f = funcs[n - 1].1;
        let (body, next2, _) = low_block(f.body, next1, Set::empty());
        (procs.push((funcs[n - 1].0, ir::ProcM { args: f.args@, rets: f.rets, body })), next2)
    }
}

/// Lowering a program: its first function becomes the entry block, the
/// others procedures.
pub open spec fn low_program(p: ast::Program<Id>, next: nat) -> (ir::ProgramM, nat) {
    let main = p.funcs@[0].1;
    let (main_body, next1, _) = low_block(main.body, next, Set::empty());
    let (procs, next2) = low_procs(p.funcs@, p.funcs@.len() as int, next1);
    (ir::ProgramM { main: main_body, rets: main.rets, procs }, next2)
}

pub open spec fn state(priors: Seq<(Option<Id>, ir::Expr)>, ids: IdGen, joins: Set<usize>) -> Lowering {
    Lowering { priors: ir::model_priors(priors, priors.len() as int), next: ids.next(), joins }
}

proof fn lemma_mono_expr(e: ast::Expr<Id>, st: Lowering)
    ensures
        low_expr(e, st).1.next >= st.next,
    decreases e, 0nat, 0int,
{
    match e {
        ast::Expr::Op(op, args) => lemma_mono_args(args@, args@.len() as int, st),
        ast::Expr::Apply(f, args) => lemma_mono_args(args@, args@.len() as int, st),
        ast::Expr::IfThenElse(c, t, f) => {
            lemma_mono_to_var(*c, st);
            let st1 = low_to_var(*c, st).1;
            lemma_mono_block(*t, st1.next, st1.joins);
            let (tb, n2, j2) = low_block(*t, st1.next, st1.joins);
            lemma_mono_block(*f, n2, j2);
        },
        _ => {},
    }
}

proof fn lemma_mono_to_var(e: ast::Expr<Id>, st: Lowering)
    ensures
        low_to_var(e, st).1.next >= st.next,
    decreases e, 1nat, 0int,
{
    lemma_mono_expr(e, st);
}

proof fn lemma_mono_args(args: Seq<ast::Expr<Id>>, n: int, st: Lowering)
    requires
        n <= args.len(),
    ensures
        low_args(args, n, st).1.next >= st.next,
        forall|m: int| 0 <= m <= n ==> low_args(args, n, st).1.next >= #[trigger] low_args(args, m, st).1.next,
    decreases args, 1nat, n,
{
    if n > 0 && n <= args.len() {
        lemma_mono_args(args, n - 1, st);
        lemma_mono_to_var(args[n - 1], low_args(args, n - 1, st).1);
    }
}

proof fn lemma_mono_stmts(b: ast::Block<Id>, n: int, st: Lowering)
    requires
        n <= b.stmts@.len(),
    ensures
        low_stmts(b, n, st).next >= st.next,
        forall|m: int| 0 <= m <= n ==> low_stmts(b, n, st).next >= #[trigger] low_stmts(b, m, st).next,
    decreases b, 1nat, n,
{
    if n > 0 && n <= b.stmts@.len() {
        lemma_mono_stmts(b, n - 1, st);
        let st1 = low_stmts(b, n - 1, st);
        match b.stmts@[n - 1] {
            ast::Stmt::Let(x, e) => lemma_mono_expr(e, st1),
            ast::Stmt::Func(name, f) => lemma_mono_block(f.body, st1.next, st1.joins.insert(name.0)),
        }
    }
}

proof fn lemma_mono_block(b: ast::Block<Id>, next: nat, joins: Set<usize>)
    ensures
        low_block(b, next, joins).1 >= next,
    decreases b, 2nat, 0int,
{
    let st0 = Lowering { priors: Seq::empty(), next, joins };
    lemma_mono_stmts(b, b.stmts@.len() as int, st0);
    let st1 = low_stmts(b, b.stmts@.len() as int, st0);
    lemma_mono_expr(b.tail, st1);
}

proof fn lemma_mono_procs(funcs: Seq<(Id, ast::Func<Id>)>, n: int, next: nat)
    requires
        n <= funcs.len(),
    ensures
        forall|m: int| 0 <= m <= n ==> low_procs(funcs, n, next).1 >= #[trigger] low_procs(funcs, m, next).1,
        low_procs(funcs, n, next).1 >= next,
    decreases n,
{
    if n > 1 && n <= funcs.len() {
        lemma_mono_procs(funcs, n - 1, next);
        lemma_mono_block(funcs[n - 1].1.body, low_procs(funcs, n - 1, next).1, Set::empty());
    }
}

/// How many identifiers lowering an expression may hand out: one for
/// each operand and condition, and those of the blocks inside.
pub open spec fn lw_expr(e: ast::Expr<Id>) -> nat
    decreases e, 0nat, 0int,
{
    match e {
        ast::Expr::Op(_, args) => lw_args(args@, args@.len() as int),
        ast::Expr::Apply(_, args) => lw_args(args@, args@.len() as int),
        ast::Expr::IfThenElse(c, t, f) => 1 + lw_expr(*c) + lw_block(*t) + lw_block(*f),
        _ => 0,
    }
}

pub open spec fn lw_args(args: Seq<ast::Expr<Id>>, n: int) -> nat
    decreases args, 1nat, n,
{
    if n <= 0 || n > args.len() {
        0
    } else {
        lw_args(args, n - 1) + 1 + lw_expr(args[n - 1])
    }
}

pub open spec fn lw_stmts(b: ast::Block<Id>, n: int) -> nat
    decreases b, 1nat, n,
{
    if n <= 0 || n > b.stmts@.len() {
        0
    } else {
        lw_stmts(b, n - 1) + match b.stmts@[n - 1] {
            ast::Stmt::Let(_, e) => lw_expr(e),
            ast::Stmt::Func(_, f) => lw_block(f.body),
        }
    }
}

/// How many identifiers lowering a block may hand out: those of its
/// statements and tail, and one more for the tail's value.
pub open spec fn lw_block(b: ast::Block<Id>) -> nat
    decreases b, 2nat, 0int,
{
    lw_stmts(b, b.stmts@.len() as int) + lw_expr(b.tail) + 1
}

pub open spec fn lw_funcs(funcs: Seq<(Id, ast::Func<Id>)>, n: int) -> nat
    decreases n,
{
    if n <= 0 || n > funcs.len() {
        0
    } else {
        lw_funcs(funcs, n - 1) + lw_block(funcs[n - 1].1.body)
    }
}

/// How many identifiers lowering a program may hand out.
pub open spec fn lw_program(p: ast::Program<Id>) -> nat {
    lw_funcs(p.funcs@, p.funcs@.len() as int)
}

proof fn lemma_bound_expr(e: ast::Expr<Id>, st: Lowering)
    ensures
        low_expr(e, st).1.next <= st.next + lw_expr(e),
    decreases e, 0nat, 0int,
{
    match e {
        ast::Expr::Op(op, args) => lemma_bound_args(args@, args@.len() as int, st),
        ast::Expr::Apply(f, args) => lemma_bound_args(args@, args@.len() as int, st),
        ast::Expr::IfThenElse(c, t, f) => {
            lemma_bound_to_var(*c, st);
            let st1 = low_to_var(*c, st).1;
            lemma_bound_block(*t, st1.next, st1.joins);
            let (tb, n2, j2) = low_block(*t, st1.next, st1.joins);
            lemma_bound_block(*f, n2, j2);
        },
        _ => {},
    }
}

proof fn lemma_bound_to_var(e: ast::Expr<Id>, st: Lowering)
    ensures
        low_to_var(e, st).1.next <= st.next + lw_expr(e) + 1,
    decreases e, 1nat, 0int,
{
    lemma_bound_expr(e, st);
}

proof fn lemma_bound_args(args: Seq<ast::Expr<Id>>, n: int, st: Lowering)
    requires
        n <= args.len(),
    ensures
        low_args(args, n, st).1.next <= st.next + lw_args(args, n),
    decreases args, 1nat, n,
{
    if n > 0 && n <= args.len() {
        lemma_bound_args(args, n - 1, st);
        lemma_bound_to_var(args[n - 1], low_args(args, n - 1, st).1);
    }
}

proof fn lemma_bound_stmts(b: ast::Block<Id>, n: int, st: Lowering)
    requires
        n <= b.stmts@.len(),
    ensures
        low_stmts(b, n, st).next <= st.next + lw_stmts(b, n),
    decreases b, 1nat, n,
{
    if n > 0 && n <= b.stmts@.len() {
        lemma_bound_stmts(b, n - 1, st);
        let st1 = low_stmts(b, n - 1, st);
        match b.stmts@[n - 1] {
            ast::Stmt::Let(x, e) => lemma_bound_expr(e, st1),
            ast::Stmt::Func(name, f) => lemma_bound_block(f.body, st1.next, st1.joins.insert(name.0)),
        }
    }
}

proof fn lemma_bound_block(b: ast::Block<Id>, next: nat, joins: Set<usize>)
    ensures
        low_block(b, next, joins).1 <= next + lw_block(b),
    decreases b, 2nat, 0int,
{
    let st0 = Lowering { priors: Seq::empty(), next, joins };
    lemma_bound_stmts(b, b.stmts@.len() as int, st0);
    let st1 = low_stmts(b, b.stmts@.len() as int, st0);
    lemma_bound_expr(b.tail, st1);
}

proof fn lemma_bound_procs(funcs: Seq<(Id, ast::Func<Id>)>, n: int, next: nat)
    requires
        1 <= n <= funcs.len(),
    ensures
        low_procs(funcs, n, next).1 <= next + lw_funcs(funcs, n) - lw_funcs(funcs, 1),
    decreases n,
{
    if n > 1 {
        lemma_bound_procs(funcs, n - 1, next);
        lemma_bound_block(funcs[n - 1].1.body, low_procs(funcs, n - 1, next).1, Set::empty());
    }
}

/// Lowering a program hands out at most `lw_program` identifiers.
pub proof fn lemma_lower_bound(p: ast::Program<Id>, next: nat)
    requires
        p.funcs@.len() > 0,
    ensures
        low_program(p, next).1 <= next + lw_program(p),
{
    let main = p.funcs@[0].1;
    lemma_bound_block(main.body, next, Set::empty());
    let (_, next1, _) = low_block(main.body, next, Set::empty());
    lemma_bound_procs(p.funcs@, p.funcs@.len() as int, next1);
    assert(lw_funcs(p.funcs@, 0) == 0);
    assert(lw_funcs(p.funcs@, 1) == lw_block(main.body));
}

fn cost_expr(e: &ast::Expr<Id>) -> (r: Option<usize>)
    ensures
        counted(r, lw_expr(*e)),
    decreases *e, 0nat, 0int,
{
    match e {
        ast::Expr::Op(_, args) => cost_args(args),
        ast::Expr::Apply(_, args) => cost_args(args),
        ast::Expr::IfThenElse(c, t, f) => add_checked(
            add_checked(add_checked(Some(1), cost_expr(c)), cost_block(t)),
            cost_block(f),
        ),
        _ => Some(0),
    }
}

fn cost_args(args: &Vec<ast::Expr<Id>>) -> (r: Option<usize>)
    ensures
        counted(r, lw_args(args@, args@.len() as int)),
    decreases args@, 1nat, args@.len() + 1,
{
    let mut total: Option<usize> = Some(0);
    let mut i: usize = 0;
    while i < args.len()
        invariant
            i <= args@.len(),
            counted(total, lw_args(args@, i as int)),
        decreases args@.len() - i,
    {
        total = add_checked(add_checked(total, Some(1)), cost_expr(&args[i]));
        i = i + 1;
    }
    total
}

fn cost_block(b: &ast::Block<Id>) -> (r: Option<usize>)
    ensures
        counted(r, lw_block(*b)),
    decreases *b, 2nat, 0int,
{
    let mut total: Option<usize> = Some(0);
    let mut i: usize = 0;
    while i < b.stmts.len()
        invariant
            i <= b.stmts@.len(),
            counted(total, lw_stmts(*b, i as int)),
        decreases b.stmts@.len() - i,
    {
        let c = match &b.stmts[i] {
            ast::Stmt::Let(_, e) => cost_expr(e),
            ast::Stmt::Func(_, f) => cost_block(&f.body),
        };
        total = add_checked(total, c);
        i = i + 1;
    }
    add_checked(add_checked(total, cost_expr(&b.tail)), Some(1))
}

/// How many identifiers lowering `p` may hand out, or `None` when that
/// count does not fit in a `usize`.
pub fn lower_cost(p: &ast::Program<Id>) -> (r: Option<usize>)
    ensures
        counted(r, lw_program(*p)),
{
    let mut total: Option<usize> = Some(0);
    let mut i: usize = 0;
    while i < p.funcs.len()
        invariant
            i <= p.funcs@.len(),
            counted(total, lw_funcs(p.funcs@, i as int)),
        decreases p.funcs@.len() - i,
    {
        total = add_checked(total, cost_block(&p.funcs[i].1.body));
        i = i + 1;
    }
    total
}

fn copy_ids(v: &Vec<Id>) -> (r: Vec<Id>)
    ensures
        r@ == v@,
{
    let mut r: Vec<Id> = Vec::new();
    let mut i: usize = 0;
    while i < v.len()
        invariant
            i <= v@.len(),
            r@ == v@.take(i as int),
        decreases v@.len() - i,
    {
        r.push(v[i]);
        proof {
            assert(v@.take(i + 1) =~= v@.take(i as int).push(v@[i as int]));
        }
        i = i + 1;
    }
    assert(v@.take(i as int) =~= v@);
    r
}

fn push_prior(priors: &mut Vec<(Option<Id>, ir::Expr)>, x: Option<Id>, e: ir::Expr)
    ensures
        final(priors)@ == old(priors)@.push((x, e)),
        ir::model_priors(final(priors)@, final(priors)@.len() as int)
            == ir::model_priors(old(priors)@, old(priors)@.len() as int).push((x, ir::model_expr(e))),
{
    let ghost p = priors@;
    priors.push((x, e));
    proof {
        ir::lemma_model_priors_push(p, (x, e));
    }
}

fn lower_expr(
    expr: &ast::Expr<Id>,
    priors: &mut Vec<(Option<Id>, ir::Expr)>,
    ids: &mut IdGen,
    joins: &mut HashSet<usize>,
) -> (r: ir::Expr)
    requires
        ops_known_expr(*expr),
        low_expr(*expr, state(old(priors)@, *old(ids), old(joins)@)).1.next <= usize::MAX,
    ensures
        ({
            let (m, st) = low_expr(*expr, state(old(priors)@, *old(ids), old(joins)@));
            &&& ir::model_expr(r) == m
            &&& state(final(priors)@, *final(ids), final(joins)@) == st
        }),
        !(r is Join),
    decreases *expr, 0nat, 0int,
{
    match expr {
        ast::Expr::Unit => ir::Expr::Unit,
        ast::Expr::Const(c) => ir::Expr::Const(*c),
        ast::Expr::Var(x) => ir::Expr::Var(*x),
        ast::Expr::Op(op, args) => {
            let v = lower_args(args, priors, ids, joins);
            ir::Expr::Op(*op, v)
        },
        ast::Expr::Apply(f, args) => {
            let v = lower_args(args, priors, ids, joins);
            ir::Expr::Apply(*f, v)
        },
        ast::Expr::IfThenElse(c, t, f) => {
            let ghost st0 = state(priors@, *ids, joins@);
            proof {
                lemma_mono_block(**f, low_block(**t, low_to_var(**c, st0).1.next, low_to_var(**c, st0).1.joins).1,
                    low_block(**t, low_to_var(**c, st0).1.next, low_to_var(**c, st0).1.joins).2);
                lemma_mono_block(**t, low_to_var(**c, st0).1.next, low_to_var(**c, st0).1.joins);
            }
            let x = lower_expr_to_var(c, priors, ids, joins);
            let tb = lower_block(t, ids, joins);
            let fb = lower_block(f, ids, joins);
            ir::Expr::IfThenElse(x, Box::new(tb), Box::new(fb))
        },
    }
}

fn lower_expr_to_var(
    expr: &ast::Expr<Id>,
    priors: &mut Vec<(Option<Id>, ir::Expr)>,
    ids: &mut IdGen,
    joins: &mut HashSet<usize>,
) -> (r: Id)
    requires
        ops_known_expr(*expr),
        low_to_var(*expr, state(old(priors)@, *old(ids), old(joins)@)).1.next <= usize::MAX,
    ensures
        ({
            let (x, st) = low_to_var(*expr, state(old(priors)@, *old(ids), old(joins)@));
            &&& r == x
            &&& state(final(priors)@, *final(ids), final(joins)@) == st
        }),
    decreases *expr, 1nat, 0int,
{
    let e = lower_expr(expr, priors, ids, joins);
    match e {
        ir::Expr::Var(x) => x,
        other => {
            let x = ids.generate();
            push_prior(priors, Some(x), other);
            x
        },
    }
}

fn lower_args(
    args: &Vec<ast::Expr<Id>>,
    priors: &mut Vec<(Option<Id>, ir::Expr)>,
    ids: &mut IdGen,
    joins: &mut HashSet<usize>,
) -> (r: Vec<Id>)
    requires
        ops_known_args(args@, args@.len() as int),
        low_args(args@, args@.len() as int, state(old(priors)@, *old(ids), old(joins)@)).1.next <= usize::MAX,
    ensures
        ({
            let (xs, st) = low_args(args@, args@.len() as int, state(old(priors)@, *old(ids), old(joins)@));
            &&& r@ == xs
            &&& state(final(priors)@, *final(ids), final(joins)@) == st
        }),
    decreases args@, 1nat, args@.len() + 1,
{
    let ghost st0 = state(priors@, *ids, joins@);
    proof {
        lemma_mono_args(args@, args@.len() as int, st0);
        lemma_known_args(args@, args@.len() as int);
    }
    let mut r: Vec<Id> = Vec::new();
    let mut i: usize = 0;
    while i < args.len()
        invariant
            i <= args@.len(),
            low_args(args@, i as int, st0) == (r@, state(priors@, *ids, joins@)),
            low_args(args@, args@.len() as int, st0).1.next <= usize::MAX,
            forall|m: int| 0 <= m <= args@.len() ==> low_args(args@, args@.len() as int, st0).1.next >= #[trigger] low_args(args@, m, st0).1.next,
            forall|j: int| 0 <= j < args@.len() ==> #[trigger] ops_known_expr(args@[j]),
        decreases args@.len() - i,
    {
        assert(low_args(args@, i + 1, st0).1.next <= usize::MAX);
        let x = lower_expr_to_var(&args[i], priors, ids, joins);
        r.push(x);
        i = i + 1;
    }
    r
}

proof fn lemma_known_args(args: Seq<ast::Expr<Id>>, n: int)
    requires
        ops_known_args(args, n),
        n <= args.len(),
    ensures
        forall|j: int| 0 <= j < n ==> #[trigger] ops_known_expr(args[j]),
    decreases n,
{
    if n > 0 {
        lemma_known_args(args, n - 1);
    }
}

proof fn lemma_known_stmts(b: ast::Block<Id>, n: int)
    requires
        ops_known_stmts(b, n),
        n <= b.stmts@.len(),
    ensures
        forall|j: int| 0 <= j < n ==> match #[trigger] b.stmts@[j] {
            ast::Stmt::Let(_, e) => ops_known_expr(e),
            ast::Stmt::Func(_, f) => ops_known_block(f.body),
        },
    decreases n,
{
    if n > 0 {
        lemma_known_stmts(b, n - 1);
    }
}

fn lower_tail(
    expr: ir::Expr,
    priors: &mut Vec<(Option<Id>, ir::Expr)>,
    ids: &mut IdGen,
    joins: &HashSet<usize>,
) -> (r: ir::TailExpr)
    requires
        !(expr is Join),
        expr matches ir::Expr::Op(op, _) ==> opcode_arity(op) is Some,
        low_tail(ir::model_expr(expr), state(old(priors)@, *old(ids), joins@)).1.next <= usize::MAX,
    ensures
        ({
            let (t, st) = low_tail(ir::model_expr(expr), state(old(priors)@, *old(ids), joins@));
            &&& ir::model_tail(r) == t
            &&& state(final(priors)@, *final(ids), joins@) == st
        }),
{
    match expr {
        ir::Expr::Unit => ir::TailExpr::Unit,
        ir::Expr::Var(x) => ir::TailExpr::Var(x),
        ir::Expr::Const(c) => {
            let x = ids.generate();
            push_prior(priors, Some(x), ir::Expr::Const(c));
            ir::TailExpr::Var(x)
        },
        ir::Expr::Op(op, args) => {
            let outputs = opcodes::info(op).unwrap().outputs;
            if outputs == 0 {
                push_prior(priors, None, ir::Expr::Op(op, args));
                ir::TailExpr::Unit
            } else {
                let x = ids.generate();
                push_prior(priors, Some(x), ir::Expr::Op(op, args));
                ir::TailExpr::Var(x)
            }
        },
        ir::Expr::Apply(f, args) => {
            if joins.contains(&f.0) {
                ir::TailExpr::Jump(f, args)
            } else {
                ir::TailExpr::Apply(f, args)
            }
        },
        ir::Expr::IfThenElse(c, t, f) => ir::TailExpr::IfThenElse(c, t, f),
        ir::Expr::Join(..) => ir::TailExpr::Unit,
    }
}

fn lower_block(block: &ast::Block<Id>, ids: &mut IdGen, joins: &mut HashSet<usize>) -> (r: ir::Block)
    requires
        ops_known_block(*block),
        low_block(*block, old(ids).next(), old(joins)@).1 <= usize::MAX,
    ensures
        ({
            let (m, next, js) = low_block(*block, old(ids).next(), old(joins)@);
            &&& ir::model_block(r) == m
            &&& final(ids).next() == next
            &&& final(joins)@ == js
        }),
    decreases *block, 2nat, 0int,
{
    let mut priors: Vec<(Option<Id>, ir::Expr)> = Vec::new();
    let ghost st0 = Lowering { priors: Seq::empty(), next: ids.next(), joins: joins@ };
    proof {
        assert(state(priors@, *ids, joins@) == st0);
        lemma_mono_stmts(*block, block.stmts@.len() as int, st0);
        let st1 = low_stmts(*block, block.stmts@.len() as int, st0);
        lemma_mono_expr(block.tail, st1);
        lemma_known_stmts(*block, block.stmts@.len() as int);
    }
    let mut i: usize = 0;
    while i < block.stmts.len()
        invariant
            i <= block.stmts@.len(),
            low_stmts(*block, i as int, st0) == state(priors@, *ids, joins@),
            st0 == (Lowering { priors: Seq::empty(), next: st0.next, joins: st0.joins }),
            low_block(*block, st0.next, st0.joins).1 <= usize::MAX,
            low_expr(block.tail, low_stmts(*block, block.stmts@.len() as int, st0)).1.next
                >= low_stmts(*block, block.stmts@.len() as int, st0).next,
            forall|m: int| 0 <= m <= block.stmts@.len() ==> low_stmts(*block, block.stmts@.len() as int, st0).next
                >= #[trigger] low_stmts(*block, m, st0).next,
            forall|j: int| 0 <= j < block.stmts@.len() ==> match #[trigger] block.stmts@[j] {
                ast::Stmt::Let(_, e) => ops_known_expr(e),
                ast::Stmt::Func(_, f) => ops_known_block(f.body),
            },
        decreases block.stmts@.len() - i,
    {
        let ghost st1 = low_stmts(*block, i as int, st0);
        proof {
            let stl = low_stmts(*block, block.stmts@.len() as int, st0);
            let (te, st2) = low_expr(block.tail, stl);
            lemma_low_tail_mono(te, st2);
            assert(low_block(*block, st0.next, st0.joins).1 == low_tail(te, st2).1.next);
            assert(stl.next >= low_stmts(*block, i + 1, st0).next);
            assert(low_stmts(*block, i + 1, st0).next <= usize::MAX);
            lemma_low_tail_mono(low_expr(block.tail, low_stmts(*block, block.stmts@.len() as int, st0)).0,
                low_expr(block.tail, low_stmts(*block, block.stmts@.len() as int, st0)).1);
        }
        match &block.stmts[i] {
            ast::Stmt::Let(x, e) => {
                let le = lower_expr(e, &mut priors, ids, joins);
                push_prior(&mut priors, *x, le);
            },
            ast::Stmt::Func(name, f) => {
                joins.insert(name.0);
                let body = lower_block(&f.body, ids, joins);
                let args = copy_ids(&f.args);
                push_prior(&mut priors, Some(*name), ir::Expr::Join(args, f.rets, Box::new(body)));
            },
        }
        i = i + 1;
    }
    proof {
        lemma_low_tail_mono(low_expr(block.tail, low_stmts(*block, block.stmts@.len() as int, st0)).0,
            low_expr(block.tail, low_stmts(*block, block.stmts@.len() as int, st0)).1);
    }
    let te = lower_expr(&block.tail, &mut priors, ids, joins);
    proof {
        lemma_known_tail(block.tail, te);
    }
    let tail = lower_tail(te, &mut priors, ids, joins);
    ir::Block { priors, tail }
}

proof fn lemma_low_tail_mono(e: ExprM, st: Lowering)
    ensures
        low_tail(e, st).1.next >= st.next,
{
}

/// A lowered operation is one the source already used.
proof fn lemma_known_tail(e: ast::Expr<Id>, r: ir::Expr)
    requires
        e matches ast::Expr::Op(op, _) ==> opcode_arity(op) is Some,
        r matches ir::Expr::Op(op, _) ==> e matches ast::Expr::Op(op2, _) && op2 == op,
    ensures
        r matches ir::Expr::Op(op, _) ==> opcode_arity(op) is Some,
{
}

/// Lowers a program: its first function, which takes no arguments, becomes
/// the entry block; the others become procedures.
pub fn lower(program: ast::Program<Id>, ids: &mut IdGen) -> (r: ir::Program)
    requires
        program.funcs@.len() > 0,
        program.funcs@[0].1.args@.len() == 0,
        ops_known(program),
        low_program(program, old(ids).next()).1 <= usize::MAX,
    ensures
        ir::model_program(r) == low_program(program, old(ids).next()).0,
        final(ids).next() == low_program(program, old(ids).next()).1,
{
    let ghost next0 = ids.next();
    let ghost p = program.funcs@;
    proof {
        let (mb, n1, _) = low_block(p[0].1.body, next0, Set::empty());
        lemma_mono_procs(p, p.len() as int, n1);
        assert(ops_known_block(p[0].1.body));
    }
    let mut joins: HashSet<usize> = HashSet::new();
    let main = lower_block(&program.funcs[0].1.body, ids, &mut joins);
    let ghost n1 = ids.next();
    let mut procs: Vec<(Id, ir::Proc)> = Vec::new();
    let mut i: usize = 1;
    while i < program.funcs.len()
        invariant
            1 <= i <= p.len(),
            p == program.funcs@,
            ops_known(program),
            low_procs(p, i as int, n1).0 == ir::model_procs(procs@, procs@.len() as int),
            low_procs(p, i as int, n1).1 == ids.next(),
            low_procs(p, p.len() as int, n1).1 <= usize::MAX,
            forall|m: int| 0 <= m <= p.len() ==> low_procs(p, p.len() as int, n1).1 >= #[trigger] low_procs(p, m, n1).1,
        decreases p.len() - i,
    {
        let (name, f) = &program.funcs[i];
        let mut joins: HashSet<usize> = HashSet::new();
        proof {
            assert(ops_known_block(p[i as int].1.body));
            assert(low_procs(p, i + 1, n1).1 <= usize::MAX);
        }
        let body = lower_block(&f.body, ids, &mut joins);
        let args = copy_ids(&f.args);
        let ghost before = procs@;
        procs.push((*name, ir::Proc { args, rets: f.rets, body }));
        proof {
            lemma_model_procs_push(before, procs@.last());
            assert(procs@ == before.push(procs@.last()));
        }
        i = i + 1;
    }
    ir::Program { main, rets: program.funcs[0].1.rets, procs }
}

proof fn lemma_model_procs_push(p: Seq<(Id, ir::Proc)>, x: (Id, ir::Proc))
    ensures
        ir::model_procs(p.push(x), p.len() + 1int) == ir::model_procs(p, p.len() as int).push((x.0, ir::ProcM {
            args: x.1.args@,
            rets: x.1.rets,
            body: ir::model_block(x.1.body),
        })),
{
    lemma_model_procs_prefix(p.push(x), p, p.len() as int);
}

proof fn lemma_model_procs_prefix(p: Seq<(Id, ir::Proc)>, q: Seq<(Id, ir::Proc)>, n: int)
    requires
        0 <= n <= p.len(),
        n <= q.len(),
        forall|i: int| 0 <= i < n ==> p[i] == q[i],
    ensures
        ir::model_procs(p, n) == ir::model_procs(q, n),
    decreases n,
{
    if n > 0 {
        lemma_model_procs_prefix(p, q, n - 1);
    }
}

} // verus!
