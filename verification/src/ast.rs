//! The surface syntax tree, generic over how names are represented.

use vstd::prelude::*;
use crate::U256;

verus! {

#[derive(Debug)]
pub enum Expr<T> {
    Unit,
    Const(U256),
    Var(T),
    Op(u8, Vec<Expr<T>>),
    Apply(T, Vec<Expr<T>>),
    IfThenElse(Box<Expr<T>>, Box<Block<T>>, Box<Block<T>>),
}

#[derive(Debug)]
pub enum Stmt<T> {
    Let(Option<T>, Expr<T>),
    Func(T, Func<T>),
}

#[derive(Debug)]
pub struct Block<T> {
    pub stmts: Vec<Stmt<T>>,
    pub tail: Expr<T>,
}

#[derive(Debug)]
pub struct Func<T> {
    pub args: Vec<T>,
    pub rets: usize,
    pub body: Block<T>,
}

#[derive(Debug)]
pub struct Program<T> {
    pub funcs: Vec<(T, Func<T>)>,
}


/// The mathematical model of an expression, with names taken by their view.
pub enum ExprM<N> {
    Unit,
    Const(U256),
    Var(N),
    Op(u8, Seq<ExprM<N>>),
    Apply(N, Seq<ExprM<N>>),
    IfThenElse(Box<ExprM<N>>, Box<BlockM<N>>, Box<BlockM<N>>),
}

pub enum StmtM<N> {
    Let(Option<N>, ExprM<N>),
    Func(N, FuncM<N>),
}

pub struct BlockM<N> {
    pub stmts: Seq<StmtM<N>>,
    pub tail: ExprM<N>,
}

pub struct FuncM<N> {
    pub args: Seq<N>,
    pub rets: usize,
    pub body: BlockM<N>,
}

pub struct ProgramM<N> {
    pub funcs: Seq<(N, FuncM<N>)>,
}

pub open spec fn model_expr<T: View>(e: Expr<T>) -> ExprM<T::V>
    decreases e, 0nat, 0int,
{
    match e {
        Expr::Unit => ExprM::Unit,
        Expr::Const(c) => ExprM::Const(c),
        Expr::Var(x) => ExprM::Var(x@),
        Expr::Op(op, args) => ExprM::Op(op, model_exprs(args@, args@.len() as int)),
        Expr::Apply(f, args) => ExprM::Apply(f@, model_exprs(args@, args@.len() as int)),
        Expr::IfThenElse(c, t, f) => ExprM::IfThenElse(
            Box::new(model_expr(*c)),
            Box::new(model_block(*t)),
            Box::new(model_block(*f)),
        ),
    }
}

pub open spec fn model_exprs<T: View>(args: Seq<Expr<T>>, n: int) -> Seq<ExprM<T::V>>
    decreases args, 1nat, n,
{
    if n <= 0 || n > args.len() {
        Seq::empty()
    } else {
        model_exprs(args, n - 1).push(model_expr(args[n - 1]))
    }
}

/// The model of the first `n` expressions depends on those expressions only.
pub proof fn lemma_model_exprs_prefix<T: View>(p: Seq<Expr<T>>, q: Seq<Expr<T>>, n: int)
    requires
        0 <= n <= p.len(),
        n <= q.len(),
        forall|i: int| 0 <= i < n ==> p[i] == q[i],
    ensures
        model_exprs(p, n) == model_exprs(q, n),
    decreases n,
{
    if n > 0 {
        lemma_model_exprs_prefix(p, q, n - 1);
    }
}

pub open spec fn model_names<T: View>(names: Seq<T>) -> Seq<T::V> {
    names.map_values(|x: T| x@)
}

pub open spec fn model_stmts<T: View>(b: Block<T>, n: int) -> Seq<StmtM<T::V>>
    decreases b, 1nat, n,
{
    if n <= 0 || n > b.stmts@.len() {
        Seq::empty()
    } else {
        model_stmts(b, n - 1).push(match b.stmts@[n - 1] {
            Stmt::Let(x, e) => StmtM::Let(match x { Some(x) => Some(x@), None => None }, model_expr(e)),
            Stmt::Func(name, f) => StmtM::Func(name@, FuncM {
                args: model_names(f.args@),
                rets: f.rets,
                body: model_block(f.body),
            }),
        })
    }
}

/// The model of the first `n` statements depends on those statements only.
pub proof fn lemma_model_stmts_prefix<T: View>(b: Block<T>, c: Block<T>, n: int)
    requires
        0 <= n <= b.stmts@.len(),
        n <= c.stmts@.len(),
        forall|i: int| 0 <= i < n ==> b.stmts@[i] == c.stmts@[i],
    ensures
        model_stmts(b, n) == model_stmts(c, n),
    decreases n,
{
    if n > 0 {
        lemma_model_stmts_prefix(b, c, n - 1);
    }
}

pub open spec fn model_block<T: View>(b: Block<T>) -> BlockM<T::V>
    decreases b, 2nat, 0int,
{
    BlockM { stmts: model_stmts(b, b.stmts@.len() as int), tail: model_expr(b.tail) }
}

pub open spec fn model_func<T: View>(f: Func<T>) -> FuncM<T::V> {
    FuncM { args: model_names(f.args@), rets: f.rets, body: model_block(f.body) }
}

pub open spec fn model_program<T: View>(p: Program<T>) -> ProgramM<T::V> {
    ProgramM { funcs: p.funcs@.map_values(|nf: (T, Func<T>)| (nf.0@, model_func(nf.1))) }
}

} // verus!
