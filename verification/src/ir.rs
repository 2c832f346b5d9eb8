//! The intermediate form: every operand is a variable, and local
//! functions have become join points.

use vstd::prelude::*;
use crate::{Id, U256};

verus! {

#[derive(PartialEq, Eq, Debug)]
pub enum Expr {
    Unit,
    Const(U256),
    Var(Id),
    Op(u8, Vec<Id>),
    Apply(Id, Vec<Id>),
    Join(Vec<Id>, usize, Box<Block>),
    IfThenElse(Id, Box<Block>, Box<Block>),
}

#[derive(PartialEq, Eq, Debug)]
pub enum TailExpr {
    Unit,
    Var(Id),
    Apply(Id, Vec<Id>),
    Jump(Id, Vec<Id>),
    IfThenElse(Id, Box<Block>, Box<Block>),
}

#[derive(PartialEq, Eq, Debug)]
pub struct Block {
    pub priors: Vec<(Option<Id>, Expr)>,
    pub tail: TailExpr,
}

#[derive(PartialEq, Eq, Debug)]
pub struct Proc {
    pub args: Vec<Id>,
    pub rets: usize,
    pub body: Block,
}

#[derive(PartialEq, Eq, Debug)]
pub struct Program {
    pub main: Block,
    pub rets: usize,
    pub procs: Vec<(Id, Proc)>,
}


/// The mathematical model of an expression: vectors become sequences.
pub enum ExprM {
    Unit,
    Const(U256),
    Var(Id),
    Op(u8, Seq<Id>),
    Apply(Id, Seq<Id>),
    Join(Seq<Id>, usize, Box<BlockM>),
    IfThenElse(Id, Box<BlockM>, Box<BlockM>),
}

/// The model of a tail expression.
pub enum TailM {
    Unit,
    Var(Id),
    Apply(Id, Seq<Id>),
    Jump(Id, Seq<Id>),
    IfThenElse(Id, Box<BlockM>, Box<BlockM>),
}

/// The model of a block.
pub struct BlockM {
    pub priors: Seq<(Option<Id>, ExprM)>,
    pub tail: TailM,
}

/// The model of a procedure.
pub struct ProcM {
    pub args: Seq<Id>,
    pub rets: usize,
    pub body: BlockM,
}

/// The model of a program.
pub struct ProgramM {
    pub main: BlockM,
    pub rets: usize,
    pub procs: Seq<(Id, ProcM)>,
}

pub open spec fn model_expr(e: Expr) -> ExprM
    decreases e, 0nat, 0int,
{
    match e {
        Expr::Unit => ExprM::Unit,
        Expr::Const(c) => ExprM::Const(c),
        Expr::Var(x) => ExprM::Var(x),
        Expr::Op(op, args) => ExprM::Op(op, args@),
        Expr::Apply(f, args) => ExprM::Apply(f, args@),
        Expr::Join(args, rets, body) => ExprM::Join(args@, rets, Box::new(model_block(*body))),
        Expr::IfThenElse(c, t, f) => ExprM::IfThenElse(c, Box::new(model_block(*t)), Box::new(model_block(*f))),
    }
}

pub open spec fn model_priors(p: Seq<(Option<Id>, Expr)>, n: int) -> Seq<(Option<Id>, ExprM)>
    decreases p, 1nat, n,
{
    if n <= 0 || n > p.len() {
        Seq::empty()
    } else {
        model_priors(p, n - 1).push((p[n - 1].0, model_expr(p[n - 1].1)))
    }
}

/// Appending a binding appends its model.
pub proof fn lemma_model_priors_push(p: Seq<(Option<Id>, Expr)>, x: (Option<Id>, Expr))
    ensures
        model_priors(p.push(x), p.len() + 1int) == model_priors(p, p.len() as int).push((x.0, model_expr(x.1))),
{
    lemma_model_priors_prefix(p.push(x), p, p.len() as int);
}

/// The model of the first `n` bindings depends on those bindings only.
pub proof fn lemma_model_priors_prefix(p: Seq<(Option<Id>, Expr)>, q: Seq<(Option<Id>, Expr)>, n: int)
    requires
        0 <= n <= p.len(),
        n <= q.len(),
        forall|i: int| 0 <= i < n ==> p[i] == q[i],
    ensures
        model_priors(p, n) == model_priors(q, n),
    decreases n,
{
    if n > 0 {
        lemma_model_priors_prefix(p, q, n - 1);
    }
}

pub open spec fn model_tail(t: TailExpr) -> TailM
    decreases t, 0nat, 0int,
{
    match t {
        TailExpr::Unit => TailM::Unit,
        TailExpr::Var(x) => TailM::Var(x),
        TailExpr::Apply(f, args) => TailM::Apply(f, args@),
        TailExpr::Jump(f, args) => TailM::Jump(f, args@),
        TailExpr::IfThenElse(c, t, f) => TailM::IfThenElse(c, Box::new(model_block(*t)), Box::new(model_block(*f))),
    }
}

pub open spec fn model_block(b: Block) -> BlockM
    decreases b, 2nat, 0int,
{
    BlockM { priors: model_priors(b.priors@, b.priors@.len() as int), tail: model_tail(b.tail) }
}

pub open spec fn model_procs(p: Seq<(Id, Proc)>, n: int) -> Seq<(Id, ProcM)>
    decreases n,
{
    if n <= 0 {
        Seq::empty()
    } else {
        model_procs(p, n - 1).push((p[n - 1].0, ProcM {
            args: p[n - 1].1.args@,
            rets: p[n - 1].1.rets,
            body: model_block(p[n - 1].1.body),
        }))
    }
}

pub open spec fn model_program(p: Program) -> ProgramM {
    ProgramM { main: model_block(p.main), rets: p.rets, procs: model_procs(p.procs@, p.procs@.len() as int) }
}

} // verus!
