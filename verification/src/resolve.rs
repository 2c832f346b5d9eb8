//! Resolves names to identifiers: every binding gets a fresh identifier,
//! and every use the identifier of the innermost binding in scope.

use vstd::prelude::*;
use crate::ast::{self, BlockM, ExprM, FuncM, ProgramM, StmtM};
use crate::names::{copy_bytes, NameMap};
use crate::{Id, IdGen};

verus! {

#[derive(Clone, Copy, PartialEq, Eq, Structural, Debug)]
pub enum ResolveErrorKind {
    DuplicateProcedure,
    DuplicateArgument,
    UnboundVariable,
    UnboundProcedure,
}

/// Why names could not be resolved, and the name concerned.
#[derive(Debug)]
pub struct ResolveError {
    pub kind: ResolveErrorKind,
    pub name: Vec<u8>,
}

pub type NEnv = Map<Seq<u8>, Id>;

/// An error by its kind and name.
pub type RErr = (ResolveErrorKind, Seq<u8>);

/// The outcome of resolving, with the next fresh identifier reached
/// (also when resolution failed).
pub type Outcome<X> = (Result<X, RErr>, nat);

pub open spec fn rs_expr(e: ast::Expr<Vec<u8>>, env: NEnv, next: nat) -> Outcome<ExprM<Id>>
    decreases e, 0nat, 0int,
{
    match e {
        ast::Expr::Unit => (Ok(ExprM::Unit), next),
        ast::Expr::Const(c) => (Ok(ExprM::Const(c)), next),
        ast::Expr::Var(x) => if env.contains_key(x@) {
            (Ok(ExprM::Var(env[x@])), next)
        } else {
            (Err((ResolveErrorKind::UnboundVariable, x@)), next)
        },
        ast::Expr::Op(op, args) => {
            let (r, n1) = rs_exprs(args@, args@.len() as int, env, next);
            match r {
                Ok(es) => (Ok(ExprM::Op(op, es)), n1),
                Err(err) => (Err(err), n1),
            }
        },
        ast::Expr::Apply(f, args) => if !env.contains_key(f@) {
            (Err((ResolveErrorKind::UnboundProcedure, f@)), next)
        } else {
            let (r, n1) = rs_exprs(args@, args@.len() as int, env, next);
            match r {
                Ok(es) => (Ok(ExprM::Apply(env[f@], es)), n1),
                Err(err) => (Err(err), n1),
            }
        },
        ast::Expr::IfThenElse(c, t, f) => {
            let (rc, n1) = rs_expr(*c, env, next);
            match rc {
                Err(err) => (Err(err), n1),
                Ok(cm) => {
                    let (rt, n2) = rs_block(*t, env, n1);
                    match rt {
                        Err(err) => (Err(err), n2),
                        Ok(tm) => {
                            let (rf, n3) = rs_block(*f, env, n2);
                            match rf {
                                Err(err) => (Err(err), n3),
                                Ok(fm) => (Ok(ExprM::IfThenElse(Box::new(cm), Box::new(tm), Box::new(fm))), n3),
                            }
                        },
                    }
                },
            }
        },
    }
}

pub open spec fn rs_exprs(args: Seq<ast::Expr<Vec<u8>>>, n: int, env: NEnv, next: nat) -> Outcome<Seq<ExprM<Id>>>
    decreases args, 1nat, n,
{
    if n <= 0 || n > args.len() {
        (Ok(Seq::empty()), next)
    } else {
        let (r, n1) = rs_exprs(args, n - 1, env, next);
        match r {
            Err(err) => (Err(err), n1),
            Ok(es) => {
                let (re, n2) = rs_expr(args[n - 1], env, n1);
                match re {
                    Err(err) => (Err(err), n2),
                    Ok(em) => (Ok(es.push(em)), n2),
                }
            },
        }
    }
}

/// Binds the first `n` arguments to `first`, `first + 1`, ...; an argument
/// already bound to one of those identifiers is a duplicate.
pub open spec fn rs_args(args: Seq<Vec<u8>>, n: int, env: NEnv, first: nat) -> Result<NEnv, RErr>
    decreases n,
{
    if n <= 0 || n > args.len() {
        Ok(env)
    } else {
        match rs_args(args, n - 1, env, first) {
            Err(err) => Err(err),
            Ok(env1) => {
                let k = args[n - 1]@;
                if env1.contains_key(k) && env1[k].0 >= first {
                    Err((ResolveErrorKind::DuplicateArgument, k))
                } else {
                    Ok(env1.insert(k, Id((first + n - 1) as usize)))
                }
            },
        }
    }
}

/// The identifiers `first`, `first + 1`, ... given to `n` arguments.
pub open spec fn fresh_ids(first: nat, n: nat) -> Seq<Id> {
    Seq::new(n, |i: int| Id((first + i) as usize))
}

pub open spec fn rs_func(f: ast::Func<Vec<u8>>, env: NEnv, next: nat) -> Outcome<FuncM<Id>>
    decreases f, 3nat, 0int,
{
    let n = f.args@.len();
    let next1 = next + n;
    match rs_args(f.args@, n as int, env, next) {
        Err(err) => (Err(err), next1),
        Ok(env2) => {
            let (rb, n2) = rs_block(f.body, env2, next1);
            match rb {
                Err(err) => (Err(err), n2),
                Ok(body) => (Ok(FuncM { args: fresh_ids(next, n), rets: f.rets, body }), n2),
            }
        },
    }
}

pub open spec fn rs_stmts(b: ast::Block<Vec<u8>>, n: int, env: NEnv, next: nat) -> Outcome<(Seq<StmtM<Id>>, NEnv)>
    decreases b, 1nat, n,
{
    if n <= 0 || n > b.stmts@.len() {
        (Ok((Seq::empty(), env)), next)
    } else {
        let (r, n1) = rs_stmts(b, n - 1, env, next);
        match r {
            Err(err) => (Err(err), n1),
            Ok((ss, env1)) => match b.stmts@[n - 1] {
                ast::Stmt::Let(x, e) => {
                    let (re, n2) = rs_expr(e, env1, n1);
                    match re {
                        Err(err) => (Err(err), n2),
                        Ok(em) => match x {
                            Some(x) => {
                                let y = Id(n2 as usize);
                                (Ok((ss.push(StmtM::Let(Some(y), em)), env1.insert(x@, y))), n2 + 1)
                            },
                            None => (Ok((ss.push(StmtM::Let(None, em)), env1)), n2),
                        },
                    }
                },
                ast::Stmt::Func(name, f) => {
                    let y = Id(n1 as usize);
                    let env2 = env1.insert(name@, y);
                    let (rf, n2) = rs_func(f, env2, n1 + 1);
                    match rf {
                        Err(err) => (Err(err), n2),
                        Ok(fm) => (Ok((ss.push(StmtM::Func(y, fm)), env2)), n2),
                    }
                },
            },
        }
    }
}

pub open spec fn rs_block(b: ast::Block<Vec<u8>>, env: NEnv, next: nat) -> Outcome<BlockM<Id>>
    decreases b, 2nat, 0int,
{
    let (r, n1) = rs_stmts(b, b.stmts@.len() as int, env, next);
    match r {
        Err(err) => (Err(err), n1),
        Ok((ss, env1)) => {
            let (rt, n2) = rs_expr(b.tail, env1, n1);
            match rt {
                Err(err) => (Err(err), n2),
                Ok(tm) => (Ok(BlockM { stmts: ss, tail: tm }), n2),
            }
        },
    }
}

/// Whether a statement binds the name `x`.
pub open spec fn binds(st: ast::Stmt<Vec<u8>>, x: Seq<u8>) -> bool {
    match st {
        ast::Stmt::Let(Some(z), _) => z@ == x,
        ast::Stmt::Func(z, _) => z@ == x,
        _ => false,
    }
}

proof fn lemma_stmts_len(b: ast::Block<Vec<u8>>, n: int, env: NEnv, next: nat)
    requires
        0 <= n <= b.stmts@.len(),
        rs_stmts(b, n, env, next).0 is Ok,
    ensures
        rs_stmts(b, n, env, next).0->Ok_0.0.len() == n,
    decreases n,
{
    if n > 0 {
        lemma_stmts_len(b, n - 1, env, next);
    }
}

/// After the first `n` statements, a name bound at statement `i` and at
/// none after it stands for the identifier that statement bound.
proof fn lemma_stmts_latest(b: ast::Block<Vec<u8>>, n: int, env: NEnv, next: nat, i: int, x: Seq<u8>)
    requires
        0 <= i < n <= b.stmts@.len(),
        b.stmts@[i] matches ast::Stmt::Let(Some(z), _) && z@ == x,
        forall|k: int| i < k < n ==> !binds(#[trigger] b.stmts@[k], x),
        rs_stmts(b, n, env, next).0 is Ok,
    ensures
        ({
            let (ss, env1) = rs_stmts(b, n, env, next).0->Ok_0;
            &&& ss[i] matches StmtM::Let(Some(y), _) && env1.contains_key(x) && env1[x] == y
        }),
    decreases n,
{
    lemma_stmts_len(b, n - 1, env, next);
    if n - 1 > i {
        lemma_stmts_latest(b, n - 1, env, next, i, x);
        assert(!binds(b.stmts@[n - 1], x));
    }
}

/// A `let` shadows: when statement `i` of a block binds `x` with `let`,
/// no later statement binds `x` again, and the block's tail is `x`, the
/// resolved tail is the identifier that statement `i` bound.
pub proof fn lemma_let_shadows(b: ast::Block<Vec<u8>>, env: NEnv, next: nat, i: int, x: Seq<u8>)
    requires
        0 <= i < b.stmts@.len(),
        b.stmts@[i] matches ast::Stmt::Let(Some(z), _) && z@ == x,
        forall|k: int| i < k < b.stmts@.len() ==> !binds(#[trigger] b.stmts@[k], x),
        b.tail matches ast::Expr::Var(t) && t@ == x,
        rs_block(b, env, next).0 is Ok,
    ensures
        ({
            let bm = rs_block(b, env, next).0->Ok_0;
            bm.stmts[i] matches StmtM::Let(Some(y), _) && bm.tail == ExprM::Var(y)
        }),
{
    lemma_stmts_latest(b, b.stmts@.len() as int, env, next, i, x);
}

/// The procedure names bound to `next`, `next + 1`, ...; a name given twice
/// is a duplicate.
pub open spec fn rs_proc_env(funcs: Seq<(Vec<u8>, ast::Func<Vec<u8>>)>, n: int, next: nat) -> Outcome<NEnv>
    decreases n,
{
    if n <= 0 || n > funcs.len() {
        (Ok(Map::empty()), next)
    } else {
        let (r, n1) = rs_proc_env(funcs, n - 1, next);
        match r {
            Err(err) => (Err(err), n1),
            Ok(env) => {
                let k = funcs[n - 1].0@;
                if env.contains_key(k) {
                    (Err((ResolveErrorKind::DuplicateProcedure, k)), n1 + 1)
                } else {
                    (Ok(env.insert(k, Id(n1 as usize))), n1 + 1)
                }
            },
        }
    }
}

pub open spec fn rs_funcs(funcs: Seq<(Vec<u8>, ast::Func<Vec<u8>>)>, n: int, penv: NEnv, next: nat) -> Outcome<Seq<(Id, FuncM<Id>)>>
    decreases n,
{
    if n <= 0 || n > funcs.len() {
        (Ok(Seq::empty()), next)
    } else {
        let (r, n1) = rs_funcs(funcs, n - 1, penv, next);
        match r {
            Err(err) => (Err(err), n1),
            Ok(fs) => {
                let (rf, n2) = rs_func(funcs[n - 1].1, penv, n1);
                match rf {
                    Err(err) => (Err(err), n2),
                    Ok(fm) => (Ok(fs.push((penv[funcs[n - 1].0@], fm))), n2),
                }
            },
        }
    }
}

/// Resolving a whole program: procedure names first, then each body.
pub open spec fn rs_program(p: ast::Program<Vec<u8>>, next: nat) -> Outcome<ProgramM<Id>> {
    let funcs = p.funcs@;
    let (r, n1) = rs_proc_env(funcs, funcs.len() as int, next);
    match r {
        Err(err) => (Err(err), n1),
        Ok(penv) => {
            let (rf, n2) = rs_funcs(funcs, funcs.len() as int, penv, n1);
            match rf {
                Err(err) => (Err(err), n2),
                Ok(fs) => (Ok(ProgramM { funcs: fs }), n2),
            }
        },
    }
}


/// A resolution error as its kind and name.
pub open spec fn err_of(e: ResolveError) -> RErr {
    (e.kind, e.name@)
}

proof fn lemma_expr_mono(e: ast::Expr<Vec<u8>>, env: NEnv, next: nat)
    ensures
        rs_expr(e, env, next).1 >= next,
    decreases e, 0nat, 0int,
{
    match e {
        ast::Expr::Op(_, args) => lemma_exprs_mono(args@, args@.len() as int, env, next),
        ast::Expr::Apply(_, args) => lemma_exprs_mono(args@, args@.len() as int, env, next),
        ast::Expr::IfThenElse(c, t, f) => {
            lemma_expr_mono(*c, env, next);
            let n1 = rs_expr(*c, env, next).1;
            lemma_block_mono(*t, env, n1);
            let n2 = rs_block(*t, env, n1).1;
            lemma_block_mono(*f, env, n2);
        },
        _ => {},
    }
}

/// Resolving a prefix of the operands never reaches further than resolving
/// all of them, and a failure there is the failure of the whole.
proof fn lemma_exprs_mono(args: Seq<ast::Expr<Vec<u8>>>, n: int, env: NEnv, next: nat)
    requires
        n <= args.len(),
    ensures
        rs_exprs(args, n, env, next).1 >= next,
        forall|m: int| 0 <= m <= n ==> rs_exprs(args, n, env, next).1 >= #[trigger] rs_exprs(args, m, env, next).1
            && (rs_exprs(args, m, env, next).0 is Err ==> rs_exprs(args, n, env, next) == rs_exprs(args, m, env, next)),
    decreases args, 1nat, n,
{
    if n > 0 {
        lemma_exprs_mono(args, n - 1, env, next);
        let n1 = rs_exprs(args, n - 1, env, next).1;
        lemma_expr_mono(args[n - 1], env, n1);
    }
}

proof fn lemma_block_mono(b: ast::Block<Vec<u8>>, env: NEnv, next: nat)
    ensures
        rs_block(b, env, next).1 >= next,
    decreases b, 2nat, 0int,
{
    lemma_stmts_mono(b, b.stmts@.len() as int, env, next);
    let (r, n1) = rs_stmts(b, b.stmts@.len() as int, env, next);
    match r {
        Ok((ss, env1)) => lemma_expr_mono(b.tail, env1, n1),
        Err(_) => {},
    }
}

proof fn lemma_stmts_mono(b: ast::Block<Vec<u8>>, n: int, env: NEnv, next: nat)
    requires
        n <= b.stmts@.len(),
    ensures
        rs_stmts(b, n, env, next).1 >= next,
        forall|m: int| 0 <= m <= n ==> rs_stmts(b, n, env, next).1 >= #[trigger] rs_stmts(b, m, env, next).1
            && (rs_stmts(b, m, env, next).0 is Err ==> rs_stmts(b, n, env, next) == rs_stmts(b, m, env, next)),
    decreases b, 1nat, n,
{
    if n > 0 {
        lemma_stmts_mono(b, n - 1, env, next);
        let (r, n1) = rs_stmts(b, n - 1, env, next);
        match r {
            Err(_) => {},
            Ok((ss, env1)) => match b.stmts@[n - 1] {
                ast::Stmt::Let(x, e) => lemma_expr_mono(e, env1, n1),
                ast::Stmt::Func(name, f) => lemma_func_mono(f, env1.insert(name@, Id(n1 as usize)), n1 + 1),
            },
        }
    }
}

proof fn lemma_func_mono(f: ast::Func<Vec<u8>>, env: NEnv, next: nat)
    ensures
        rs_func(f, env, next).1 >= next + f.args@.len(),
    decreases f, 3nat, 0int,
{
    let n = f.args@.len();
    match rs_args(f.args@, n as int, env, next) {
        Err(_) => {},
        Ok(env2) => lemma_block_mono(f.body, env2, next + n),
    }
}

proof fn lemma_proc_env(funcs: Seq<(Vec<u8>, ast::Func<Vec<u8>>)>, n: int, next: nat)
    requires
        0 <= n <= funcs.len(),
    ensures
        rs_proc_env(funcs, n, next).1 <= next + n,
        forall|m: int| 0 <= m <= n ==> rs_proc_env(funcs, n, next).1 >= #[trigger] rs_proc_env(funcs, m, next).1
            && (rs_proc_env(funcs, m, next).0 is Err ==> rs_proc_env(funcs, n, next) == rs_proc_env(funcs, m, next)),
        rs_proc_env(funcs, n, next).0 is Ok ==> rs_proc_env(funcs, n, next).1 == next + n,
        forall|j: int| 0 <= j < n && rs_proc_env(funcs, n, next).0 is Ok
            ==> rs_proc_env(funcs, n, next).0->Ok_0.contains_key(#[trigger] funcs[j].0@),
    decreases n,
{
    if n > 0 {
        lemma_proc_env(funcs, n - 1, next);
    }
}

proof fn lemma_funcs_mono(funcs: Seq<(Vec<u8>, ast::Func<Vec<u8>>)>, n: int, penv: NEnv, next: nat)
    requires
        0 <= n <= funcs.len(),
    ensures
        rs_funcs(funcs, n, penv, next).1 >= next,
        forall|m: int| 0 <= m <= n ==> rs_funcs(funcs, n, penv, next).1 >= #[trigger] rs_funcs(funcs, m, penv, next).1
            && (rs_funcs(funcs, m, penv, next).0 is Err ==> rs_funcs(funcs, n, penv, next) == rs_funcs(funcs, m, penv, next)),
    decreases n,
{
    if n > 0 {
        lemma_funcs_mono(funcs, n - 1, penv, next);
        lemma_func_mono(funcs[n - 1].1, penv, rs_funcs(funcs, n - 1, penv, next).1);
    }
}

proof fn lemma_args_sticky(args: Seq<Vec<u8>>, m: int, n: int, env: NEnv, first: nat)
    requires
        0 <= m <= n <= args.len(),
        rs_args(args, m, env, first) is Err,
    ensures
        rs_args(args, n, env, first) == rs_args(args, m, env, first),
    decreases n,
{
    if n > m {
        lemma_args_sticky(args, m, n - 1, env, first);
    }
}

fn error(kind: ResolveErrorKind, name: &Vec<u8>) -> (e: ResolveError)
    ensures
        err_of(e) == (kind, name@),
{
    ResolveError { kind, name: copy_bytes(name.as_slice()) }
}

fn resolve_expr(expr: &ast::Expr<Vec<u8>>, ids: &mut IdGen, env: &NameMap) -> (r: Result<ast::Expr<Id>, ResolveError>)
    requires
        env.wf(),
        rs_expr(*expr, env@, old(ids).next()).1 <= usize::MAX,
    ensures
        final(ids).next() == rs_expr(*expr, env@, old(ids).next()).1,
        match r {
            Ok(e) => rs_expr(*expr, env@, old(ids).next()).0 == Ok::<ExprM<Id>, RErr>(ast::model_expr(e)),
            Err(e) => rs_expr(*expr, env@, old(ids).next()).0 == Err::<ExprM<Id>, RErr>(err_of(e)),
        },
    decreases *expr, 0nat, 0int,
{
    match expr {
        ast::Expr::Unit => Ok(ast::Expr::Unit),
        ast::Expr::Const(c) => Ok(ast::Expr::Const(*c)),
        ast::Expr::Var(x) => match env.get(x.as_slice()) {
            Some(id) => Ok(ast::Expr::Var(id)),
            None => Err(error(ResolveErrorKind::UnboundVariable, x)),
        },
        ast::Expr::Op(op, args) => match resolve_exprs(args, ids, env) {
            Ok(v) => Ok(ast::Expr::Op(*op, v)),
            Err(e) => Err(e),
        },
        ast::Expr::Apply(f, args) => match env.get(f.as_slice()) {
            None => Err(error(ResolveErrorKind::UnboundProcedure, f)),
            Some(fid) => match resolve_exprs(args, ids, env) {
                Ok(v) => Ok(ast::Expr::Apply(fid, v)),
                Err(e) => Err(e),
            },
        },
        ast::Expr::IfThenElse(c, t, f) => {
            let ghost n0 = ids.next();
            proof {
                lemma_expr_mono(**c, env@, n0);
                let n1 = rs_expr(**c, env@, n0).1;
                lemma_block_mono(**t, env@, n1);
                let n2 = rs_block(**t, env@, n1).1;
                lemma_block_mono(**f, env@, n2);
            }
            let cm = match resolve_expr(c, ids, env) {
                Ok(cm) => cm,
                Err(e) => return Err(e),
            };
            let tm = match resolve_block(t, ids, env) {
                Ok(tm) => tm,
                Err(e) => return Err(e),
            };
            let fm = match resolve_block(f, ids, env) {
                Ok(fm) => fm,
                Err(e) => return Err(e),
            };
            Ok(ast::Expr::IfThenElse(Box::new(cm), Box::new(tm), Box::new(fm)))
        },
    }
}

fn resolve_exprs(args: &Vec<ast::Expr<Vec<u8>>>, ids: &mut IdGen, env: &NameMap) -> (r: Result<Vec<ast::Expr<Id>>, ResolveError>)
    requires
        env.wf(),
        rs_exprs(args@, args@.len() as int, env@, old(ids).next()).1 <= usize::MAX,
    ensures
        final(ids).next() == rs_exprs(args@, args@.len() as int, env@, old(ids).next()).1,
        match r {
            Ok(v) => rs_exprs(args@, args@.len() as int, env@, old(ids).next()).0
                == Ok::<Seq<ExprM<Id>>, RErr>(ast::model_exprs(v@, v@.len() as int)),
            Err(e) => rs_exprs(args@, args@.len() as int, env@, old(ids).next()).0
                == Err::<Seq<ExprM<Id>>, RErr>(err_of(e)),
        },
    decreases args@, 1nat, args@.len() + 1,
{
    let ghost n0 = ids.next();
    let ghost len = args@.len() as int;
    proof {
        lemma_exprs_mono(args@, len, env@, n0);
    }
    let mut out: Vec<ast::Expr<Id>> = Vec::new();
    let mut i: usize = 0;
    while i < args.len()
        invariant
            i <= len,
            len == args@.len(),
            n0 == old(ids).next(),
            env.wf(),
            out@.len() == i,
            rs_exprs(args@, i as int, env@, n0) == (Ok::<Seq<ExprM<Id>>, RErr>(ast::model_exprs(out@, i as int)), ids.next()),
            rs_exprs(args@, len, env@, n0).1 <= usize::MAX,
            forall|m: int| 0 <= m <= len ==> rs_exprs(args@, len, env@, n0).1 >= #[trigger] rs_exprs(args@, m, env@, n0).1
                && (rs_exprs(args@, m, env@, n0).0 is Err ==> rs_exprs(args@, len, env@, n0) == rs_exprs(args@, m, env@, n0)),
        decreases len - i,
    {
        assert(rs_exprs(args@, i + 1, env@, n0).1 <= usize::MAX);
        match resolve_expr(&args[i], ids, env) {
            Ok(e) => {
                let ghost prev = out@;
                out.push(e);
                proof {
                    ast::lemma_model_exprs_prefix(out@, prev, i as int);
                }
            },
            Err(e) => {
                assert(rs_exprs(args@, i + 1, env@, n0).0 is Err);
                return Err(e);
            },
        }
        i = i + 1;
    }
    Ok(out)
}

fn resolve_args(args: &Vec<Vec<u8>>, ids: &mut IdGen, env: &mut NameMap) -> (r: Result<Vec<Id>, ResolveError>)
    requires
        old(env).wf(),
        old(ids).next() + args@.len() <= usize::MAX,
    ensures
        final(env).wf(),
        final(ids).next() == old(ids).next() + args@.len(),
        match r {
            Ok(v) => v@ == fresh_ids(old(ids).next(), args@.len())
                && rs_args(args@, args@.len() as int, old(env)@, old(ids).next()) == Ok::<NEnv, RErr>(final(env)@),
            Err(e) => rs_args(args@, args@.len() as int, old(env)@, old(ids).next()) == Err::<NEnv, RErr>(err_of(e)),
        },
{
    let ghost first = ids.next();
    let ghost env0 = env@;
    let mut resolved: Vec<Id> = Vec::new();
    let mut i: usize = 0;
    while i < args.len()
        invariant
            i <= args@.len(),
            first == old(ids).next(),
            first + args@.len() <= usize::MAX,
            ids.next() == first + i,
            resolved@ == fresh_ids(first, i as nat),
        decreases args@.len() - i,
    {
        let id = ids.generate();
        resolved.push(id);
        assert(resolved@ =~= fresh_ids(first, (i + 1) as nat));
        i = i + 1;
    }
    let mut j: usize = 0;
    while j < args.len()
        invariant
            j <= args@.len(),
            first == old(ids).next(),
            env0 == old(env)@,
            ids.next() == first + args@.len(),
            resolved@ == fresh_ids(first, args@.len()),
            env.wf(),
            rs_args(args@, j as int, env0, first) == Ok::<NEnv, RErr>(env@),
        decreases args@.len() - j,
    {
        let id = resolved[j];
        let prev = env.insert(args[j].as_slice(), id);
        let dup = match prev {
            Some(p) => p.0 >= resolved[0].0,
            None => false,
        };
        if dup {
            proof {
                lemma_args_sticky(args@, j + 1, args@.len() as int, env0, first);
            }
            return Err(error(ResolveErrorKind::DuplicateArgument, &args[j]));
        }
        j = j + 1;
    }
    Ok(resolved)
}

fn resolve_func(f: &ast::Func<Vec<u8>>, ids: &mut IdGen, prog_env: &NameMap) -> (r: Result<ast::Func<Id>, ResolveError>)
    requires
        prog_env.wf(),
        rs_func(*f, prog_env@, old(ids).next()).1 <= usize::MAX,
    ensures
        final(ids).next() == rs_func(*f, prog_env@, old(ids).next()).1,
        match r {
            Ok(fm) => rs_func(*f, prog_env@, old(ids).next()).0 == Ok::<FuncM<Id>, RErr>(ast::model_func(fm)),
            Err(e) => rs_func(*f, prog_env@, old(ids).next()).0 == Err::<FuncM<Id>, RErr>(err_of(e)),
        },
    decreases *f, 3nat, 0int,
{
    let ghost n0 = ids.next();
    proof {
        lemma_func_mono(*f, prog_env@, n0);
    }
    let mut env = prog_env.duplicate();
    let args = match resolve_args(&f.args, ids, &mut env) {
        Ok(args) => args,
        Err(e) => return Err(e),
    };
    let body = match resolve_block(&f.body, ids, &env) {
        Ok(body) => body,
        Err(e) => return Err(e),
    };
    let fm = ast::Func { args, rets: f.rets, body };
    assert(ast::model_names(fm.args@) =~= fresh_ids(n0, f.args@.len()));
    Ok(fm)
}

fn resolve_block(block: &ast::Block<Vec<u8>>, ids: &mut IdGen, env: &NameMap) -> (r: Result<ast::Block<Id>, ResolveError>)
    requires
        env.wf(),
        rs_block(*block, env@, old(ids).next()).1 <= usize::MAX,
    ensures
        final(ids).next() == rs_block(*block, env@, old(ids).next()).1,
        match r {
            Ok(b) => rs_block(*block, env@, old(ids).next()).0 == Ok::<BlockM<Id>, RErr>(ast::model_block(b)),
            Err(e) => rs_block(*block, env@, old(ids).next()).0 == Err::<BlockM<Id>, RErr>(err_of(e)),
        },
    decreases *block, 2nat, 0int,
{
    let ghost n0 = ids.next();
    let ghost env0 = env@;
    let ghost len = block.stmts@.len() as int;
    let mut scope = env.duplicate();
    proof {
        lemma_stmts_mono(*block, len, env0, n0);
        let (r, n1) = rs_stmts(*block, len, env0, n0);
        match r {
            Ok((ss, env1)) => lemma_expr_mono(block.tail, env1, n1),
            Err(_) => {},
        }
    }
    let mut out: Vec<ast::Stmt<Id>> = Vec::new();
    let mut i: usize = 0;
    while i < block.stmts.len()
        invariant
            i <= len,
            len == block.stmts@.len(),
            n0 == old(ids).next(),
            env0 == env@,
            scope.wf(),
            out@.len() == i,
            rs_stmts(*block, i as int, env0, n0) == (Ok::<(Seq<StmtM<Id>>, NEnv), RErr>((
                ast::model_stmts(ast::Block { stmts: out, tail: ast::Expr::Unit }, i as int), scope@)), ids.next()),
            rs_block(*block, env0, n0).1 <= usize::MAX,
            rs_stmts(*block, len, env0, n0).1 <= rs_block(*block, env0, n0).1,
            forall|m: int| 0 <= m <= len ==> rs_stmts(*block, len, env0, n0).1 >= #[trigger] rs_stmts(*block, m, env0, n0).1
                && (rs_stmts(*block, m, env0, n0).0 is Err ==> rs_stmts(*block, len, env0, n0) == rs_stmts(*block, m, env0, n0)),
        decreases len - i,
    {
        assert(rs_stmts(*block, i + 1, env0, n0).1 <= usize::MAX);
        let ghost prev = out;
        match &block.stmts[i] {
            ast::Stmt::Let(x, e) => {
                let em = match resolve_expr(e, ids, &scope) {
                    Ok(em) => em,
                    Err(err) => {
                        assert(rs_stmts(*block, i + 1, env0, n0).0 is Err);
                        return Err(err);
                    },
                };
                let xm = match x {
                    Some(x) => {
                        assert(rs_stmts(*block, i + 1, env0, n0).1 == ids.next() + 1);
                        let y = ids.generate();
                        scope.insert(x.as_slice(), y);
                        Some(y)
                    },
                    None => None,
                };
                out.push(ast::Stmt::Let(xm, em));
            },
            ast::Stmt::Func(name, f) => {
                proof {
                    lemma_func_mono(*f, scope@.insert(name@, Id(ids.next() as usize)), ids.next() + 1);
                }
                let y = ids.generate();
                scope.insert(name.as_slice(), y);
                let fm = match resolve_func(f, ids, &scope) {
                    Ok(fm) => fm,
                    Err(err) => {
                        assert(rs_stmts(*block, i + 1, env0, n0).0 is Err);
                        return Err(err);
                    },
                };
                out.push(ast::Stmt::Func(y, fm));
            },
        }
        proof {
            ast::lemma_model_stmts_prefix(
                ast::Block { stmts: out, tail: ast::Expr::Unit },
                ast::Block { stmts: prev, tail: ast::Expr::Unit },
                i as int,
            );
        }
        i = i + 1;
    }
    let tail = match resolve_expr(&block.tail, ids, &scope) {
        Ok(tail) => tail,
        Err(err) => return Err(err),
    };
    let b = ast::Block { stmts: out, tail };
    proof {
        ast::lemma_model_stmts_prefix(b, ast::Block { stmts: out, tail: ast::Expr::Unit }, len);
    }
    Ok(b)
}

/// Resolves a program: every procedure name, argument and binding gets a
/// fresh identifier, and every use the identifier of its binding.
pub fn resolve(program: &ast::Program<Vec<u8>>, ids: &mut IdGen) -> (r: Result<ast::Program<Id>, ResolveError>)
    requires
        rs_program(*program, old(ids).next()).1 <= usize::MAX,
    ensures
        final(ids).next() == rs_program(*program, old(ids).next()).1,
        match r {
            Ok(p) => rs_program(*program, old(ids).next()).0 == Ok::<ProgramM<Id>, RErr>(ast::model_program(p)),
            Err(e) => rs_program(*program, old(ids).next()).0 == Err::<ProgramM<Id>, RErr>(err_of(e)),
        },
{
    let ghost n0 = ids.next();
    let ghost funcs = program.funcs@;
    let ghost len = funcs.len() as int;
    proof {
        lemma_proc_env(funcs, len, n0);
        let (r, n1) = rs_proc_env(funcs, len, n0);
        match r {
            Ok(penv) => lemma_funcs_mono(funcs, len, penv, n1),
            Err(_) => {},
        }
    }
    let mut prog_env = NameMap::new();
    let mut i: usize = 0;
    while i < program.funcs.len()
        invariant
            i <= len,
            n0 == old(ids).next(),
            funcs == program.funcs@,
            len == funcs.len(),
            prog_env.wf(),
            rs_proc_env(funcs, i as int, n0) == (Ok::<NEnv, RErr>(prog_env@), ids.next()),
            rs_program(*program, n0).1 <= usize::MAX,
            rs_proc_env(funcs, len, n0).1 <= rs_program(*program, n0).1,
            forall|m: int| 0 <= m <= len ==> rs_proc_env(funcs, len, n0).1 >= #[trigger] rs_proc_env(funcs, m, n0).1
                && (rs_proc_env(funcs, m, n0).0 is Err ==> rs_proc_env(funcs, len, n0) == rs_proc_env(funcs, m, n0)),
        decreases len - i,
    {
        assert(rs_proc_env(funcs, i + 1, n0).1 <= usize::MAX);
        let id = ids.generate();
        let prev = prog_env.insert(program.funcs[i].0.as_slice(), id);
        if prev.is_some() {
            assert(rs_proc_env(funcs, i + 1, n0).0 is Err);
            return Err(error(ResolveErrorKind::DuplicateProcedure, &program.funcs[i].0));
        }
        i = i + 1;
    }
    let ghost penv = prog_env@;
    let ghost n1 = ids.next();
    let mut out: Vec<(Id, ast::Func<Id>)> = Vec::new();
    assert(out@.map_values(|nf: (Id, ast::Func<Id>)| (nf.0, ast::model_func(nf.1))) =~= Seq::<(Id, FuncM<Id>)>::empty());
    let mut k: usize = 0;
    while k < program.funcs.len()
        invariant
            k <= len,
            n0 == old(ids).next(),
            funcs == program.funcs@,
            len == funcs.len(),
            prog_env.wf(),
            prog_env@ == penv,
            rs_proc_env(funcs, len, n0) == (Ok::<NEnv, RErr>(penv), n1),
            forall|j: int| 0 <= j < len ==> penv.contains_key(#[trigger] funcs[j].0@),
            rs_funcs(funcs, k as int, penv, n1) == (Ok::<Seq<(Id, FuncM<Id>)>, RErr>(
                out@.map_values(|nf: (Id, ast::Func<Id>)| (nf.0, ast::model_func(nf.1)))), ids.next()),
            rs_program(*program, n0).1 <= usize::MAX,
            rs_program(*program, n0).1 == rs_funcs(funcs, len, penv, n1).1,
            forall|m: int| 0 <= m <= len ==> rs_funcs(funcs, len, penv, n1).1 >= #[trigger] rs_funcs(funcs, m, penv, n1).1
                && (rs_funcs(funcs, m, penv, n1).0 is Err ==> rs_funcs(funcs, len, penv, n1) == rs_funcs(funcs, m, penv, n1)),
        decreases len - k,
    {
        assert(rs_funcs(funcs, k + 1, penv, n1).1 <= usize::MAX);
        let id = match prog_env.get(program.funcs[k].0.as_slice()) {
            Some(id) => id,
            None => {
                assert(penv.contains_key(funcs[k as int].0@));
                return Err(error(ResolveErrorKind::UnboundProcedure, &program.funcs[k].0));
            },
        };
        let fm = match resolve_func(&program.funcs[k].1, ids, &prog_env) {
            Ok(fm) => fm,
            Err(err) => {
                assert(rs_funcs(funcs, k + 1, penv, n1).0 is Err);
                return Err(err);
            },
        };
        let ghost prev = out@;
        out.push((id, fm));
        assert(out@.map_values(|nf: (Id, ast::Func<Id>)| (nf.0, ast::model_func(nf.1)))
            =~= prev.map_values(|nf: (Id, ast::Func<Id>)| (nf.0, ast::model_func(nf.1))).push((id, ast::model_func(fm))));
        k = k + 1;
    }
    let p = ast::Program { funcs: out };
    proof {
        assert(ast::model_program(p).funcs
            =~= out@.map_values(|nf: (Id, ast::Func<Id>)| (nf.0, ast::model_func(nf.1))));
    }
    Ok(p)
}


/// How many identifiers resolving an expression may hand out.
pub open spec fn bn_expr(e: ast::Expr<Vec<u8>>) -> nat
    decreases e, 0nat, 0int,
{
    match e {
        ast::Expr::Op(_, args) => bn_exprs(args@, args@.len() as int),
        ast::Expr::Apply(_, args) => bn_exprs(args@, args@.len() as int),
        ast::Expr::IfThenElse(c, t, f) => bn_expr(*c) + bn_block(*t) + bn_block(*f),
        _ => 0,
    }
}

pub open spec fn bn_exprs(args: Seq<ast::Expr<Vec<u8>>>, n: int) -> nat
    decreases args, 1nat, n,
{
    if n <= 0 || n > args.len() {
        0
    } else {
        bn_exprs(args, n - 1) + bn_expr(args[n - 1])
    }
}

pub open spec fn bn_func(f: ast::Func<Vec<u8>>) -> nat
    decreases f, 3nat, 0int,
{
    f.args@.len() + bn_block(f.body)
}

pub open spec fn bn_stmts(b: ast::Block<Vec<u8>>, n: int) -> nat
    decreases b, 1nat, n,
{
    if n <= 0 || n > b.stmts@.len() {
        0
    } else {
        bn_stmts(b, n - 1) + match b.stmts@[n - 1] {
            ast::Stmt::Let(x, e) => bn_expr(e) + if x is Some { 1nat } else { 0nat },
            ast::Stmt::Func(_, f) => 1 + bn_func(f),
        }
    }
}

pub open spec fn bn_block(b: ast::Block<Vec<u8>>) -> nat
    decreases b, 2nat, 0int,
{
    bn_stmts(b, b.stmts@.len() as int) + bn_expr(b.tail)
}

pub open spec fn bn_funcs(funcs: Seq<(Vec<u8>, ast::Func<Vec<u8>>)>, n: int) -> nat
    decreases n,
{
    if n <= 0 || n > funcs.len() {
        0
    } else {
        bn_funcs(funcs, n - 1) + bn_func(funcs[n - 1].1)
    }
}

/// How many identifiers resolving a program may hand out.
pub open spec fn bn_program(p: ast::Program<Vec<u8>>) -> nat {
    p.funcs@.len() + bn_funcs(p.funcs@, p.funcs@.len() as int)
}

proof fn lemma_bound_expr(e: ast::Expr<Vec<u8>>, env: NEnv, next: nat)
    ensures
        rs_expr(e, env, next).1 <= next + bn_expr(e),
    decreases e, 0nat, 0int,
{
    match e {
        ast::Expr::Op(_, args) => lemma_bound_exprs(args@, args@.len() as int, env, next),
        ast::Expr::Apply(_, args) => lemma_bound_exprs(args@, args@.len() as int, env, next),
        ast::Expr::IfThenElse(c, t, f) => {
            lemma_bound_expr(*c, env, next);
            let n1 = rs_expr(*c, env, next).1;
            lemma_bound_block(*t, env, n1);
            let n2 = rs_block(*t, env, n1).1;
            lemma_bound_block(*f, env, n2);
        },
        _ => {},
    }
}

proof fn lemma_bound_exprs(args: Seq<ast::Expr<Vec<u8>>>, n: int, env: NEnv, next: nat)
    ensures
        rs_exprs(args, n, env, next).1 <= next + bn_exprs(args, n),
    decreases args, 1nat, n,
{
    if n > 0 && n <= args.len() {
        lemma_bound_exprs(args, n - 1, env, next);
        let n1 = rs_exprs(args, n - 1, env, next).1;
        lemma_bound_expr(args[n - 1], env, n1);
    }
}

proof fn lemma_bound_block(b: ast::Block<Vec<u8>>, env: NEnv, next: nat)
    ensures
        rs_block(b, env, next).1 <= next + bn_block(b),
    decreases b, 2nat, 0int,
{
    lemma_bound_stmts(b, b.stmts@.len() as int, env, next);
    let (r, n1) = rs_stmts(b, b.stmts@.len() as int, env, next);
    match r {
        Ok((ss, env1)) => lemma_bound_expr(b.tail, env1, n1),
        Err(_) => {},
    }
}

proof fn lemma_bound_stmts(b: ast::Block<Vec<u8>>, n: int, env: NEnv, next: nat)
    ensures
        rs_stmts(b, n, env, next).1 <= next + bn_stmts(b, n),
    decreases b, 1nat, n,
{
    if n > 0 && n <= b.stmts@.len() {
        lemma_bound_stmts(b, n - 1, env, next);
        let (r, n1) = rs_stmts(b, n - 1, env, next);
        match r {
            Err(_) => {},
            Ok((ss, env1)) => match b.stmts@[n - 1] {
                ast::Stmt::Let(x, e) => lemma_bound_expr(e, env1, n1),
                ast::Stmt::Func(name, f) => lemma_bound_func(f, env1.insert(name@, Id(n1 as usize)), n1 + 1),
            },
        }
    }
}

proof fn lemma_bound_func(f: ast::Func<Vec<u8>>, env: NEnv, next: nat)
    ensures
        rs_func(f, env, next).1 <= next + bn_func(f),
    decreases f, 3nat, 0int,
{
    let n = f.args@.len();
    match rs_args(f.args@, n as int, env, next) {
        Err(_) => {},
        Ok(env2) => lemma_bound_block(f.body, env2, next + n),
    }
}

proof fn lemma_bound_funcs(funcs: Seq<(Vec<u8>, ast::Func<Vec<u8>>)>, n: int, penv: NEnv, next: nat)
    ensures
        rs_funcs(funcs, n, penv, next).1 <= next + bn_funcs(funcs, n),
    decreases n,
{
    if n > 0 && n <= funcs.len() {
        lemma_bound_funcs(funcs, n - 1, penv, next);
        lemma_bound_func(funcs[n - 1].1, penv, rs_funcs(funcs, n - 1, penv, next).1);
    }
}

/// Resolving a program hands out at most `bn_program` identifiers.
pub proof fn lemma_resolve_bound(p: ast::Program<Vec<u8>>, next: nat)
    ensures
        rs_program(p, next).1 <= next + bn_program(p),
{
    let funcs = p.funcs@;
    lemma_proc_env(funcs, funcs.len() as int, next);
    let (r, n1) = rs_proc_env(funcs, funcs.len() as int, next);
    match r {
        Ok(penv) => lemma_bound_funcs(funcs, funcs.len() as int, penv, n1),
        Err(_) => {},
    }
}

/// Whether a count computed in a `usize` is `n`, or `None` exactly when
/// `n` does not fit.
pub open spec fn counted(r: Option<usize>, n: nat) -> bool {
    match r {
        Some(v) => v == n,
        None => n > usize::MAX,
    }
}

pub(crate) fn add_checked(a: Option<usize>, b: Option<usize>) -> (r: Option<usize>)
    ensures
        match (a, b) {
            (Some(x), Some(y)) => match r {
                Some(z) => z == x + y,
                None => x + y > usize::MAX,
            },
            _ => r is None,
        },
{
    match (a, b) {
        (Some(x), Some(y)) => x.checked_add(y),
        _ => None,
    }
}

fn count_expr(e: &ast::Expr<Vec<u8>>) -> (r: Option<usize>)
    ensures
        counted(r, bn_expr(*e)),
    decreases *e, 0nat, 0int,
{
    match e {
        ast::Expr::Op(_, args) => count_exprs(args),
        ast::Expr::Apply(_, args) => count_exprs(args),
        ast::Expr::IfThenElse(c, t, f) => add_checked(add_checked(count_expr(c), count_block(t)), count_block(f)),
        _ => Some(0),
    }
}

fn count_exprs(args: &Vec<ast::Expr<Vec<u8>>>) -> (r: Option<usize>)
    ensures
        counted(r, bn_exprs(args@, args@.len() as int)),
    decreases args@, 1nat, args@.len() + 1,
{
    let mut total: Option<usize> = Some(0);
    let mut i: usize = 0;
    while i < args.len()
        invariant
            i <= args@.len(),
            counted(total, bn_exprs(args@, i as int)),
        decreases args@.len() - i,
    {
        total = add_checked(total, count_expr(&args[i]));
        i = i + 1;
    }
    total
}

fn count_func(f: &ast::Func<Vec<u8>>) -> (r: Option<usize>)
    ensures
        counted(r, bn_func(*f)),
    decreases *f, 3nat, 0int,
{
    add_checked(Some(f.args.len()), count_block(&f.body))
}

fn count_block(b: &ast::Block<Vec<u8>>) -> (r: Option<usize>)
    ensures
        counted(r, bn_block(*b)),
    decreases *b, 2nat, 0int,
{
    let mut total: Option<usize> = Some(0);
    let mut i: usize = 0;
    while i < b.stmts.len()
        invariant
            i <= b.stmts@.len(),
            counted(total, bn_stmts(*b, i as int)),
        decreases b.stmts@.len() - i,
    {
        let c = match &b.stmts[i] {
            ast::Stmt::Let(x, e) => add_checked(count_expr(e), Some(if x.is_some() { 1 } else { 0 })),
            ast::Stmt::Func(_, f) => add_checked(Some(1), count_func(f)),
        };
        total = add_checked(total, c);
        i = i + 1;
    }
    add_checked(total, count_expr(&b.tail))
}

/// How many identifiers resolving `p` may hand out, if that fits in a
/// `usize`.
pub fn resolve_cost(p: &ast::Program<Vec<u8>>) -> (r: Option<usize>)
    ensures
        counted(r, bn_program(*p)),
{
    let mut total: Option<usize> = Some(p.funcs.len());
    let mut i: usize = 0;
    while i < p.funcs.len()
        invariant
            i <= p.funcs@.len(),
            counted(total, p.funcs@.len() + bn_funcs(p.funcs@, i as int)),
        decreases p.funcs@.len() - i,
    {
        total = add_checked(total, count_func(&p.funcs[i].1));
        i = i + 1;
    }
    total
}

} // verus!
