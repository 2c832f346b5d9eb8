//! A small compiler from a minimal expression language to EVM bytecode.
//!
//! The pipeline is `parse` → `resolve` → `type_check` → `lower` → `compile`
//! → `assemble`; `compile_from_source` runs all of it.

pub mod word;
mod id;
pub mod ast;
pub mod ir;
pub mod isa;
pub mod opcodes;
pub mod names;
pub mod stack;
pub mod assemble;
pub mod type_check;
pub mod lower;
pub mod resolve;
pub mod parse;
pub mod utils;
pub mod graph;
pub mod analysis;
pub mod compile;
pub mod scc;
pub mod ancestry;
pub mod direct;

pub use word::U256;
pub use id::{Id, IdGen};
pub use parse::{parse, ParseError};
pub use resolve::{resolve, ResolveError};
pub use type_check::{type_check, TypeError};
pub use lower::lower;
pub use compile::{compile, CompileError};
pub use assemble::assemble;

use vstd::prelude::*;
use vstd::string::StringSliceAdditionalSpecFns;

verus! {

/// Why a source text could not be compiled.
#[derive(Debug)]
pub enum Error {
    /// The text does not follow the grammar.
    Parse(ParseError),
    /// A name is bound twice or not at all.
    Resolve(ResolveError),
    /// The program is not well typed.
    Type(TypeError),
    /// The program has no first function, or its first function, the
    /// entry point, takes arguments.
    NoEntry,
    /// The program needs more identifiers than a `usize` can count.
    TooManyIds,
    /// The code generator could not handle the program.
    Compile(CompileError),
    /// The generated code cannot be encoded: a label is marked twice or
    /// never, a stack access reaches deeper than the EVM allows, or the
    /// bytecode is over the contract size limit.
    Assemble,
}

/// What compiling a type-checked program `q` owes, once resolving has
/// handed out identifiers up to `next`. Bytecode, when it comes, is the
/// encoding of instructions whose labels are each marked once, so that
/// every pushed label is a jump destination. A program that lowers to an
/// entry block of constant bindings alone (and no procedure) never fails in
/// the code generator, and its bytecode encodes the pushes of those
/// constants, pops and shallow swaps, and the stop; with at most fifteen
/// constants it is always compiled.
pub open spec fn after_resolve(q: ast::Program<Id>, next: nat, r: Result<Vec<u8>, Error>) -> bool {
    match type_check::check_program(q) {
        Err(t) => r == Err::<Vec<u8>, Error>(Error::Type(t)),
        Ok(()) => if q.funcs@.len() == 0 || q.funcs@[0].1.args@.len() > 0 {
            r == Err::<Vec<u8>, Error>(Error::NoEntry)
        } else if next + lower::lw_program(q) > usize::MAX {
            r == Err::<Vec<u8>, Error>(Error::TooManyIds)
        } else {
            match r {
                Ok(bytes) => exists|code: Seq<isa::Instr>|
                    assemble::assemblable(code) && bytes@ == #[trigger] assemble::assembled(code)
                    && (compile::consts_only(lower::low_program(q, next).0) && lower::low_program(q, next).1 < usize::MAX
                        ==> compile::consts_code(code,
                        compile::model_pushes(lower::low_program(q, next).0.main.priors))),
                Err(e) => (e is Compile && !(compile::consts_only(lower::low_program(q, next).0)
                    && lower::low_program(q, next).1 < usize::MAX))
                    || (e is Assemble && !(compile::consts_only(lower::low_program(q, next).0)
                    && lower::low_program(q, next).1 < usize::MAX
                    && lower::low_program(q, next).0.main.priors.len() <= 15)),
            }
        },
    }
}

/// What compiling a parsed program `p` owes.
pub open spec fn after_parse(p: ast::Program<Vec<u8>>, r: Result<Vec<u8>, Error>) -> bool {
    if 1 + resolve::bn_program(p) > usize::MAX {
        r == Err::<Vec<u8>, Error>(Error::TooManyIds)
    } else {
        match resolve::rs_program(p, 1) {
            (Err(x), _) => r matches Err(Error::Resolve(e)) && resolve::err_of(e) == x,
            (Ok(qm), next) => exists|q: ast::Program<Id>|
                ast::model_program(q) == qm && #[trigger] after_resolve(q, next, r),
        }
    }
}

/// Compiles a source text to EVM bytecode: parses it, resolves its names,
/// checks its types, lowers it, generates code and assembles it.
pub fn compile_from_source(source: &str) -> (r: Result<Vec<u8>, Error>)
    ensures
        match parse::p_program(source.spec_bytes()) {
            Err(off) => r matches Err(Error::Parse(e)) && e.offset == off,
            Ok(pm) => exists|p: ast::Program<Vec<u8>>|
                ast::model_program(p) == pm && #[trigger] after_parse(p, r),
        },
{
    let mut ids = IdGen::new();
    let ast = match parse(source) {
        Ok(ast) => ast,
        Err(e) => {
            return Err(Error::Parse(e));
        },
    };
    let r = compile_parsed(&ast, &mut ids);
    assert(after_parse(ast, r));
    r
}

fn compile_parsed(ast: &ast::Program<Vec<u8>>, ids: &mut IdGen) -> (r: Result<Vec<u8>, Error>)
    requires
        old(ids).next() == 1,
    ensures
        after_parse(*ast, r),
{
    match resolve::resolve_cost(ast) {
        Some(c) if c < usize::MAX => {},
        _ => {
            return Err(Error::TooManyIds);
        },
    }
    proof {
        resolve::lemma_resolve_bound(*ast, 1);
    }
    let q = match resolve(ast, ids) {
        Ok(q) => q,
        Err(e) => {
            return Err(Error::Resolve(e));
        },
    };
    let ghost next = ids.next();
    let r = compile_resolved(q, ids);
    assert(after_resolve(q, next, r));
    r
}

fn compile_resolved(q: ast::Program<Id>, ids: &mut IdGen) -> (r: Result<Vec<u8>, Error>)
    ensures
        after_resolve(q, old(ids).next(), r),
{
    match type_check(&q) {
        Ok(()) => {},
        Err(t) => {
            return Err(Error::Type(t));
        },
    }
    if q.funcs.len() == 0 || q.funcs[0].1.args.len() > 0 {
        return Err(Error::NoEntry);
    }
    match lower::lower_cost(&q) {
        Some(c) if c <= usize::MAX - ids.0 => {},
        _ => {
            return Err(Error::TooManyIds);
        },
    }
    proof {
        lower::lemma_checked_ops_known(q);
        lower::lemma_lower_bound(q, ids.next());
    }
    let ir = lower(q, ids);
    let ghost n_low = ids.next();
    let ghost m_low = ir::model_program(ir);
    let code = match compile(ir, ids) {
        Ok(code) => code,
        Err(e) => {
            return Err(Error::Compile(e));
        },
    };
    proof {
        let m = lower::low_program(q, old(ids).next()).0;
        assert(m == m_low);
        if compile::consts_only(m) && n_low < usize::MAX && m.main.priors.len() <= 15 {
            let pushes = compile::model_pushes(m.main.priors);
            assert forall|j: int| 0 <= j < pushes.len() implies #[trigger] pushes[j] is Push by {
                assert(m.main.priors[j].1 is Const);
            }
            compile::lemma_consts_code_assemblable(code@, pushes);
        }
    }
    if !assemble::check_assemblable(code.as_slice()) {
        return Err(Error::Assemble);
    }
    let bytes = assemble(code.as_slice());
    assert(assemble::assembled(code@) == bytes@);
    Ok(bytes)
}

} // verus!
