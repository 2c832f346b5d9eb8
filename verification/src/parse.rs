//! The parser: a recursive-descent parser over the bytes of the source.
//!
//! The grammar is read as a parsing expression grammar: alternatives are
//! tried in order, the first that succeeds is taken, and a repetition stops
//! at the first item that does not parse, giving back what that item read.
//!
//! ```text
//! program := (ws func ws)* END
//! func    := "fn" ws ident ws "(" (ws ident ws) ** "," ")" ws rets "{" block "}"
//! rets    := (ws "->" ws "u256" ws)?
//! block   := ws (ws stmt ws)* expr? ws
//! stmt    := func | (let | expr) ";"
//! let     := "let" ws ("_" | ident) ws "=" expr
//! expr    := ws (if | "@" ident args | ident args | digits | ident) ws
//! if      := "if" ws expr ws "{" block "}" ws ("else" ws "{" block "}" ws)?
//! args    := "(" expr ** "," ")"
//! ```
//!
//! Keywords are identifiers that equal the keyword; identifiers are ASCII
//! letters, digits and underscores, not starting with a digit.

use vstd::prelude::*;
use crate::ast::{self, BlockM, ExprM, FuncM, ProgramM, StmtM};
use crate::opcodes;
use crate::word::{be_value, pow256};
use crate::U256;
use vstd::string::StringSliceAdditionalSpecFns;

verus! {

broadcast use vstd::array::group_array_axioms;

/// Names are taken by their bytes.
pub type Name = Seq<u8>;

/// The byte length of the whitespace character that starts at `p`, or 0
/// when none does. Whitespace is what `char::is_whitespace` accepts, read
/// in its UTF-8 encoding.
pub open spec fn ws_len(s: Seq<u8>, p: int) -> int {
    if 0 <= p < s.len() {
        let b = s[p];
        if (9 <= b && b <= 13) || b == 32 {
            1
        } else if p + 1 < s.len() && b == 0xC2 && (s[p + 1] == 0x85 || s[p + 1] == 0xA0) {
            2
        } else if p + 2 < s.len() && b == 0xE1 && s[p + 1] == 0x9A && s[p + 2] == 0x80 {
            3
        } else if p + 2 < s.len() && b == 0xE2 && s[p + 1] == 0x80 && ((0x80 <= s[p + 2] && s[p + 2] <= 0x8A)
            || s[p + 2] == 0xA8 || s[p + 2] == 0xA9 || s[p + 2] == 0xAF) {
            3
        } else if p + 2 < s.len() && b == 0xE2 && s[p + 1] == 0x81 && s[p + 2] == 0x9F {
            3
        } else if p + 2 < s.len() && b == 0xE3 && s[p + 1] == 0x80 && s[p + 2] == 0x80 {
            3
        } else {
            0
        }
    } else {
        0
    }
}

/// The position after the whitespace that starts at `p`.
pub open spec fn skip_ws(s: Seq<u8>, p: int) -> int
    decreases s.len() - p,
{
    let w = ws_len(s, p);
    if w > 0 {
        skip_ws(s, p + w)
    } else {
        p
    }
}

pub open spec fn is_ident_start(b: u8) -> bool {
    (65 <= b && b <= 90) || (97 <= b && b <= 122) || b == 95
}

pub open spec fn is_digit(b: u8) -> bool {
    48 <= b && b <= 57
}

pub open spec fn byte_at(s: Seq<u8>, p: int, b: u8) -> bool {
    0 <= p < s.len() && s[p] == b
}

/// The end of the run of identifier characters that starts at `p`.
pub open spec fn scan_ident(s: Seq<u8>, p: int) -> int
    decreases s.len() - p,
{
    if 0 <= p < s.len() && (is_ident_start(s[p]) || is_digit(s[p])) {
        scan_ident(s, p + 1)
    } else {
        p
    }
}

/// The end of the run of decimal digits that starts at `p`.
pub open spec fn scan_digits(s: Seq<u8>, p: int) -> int
    decreases s.len() - p,
{
    if 0 <= p < s.len() && is_digit(s[p]) {
        scan_digits(s, p + 1)
    } else {
        p
    }
}

/// The end of the identifier that starts at `p`, if one does.
pub open spec fn ident_end(s: Seq<u8>, p: int) -> Option<int> {
    if 0 <= p < s.len() && is_ident_start(s[p]) {
        Some(scan_ident(s, p + 1))
    } else {
        None
    }
}

/// The end of the keyword `kw` at `p`: an identifier equal to `kw`.
pub open spec fn keyword_end(s: Seq<u8>, p: int, kw: Seq<u8>) -> Option<int> {
    match ident_end(s, p) {
        Some(e) => if s.subrange(p, e) == kw { Some(e) } else { None },
        None => None,
    }
}

pub open spec fn kw_if() -> Seq<u8> { seq![105u8, 102u8] }
pub open spec fn kw_else() -> Seq<u8> { seq![101u8, 108u8, 115u8, 101u8] }
pub open spec fn kw_let() -> Seq<u8> { seq![108u8, 101u8, 116u8] }
pub open spec fn kw_fn() -> Seq<u8> { seq![102u8, 110u8] }
pub open spec fn kw_u256() -> Seq<u8> { seq![117u8, 50u8, 53u8, 54u8] }

/// The value of decimal digits, most significant first.
pub open spec fn digits_value(ds: Seq<u64>) -> nat
    decreases ds.len(),
{
    if ds.len() == 0 {
        0
    } else {
        digits_value(ds.drop_last()) * 10 + ds.last() as nat
    }
}

/// The digits that ASCII digit characters stand for.
pub open spec fn digit_values(bytes: Seq<u8>) -> Seq<u64> {
    bytes.map_values(|b: u8| (b - 48) as u64)
}

/// The word with value `n` (there is one for every `n` below 2^256).
pub open spec fn word_of(n: nat) -> U256 {
    choose|w: U256| w.value() == n
}

pub proof fn lemma_skip_ws(s: Seq<u8>, p: int)
    ensures
        skip_ws(s, p) >= p,
        p <= s.len() ==> skip_ws(s, p) <= s.len(),
        ws_len(s, skip_ws(s, p)) == 0,
    decreases s.len() - p,
{
    if ws_len(s, p) > 0 {
        lemma_skip_ws(s, p + ws_len(s, p));
    }
}

/// Whether `to` lies after `from` and within the source.
pub open spec fn advances(s: Seq<u8>, from: int, to: int) -> bool {
    from < to <= s.len()
}

/// `"(" expr ** "," ")"` at `p`.
pub open spec fn p_args(s: Seq<u8>, p: int) -> Option<(Seq<ExprM<Name>>, int)>
    decreases s.len() - p, 0nat,
{
    if !byte_at(s, p, 40) {
        None
    } else {
        let (items, r) = match p_expr(s, p + 1) {
            Some((e, e1)) => if advances(s, p, e1) { p_items(s, e1, seq![e]) } else { (Seq::empty(), p + 1) },
            None => (Seq::empty(), p + 1),
        };
        if byte_at(s, r, 41) && p < r {
            Some((items, r + 1))
        } else {
            None
        }
    }
}

/// The items that follow the first in a comma-separated list.
pub open spec fn p_items(s: Seq<u8>, q: int, acc: Seq<ExprM<Name>>) -> (Seq<ExprM<Name>>, int)
    decreases s.len() - q, 0nat,
{
    if byte_at(s, q, 44) {
        match p_expr(s, q + 1) {
            Some((e, e2)) => if advances(s, q, e2) { p_items(s, e2, acc.push(e)) } else { (acc, q) },
            None => (acc, q),
        }
    } else {
        (acc, q)
    }
}

/// A braced block at `p`, after whitespace: `ws "{" block "}"`.
pub open spec fn p_braced(s: Seq<u8>, p: int) -> Option<(BlockM<Name>, int)>
    decreases s.len() - p, 0nat,
{
    let q = skip_ws(s, p);
    proof {
        lemma_skip_ws(s, p);
    }
    if !byte_at(s, q, 123) || p < 0 {
        None
    } else {
        match p_block(s, q + 1) {
            Some((b, e)) => if advances(s, q, e) && byte_at(s, e, 125) { Some((b, e + 1)) } else { None },
            None => None,
        }
    }
}

/// The empty block that a missing `else` stands for.
pub open spec fn empty_block() -> BlockM<Name> {
    BlockM { stmts: Seq::empty(), tail: ExprM::Unit }
}

/// `("else" ws "{" block "}" ws)?` at `p`; a missing `else` is an empty block.
pub open spec fn p_else(s: Seq<u8>, p: int) -> (BlockM<Name>, int)
    decreases s.len() - p, 0nat,
{
    match keyword_end(s, p, kw_else()) {
        Some(e1) => if advances(s, p, e1) {
            match p_braced(s, e1) {
                Some((f, e2)) => if advances(s, p, e2) { (f, skip_ws(s, e2)) } else { (empty_block(), p) },
                None => (empty_block(), p),
            }
        } else {
            (empty_block(), p)
        },
        None => (empty_block(), p),
    }
}

/// `"if" ws expr ws "{" block "}" ws else` at `p`.
pub open spec fn p_if(s: Seq<u8>, p: int) -> Option<(ExprM<Name>, int)>
    decreases s.len() - p, 0nat,
{
    match keyword_end(s, p, kw_if()) {
        None => None,
        Some(e1) => if !advances(s, p, e1) {
            None
        } else {
            match p_expr(s, e1) {
                None => None,
                Some((c, e2)) => if !advances(s, p, e2) {
                    None
                } else {
                    match p_braced(s, e2) {
                        None => None,
                        Some((t, e3)) => if !advances(s, p, e3) {
                            None
                        } else {
                            proof {
                                lemma_skip_ws(s, e3);
                            }
                            let (f, e4) = p_else(s, skip_ws(s, e3));
                            Some((ExprM::IfThenElse(Box::new(c), Box::new(t), Box::new(f)), e4))
                        },
                    }
                },
            }
        },
    }
}

/// The expression that starts right at `q` (no whitespace before it).
pub open spec fn p_atom(s: Seq<u8>, q: int) -> Option<(ExprM<Name>, int)>
    decreases s.len() - q, 1nat,
{
    match p_if(s, q) {
        Some(r) => Some(r),
        None => {
            let op = if byte_at(s, q, 64) {
                match ident_end(s, q + 1) {
                    Some(e) => match opcodes::opcode_named(s.subrange(q + 1, e)) {
                        Some(code) => if advances(s, q, e) {
                            match p_args(s, e) {
                                Some((args, e2)) => Some((ExprM::Op(code, args), e2)),
                                None => None,
                            }
                        } else {
                            None
                        },
                        None => None,
                    },
                    None => None,
                }
            } else {
                None
            };
            match op {
                Some(r) => Some(r),
                None => match ident_end(s, q) {
                    Some(e) => if !advances(s, q, e) {
                        None
                    } else {
                        match p_args(s, e) {
                            Some((args, e2)) => Some((ExprM::Apply(s.subrange(q, e), args), e2)),
                            None => Some((ExprM::Var(s.subrange(q, e)), e)),
                        }
                    },
                    None => if 0 <= q < s.len() && is_digit(s[q]) {
                        let e = scan_digits(s, q + 1);
                        let n = digits_value(digit_values(s.subrange(q, e)));
                        if n < pow256(32) {
                            Some((ExprM::Const(word_of(n)), e))
                        } else {
                            None
                        }
                    } else {
                        None
                    },
                },
            }
        },
    }
}

/// `ws (if | op | apply | const | var) ws` at `p`.
pub open spec fn p_expr(s: Seq<u8>, p: int) -> Option<(ExprM<Name>, int)>
    decreases s.len() - p, 2nat,
{
    if !(0 <= p <= s.len()) {
        None
    } else {
        let q = skip_ws(s, p);
        if !(p <= q <= s.len()) {
            None
        } else {
            match p_atom(s, q) {
                Some((e, e1)) => if advances(s, q, e1) { Some((e, skip_ws(s, e1))) } else { None },
                None => None,
            }
        }
    }
}

/// The part of a `let` after the keyword's whitespace: the binder.
pub open spec fn p_binder(s: Seq<u8>, p: int) -> Option<(Option<Name>, int)> {
    if byte_at(s, p, 95) {
        Some((None, p + 1))
    } else {
        match ident_end(s, p) {
            Some(e) => Some((Some(s.subrange(p, e)), e)),
            None => None,
        }
    }
}

/// `"let" ws ("_" | ident) ws "=" expr` at `p`.
pub open spec fn p_let(s: Seq<u8>, p: int) -> Option<(StmtM<Name>, int)>
    decreases s.len() - p, 0nat,
{
    match keyword_end(s, p, kw_let()) {
        None => None,
        Some(e1) => match p_binder(s, skip_ws(s, e1)) {
            None => None,
            Some((x, e2)) => {
                let e3 = skip_ws(s, e2);
                if byte_at(s, e3, 61) && advances(s, p, e3 + 1) {
                    match p_expr(s, e3 + 1) {
                        Some((e, e4)) => Some((StmtM::Let(x, e), e4)),
                        None => None,
                    }
                } else {
                    None
                }
            },
        },
    }
}

/// One parameter: `ws ident ws` at `p`.
pub open spec fn p_param(s: Seq<u8>, p: int) -> Option<(Name, int)> {
    let q = skip_ws(s, p);
    match ident_end(s, q) {
        Some(e) => Some((s.subrange(q, e), skip_ws(s, e))),
        None => None,
    }
}

/// The parameters that follow the first in a comma-separated list.
pub open spec fn p_param_rest(s: Seq<u8>, q: int, acc: Seq<Name>) -> (Seq<Name>, int)
    decreases s.len() - q,
{
    if byte_at(s, q, 44) {
        match p_param(s, q + 1) {
            Some((x, e)) => if advances(s, q, e) { p_param_rest(s, e, acc.push(x)) } else { (acc, q) },
            None => (acc, q),
        }
    } else {
        (acc, q)
    }
}

/// `ws "(" (ws ident ws) ** "," ")" ws` at `p`.
pub open spec fn p_params(s: Seq<u8>, p: int) -> Option<(Seq<Name>, int)> {
    let q = skip_ws(s, p);
    if !byte_at(s, q, 40) {
        None
    } else {
        let (xs, r) = match p_param(s, q + 1) {
            Some((x, e)) => p_param_rest(s, e, seq![x]),
            None => (Seq::empty(), q + 1),
        };
        if byte_at(s, r, 41) {
            Some((xs, skip_ws(s, r + 1)))
        } else {
            None
        }
    }
}

/// `(ws "->" ws "u256" ws)?` at `p`: the number of values returned.
pub open spec fn p_rets(s: Seq<u8>, p: int) -> (usize, int) {
    let q = skip_ws(s, p);
    if byte_at(s, q, 45) && byte_at(s, q + 1, 62) {
        match keyword_end(s, skip_ws(s, q + 2), kw_u256()) {
            Some(e) => (1, skip_ws(s, e)),
            None => (0, p),
        }
    } else {
        (0, p)
    }
}

/// `"fn" ws ident params rets "{" block "}"` at `p`.
pub open spec fn p_func(s: Seq<u8>, p: int) -> Option<((Name, FuncM<Name>), int)>
    decreases s.len() - p, 0nat,
{
    match keyword_end(s, p, kw_fn()) {
        None => None,
        Some(e1) => {
            let q = skip_ws(s, e1);
            match ident_end(s, q) {
                None => None,
                Some(e2) => match p_params(s, e2) {
                    None => None,
                    Some((args, e3)) => {
                        let (rets, e4) = p_rets(s, e3);
                        if advances(s, p, e4) {
                            match p_braced(s, e4) {
                                Some((body, e5)) => Some(((s.subrange(q, e2), FuncM { args, rets, body }), e5)),
                                None => None,
                            }
                        } else {
                            None
                        }
                    },
                },
            }
        },
    }
}

/// `func | (let | expr) ";"` at `p`.
pub open spec fn p_stmt(s: Seq<u8>, p: int) -> Option<(StmtM<Name>, int)>
    decreases s.len() - p, 3nat,
{
    match p_func(s, p) {
        Some(((name, f), e)) => Some((StmtM::Func(name, f), e)),
        None => {
            let r = match p_let(s, p) {
                Some(r) => Some(r),
                None => match p_expr(s, p) {
                    Some((e, e1)) => Some((StmtM::Let(None, e), e1)),
                    None => None,
                },
            };
            match r {
                Some((st, e)) => if byte_at(s, e, 59) { Some((st, e + 1)) } else { None },
                None => None,
            }
        },
    }
}

/// `(ws stmt ws)*` at `p`, after the statements `acc`.
pub open spec fn p_stmts(s: Seq<u8>, p: int, acc: Seq<StmtM<Name>>) -> (Seq<StmtM<Name>>, int)
    decreases s.len() - p, 4nat,
{
    let q = skip_ws(s, p);
    if !(0 <= p <= q <= s.len()) {
        (acc, p)
    } else {
        match p_stmt(s, q) {
            Some((st, e)) => if advances(s, q, e) {
                proof {
                    lemma_skip_ws(s, e);
                }
                p_stmts(s, skip_ws(s, e), acc.push(st))
            } else {
                (acc, p)
            },
            None => (acc, p),
        }
    }
}

/// `ws (ws stmt ws)* expr? ws` at `p`.
pub open spec fn p_block(s: Seq<u8>, p: int) -> Option<(BlockM<Name>, int)>
    decreases s.len() - p, 5nat,
{
    let q = skip_ws(s, p);
    if !(0 <= p <= q <= s.len()) {
        None
    } else {
        let (stmts, r) = p_stmts(s, q, Seq::empty());
        if !(p <= r <= s.len()) {
            None
        } else {
            match p_expr(s, r) {
                Some((t, e)) => Some((BlockM { stmts, tail: t }, skip_ws(s, e))),
                None => Some((BlockM { stmts, tail: ExprM::Unit }, skip_ws(s, r))),
            }
        }
    }
}

/// `(ws func ws)*` at `p`, after the functions `acc`.
pub open spec fn p_funcs(s: Seq<u8>, p: int, acc: Seq<(Name, FuncM<Name>)>) -> (Seq<(Name, FuncM<Name>)>, int)
    decreases s.len() - p,
{
    let q = skip_ws(s, p);
    match p_func(s, q) {
        Some((nf, e)) => if advances(s, p, e) {
            proof {
                lemma_skip_ws(s, e);
            }
            p_funcs(s, skip_ws(s, e), acc.push(nf))
        } else {
            (acc, p)
        },
        None => (acc, p),
    }
}

/// A whole program, or the position where it stops parsing.
pub open spec fn p_program(s: Seq<u8>) -> Result<ProgramM<Name>, int> {
    let (funcs, e) = p_funcs(s, 0, Seq::empty());
    if e == s.len() {
        Ok(ProgramM { funcs })
    } else {
        Err(e)
    }
}


/// The model of one statement, as `ast::model_stmts` gives it.
pub open spec fn stmt_model(st: ast::Stmt<Vec<u8>>) -> StmtM<Name> {
    match st {
        ast::Stmt::Let(x, e) => StmtM::Let(match x { Some(x) => Some(x@), None => None }, ast::model_expr(e)),
        ast::Stmt::Func(name, f) => StmtM::Func(name@, FuncM {
            args: ast::model_names(f.args@),
            rets: f.rets,
            body: ast::model_block(f.body),
        }),
    }
}

/// The model of the statements parsed so far.
pub open spec fn stmts_model(v: Vec<ast::Stmt<Vec<u8>>>) -> Seq<StmtM<Name>> {
    ast::model_stmts(ast::Block { stmts: v, tail: ast::Expr::Unit }, v@.len() as int)
}

/// The model of the functions parsed so far.
pub open spec fn funcs_model(v: Seq<(Vec<u8>, ast::Func<Vec<u8>>)>) -> Seq<(Name, FuncM<Name>)> {
    v.map_values(|nf: (Vec<u8>, ast::Func<Vec<u8>>)| (nf.0@, ast::model_func(nf.1)))
}

/// Where a source stops parsing: the byte offset at which the functions
/// that could be read end and something else follows.
#[derive(Clone, Copy, PartialEq, Eq, Structural, Debug)]
pub struct ParseError {
    pub offset: usize,
}

/// Equal big-endian values of equal length mean equal bytes.
proof fn lemma_be_value_injective(a: Seq<u8>, b: Seq<u8>)
    requires
        a.len() == b.len(),
        be_value(a) == be_value(b),
    ensures
        a == b,
    decreases a.len(),
{
    if a.len() > 0 {
        let x = be_value(a.drop_last());
        let y = be_value(b.drop_last());
        let la = a.last();
        let lb = b.last();
        assert(la == lb && x == y) by (nonlinear_arith)
            requires
                x * 256 + la as int == y * 256 + lb as int,
                x >= 0,
                y >= 0,
        ;
        lemma_be_value_injective(a.drop_last(), b.drop_last());
        assert(a =~= a.drop_last().push(la));
        assert(b =~= b.drop_last().push(lb));
    }
}

/// A word is the word of its value.
proof fn lemma_word_of(w: U256)
    ensures
        word_of(w.value()) == w,
{
    let v = word_of(w.value());
    assert(v.value() == w.value());
    lemma_be_value_injective(v.be_bytes@, w.be_bytes@);
    assert(v.be_bytes =~= w.be_bytes);
}

/// `str::parse` into `revm::primitives::U256` (ruint's `Uint`, whose
/// `FromStr` reads decimal unless a `0x`, `0o` or `0b` prefix says
/// otherwise), applied to ASCII decimal digits. Claimed of it: it succeeds
/// exactly when the number the digits spell, most significant first, is
/// below 2^256, and then gives that number, read out by `to_be_bytes`.
#[verifier::external_body]
fn decimal_word(digits: &[u8]) -> (r: Option<U256>)
    requires
        forall|i: int| 0 <= i < digits@.len() ==> is_digit(#[trigger] digits@[i]),
    ensures
        r is Some <==> digits_value(digit_values(digits@)) < pow256(32),
        r matches Some(w) ==> w.value() == digits_value(digit_values(digits@)),
{
    match String::from_utf8_lossy(digits).parse::<revm::primitives::U256>() {
        Ok(v) => Some(U256 { be_bytes: v.to_be_bytes::<32>() }),
        Err(_) => None,
    }
}

pub(crate) fn byte_is(s: &[u8], p: usize, b: u8) -> (r: bool)
    ensures
        r == byte_at(s@, p as int, b),
{
    p < s.len() && s[p] == b
}

fn ws_len_at(s: &[u8], p: usize) -> (w: usize)
    ensures
        w as int == ws_len(s@, p as int),
{
    let n = s.len();
    if p >= n {
        return 0;
    }
    let b = s[p];
    if (9 <= b && b <= 13) || b == 32 {
        1
    } else if n - p > 1 && b == 0xC2 && (s[p + 1] == 0x85 || s[p + 1] == 0xA0) {
        2
    } else if n - p > 2 && b == 0xE1 && s[p + 1] == 0x9A && s[p + 2] == 0x80 {
        3
    } else if n - p > 2 && b == 0xE2 && s[p + 1] == 0x80 && ((0x80 <= s[p + 2] && s[p + 2] <= 0x8A)
        || s[p + 2] == 0xA8 || s[p + 2] == 0xA9 || s[p + 2] == 0xAF) {
        3
    } else if n - p > 2 && b == 0xE2 && s[p + 1] == 0x81 && s[p + 2] == 0x9F {
        3
    } else if n - p > 2 && b == 0xE3 && s[p + 1] == 0x80 && s[p + 2] == 0x80 {
        3
    } else {
        0
    }
}

pub(crate) fn skip_whitespace(s: &[u8], p: usize) -> (q: usize)
    requires
        p <= s.len(),
    ensures
        q as int == skip_ws(s@, p as int),
        p <= q <= s.len(),
{
    let mut q = p;
    loop
        invariant
            p <= q <= s.len(),
            skip_ws(s@, q as int) == skip_ws(s@, p as int),
        ensures
            p <= q <= s.len(),
            q as int == skip_ws(s@, p as int),
        decreases s.len() - q,
    {
        let w = ws_len_at(s, q);
        if w == 0 {
            break;
        }
        q = q + w;
    }
    q
}

fn ident_end_at(s: &[u8], p: usize) -> (r: Option<usize>)
    ensures
        match r {
            Some(e) => ident_end(s@, p as int) == Some(e as int) && p < e <= s.len(),
            None => ident_end(s@, p as int) is None,
        },
{
    if !(p < s.len()) {
        return None;
    }
    let b = s[p];
    if !((65 <= b && b <= 90) || (97 <= b && b <= 122) || b == 95) {
        return None;
    }
    let mut q = p + 1;
    while q < s.len() && ((65 <= s[q] && s[q] <= 90) || (97 <= s[q] && s[q] <= 122) || s[q] == 95 || (48 <= s[q] && s[q] <= 57))
        invariant
            p < q <= s.len(),
            scan_ident(s@, q as int) == scan_ident(s@, p + 1),
        decreases s.len() - q,
    {
        q = q + 1;
    }
    Some(q)
}

fn range_equals(s: &[u8], a: usize, b: usize, kw: &[u8]) -> (r: bool)
    requires
        a <= b <= s.len(),
    ensures
        r == (s@.subrange(a as int, b as int) == kw@),
{
    if b - a != kw.len() {
        return false;
    }
    let mut i: usize = 0;
    while i < kw.len()
        invariant
            i <= kw@.len(),
            b - a == kw@.len(),
            a <= b <= s.len(),
            forall|j: int| 0 <= j < i ==> s@[a + j] == kw@[j],
        decreases kw@.len() - i,
    {
        if s[a + i] != kw[i] {
            assert(s@.subrange(a as int, b as int)[i as int] != kw@[i as int]);
            return false;
        }
        i = i + 1;
    }
    assert(s@.subrange(a as int, b as int) =~= kw@);
    true
}

fn keyword_end_at(s: &[u8], p: usize, kw: &[u8]) -> (r: Option<usize>)
    ensures
        match r {
            Some(e) => keyword_end(s@, p as int, kw@) == Some(e as int) && p < e <= s.len(),
            None => keyword_end(s@, p as int, kw@) is None,
        },
{
    match ident_end_at(s, p) {
        Some(e) => if range_equals(s, p, e, kw) { Some(e) } else { None },
        None => None,
    }
}

fn keyword_bytes(b0: u8, b1: u8, b2: u8, b3: u8, n: usize) -> (v: Vec<u8>)
    requires
        2 <= n <= 4,
    ensures
        v@ == seq![b0, b1, b2, b3].take(n as int),
{
    let mut v: Vec<u8> = Vec::new();
    v.push(b0);
    v.push(b1);
    if n > 2 {
        v.push(b2);
    }
    if n > 3 {
        v.push(b3);
    }
    assert(v@ =~= seq![b0, b1, b2, b3].take(n as int));
    v
}

fn copy_range(s: &[u8], a: usize, b: usize) -> (v: Vec<u8>)
    requires
        a <= b <= s.len(),
    ensures
        v@ == s@.subrange(a as int, b as int),
{
    let mut v: Vec<u8> = Vec::new();
    let mut i = a;
    while i < b
        invariant
            a <= i <= b,
            b <= s.len(),
            v@ == s@.subrange(a as int, i as int),
        decreases b - i,
    {
        v.push(s[i]);
        assert(s@.subrange(a as int, i + 1) =~= s@.subrange(a as int, i as int).push(s@[i as int]));
        i = i + 1;
    }
    v
}

/// The constant whose digits start at `q`.
pub(crate) fn parse_const(s: &[u8], q: usize) -> (r: Option<(ast::Expr<Vec<u8>>, usize)>)
    requires
        q < s.len(),
        is_digit(s@[q as int]),
    ensures
        ({
            let e = scan_digits(s@, q + 1);
            let n = digits_value(digit_values(s@.subrange(q as int, e)));
            match r {
                Some((c, e2)) => n < pow256(32) && ast::model_expr(c) == ExprM::<Name>::Const(word_of(n))
                    && e2 == e && q < e2 <= s.len(),
                None => n >= pow256(32),
            }
        }),
{
    let mut e = q + 1;
    while e < s.len() && 48 <= s[e] && s[e] <= 57
        invariant
            q < e <= s.len(),
            scan_digits(s@, e as int) == scan_digits(s@, q + 1),
            forall|j: int| q <= j < e ==> #[trigger] is_digit(s@[j]),
        decreases s.len() - e,
    {
        e = e + 1;
    }
    let digits = vstd::slice::slice_subrange(s, q, e);
    assert(digits@ =~= s@.subrange(q as int, e as int));
    match decimal_word(digits) {
        Some(w) => {
            proof {
                lemma_word_of(w);
            }
            Some((ast::Expr::Const(w), e))
        },
        None => None,
    }
}

fn parse_args(s: &[u8], p: usize) -> (r: Option<(Vec<ast::Expr<Vec<u8>>>, usize)>)
    requires
        p <= s.len(),
    ensures
        match r {
            Some((v, e)) => p_args(s@, p as int) == Some((ast::model_exprs(v@, v@.len() as int), e as int))
                && p < e <= s.len(),
            None => p_args(s@, p as int) is None,
        },
    decreases s.len() - p, 0nat,
{
    if !byte_is(s, p, 40) {
        return None;
    }
    let mut items: Vec<ast::Expr<Vec<u8>>> = Vec::new();
    let mut r = p + 1;
    match parse_expr(s, p + 1) {
        Some((e, e1)) => {
            items.push(e);
            proof {
                reveal_with_fuel(ast::model_exprs, 2);
                assert(ast::model_exprs(items@, 1) =~= seq![ast::model_expr(e)]);
            }
            let (v, r2) = parse_items(s, e1, items);
            items = v;
            r = r2;
        },
        None => {
            assert(ast::model_exprs(items@, 0) =~= Seq::<ExprM<Name>>::empty());
        },
    }
    if byte_is(s, r, 41) {
        Some((items, r + 1))
    } else {
        None
    }
}

fn parse_items(s: &[u8], q0: usize, acc0: Vec<ast::Expr<Vec<u8>>>) -> (r: (Vec<ast::Expr<Vec<u8>>>, usize))
    requires
        q0 <= s.len(),
    ensures
        p_items(s@, q0 as int, ast::model_exprs(acc0@, acc0@.len() as int))
            == (ast::model_exprs(r.0@, r.0@.len() as int), r.1 as int),
        q0 <= r.1 <= s.len(),
    decreases s.len() - q0, 0nat,
{
    let mut acc = acc0;
    let mut q = q0;
    loop
        invariant
            q0 <= q <= s.len(),
            p_items(s@, q as int, ast::model_exprs(acc@, acc@.len() as int))
                == p_items(s@, q0 as int, ast::model_exprs(acc0@, acc0@.len() as int)),
        ensures
            q0 <= q <= s.len(),
            p_items(s@, q as int, ast::model_exprs(acc@, acc@.len() as int))
                == p_items(s@, q0 as int, ast::model_exprs(acc0@, acc0@.len() as int)),
            p_items(s@, q as int, ast::model_exprs(acc@, acc@.len() as int))
                == (ast::model_exprs(acc@, acc@.len() as int), q as int),
        decreases s.len() - q,
    {
        if !byte_is(s, q, 44) {
            break;
        }
        match parse_expr(s, q + 1) {
            Some((e, e2)) => {
                let ghost prev = acc@;
                acc.push(e);
                proof {
                    ast::lemma_model_exprs_prefix(acc@, prev, prev.len() as int);
                }
                q = e2;
            },
            None => {
                break;
            },
        }
    }
    (acc, q)
}

fn parse_braced(s: &[u8], p: usize) -> (r: Option<(ast::Block<Vec<u8>>, usize)>)
    requires
        p <= s.len(),
    ensures
        match r {
            Some((b, e)) => p_braced(s@, p as int) == Some((ast::model_block(b), e as int)) && p < e <= s.len(),
            None => p_braced(s@, p as int) is None,
        },
    decreases s.len() - p, 0nat,
{
    let q = skip_whitespace(s, p);
    if !byte_is(s, q, 123) {
        return None;
    }
    let (b, e) = parse_block(s, q + 1);
    if byte_is(s, e, 125) {
        Some((b, e + 1))
    } else {
        None
    }
}

fn parse_else(s: &[u8], p: usize) -> (r: (ast::Block<Vec<u8>>, usize))
    requires
        p <= s.len(),
    ensures
        p_else(s@, p as int) == (ast::model_block(r.0), r.1 as int),
        p <= r.1 <= s.len(),
    decreases s.len() - p, 0nat,
{
    let kw = keyword_bytes(101, 108, 115, 101, 4);
    assert(kw@ =~= kw_else());
    match keyword_end_at(s, p, kw.as_slice()) {
        Some(e1) => match parse_braced(s, e1) {
            Some((f, e2)) => return (f, skip_whitespace(s, e2)),
            None => {},
        },
        None => {},
    }
    (ast::Block { stmts: Vec::new(), tail: ast::Expr::Unit }, p)
}

fn parse_if(s: &[u8], p: usize) -> (r: Option<(ast::Expr<Vec<u8>>, usize)>)
    requires
        p <= s.len(),
    ensures
        match r {
            Some((x, e)) => p_if(s@, p as int) == Some((ast::model_expr(x), e as int)) && p < e <= s.len(),
            None => p_if(s@, p as int) is None,
        },
    decreases s.len() - p, 0nat,
{
    let kw = keyword_bytes(105, 102, 0, 0, 2);
    assert(kw@ =~= kw_if());
    let e1 = match keyword_end_at(s, p, kw.as_slice()) {
        Some(e1) => e1,
        None => return None,
    };
    let (c, e2) = match parse_expr(s, e1) {
        Some(x) => x,
        None => return None,
    };
    let (t, e3) = match parse_braced(s, e2) {
        Some(x) => x,
        None => return None,
    };
    let (f, e4) = parse_else(s, skip_whitespace(s, e3));
    Some((ast::Expr::IfThenElse(Box::new(c), Box::new(t), Box::new(f)), e4))
}

fn parse_atom(s: &[u8], q: usize) -> (r: Option<(ast::Expr<Vec<u8>>, usize)>)
    requires
        q <= s.len(),
    ensures
        match r {
            Some((x, e)) => p_atom(s@, q as int) == Some((ast::model_expr(x), e as int)) && q < e <= s.len(),
            None => p_atom(s@, q as int) is None,
        },
    decreases s.len() - q, 1nat,
{
    match parse_if(s, q) {
        Some(r) => return Some(r),
        None => {},
    }
    if byte_is(s, q, 64) {
        match ident_end_at(s, q + 1) {
            Some(e) => {
                let name = copy_range(s, q + 1, e);
                match opcodes::lookup_bytes(name.as_slice()) {
                    Some(code) => match parse_args(s, e) {
                        Some((args, e2)) => return Some((ast::Expr::Op(code, args), e2)),
                        None => {},
                    },
                    None => {},
                }
            },
            None => {},
        }
    }
    match ident_end_at(s, q) {
        Some(e) => {
            let name = copy_range(s, q, e);
            match parse_args(s, e) {
                Some((args, e2)) => Some((ast::Expr::Apply(name, args), e2)),
                None => Some((ast::Expr::Var(name), e)),
            }
        },
        None => if q < s.len() && 48 <= s[q] && s[q] <= 57 {
            parse_const(s, q)
        } else {
            None
        },
    }
}

fn parse_expr(s: &[u8], p: usize) -> (r: Option<(ast::Expr<Vec<u8>>, usize)>)
    requires
        p <= s.len(),
    ensures
        match r {
            Some((x, e)) => p_expr(s@, p as int) == Some((ast::model_expr(x), e as int)) && p < e <= s.len(),
            None => p_expr(s@, p as int) is None,
        },
    decreases s.len() - p, 2nat,
{
    let q = skip_whitespace(s, p);
    match parse_atom(s, q) {
        Some((x, e1)) => Some((x, skip_whitespace(s, e1))),
        None => None,
    }
}

fn parse_let(s: &[u8], p: usize) -> (r: Option<(ast::Stmt<Vec<u8>>, usize)>)
    requires
        p <= s.len(),
    ensures
        match r {
            Some((st, e)) => p_let(s@, p as int) == Some((stmt_model(st), e as int)) && p < e <= s.len(),
            None => p_let(s@, p as int) is None,
        },
    decreases s.len() - p, 0nat,
{
    let kw = keyword_bytes(108, 101, 116, 0, 3);
    assert(kw@ =~= kw_let());
    let e1 = match keyword_end_at(s, p, kw.as_slice()) {
        Some(e1) => e1,
        None => return None,
    };
    let b = skip_whitespace(s, e1);
    let (x, e2) = if byte_is(s, b, 95) {
        (None, b + 1)
    } else {
        match ident_end_at(s, b) {
            Some(e) => (Some(copy_range(s, b, e)), e),
            None => return None,
        }
    };
    let e3 = skip_whitespace(s, e2);
    if !byte_is(s, e3, 61) {
        return None;
    }
    match parse_expr(s, e3 + 1) {
        Some((e, e4)) => Some((ast::Stmt::Let(x, e), e4)),
        None => None,
    }
}

fn parse_param(s: &[u8], p: usize) -> (r: Option<(Vec<u8>, usize)>)
    requires
        p <= s.len(),
    ensures
        match r {
            Some((x, e)) => p_param(s@, p as int) == Some((x@, e as int)) && p < e <= s.len(),
            None => p_param(s@, p as int) is None,
        },
{
    let q = skip_whitespace(s, p);
    match ident_end_at(s, q) {
        Some(e) => Some((copy_range(s, q, e), skip_whitespace(s, e))),
        None => None,
    }
}

fn parse_params(s: &[u8], p: usize) -> (r: Option<(Vec<Vec<u8>>, usize)>)
    requires
        p <= s.len(),
    ensures
        match r {
            Some((xs, e)) => p_params(s@, p as int) == Some((ast::model_names(xs@), e as int)) && p < e <= s.len(),
            None => p_params(s@, p as int) is None,
        },
{
    let q = skip_whitespace(s, p);
    if !byte_is(s, q, 40) {
        return None;
    }
    let mut xs: Vec<Vec<u8>> = Vec::new();
    let mut r = q + 1;
    match parse_param(s, q + 1) {
        Some((x, e)) => {
            xs.push(x);
            assert(ast::model_names(xs@) =~= seq![x@]);
            r = e;
            loop
                invariant
                    q < r <= s.len(),
                    p_param_rest(s@, r as int, ast::model_names(xs@)) == p_param_rest(s@, e as int, seq![x@]),
                ensures
                    q < r <= s.len(),
                    p_param_rest(s@, r as int, ast::model_names(xs@)) == p_param_rest(s@, e as int, seq![x@]),
                    p_param_rest(s@, r as int, ast::model_names(xs@)) == (ast::model_names(xs@), r as int),
                decreases s.len() - r,
            {
                if !byte_is(s, r, 44) {
                    break;
                }
                match parse_param(s, r + 1) {
                    Some((y, e2)) => {
                        let ghost prev = xs@;
                        xs.push(y);
                        assert(ast::model_names(xs@) =~= ast::model_names(prev).push(y@));
                        r = e2;
                    },
                    None => {
                        break;
                    },
                }
            }
        },
        None => {},
    }
    assert(ast::model_names(xs@).len() == xs.len());
    if byte_is(s, r, 41) {
        Some((xs, skip_whitespace(s, r + 1)))
    } else {
        None
    }
}

fn parse_rets(s: &[u8], p: usize) -> (r: (usize, usize))
    requires
        p <= s.len(),
    ensures
        (r.0, r.1 as int) == p_rets(s@, p as int),
        p <= r.1 <= s.len(),
{
    let q = skip_whitespace(s, p);
    if byte_is(s, q, 45) && byte_is(s, q + 1, 62) {
        let kw = keyword_bytes(117, 50, 53, 54, 4);
        assert(kw@ =~= kw_u256());
        let q2 = skip_whitespace(s, q + 2);
        match keyword_end_at(s, q2, kw.as_slice()) {
            Some(e) => (1, skip_whitespace(s, e)),
            None => (0, p),
        }
    } else {
        (0, p)
    }
}

fn parse_func(s: &[u8], p: usize) -> (r: Option<((Vec<u8>, ast::Func<Vec<u8>>), usize)>)
    requires
        p <= s.len(),
    ensures
        match r {
            Some((nf, e)) => p_func(s@, p as int) == Some(((nf.0@, ast::model_func(nf.1)), e as int)) && p < e <= s.len(),
            None => p_func(s@, p as int) is None,
        },
    decreases s.len() - p, 0nat,
{
    let kw = keyword_bytes(102, 110, 0, 0, 2);
    assert(kw@ =~= kw_fn());
    let e1 = match keyword_end_at(s, p, kw.as_slice()) {
        Some(e1) => e1,
        None => return None,
    };
    let q = skip_whitespace(s, e1);
    let e2 = match ident_end_at(s, q) {
        Some(e2) => e2,
        None => return None,
    };
    let (args, e3) = match parse_params(s, e2) {
        Some(x) => x,
        None => return None,
    };
    let (rets, e4) = parse_rets(s, e3);
    let (body, e5) = match parse_braced(s, e4) {
        Some(x) => x,
        None => return None,
    };
    let name = copy_range(s, q, e2);
    Some(((name, ast::Func { args, rets, body }), e5))
}

fn parse_stmt(s: &[u8], p: usize) -> (r: Option<(ast::Stmt<Vec<u8>>, usize)>)
    requires
        p <= s.len(),
    ensures
        match r {
            Some((st, e)) => p_stmt(s@, p as int) == Some((stmt_model(st), e as int)) && p < e <= s.len(),
            None => p_stmt(s@, p as int) is None,
        },
    decreases s.len() - p, 3nat,
{
    match parse_func(s, p) {
        Some(((name, f), e)) => return Some((ast::Stmt::Func(name, f), e)),
        None => {},
    }
    let r = match parse_let(s, p) {
        Some(x) => Some(x),
        None => match parse_expr(s, p) {
            Some((e, e1)) => Some((ast::Stmt::Let(None, e), e1)),
            None => None,
        },
    };
    match r {
        Some((st, e)) => if byte_is(s, e, 59) { Some((st, e + 1)) } else { None },
        None => None,
    }
}

fn parse_stmts(s: &[u8], p0: usize) -> (r: (Vec<ast::Stmt<Vec<u8>>>, usize))
    requires
        p0 <= s.len(),
    ensures
        p_stmts(s@, p0 as int, Seq::empty()) == (stmts_model(r.0), r.1 as int),
        p0 <= r.1 <= s.len(),
    decreases s.len() - p0, 4nat,
{
    let mut acc: Vec<ast::Stmt<Vec<u8>>> = Vec::new();
    let mut p = p0;
    assert(stmts_model(acc) =~= Seq::<StmtM<Name>>::empty());
    loop
        invariant
            p0 <= p <= s.len(),
            p_stmts(s@, p as int, stmts_model(acc)) == p_stmts(s@, p0 as int, Seq::empty()),
        ensures
            p0 <= p <= s.len(),
            p_stmts(s@, p0 as int, Seq::empty()) == (stmts_model(acc), p as int),
        decreases s.len() - p,
    {
        let q = skip_whitespace(s, p);
        match parse_stmt(s, q) {
            Some((st, e)) => {
                let ghost prev = acc;
                acc.push(st);
                proof {
                    ast::lemma_model_stmts_prefix(
                        ast::Block { stmts: acc, tail: ast::Expr::Unit },
                        ast::Block { stmts: prev, tail: ast::Expr::Unit },
                        prev@.len() as int,
                    );
                    assert(stmts_model(acc) == stmts_model(prev).push(stmt_model(st)));
                }
                p = skip_whitespace(s, e);
            },
            None => {
                break;
            },
        }
    }
    (acc, p)
}

fn parse_block(s: &[u8], p: usize) -> (r: (ast::Block<Vec<u8>>, usize))
    requires
        p <= s.len(),
    ensures
        p_block(s@, p as int) == Some((ast::model_block(r.0), r.1 as int)),
        p <= r.1 <= s.len(),
    decreases s.len() - p, 5nat,
{
    let q = skip_whitespace(s, p);
    let (stmts, r) = parse_stmts(s, q);
    let ghost unit_block = ast::Block { stmts, tail: ast::Expr::Unit };
    let (tail, e) = match parse_expr(s, r) {
        Some((t, e)) => (t, skip_whitespace(s, e)),
        None => (ast::Expr::Unit, skip_whitespace(s, r)),
    };
    let b = ast::Block { stmts, tail };
    proof {
        ast::lemma_model_stmts_prefix(b, unit_block, b.stmts.len() as int);
    }
    (b, e)
}

/// Parses a whole source: functions, with whitespace around them, up to
/// its end.
pub fn parse(source: &str) -> (r: Result<ast::Program<Vec<u8>>, ParseError>)
    ensures
        match r {
            Ok(p) => p_program(source.spec_bytes()) == Ok::<ProgramM<Name>, int>(ast::model_program(p)),
            Err(e) => p_program(source.spec_bytes()) == Err::<ProgramM<Name>, int>(e.offset as int),
        },
{
    let s = source.as_bytes();
    let mut funcs: Vec<(Vec<u8>, ast::Func<Vec<u8>>)> = Vec::new();
    let mut p: usize = 0;
    assert(funcs_model(funcs@) =~= Seq::<(Name, FuncM<Name>)>::empty());
    loop
        invariant
            p <= s.len(),
            p_funcs(s@, p as int, funcs_model(funcs@)) == p_funcs(s@, 0, Seq::empty()),
        ensures
            p <= s.len(),
            p_funcs(s@, 0, Seq::empty()) == (funcs_model(funcs@), p as int),
        decreases s.len() - p,
    {
        let q = skip_whitespace(s, p);
        match parse_func(s, q) {
            Some((nf, e)) => {
                let ghost prev = funcs@;
                funcs.push(nf);
                assert(funcs_model(funcs@) =~= funcs_model(prev).push((nf.0@, ast::model_func(nf.1))));
                p = skip_whitespace(s, e);
            },
            None => {
                break;
            },
        }
    }
    if p == s.len() {
        let prog = ast::Program { funcs };
        assert(ast::model_program(prog).funcs =~= funcs_model(funcs@));
        Ok(prog)
    } else {
        Err(ParseError { offset: p })
    }
}

} // verus!
