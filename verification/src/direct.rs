//! Direct compilation of a single expression: a decimal constant, or an
//! operation given by its opcode in hexadecimal, `@01(2, 3)`, applied to
//! decimal constants. The constants are pushed as full words, the last
//! argument first, and the operation byte follows.

use vstd::prelude::*;
use crate::ast;
use crate::parse::{byte_at, byte_is, digit_values, digits_value, is_digit, parse_const, scan_digits, skip_whitespace, skip_ws, word_of};
use vstd::string::StringSliceAdditionalSpecFns;
use crate::word::pow256;
use crate::U256;

verus! {

#[derive(Debug)]
pub enum Val {
    Const(U256),
}

#[derive(Debug)]
pub enum Expr {
    Val(Val),
    Op(u8, Vec<Val>),
}

/// What an expression stands for: a constant, or an opcode with its
/// constant operands.
pub enum Form {
    Val(U256),
    Op(u8, Seq<U256>),
}

pub open spec fn val_word(v: Val) -> U256 {
    match v {
        Val::Const(c) => c,
    }
}

pub open spec fn form_of(e: Expr) -> Form {
    match e {
        Expr::Val(v) => Form::Val(val_word(v)),
        Expr::Op(op, args) => Form::Op(op, args@.map_values(|v: Val| val_word(v))),
    }
}

/// `PUSH32` and the word's bytes.
pub open spec fn push_word(c: U256) -> Seq<u8> {
    seq![0x7fu8] + c.be_bytes@
}

/// The pushes of the first `n` words, the last of them first.
pub open spec fn pushes_reversed(args: Seq<U256>, n: int) -> Seq<u8>
    decreases n,
{
    if n <= 0 {
        Seq::empty()
    } else {
        push_word(args[n - 1]) + pushes_reversed(args, n - 1)
    }
}

/// The bytecode of an expression.
pub open spec fn code_of(f: Form) -> Seq<u8> {
    match f {
        Form::Val(c) => push_word(c),
        Form::Op(op, args) => pushes_reversed(args, args.len() as int).push(op),
    }
}

proof fn lemma_pushes_layout(args: Seq<U256>, n: int)
    requires
        0 <= n <= args.len(),
    ensures
        pushes_reversed(args, n).len() == 33 * n,
        forall|k: int| 0 <= k < n ==> #[trigger] pushes_reversed(args, n).subrange(33 * (n - 1 - k), 33 * (n - k))
            == push_word(args[k]),
    decreases n,
{
    if n > 0 {
        lemma_pushes_layout(args, n - 1);
        let head = push_word(args[n - 1]);
        let rest = pushes_reversed(args, n - 1);
        assert(args[n - 1].be_bytes@.len() == 32);
        assert(head.len() == 33);
        assert forall|k: int| 0 <= k < n implies #[trigger] pushes_reversed(args, n).subrange(33 * (n - 1 - k), 33 * (n - k))
            == push_word(args[k]) by {
            let whole = head + rest;
            assert(pushes_reversed(args, n) == whole);
            if k == n - 1 {
                assert(whole.subrange(0, 33) =~= head);
            } else {
                assert(whole.subrange(33 * (n - 1 - k), 33 * (n - k))
                    =~= rest.subrange(33 * (n - 2 - k), 33 * (n - 1 - k)));
            }
        }
    }
}

/// The operands of an operation are pushed the last first, so that the
/// first operand ends on top of the stack: for operands `a0 .. a(n-1)`, the
/// code is `PUSH32 a(n-1)`, ..., `PUSH32 a0`, then the operation byte.
pub proof fn lemma_operands_last_first(e: Expr)
    requires
        e is Op,
    ensures
        ({
            let (op, args) = match e {
                Expr::Op(op, args) => (op, args@),
                _ => (0u8, Seq::<Val>::empty()),
            };
            let n = args.len() as int;
            let c = code_of(form_of(e));
            &&& c.len() == 33 * n + 1
            &&& c.last() == op
            &&& forall|k: int| 0 <= k < n ==> #[trigger] c.subrange(33 * (n - 1 - k), 33 * (n - k))
                == seq![0x7fu8] + val_word(args[k]).be_bytes@
        }),
{
    if let Expr::Op(op, args) = e {
        let words = args@.map_values(|v: Val| val_word(v));
        let n = args@.len() as int;
        lemma_pushes_layout(words, n);
        let c = code_of(form_of(e));
        assert(c == pushes_reversed(words, n).push(op));
        assert forall|k: int| 0 <= k < n implies #[trigger] c.subrange(33 * (n - 1 - k), 33 * (n - k))
            == seq![0x7fu8] + val_word(args@[k]).be_bytes@ by {
            assert(c.subrange(33 * (n - 1 - k), 33 * (n - k))
                =~= pushes_reversed(words, n).subrange(33 * (n - 1 - k), 33 * (n - k)));
            assert(words[k] == val_word(args@[k]));
        }
    }
}

/// The value of an ASCII hexadecimal digit.
pub open spec fn hex_digit(b: u8) -> Option<nat> {
    if 48 <= b <= 57 {
        Some((b - 48) as nat)
    } else if 97 <= b <= 102 {
        Some((b - 87) as nat)
    } else if 65 <= b <= 70 {
        Some((b - 55) as nat)
    } else {
        None
    }
}

/// The end of the run of hexadecimal digits that starts at `p`.
pub open spec fn scan_hex(s: Seq<u8>, p: int) -> int
    decreases s.len() - p,
{
    if 0 <= p < s.len() && hex_digit(s[p]) is Some {
        scan_hex(s, p + 1)
    } else {
        p
    }
}

/// The value of hexadecimal digits, most significant first.
pub open spec fn hex_value(ds: Seq<u8>) -> nat
    decreases ds.len(),
{
    if ds.len() == 0 {
        0
    } else {
        hex_value(ds.drop_last()) * 16 + match hex_digit(ds.last()) {
            Some(d) => d,
            None => 0,
        }
    }
}

/// A constant, with whitespace around it: its word and the position after.
pub open spec fn p_val(s: Seq<u8>, p: int) -> Option<(U256, int)> {
    let q = skip_ws(s, p);
    if 0 <= q < s.len() && is_digit(s[q]) {
        let e = scan_digits(s, q + 1);
        let n = digits_value(digit_values(s.subrange(q, e)));
        if n < pow256(32) {
            Some((word_of(n), skip_ws(s, e)))
        } else {
            None
        }
    } else {
        None
    }
}

/// More constants, each after a comma, then the closing parenthesis.
pub open spec fn p_rest(s: Seq<u8>, p: int, acc: Seq<U256>) -> Option<(Seq<U256>, int)>
    decreases s.len() - p,
{
    if byte_at(s, p, 44) {
        match p_val(s, p + 1) {
            Some((c, e)) => if p < e <= s.len() {
                p_rest(s, e, acc.push(c))
            } else {
                None
            },
            None => None,
        }
    } else if byte_at(s, p, 41) {
        Some((acc, p + 1))
    } else {
        None
    }
}

/// `[val ("," val)*] ")"` at `p`.
pub open spec fn p_items(s: Seq<u8>, p: int) -> Option<(Seq<U256>, int)> {
    match p_val(s, p) {
        Some((c, e)) => p_rest(s, e, seq![c]),
        None => if byte_at(s, p, 41) { Some((Seq::empty(), p + 1)) } else { None },
    }
}

/// `"@" hex "(" [val ("," val)*] ")"` at `p`.
pub open spec fn p_op(s: Seq<u8>, p: int) -> Option<(Form, int)> {
    if byte_at(s, p, 64) {
        let h = scan_hex(s, p + 1);
        let v = hex_value(s.subrange(p + 1, h));
        if h > p + 1 && v <= 255 && byte_at(s, h, 40) {
            match p_items(s, h + 1) {
                Some((args, e)) => Some((Form::Op(v as u8, args), e)),
                None => None,
            }
        } else {
            None
        }
    } else {
        None
    }
}

/// A whole source: one expression with whitespace around it.
pub open spec fn p_source(s: Seq<u8>) -> Option<Form> {
    let q = skip_ws(s, 0);
    let r = if byte_at(s, q, 64) {
        p_op(s, q)
    } else {
        match p_val(s, q) {
            Some((c, e)) => Some((Form::Val(c), e)),
            None => None,
        }
    };
    match r {
        Some((f, e)) => if skip_ws(s, e) == s.len() { Some(f) } else { None },
        None => None,
    }
}

/// Why a source is not one expression.
#[derive(Clone, Copy, PartialEq, Eq, Debug)]
pub struct SyntaxError;

fn hex_digit_of(b: u8) -> (r: Option<u8>)
    ensures
        match r {
            Some(d) => hex_digit(b) == Some(d as nat) && d < 16,
            None => hex_digit(b) is None,
        },
{
    if 48 <= b && b <= 57 {
        Some(b - 48)
    } else if 97 <= b && b <= 102 {
        Some(b - 87)
    } else if 65 <= b && b <= 70 {
        Some(b - 55)
    } else {
        None
    }
}

fn parse_val(s: &[u8], p: usize) -> (r: Option<(U256, usize)>)
    requires
        p <= s@.len(),
    ensures
        match r {
            Some((c, e)) => p_val(s@, p as int) == Some((c, e as int)) && p < e <= s@.len(),
            None => p_val(s@, p as int) is None,
        },
{
    let q = skip_whitespace(s, p);
    if q < s.len() && 48 <= s[q] && s[q] <= 57 {
        match parse_const(s, q) {
            Some((ast::Expr::Const(c), e)) => {
                let e2 = skip_whitespace(s, e);
                Some((c, e2))
            },
            _ => None,
        }
    } else {
        None
    }
}

fn parse_op(s: &[u8], p: usize) -> (r: Option<(Expr, usize)>)
    requires
        p <= s@.len(),
    ensures
        match r {
            Some((x, e)) => p_op(s@, p as int) == Some((form_of(x), e as int)) && e <= s@.len(),
            None => p_op(s@, p as int) is None,
        },
{
    let n = s.len();
    if !byte_is(s, p, 64) {
        return None;
    }
    assert(p < n);
    let mut h = p + 1;
    let mut v: u64 = 0;
    while h < s.len() && hex_digit_of(s[h]).is_some()
        invariant
            p + 1 <= h <= s@.len(),
            scan_hex(s@, h as int) == scan_hex(s@, p + 1),
            v == hex_value(s@.subrange(p + 1, h as int)) || (v > 255 && hex_value(s@.subrange(p + 1, h as int)) > 255),
            v <= 4096,
        decreases s@.len() - h,
    {
        let d = hex_digit_of(s[h]).unwrap();
        proof {
            let ds = s@.subrange(p + 1, h + 1);
            assert(ds.drop_last() =~= s@.subrange(p + 1, h as int));
            assert(ds.last() == s@[h as int]);
        }
        if v <= 255 {
            v = v * 16 + d as u64;
        } else {
            v = 256;
        }
        h = h + 1;
    }
    if h == p + 1 || v > 255 || !byte_is(s, h, 40) {
        return None;
    }
    let ghost hv = hex_value(s@.subrange(p + 1, h as int));
    assert(v == hv);
    let op = v as u8;
    let mut args: Vec<Val> = Vec::new();
    let mut e: usize;
    match parse_val(s, h + 1) {
        None => {
            if byte_is(s, h + 1, 41) {
                proof {
                    assert(args@.map_values(|v: Val| val_word(v)) =~= Seq::<U256>::empty());
                }
                return Some((Expr::Op(op, args), h + 2));
            } else {
                return None;
            }
        },
        Some((c, e0)) => {
            args.push(Val::Const(c));
            e = e0;
            proof {
                assert(args@.map_values(|v: Val| val_word(v)) =~= seq![c]);
            }
        },
    }
    loop
        invariant
            e <= s@.len(),
            p_rest(s@, e as int, args@.map_values(|v: Val| val_word(v))) == p_items(s@, h + 1),
            byte_at(s@, p as int, 64),
            h as int == scan_hex(s@, p + 1),
            h > p + 1,
            hex_value(s@.subrange(p + 1, h as int)) == op,
            byte_at(s@, h as int, 40),
            n == s@.len(),
        decreases s@.len() - e,
    {
        if byte_is(s, e, 44) {
            assert(e < s@.len());
            match parse_val(s, e + 1) {
                Some((c, e2)) => {
                    let ghost a0 = args@.map_values(|v: Val| val_word(v));
                    args.push(Val::Const(c));
                    proof {
                        assert(args@.map_values(|v: Val| val_word(v)) =~= a0.push(c));
                    }
                    e = e2;
                },
                None => {
                    return None;
                },
            }
        } else if byte_is(s, e, 41) {
            assert(e < s@.len());
            return Some((Expr::Op(op, args), e + 1));
        } else {
            return None;
        }
    }
}

/// Reads one expression, with whitespace around it.
pub fn parse(source: &str) -> (r: Result<Expr, SyntaxError>)
    ensures
        match r {
            Ok(x) => p_source(source.spec_bytes()) == Some(form_of(x)),
            Err(_) => p_source(source.spec_bytes()) is None,
        },
{
    let s = source.as_bytes();
    let q = skip_whitespace(s, 0);
    let r: Option<(Expr, usize)> = if byte_is(s, q, 64) {
        parse_op(s, q)
    } else {
        match parse_val(s, q) {
            Some((c, e)) => Some((Expr::Val(Val::Const(c)), e)),
            None => None,
        }
    };
    match r {
        Some((x, e)) => {
            if skip_whitespace(s, e) == s.len() {
                Ok(x)
            } else {
                Err(SyntaxError)
            }
        },
        None => Err(SyntaxError),
    }
}

fn compile_val_onto(val: &Val, code: &mut Vec<u8>)
    ensures
        final(code)@ == old(code)@ + push_word(val_word(*val)),
{
    match val {
        Val::Const(c) => {
            let ghost c0 = code@;
            code.push(0x7f);
            let mut i: usize = 0;
            while i < 32
                invariant
                    i <= 32,
                    code@ == c0 + seq![0x7fu8] + c.be_bytes@.take(i as int),
                decreases 32 - i,
            {
                code.push(c.be_bytes[i]);
                assert(c.be_bytes@.take(i + 1) =~= c.be_bytes@.take(i as int).push(c.be_bytes@[i as int]));
                i = i + 1;
            }
            assert(c.be_bytes@.take(32) =~= c.be_bytes@);
            assert(code@ =~= c0 + push_word(*c));
        },
    }
}

/// The bytecode of an expression: its constants pushed, the last first,
/// then the operation.
pub fn compile(expr: &Expr) -> (code: Vec<u8>)
    ensures
        code@ == code_of(form_of(*expr)),
{
    let mut code: Vec<u8> = Vec::new();
    match expr {
        Expr::Val(val) => {
            compile_val_onto(val, &mut code);
            assert(code@ =~= push_word(val_word(*val)));
        },
        Expr::Op(op, args) => {
            let ghost words = args@.map_values(|v: Val| val_word(v));
            let mut i = args.len();
            while i > 0
                invariant
                    i <= args@.len(),
                    words == args@.map_values(|v: Val| val_word(v)),
                    code@ + pushes_reversed(words, i as int) == pushes_reversed(words, args@.len() as int),
                decreases i,
            {
                i = i - 1;
                let ghost before = code@;
                compile_val_onto(&args[i], &mut code);
                proof {
                    assert(words[i as int] == val_word(args@[i as int]));
                    assert(pushes_reversed(words, i + 1) == push_word(words[i as int]) + pushes_reversed(words, i as int));
                    assert(code@ + pushes_reversed(words, i as int) =~= before + pushes_reversed(words, i + 1));
                }
            }
            assert(code@ =~= code@ + pushes_reversed(words, 0));
            code.push(*op);
        },
    }
    code
}

} // verus!
