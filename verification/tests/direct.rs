use evml::direct::{compile, parse, Expr, Val};

fn word(v: u8) -> Vec<u8> {
    let mut w = vec![0u8; 31];
    w.push(v);
    w
}

#[test]
fn single_constant_is_pushed_as_a_word() {
    let e = parse("  42 \n").unwrap();
    assert!(matches!(&e, Expr::Val(Val::Const(c)) if c.be_bytes[31] == 42));
    let mut expected = vec![0x7f];
    expected.extend(word(42));
    assert_eq!(compile(&e), expected);
}

#[test]
fn operation_pushes_its_operands_last_first() {
    let e = parse("@04(84, 2)").unwrap();
    match &e {
        Expr::Op(op, args) => {
            assert_eq!(*op, 4);
            assert_eq!(args.len(), 2);
        }
        _ => panic!("expected an operation"),
    }
    let mut expected = vec![0x7f];
    expected.extend(word(2));
    expected.push(0x7f);
    expected.extend(word(84));
    expected.push(0x04);
    assert_eq!(compile(&e), expected);
}

#[test]
fn operation_without_operands() {
    let e = parse("@5f()").unwrap();
    assert_eq!(compile(&e), vec![0x5f]);
    let e = parse("@5F( 1 ,2 )").unwrap();
    assert!(matches!(&e, Expr::Op(0x5f, args) if args.len() == 2));
}

#[test]
fn malformed_expressions_are_refused() {
    assert!(parse("@100(1)").is_err());
    assert!(parse("@04( )").is_err());
    assert!(parse("@04(1,)").is_err());
    assert!(parse("@(1)").is_err());
    assert!(parse("7 8").is_err());
    assert!(parse("").is_err());
    assert!(parse("@04 (1)").is_err());
    assert!(parse("115792089237316195423570985008687907853269984665640564039457584007913129639936").is_err());
}
