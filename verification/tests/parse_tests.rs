#![allow(non_snake_case)]
use sexp::exp::Exp;
use sexp::exp::ParseResult::{PRErr, PROk};

#[test]
fn testParseInt() {
    let s = b"1234";
    let mut offset: usize = 0;
    let res = Exp::parseNumber(s, &mut offset);
    assert!(res == PROk(Exp::Int(1234)));

    let s = b"-001234";
    let mut offset: usize = 0;
    let res = Exp::parseNumber(s, &mut offset);
    assert!(res == PROk(Exp::Int(-1234)));

    let s = b"-1234";
    let mut offset: usize = 0;
    let res = Exp::parseNumber(s, &mut offset);
    assert!(res == PROk(Exp::Int(-1234)));

    let s = b"-1234 ";
    let mut offset: usize = 0;
    let res = Exp::parseNumber(s, &mut offset);
    assert!(res == PROk(Exp::Int(-1234)));

    let s = b"-1234+";
    let mut offset: usize = 0;
    let res = Exp::parseNumber(s, &mut offset);
    assert!(res != PROk(Exp::Int(-1234)));

    let s = b"-1234a";
    let mut offset: usize = 0;
    let res = Exp::parseNumber(s, &mut offset);
    assert!(res != PROk(Exp::Int(-1234)));
}

#[test]
fn testParseFloat() {
    let s = b"1234.";
    let mut offset: usize = 0;
    let res = Exp::parseNumber(s, &mut offset);
    assert!(res == PROk(Exp::Float((1234.0f64).to_bits())));

    let s = b"1234.0";
    let mut offset: usize = 0;
    let res = Exp::parseNumber(s, &mut offset);
    assert!(res == PROk(Exp::Float((1234.0f64).to_bits())));

    let s = b"-001234.0";
    let mut offset: usize = 0;
    let res = Exp::parseNumber(s, &mut offset);
    assert!(res == PROk(Exp::Float((-1234.0f64).to_bits())));

    let s = b"-1234.0";
    let mut offset: usize = 0;
    let res = Exp::parseNumber(s, &mut offset);
    assert!(res == PROk(Exp::Float((-1234.0f64).to_bits())));

    let s = b"-1234.0 ";
    let mut offset: usize = 0;
    let res = Exp::parseNumber(s, &mut offset);
    assert!(res == PROk(Exp::Float((-1234.0f64).to_bits())));

    let s = b"-1234.0+";
    let mut offset: usize = 0;
    let res = Exp::parseNumber(s, &mut offset);
    assert!(res != PROk(Exp::Float((-1234.0f64).to_bits())));

    let s = b"-1234.0a";
    let mut offset: usize = 0;
    let res = Exp::parseNumber(s, &mut offset);
    assert!(res != PROk(Exp::Float((-1234.0f64).to_bits())));

    let s = b"-001234.0E10";
    let mut offset: usize = 0;
    let res = Exp::parseNumber(s, &mut offset);
    assert!(res == PROk(Exp::Float((-1234.0E10f64).to_bits())));

    let s = b"-001234.0E-10";
    let mut offset: usize = 0;
    let res = Exp::parseNumber(s, &mut offset);
    assert!(res == PROk(Exp::Float((-1234.0E-10f64).to_bits())));
}

#[test]
fn testParseString() {
    let s = b"\"1234\"";
    let mut offset: usize = 0;
    let res = Exp::parseString(s, &mut offset);
    assert!(res == PROk(b"1234".to_vec()));

    let s = b"\"1234";
    let mut offset: usize = 0;
    let res = Exp::parseString(s, &mut offset);
    assert!(res != PROk(b"1234".to_vec()));
}

#[test]
fn testParseSymbol() {
    let s = b"#t";
    let mut offset: usize = 0;
    let res = Exp::parseSymbol(s, &mut offset);
    assert!(res == PROk(b"#t".to_vec()));

    let s = b"t123";
    let mut offset: usize = 0;
    let res = Exp::parseSymbol(s, &mut offset);
    assert!(res == PROk(b"t123".to_vec()));

    let s = b"t123(";
    let mut offset: usize = 0;
    let res = Exp::parseSymbol(s, &mut offset);
    assert!(res == PROk(b"t123".to_vec()));

    let s = b"t123+=";
    let mut offset: usize = 0;
    let res = Exp::parseSymbol(s, &mut offset);
    assert!(res == PROk(b"t123+=".to_vec()));

    let s = b"12t123";
    let mut offset: usize = 0;
    let res = Exp::parseSymbol(s, &mut offset);
    assert!(res != PROk(b"12t123".to_vec()));
}

#[test]
fn testParseList() {
    let sexp = b"(abcd 123 abc)";
    let res = Exp::fromSExp(sexp);
    match res {
        PROk(r) => {
            let mut v = Vec::new();
            v.push(Exp::Symbol(b"abcd".to_vec()));
            v.push(Exp::Int(123));
            v.push(Exp::Symbol(b"abc".to_vec()));
            let e = Exp::List(v);
            assert!(Exp::eq(&e, &r))
        },
        PRErr(err) => panic!("{}", err.message),
    }
}

#[test]
fn testParseListString() {
    let sexp = b"(abcd 123 abc)";
    let res = Exp::fromSExp(sexp);
    match res {
        PROk(r) => {
            let s = r.toString();
            assert!(s == b"(abcd 123 abc)".to_vec())
        },
        PRErr(err) => panic!("{}", err.message),
    }
}
