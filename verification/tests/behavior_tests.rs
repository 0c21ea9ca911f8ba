#![allow(non_snake_case)]
use sexp::exp::Exp;
use sexp::exp::ParseResult::{PRErr, PROk};

#[test]
fn empty_list_parses() {
    let res = Exp::fromSExp(b"()");
    assert!(res == PROk(Exp::List(Vec::new())));
}

#[test]
fn int_bounds_parse_exactly() {
    let mut offset: usize = 0;
    let res = Exp::parseNumber(b"9223372036854775807", &mut offset);
    assert!(res == PROk(Exp::Int(i64::MAX)));

    let mut offset: usize = 0;
    let res = Exp::parseNumber(b"-9223372036854775808", &mut offset);
    assert!(res == PROk(Exp::Int(i64::MIN)));
}

#[test]
fn int_overflow_becomes_float() {
    let mut offset: usize = 0;
    let res = Exp::parseNumber(b"9223372036854775808", &mut offset);
    assert!(res == PROk(Exp::Float((9223372036854775808.0f64).to_bits())));
}

#[test]
fn number_bad_char_error_offset() {
    let mut offset: usize = 0;
    let res = Exp::parseNumber(b"-1234a", &mut offset);
    match res {
        PRErr(err) => {
            assert_eq!(err.message, "Unexpected end of stream (sign)");
            assert_eq!(err.offset, 5);
            assert_eq!(offset, 5);
        },
        PROk(_) => panic!("expected an error"),
    }
}

#[test]
fn number_invalid_format_error() {
    let mut offset: usize = 0;
    let res = Exp::parseNumber(b"12+3", &mut offset);
    match res {
        PRErr(err) => {
            assert_eq!(err.message, "invalid number format");
            assert_eq!(err.offset, 4);
        },
        PROk(_) => panic!("expected an error"),
    }
}

#[test]
fn string_errors() {
    let mut offset: usize = 0;
    let res = Exp::parseString(b"abc", &mut offset);
    match res {
        PRErr(err) => {
            assert_eq!(err.message, "Expected \"");
            assert_eq!(err.offset, 0);
        },
        PROk(_) => panic!("expected an error"),
    }

    let mut offset: usize = 0;
    let res = Exp::parseString(b"\"1234", &mut offset);
    match res {
        PRErr(err) => {
            assert_eq!(err.message, "Unexpected end of stream (string)");
            assert_eq!(err.offset, 5);
        },
        PROk(_) => panic!("expected an error"),
    }
}

#[test]
fn symbol_leaves_terminator_unconsumed() {
    let mut offset: usize = 0;
    let res = Exp::parseSymbol(b"t123(", &mut offset);
    assert!(res == PROk(b"t123".to_vec()));
    assert_eq!(offset, 4);
}

#[test]
fn symbol_error_on_leading_digit() {
    let mut offset: usize = 0;
    let res = Exp::parseSymbol(b"12t123", &mut offset);
    match res {
        PRErr(err) => {
            assert_eq!(err.message, "Expected alpha/operator");
            assert_eq!(err.offset, 0);
        },
        PROk(_) => panic!("expected an error"),
    }
}

#[test]
fn token_errors() {
    let res = Exp::fromSExp(b"");
    match res {
        PRErr(err) => {
            assert_eq!(err.message, "unexpected end of stream (token)");
            assert_eq!(err.offset, 0);
        },
        PROk(_) => panic!("expected an error"),
    }

    let res = Exp::fromSExp(b",abc");
    match res {
        PRErr(err) => {
            assert_eq!(err.message, "unexpected char (token)");
            assert_eq!(err.offset, 0);
        },
        PROk(_) => panic!("expected an error"),
    }
}

#[test]
fn unterminated_list_error() {
    let res = Exp::fromSExp(b"(abc");
    match res {
        PRErr(err) => {
            assert_eq!(err.message, "unexpected end of stream (list)");
            assert_eq!(err.offset, 4);
        },
        PROk(_) => panic!("expected an error"),
    }
}

#[test]
fn lone_minus_is_a_symbol() {
    let res = Exp::fromSExp(b"->");
    assert!(res == PROk(Exp::Symbol(b"->".to_vec())));

    let res = Exp::fromSExp(b"-5");
    assert!(res == PROk(Exp::Int(-5)));
}

#[test]
fn nesting_preserves_order_and_count() {
    let res = Exp::fromSExp(b"(a (b (c d) 1) () 2)");
    match res {
        PROk(r) => {
            let mut inner2 = Vec::new();
            inner2.push(Exp::Symbol(b"c".to_vec()));
            inner2.push(Exp::Symbol(b"d".to_vec()));
            let mut inner1 = Vec::new();
            inner1.push(Exp::Symbol(b"b".to_vec()));
            inner1.push(Exp::List(inner2));
            inner1.push(Exp::Int(1));
            let mut top = Vec::new();
            top.push(Exp::Symbol(b"a".to_vec()));
            top.push(Exp::List(inner1));
            top.push(Exp::List(Vec::new()));
            top.push(Exp::Int(2));
            let e = Exp::List(top);
            assert!(Exp::eq(&e, &r));
        },
        PRErr(err) => panic!("{}", err.message),
    }
}

#[test]
fn deep_nesting_round_trips() {
    let text = b"(((((((((( 1 ))))))))))";
    match Exp::fromSExp(text) {
        PROk(r) => {
            let printed = r.toString();
            assert_eq!(printed, b"((((((((((1))))))))))".to_vec());
            match Exp::fromSExp(&printed) {
                PROk(r2) => assert!(Exp::eq(&r, &r2)),
                PRErr(err) => panic!("{}", err.message),
            }
        },
        PRErr(err) => panic!("{}", err.message),
    }
}

#[test]
fn print_parse_round_trip_concrete() {
    let mut items = Vec::new();
    items.push(Exp::Symbol(b"+=".to_vec()));
    items.push(Exp::Int(-42));
    items.push(Exp::String(b"he llo)".to_vec()));
    items.push(Exp::List(Vec::new()));
    let tree = Exp::List(items);
    let printed = tree.toString();
    assert_eq!(printed, b"(+= -42 \"he llo)\" ())".to_vec());
    match Exp::fromSExp(&printed) {
        PROk(r) => assert!(Exp::eq(&tree, &r)),
        PRErr(err) => panic!("{}", err.message),
    }
}

#[test]
fn float_print_parse_round_trip() {
    let bits = (1.5f64).to_bits();
    let printed = Exp::Float(bits).toString();
    match Exp::fromSExp(&printed) {
        PROk(r) => assert!(Exp::eq(&Exp::Float(bits), &r)),
        PRErr(err) => panic!("{}", err.message),
    }
}

#[test]
fn printer_prints_atoms() {
    assert_eq!(Exp::Bool(true).toString(), b"true".to_vec());
    assert_eq!(Exp::Bool(false).toString(), b"false".to_vec());
    assert_eq!(Exp::Char('x').toString(), b"x".to_vec());
    assert_eq!(Exp::Char('\u{00e9}').toString(), vec![0xc3, 0xa9]);
    assert_eq!(Exp::Int(-1234).toString(), b"-1234".to_vec());
    assert_eq!(Exp::Int(0).toString(), b"0".to_vec());
    assert_eq!(Exp::Symbol(b"#t".to_vec()).toString(), b"#t".to_vec());
    assert_eq!(Exp::String(b"a\\b".to_vec()).toString(), b"\"a\\b\"".to_vec());
}

#[test]
fn equality_is_variant_exact() {
    assert!(!Exp::eq(&Exp::Int(1), &Exp::Float((1.0f64).to_bits())));
    assert!(Exp::eq(&Exp::Int(1), &Exp::Int(1)));
    let mut a = Vec::new();
    a.push(Exp::Int(1));
    a.push(Exp::Int(2));
    let mut b = Vec::new();
    b.push(Exp::Int(2));
    b.push(Exp::Int(1));
    assert!(!Exp::eq(&Exp::List(a), &Exp::List(b)));
}

#[test]
fn leading_whitespace_is_skipped() {
    let res = Exp::fromSExp(b" \t\n 42");
    assert!(res == PROk(Exp::Int(42)));
}

#[test]
fn trailing_bytes_are_not_inspected() {
    let res = Exp::fromSExp(b"abc def");
    assert!(res == PROk(Exp::Symbol(b"abc".to_vec())));
}
