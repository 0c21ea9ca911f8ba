//! The laws of the parser/printer pair, stated over the model and proved
//! once and for all: exact outcomes of the number tokenizer, and the
//! round-trip guarantee that re-parsing printed text reproduces the tree.
use vstd::prelude::*;

use crate::chars::{
    alpha, digit, num_char, op_char, separator, sym_char, ws, LPAREN, MINUS, PLUS, QUOTE, RPAREN,
    SPACE,
};
use crate::exp::{ErrKind, ExpV};
use crate::num::{
    all_digits, i64_dec_text, lemma_i64_text_round_trip, lemma_u64_dec_text, spec_parse_f64,
    spec_parse_i64, u64_dec_text,
};
use crate::parser::{
    num_end, parse_items_at, parse_list_at, parse_number_at, parse_string_at, parse_symbol_at,
    parse_token_at, skip_ws, spec_parse, str_end, sym_end, SpecRes,
};
use crate::printer::{print_exp, print_items_from};

verus! {

/// Law: a numeric token whose text is an in-range, optionally signed,
/// optionally zero-padded decimal integer literal, ending at a separator
/// or at the end of the input, parses to exactly its value.
pub proof fn lemma_parse_number_int(s: Seq<u8>, i: int, value: i64)
    requires
        0 <= i <= s.len(),
        num_end(s, i) == s.len() || separator(s[num_end(s, i)]),
        spec_parse_i64(s.subrange(i, num_end(s, i))) == Some(value),
    ensures
        parse_number_at(s, i) == (SpecRes::Parsed::<ExpV> {
            v: ExpV::Int(value as int),
            next: num_end(s, i),
        }),
{
}

/// Law: a numeric token whose text contains a decimal point or an exponent
/// marker, and denotes a 64-bit float, parses to exactly that float.
pub proof fn lemma_parse_number_float(s: Seq<u8>, i: int, k: int, bits: u64)
    requires
        0 <= i <= s.len(),
        num_end(s, i) == s.len() || separator(s[num_end(s, i)]),
        i <= k < num_end(s, i),
        s[k] == 0x2e || s[k] == 0x65 || s[k] == 0x45,
        spec_parse_f64(s.subrange(i, num_end(s, i))) == Some(bits),
    ensures
        parse_number_at(s, i) == (SpecRes::Parsed::<ExpV> {
            v: ExpV::Float(bits),
            next: num_end(s, i),
        }),
{
    crate::parser::lemma_num_end_bounds(s, i);
    let t = s.subrange(i, num_end(s, i));
    let d = crate::num::int_literal_digits(t);
    let kk = k - i;
    assert(t[kk] == s[k]);
    assert(!digit(t[kk]));
    if t.len() > 0 && (t[0] == MINUS || t[0] == PLUS) {
        if kk == 0 {
            assert(false);
        } else {
            assert(d[kk - 1] == t[kk]);
            assert(!all_digits(d));
        }
    } else {
        assert(d[kk] == t[kk]);
        assert(!all_digits(d));
    }
    assert(spec_parse_i64(t) == None::<i64>);
}

/// Law: a numeric token immediately followed by a byte that is neither a
/// numeric-literal byte nor a separator fails at that byte.
pub proof fn lemma_parse_number_bad_char(s: Seq<u8>, i: int)
    requires
        0 <= i <= s.len(),
        num_end(s, i) < s.len(),
        !separator(s[num_end(s, i)]),
    ensures
        parse_number_at(s, i) == (SpecRes::Failed::<ExpV> {
            kind: ErrKind::NumBadChar,
            at: num_end(s, i),
        }),
{
}

/// The trees for which printing is invertible: no booleans, characters or
/// floats; strings free of the quote byte; symbols non-empty, led by a
/// letter or operator character, not shaped like a number; integers in
/// 64-bit range; and every list element again such a tree.
pub open spec fn wf_exp(e: ExpV) -> bool
    decreases e, 0int,
{
    match e {
        ExpV::Bool(_) => false,
        ExpV::Char(_) => false,
        ExpV::Float(_) => false,
        ExpV::Int(iv) => i64::MIN <= iv <= i64::MAX,
        ExpV::Str(t) => forall|j: int| 0 <= j < t.len() ==> t[j] != QUOTE,
        ExpV::Symbol(t) => t.len() > 0 && (alpha(t[0]) || op_char(t[0])) && (forall|j: int|
            0 <= j < t.len() ==> sym_char(#[trigger] t[j])) && !((t[0] == PLUS || t[0] == MINUS)
            && t.len() > 1 && digit(t[1])),
        ExpV::List(es) => wf_exps(es, 0),
    }
}

/// Every list element from position `m` on is well formed.
pub open spec fn wf_exps(es: Seq<ExpV>, m: int) -> bool
    decreases es, es.len() - m,
{
    if !(0 <= m < es.len()) {
        true
    } else {
        wf_exp(es[m]) && wf_exps(es, m + 1)
    }
}

/// The canonical text of a well-formed tree is non-empty and starts with a
/// byte that is neither whitespace nor a closing parenthesis.
proof fn lemma_print_first_char(t: ExpV)
    requires
        wf_exp(t),
    ensures
        print_exp(t).len() > 0,
        !ws(print_exp(t)[0]),
        print_exp(t)[0] != RPAREN,
{
    match t {
        ExpV::Int(iv) => {
            if iv < 0 {
                lemma_u64_dec_text((-iv) as nat);
                assert(print_exp(t)[0] == MINUS);
            } else {
                lemma_u64_dec_text(iv as nat);
                assert(digit(print_exp(t)[0]));
            }
        },
        ExpV::Str(tx) => {
            assert(print_exp(t)[0] == QUOTE);
        },
        ExpV::Symbol(tx) => {
            assert(print_exp(t)[0] == tx[0]);
        },
        ExpV::List(es) => {
            assert(print_exp(t)[0] == LPAREN);
        },
        _ => {
        },
    }
}

proof fn lemma_num_end_region(s: Seq<u8>, i: int, j: int)
    requires
        0 <= i <= j <= s.len(),
        forall|m: int| i <= m < j ==> num_char(#[trigger] s[m]),
        j == s.len() || !num_char(s[j]),
    ensures
        num_end(s, i) == j,
    decreases j - i,
{
    if i < j {
        assert(num_char(s[i]));
        lemma_num_end_region(s, i + 1, j);
    }
}

proof fn lemma_sym_end_region(s: Seq<u8>, i: int, j: int)
    requires
        0 <= i <= j <= s.len(),
        forall|m: int| i <= m < j ==> sym_char(#[trigger] s[m]),
        j == s.len() || !sym_char(s[j]),
    ensures
        sym_end(s, i) == j,
    decreases j - i,
{
    if i < j {
        assert(sym_char(s[i]));
        lemma_sym_end_region(s, i + 1, j);
    }
}

proof fn lemma_str_end_region(s: Seq<u8>, i: int, j: int)
    requires
        0 <= i <= j < s.len(),
        forall|m: int| i <= m < j ==> #[trigger] s[m] != QUOTE,
        s[j] == QUOTE,
    ensures
        str_end(s, i) == j,
    decreases j - i,
{
    if i < j {
        lemma_str_end_region(s, i + 1, j);
    }
}

/// The digit run of an integer's text consists of numeric-literal bytes.
proof fn lemma_int_text_chars(v: i64)
    ensures
        i64_dec_text(v as int).len() > 0,
        forall|x: int|
            0 <= x < i64_dec_text(v as int).len() ==> num_char(#[trigger] i64_dec_text(
                v as int,
            )[x]),
        v >= 0 ==> digit(i64_dec_text(v as int)[0]),
        v < 0 ==> i64_dec_text(v as int)[0] == MINUS && i64_dec_text(v as int).len() > 1 && digit(
            i64_dec_text(v as int)[1],
        ),
{
    let p = i64_dec_text(v as int);
    if v < 0 {
        let mag = (-(v as int)) as nat;
        lemma_u64_dec_text(mag);
        let dt = u64_dec_text(mag);
        assert forall|x: int| 0 <= x < p.len() implies num_char(#[trigger] p[x]) by {
            if x > 0 {
                assert(digit(dt[x - 1]));
            }
        }
        assert(digit(dt[0]));
    } else {
        lemma_u64_dec_text(v as nat);
        assert forall|x: int| 0 <= x < p.len() implies num_char(#[trigger] p[x]) by {
            assert(digit(p[x]));
        }
    }
}

/// Law (round trip, core induction): wherever the canonical text of a
/// well-formed tree occurs in the input, followed by a space, a closing
/// parenthesis or the end of the input, the dispatcher parses exactly that
/// tree and stops exactly past its text.
proof fn lemma_print_parse(t: ExpV, s: Seq<u8>, i: int)
    requires
        wf_exp(t),
        0 <= i,
        i + print_exp(t).len() <= s.len(),
        forall|x: int| 0 <= x < print_exp(t).len() ==> s[i + x] == #[trigger] print_exp(t)[x],
        i + print_exp(t).len() == s.len() || s[i + print_exp(t).len()] == SPACE || s[i
            + print_exp(t).len()] == RPAREN,
    ensures
        parse_token_at(s, i) == (SpecRes::Parsed::<ExpV> {
            v: t,
            next: i + print_exp(t).len(),
        }),
    decreases t, 0int,
{
    let p = print_exp(t);
    let j = i + p.len();
    lemma_print_first_char(t);
    assert(s[i] == p[0]);
    match t {
        ExpV::Int(iv) => {
            let v = iv as i64;
            lemma_int_text_chars(v);
            assert forall|m: int| i <= m < j implies num_char(#[trigger] s[m]) by {
                assert(s[m] == p[m - i]);
            }
            lemma_num_end_region(s, i, j);
            assert(s.subrange(i, j) =~= p);
            lemma_i64_text_round_trip(v);
            if v >= 0 {
                assert(digit(s[i]));
            } else {
                assert(s[i] == MINUS);
                assert(s[i + 1] == p[1]);
                assert(digit(s[i + 1]));
            }
            assert(parse_number_at(s, i) == (SpecRes::Parsed::<ExpV> { v: t, next: j }));
            assert(!(s[i] == QUOTE));
        },
        ExpV::Str(tx) => {
            assert(s[i] == QUOTE);
            assert(p =~= seq![QUOTE] + tx + seq![QUOTE]);
            assert(s[j - 1] == p[p.len() - 1]);
            assert(s[j - 1] == QUOTE);
            assert forall|m: int| i + 1 <= m < j - 1 implies #[trigger] s[m] != QUOTE by {
                assert(s[m] == p[m - i]);
                assert(p[m - i] == tx[m - i - 1]);
            }
            lemma_str_end_region(s, i + 1, j - 1);
            assert forall|x: int| 0 <= x < tx.len() implies s.subrange(i + 1, j - 1)[x]
                == tx[x] by {
                assert(s[i + 1 + x] == p[1 + x]);
                assert(p[1 + x] == tx[x]);
            }
            assert(s.subrange(i + 1, j - 1) =~= tx);
            assert(parse_string_at(s, i) == (SpecRes::Parsed::<Seq<u8>> { v: tx, next: j }));
        },
        ExpV::Symbol(tx) => {
            assert(p == tx);
            assert forall|m: int| i <= m < j implies sym_char(#[trigger] s[m]) by {
                assert(s[m] == p[m - i]);
            }
            lemma_sym_end_region(s, i, j);
            assert(s.subrange(i, j) =~= tx);
            assert(alpha(s[i]) || op_char(s[i]));
            assert(!(s[i] == QUOTE));
            assert(!digit(s[i]));
            if (s[i] == PLUS || s[i] == MINUS) && i + 1 < s.len() && digit(s[i + 1]) {
                if tx.len() > 1 {
                    assert(s[i + 1] == tx[1]);
                    assert(false);
                } else {
                    assert(i + 1 == j);
                    assert(s[j] == SPACE || s[j] == RPAREN);
                    assert(false);
                }
            }
            assert(parse_symbol_at(s, i) == (SpecRes::Parsed::<Seq<u8>> { v: tx, next: j }));
        },
        ExpV::List(es) => {
            assert(s[i] == LPAREN);
            assert(!(s[i] == QUOTE));
            assert(!digit(s[i]));
            assert(!(s[i] == PLUS || s[i] == MINUS));
            assert(!alpha(s[i]) && !op_char(s[i]));
            let q = print_items_from(es, 0);
            assert(p =~= seq![LPAREN] + q + seq![RPAREN]);
            assert forall|x: int| 0 <= x < q.len() implies s[i + 1 + x] == #[trigger] q[x] by {
                assert(s[i + 1 + x] == p[1 + x]);
            }
            assert(s[i + 1 + q.len()] == p[p.len() - 1]);
            assert(s[i + 1 + q.len()] == RPAREN);
            lemma_print_parse_items(es, 0, s, i + 1, Seq::empty());
            assert(Seq::empty() + es.skip(0) =~= es);
            assert(parse_list_at(s, i) == (SpecRes::Parsed::<ExpV> { v: t, next: j }));
        },
        _ => {
            assert(false);
        },
    }
}

/// Law (round trip, list elements): wherever the printed elements from
/// position `m` on occur, followed by a closing parenthesis, the list
/// state machine collects exactly those elements in order.
proof fn lemma_print_parse_items(es: Seq<ExpV>, m: int, s: Seq<u8>, i: int, acc: Seq<ExpV>)
    requires
        0 <= m <= es.len(),
        wf_exps(es, m),
        0 <= i,
        i + print_items_from(es, m).len() < s.len(),
        forall|x: int|
            0 <= x < print_items_from(es, m).len() ==> s[i + x] == #[trigger] print_items_from(
                es,
                m,
            )[x],
        s[i + print_items_from(es, m).len()] == RPAREN,
    ensures
        parse_items_at(s, i, acc) == (SpecRes::Parsed::<ExpV> {
            v: ExpV::List(acc + es.skip(m)),
            next: i + print_items_from(es, m).len() + 1,
        }),
    decreases es, es.len() - m,
{
    let q = print_items_from(es, m);
    if m == es.len() {
        assert(q.len() == 0);
        assert(s[i] == RPAREN);
        assert(!ws(s[i]));
        assert(acc + es.skip(m) =~= acc);
        assert(parse_items_at(s, i, acc) == (SpecRes::Parsed::<ExpV> {
            v: ExpV::List(acc),
            next: i + 1,
        }));
    } else {
        let e0 = es[m];
        assert(wf_exp(e0));
        let p0 = print_exp(e0);
        lemma_print_first_char(e0);
        if m == es.len() - 1 {
            assert(q == p0);
            assert forall|x: int| 0 <= x < p0.len() implies s[i + x] == #[trigger] p0[x] by {
                assert(s[i + x] == q[x]);
            }
            assert(s[i + p0.len()] == RPAREN);
            lemma_print_parse(e0, s, i);
            let j = i + p0.len();
            assert(s[i] == p0[0]);
            assert(!ws(s[i]) && s[i] != RPAREN);
            lemma_print_parse_items(es, m + 1, s, j, acc.push(e0));
            assert(print_items_from(es, m + 1).len() == 0);
            assert(acc.push(e0) + es.skip(m + 1) =~= acc + es.skip(m));
            assert(parse_items_at(s, j, acc.push(e0)) == (SpecRes::Parsed::<ExpV> {
                v: ExpV::List(acc + es.skip(m)),
                next: j + 1,
            }));
        } else {
            assert(q =~= p0 + seq![SPACE] + print_items_from(es, m + 1));
            let rest = print_items_from(es, m + 1);
            assert forall|x: int| 0 <= x < p0.len() implies s[i + x] == #[trigger] p0[x] by {
                assert(s[i + x] == q[x]);
                assert(q[x] == p0[x]);
            }
            let j = i + p0.len();
            assert(s[j] == q[p0.len() as int]);
            assert(s[j] == SPACE);
            lemma_print_parse(e0, s, i);
            assert(s[i] == p0[0]);
            assert(!ws(s[i]) && s[i] != RPAREN);
            assert forall|x: int| 0 <= x < rest.len() implies s[j + 1 + x] == #[trigger] rest[x] by {
                assert(s[j + 1 + x] == q[p0.len() + 1 + x]);
                assert(q[p0.len() + 1 + x] == rest[x]);
            }
            assert(s[j + 1 + rest.len()] == s[i + q.len()]);
            lemma_print_parse_items(es, m + 1, s, j + 1, acc.push(e0));
            assert(acc.push(e0) + es.skip(m + 1) =~= acc + es.skip(m));
            assert(ws(s[j]));
            assert(parse_items_at(s, j, acc.push(e0)) == parse_items_at(s, j + 1, acc.push(e0)));
            assert(parse_items_at(s, i, acc) == (SpecRes::Parsed::<ExpV> {
                v: ExpV::List(acc + es.skip(m)),
                next: i + q.len() + 1,
            }));
        }
    }
}

/// Law: for any tree without booleans, characters or floats, whose strings
/// hold no quote byte and whose symbols are well formed, parsing the
/// canonical printed text reproduces a structurally equal tree, consuming
/// exactly the whole text.
pub proof fn lemma_round_trip(t: ExpV)
    requires
        wf_exp(t),
    ensures
        spec_parse(print_exp(t)) == (SpecRes::Parsed::<ExpV> {
            v: t,
            next: print_exp(t).len() as int,
        }),
{
    let s = print_exp(t);
    lemma_print_first_char(t);
    assert(skip_ws(s, 0) == 0);
    lemma_print_parse(t, s, 0);
}

} // verus!

