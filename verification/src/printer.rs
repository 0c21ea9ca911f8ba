//! The canonical printer: a recursive, structural serializer back to text,
//! with no added whitespace or line breaks.
use vstd::prelude::*;

use crate::chars::{LPAREN, QUOTE, RPAREN, SPACE};
use crate::exp::{exp_view, exps_view, lemma_exps_view_index, Exp, ExpV};
use crate::num::{i64_dec_text, spec_f64_text};

verus! {

/// The textual form of a boolean: `true` or `false`.
pub open spec fn bool_text(b: bool) -> Seq<u8> {
    if b {
        seq![0x74u8, 0x72u8, 0x75u8, 0x65u8]
    } else {
        seq![0x66u8, 0x61u8, 0x6cu8, 0x73u8, 0x65u8]
    }
}

/// The UTF-8 bytes of a character; the bytes depend on the character alone.
pub uninterp spec fn char_utf8(c: char) -> Seq<u8>;

/// Relies on `char::to_string`: the character itself, encoded as UTF-8, a
/// deterministic function of the character.
#[verifier::external_body]
fn char_to_utf8(c: char) -> (r: Vec<u8>)
    ensures
        r@ == char_utf8(c),
{
    c.to_string().into_bytes()
}

/// The canonical text of an expression: booleans and characters in their
/// textual form, numbers in natural decimal text, strings re-quoted with no
/// escaping, symbols verbatim, lists parenthesized and space-separated.
pub open spec fn print_exp(e: ExpV) -> Seq<u8>
    decreases e, 0int,
{
    match e {
        ExpV::Bool(b) => bool_text(b),
        ExpV::Char(c) => char_utf8(c),
        ExpV::Int(i) => i64_dec_text(i),
        ExpV::Float(bits) => spec_f64_text(bits),
        ExpV::Str(t) => seq![QUOTE] + t + seq![QUOTE],
        ExpV::Symbol(t) => t,
        ExpV::List(es) => seq![LPAREN] + print_items_from(es, 0) + seq![RPAREN],
    }
}

/// The canonical text of the list elements from position `m` on, separated
/// by single spaces.
pub open spec fn print_items_from(es: Seq<ExpV>, m: int) -> Seq<u8>
    decreases es, es.len() - m,
{
    if !(0 <= m < es.len()) {
        Seq::empty()
    } else if m == es.len() - 1 {
        print_exp(es[m])
    } else {
        print_exp(es[m]) + seq![SPACE] + print_items_from(es, m + 1)
    }
}

/// Appends all bytes of `piece` to `out`.
fn push_bytes(out: &mut Vec<u8>, piece: &Vec<u8>)
    ensures
        final(out)@ == old(out)@ + piece@,
{
    let ghost base = out@;
    let mut j: usize = 0;
    while j < piece.len()
        invariant
            0 <= j <= piece@.len(),
            base == old(out)@,
            out@ == base + piece@.take(j as int),
        decreases piece@.len() - j,
    {
        let b = piece[j];
        out.push(b);
        proof {
            assert(base + piece@.take(j as int) + seq![piece@[j as int]] =~= base + piece@.take(
                j as int + 1,
            ));
        }
        j = j + 1;
    }
    proof {
        assert(piece@.take(piece@.len() as int) =~= piece@);
    }
}

impl Exp {
    /// Serializes the expression to its canonical text.
    pub fn toString(&self) -> (r: Vec<u8>)
        ensures
            r@ == print_exp(exp_view(*self)),
        decreases *self,
    {
        match self {
            Exp::Bool(b) => {
                let mut out: Vec<u8> = Vec::new();
                if *b {
                    out.push(0x74);
                    out.push(0x72);
                    out.push(0x75);
                    out.push(0x65);
                } else {
                    out.push(0x66);
                    out.push(0x61);
                    out.push(0x6c);
                    out.push(0x73);
                    out.push(0x65);
                }
                proof {
                    assert(out@ =~= bool_text(*b));
                }
                out
            },
            Exp::Char(c) => char_to_utf8(*c),
            Exp::Int(i) => crate::num::format_i64(*i),
            Exp::Float(bits) => crate::num::format_f64(*bits),
            Exp::String(sv) => {
                let mut out: Vec<u8> = Vec::new();
                out.push(QUOTE);
                push_bytes(&mut out, sv);
                out.push(QUOTE);
                proof {
                    assert(out@ =~= seq![QUOTE] + sv@ + seq![QUOTE]);
                }
                out
            },
            Exp::Symbol(sv) => {
                let mut out: Vec<u8> = Vec::new();
                push_bytes(&mut out, sv);
                proof {
                    assert(out@ =~= sv@);
                }
                out
            },
            Exp::List(l) => {
                let ghost es = exps_view(l@);
                proof {
                    lemma_exps_view_index(l@);
                }
                let mut out: Vec<u8> = Vec::new();
                out.push(LPAREN);
                let k = l.len();
                let mut i: usize = 0;
                while i < k
                    invariant
                        0 <= i <= k,
                        k == l@.len(),
                        *self == Exp::List(*l),
                        es == exps_view(l@),
                        es.len() == k,
                        forall|x: int| 0 <= x < k ==> es[x] == exp_view(#[trigger] l@[x]),
                        seq![LPAREN] + print_items_from(es, 0) == out@ + print_items_from(
                            es,
                            i as int,
                        ),
                    decreases k - i,
                {
                    let ghost out0 = out@;
                    proof {
                        assert(self->List_0 == *l);
                        assert(decreases_to!(*self => self->List_0));
                        assert(decreases_to!(*l => l@));
                        assert(decreases_to!(l@ => l@[i as int]));
                        assert(decreases_to!(*self => l@[i as int]));
                    }
                    let piece = l[i].toString();
                    push_bytes(&mut out, &piece);
                    if i != k - 1 {
                        out.push(SPACE);
                        proof {
                            assert(print_items_from(es, i as int) == print_exp(es[i as int])
                                + seq![SPACE] + print_items_from(es, i as int + 1));
                            assert(out@ =~= out0 + print_exp(es[i as int]) + seq![SPACE]);
                            assert(out0 + print_items_from(es, i as int) =~= out@
                                + print_items_from(es, i as int + 1));
                        }
                    } else {
                        proof {
                            assert(print_items_from(es, i as int) == print_exp(es[i as int]));
                            assert(print_items_from(es, i as int + 1) =~= Seq::<u8>::empty());
                            assert(out0 + print_items_from(es, i as int) =~= out@
                                + print_items_from(es, i as int + 1));
                        }
                    }
                    i = i + 1;
                }
                proof {
                    assert(print_items_from(es, k as int) =~= Seq::<u8>::empty());
                    assert(out@ + print_items_from(es, k as int) =~= out@);
                }
                out.push(RPAREN);
                proof {
                    assert(out@ =~= seq![LPAREN] + print_items_from(es, 0) + seq![RPAREN]);
                }
                out
            },
        }
    }
}

} // verus!
