//! The tokenizers, the token dispatcher and the list parser, together with
//! the functional model they are proved against.
//!
//! The model is a family of spec functions over the input byte sequence and
//! a cursor offset; each returns either the parsed value with the offset
//! just past it, or the first failure with its kind and offset.  The
//! executable routines thread one mutable offset and are proved to return
//! exactly what the model says, leaving the cursor exactly where scanning
//! stopped.
use vstd::prelude::*;

use crate::chars;
use crate::chars::{
    alpha, digit, num_char, op_char, separator, sym_char, ws, LPAREN, MINUS, PLUS, QUOTE, RPAREN,
};
use crate::exp::{err_message, exps_view, make_error, ErrKind, Exp, ExpV, ParseResult};
use crate::num::{spec_parse_f64, spec_parse_i64};

verus! {

/// The outcome of a parsing step in the model: a value and the offset just
/// past it, or a failure kind and the offset at which it was detected.
pub enum SpecRes<T> {
    Parsed { v: T, next: int },
    Failed { kind: ErrKind, at: int },
}

/// An executable outcome agrees with a model outcome: same value (up to
/// abstraction) or same error, and the cursor ends at the model's offset.
pub open spec fn res_matches<T: View>(r: ParseResult<T>, sr: SpecRes<T::V>, off: int) -> bool {
    match (r, sr) {
        (ParseResult::PROk(x), SpecRes::Parsed { v, next }) => x@ == v && off == next,
        (ParseResult::PRErr(e), SpecRes::Failed { kind, at }) => e.message@ == err_message(kind)
            && e.offset as int == at && off == at,
        _ => false,
    }
}

/// As [`res_matches`], for an entry point that does not report the final
/// cursor: the error offset is still pinned, the cursor is not.
pub open spec fn res_value_matches<T: View>(r: ParseResult<T>, sr: SpecRes<T::V>) -> bool {
    match (r, sr) {
        (ParseResult::PROk(x), SpecRes::Parsed { v, next }) => x@ == v,
        (ParseResult::PRErr(e), SpecRes::Failed { kind, at }) => e.message@ == err_message(kind)
            && e.offset as int == at,
        _ => false,
    }
}

/// The first offset at or after `i` holding a non-whitespace byte, or the
/// end of the input.
pub open spec fn skip_ws(s: Seq<u8>, i: int) -> int
    decreases s.len() - i,
{
    if 0 <= i < s.len() && ws(s[i]) {
        skip_ws(s, i + 1)
    } else {
        i
    }
}

/// The end of the maximal run of numeric-literal bytes starting at `i`.
pub open spec fn num_end(s: Seq<u8>, i: int) -> int
    decreases s.len() - i,
{
    if 0 <= i < s.len() && num_char(s[i]) {
        num_end(s, i + 1)
    } else {
        i
    }
}

pub proof fn lemma_num_end_bounds(s: Seq<u8>, i: int)
    requires
        0 <= i <= s.len(),
    ensures
        i <= num_end(s, i) <= s.len(),
        forall|m: int| i <= m < num_end(s, i) ==> num_char(s[m]),
        num_end(s, i) < s.len() ==> !num_char(s[num_end(s, i)]),
    decreases s.len() - i,
{
    if i < s.len() && num_char(s[i]) {
        lemma_num_end_bounds(s, i + 1);
    }
}

/// The end of the maximal run of symbol bytes starting at `i`.
pub open spec fn sym_end(s: Seq<u8>, i: int) -> int
    decreases s.len() - i,
{
    if 0 <= i < s.len() && sym_char(s[i]) {
        sym_end(s, i + 1)
    } else {
        i
    }
}

pub proof fn lemma_sym_end_bounds(s: Seq<u8>, i: int)
    requires
        0 <= i <= s.len(),
    ensures
        i <= sym_end(s, i) <= s.len(),
        forall|m: int| i <= m < sym_end(s, i) ==> sym_char(s[m]),
        sym_end(s, i) < s.len() ==> !sym_char(s[sym_end(s, i)]),
    decreases s.len() - i,
{
    if i < s.len() && sym_char(s[i]) {
        lemma_sym_end_bounds(s, i + 1);
    }
}

/// The offset of the first double quote at or after `i`, or the end of the
/// input if there is none.
pub open spec fn str_end(s: Seq<u8>, i: int) -> int
    decreases s.len() - i,
{
    if 0 <= i < s.len() {
        if s[i] == QUOTE {
            i
        } else {
            str_end(s, i + 1)
        }
    } else {
        i
    }
}

pub proof fn lemma_str_end_bounds(s: Seq<u8>, i: int)
    requires
        0 <= i <= s.len(),
    ensures
        i <= str_end(s, i) <= s.len(),
        forall|m: int| i <= m < str_end(s, i) ==> s[m] != QUOTE,
        str_end(s, i) < s.len() ==> s[str_end(s, i)] == QUOTE,
    decreases s.len() - i,
{
    if i < s.len() && s[i] != QUOTE {
        lemma_str_end_bounds(s, i + 1);
    }
}

/// What the number tokenizer yields at offset `i`: the maximal run of
/// numeric bytes must end at a separator or at the end of the input, and
/// its text is read first as a signed 64-bit integer, then as a 64-bit
/// float.
pub open spec fn parse_number_at(s: Seq<u8>, i: int) -> SpecRes<ExpV> {
    let e = num_end(s, i);
    if e < s.len() && !separator(s[e]) {
        SpecRes::Failed { kind: ErrKind::NumBadChar, at: e }
    } else {
        let t = s.subrange(i, e);
        match spec_parse_i64(t) {
            Some(v) => SpecRes::Parsed { v: ExpV::Int(v as int), next: e },
            None => match spec_parse_f64(t) {
                Some(bits) => SpecRes::Parsed { v: ExpV::Float(bits), next: e },
                None => SpecRes::Failed { kind: ErrKind::NumFormat, at: e },
            },
        }
    }
}

/// What the string tokenizer yields at offset `i`: a leading quote, then
/// the bytes up to the next quote, both quotes consumed; no escapes.
pub open spec fn parse_string_at(s: Seq<u8>, i: int) -> SpecRes<Seq<u8>> {
    if !(0 <= i < s.len() && s[i] == QUOTE) {
        SpecRes::Failed { kind: ErrKind::StrExpectQuote, at: i }
    } else {
        let e = str_end(s, i + 1);
        if e >= s.len() {
            SpecRes::Failed { kind: ErrKind::StrEos, at: s.len() as int }
        } else {
            SpecRes::Parsed { v: s.subrange(i + 1, e), next: e + 1 }
        }
    }
}

/// What the symbol tokenizer yields at offset `i`: a first byte that is a
/// letter or an operator character, then the maximal run of symbol bytes;
/// the byte that ends the run is left unconsumed.
pub open spec fn parse_symbol_at(s: Seq<u8>, i: int) -> SpecRes<Seq<u8>> {
    if !(0 <= i < s.len() && (alpha(s[i]) || op_char(s[i]))) {
        SpecRes::Failed { kind: ErrKind::SymExpect, at: i }
    } else {
        SpecRes::Parsed { v: s.subrange(i, sym_end(s, i)), next: sym_end(s, i) }
    }
}

/// The token dispatcher: one byte of lookahead picks the tokenizer, with a
/// sign followed by a digit routed to the number tokenizer and `(` opening
/// a list.
pub open spec fn parse_token_at(s: Seq<u8>, i: int) -> SpecRes<ExpV>
    decreases s.len() - i, 1int,
{
    if !(0 <= i < s.len()) {
        SpecRes::Failed { kind: ErrKind::TokEos, at: i }
    } else if s[i] == QUOTE {
        match parse_string_at(s, i) {
            SpecRes::Parsed { v, next } => SpecRes::Parsed { v: ExpV::Str(v), next },
            SpecRes::Failed { kind, at } => SpecRes::Failed { kind, at },
        }
    } else if digit(s[i]) || ((s[i] == PLUS || s[i] == MINUS) && i + 1 < s.len() && digit(
        s[i + 1],
    )) {
        parse_number_at(s, i)
    } else if alpha(s[i]) || op_char(s[i]) {
        match parse_symbol_at(s, i) {
            SpecRes::Parsed { v, next } => SpecRes::Parsed { v: ExpV::Symbol(v), next },
            SpecRes::Failed { kind, at } => SpecRes::Failed { kind, at },
        }
    } else if s[i] == LPAREN {
        parse_list_at(s, i)
    } else {
        SpecRes::Failed { kind: ErrKind::TokBadChar, at: i }
    }
}

/// The list parser: `(`, then elements separated by whitespace, then `)`.
pub open spec fn parse_list_at(s: Seq<u8>, i: int) -> SpecRes<ExpV>
    decreases s.len() - i, 0int,
{
    if !(0 <= i < s.len()) {
        SpecRes::Failed { kind: ErrKind::ListEos, at: i }
    } else if s[i] != LPAREN {
        SpecRes::Failed { kind: ErrKind::ListBadChar, at: i + 1 }
    } else {
        parse_items_at(s, i + 1, Seq::empty())
    }
}

/// The list state machine after the opening parenthesis: skip whitespace;
/// a `)` closes the list with the elements collected so far; end of input
/// fails; anything else must parse as one more element.  A parsing step
/// that failed to advance the cursor would be treated as a failure, but the
/// dispatcher always advances on success.
pub open spec fn parse_items_at(s: Seq<u8>, i: int, acc: Seq<ExpV>) -> SpecRes<ExpV>
    decreases s.len() - i, 2int,
{
    if !(0 <= i < s.len()) {
        SpecRes::Failed { kind: ErrKind::ListEos, at: i }
    } else if ws(s[i]) {
        parse_items_at(s, i + 1, acc)
    } else if s[i] == RPAREN {
        SpecRes::Parsed { v: ExpV::List(acc), next: i + 1 }
    } else {
        match parse_token_at(s, i) {
            SpecRes::Parsed { v, next } => if i < next <= s.len() {
                parse_items_at(s, next, acc.push(v))
            } else {
                SpecRes::Failed { kind: ErrKind::ListEos, at: i }
            },
            SpecRes::Failed { kind, at } => SpecRes::Failed { kind, at },
        }
    }
}

/// Skipping over whitespace does not change what the list parser yields.
proof fn lemma_parse_items_ws(s: Seq<u8>, i: int, acc: Seq<ExpV>)
    requires
        0 <= i <= s.len(),
    ensures
        parse_items_at(s, i, acc) == parse_items_at(s, skip_ws(s, i), acc),
    decreases s.len() - i,
{
    if i < s.len() && ws(s[i]) {
        lemma_parse_items_ws(s, i + 1, acc);
    }
}

/// What parsing the whole input yields: leading whitespace is skipped, one
/// expression is parsed, trailing bytes are not inspected.
pub open spec fn spec_parse(s: Seq<u8>) -> SpecRes<ExpV> {
    parse_token_at(s, skip_ws(s, 0))
}

impl Exp {
    /// Returns the byte at `offset` without advancing, or nothing past the
    /// end of the buffer.
    fn peek(src: &[u8], offset: usize) -> (r: Option<u8>)
        ensures
            r == if (offset as int) < src@.len() {
                Some(src@[offset as int])
            } else {
                None::<u8>
            },
    {
        if offset < src.len() {
            Some(src[offset])
        } else {
            None
        }
    }

    /// Returns the byte at the cursor and advances it by one, or nothing at
    /// the end of the buffer (the cursor then stays).
    fn getchar(src: &[u8], offset: &mut usize) -> (r: Option<u8>)
        ensures
            (*old(offset) as int) < src@.len() ==> r == Some(src@[*old(offset) as int])
                && *final(offset) == *old(offset) + 1,
            (*old(offset) as int) >= src@.len() ==> r == None::<u8> && *final(offset) == *old(
                offset,
            ),
    {
        if *offset < src.len() {
            let c = src[*offset];
            *offset = *offset + 1;
            Some(c)
        } else {
            None
        }
    }

    /// Advances the cursor over whitespace.
    fn skipWS(src: &[u8], offset: &mut usize)
        requires
            *old(offset) <= src@.len(),
        ensures
            *final(offset) as int == skip_ws(src@, *old(offset) as int),
            *old(offset) <= *final(offset) <= src@.len(),
            *final(offset) < src@.len() ==> !ws(src@[*final(offset) as int]),
    {
        let ghost s = src@;
        let ghost i0 = *offset as int;
        loop
            invariant_except_break
                i0 <= *offset <= s.len(),
                s == src@,
                skip_ws(s, i0) == skip_ws(s, *offset as int),
            ensures
                *offset as int == skip_ws(s, i0),
                i0 <= *offset <= s.len(),
                *offset < s.len() ==> !ws(s[*offset as int]),
            decreases s.len() - *offset,
        {
            match Self::peek(src, *offset) {
                Some(c) if chars::is_ws(c) => {
                    Self::getchar(src, offset);
                },
                _ => {
                    break;
                },
            }
        }
    }

    /// The number tokenizer: consumes the maximal run of numeric bytes and
    /// reads it as an `Int` if it is an in-range signed 64-bit integer
    /// literal, otherwise as a `Float` if the text denotes one; a run that
    /// ends at a byte that is neither numeric nor a separator is an error,
    /// as is text that denotes no number.
    pub fn parseNumber(src: &[u8], offset: &mut usize) -> (r: ParseResult<Exp>)
        requires
            *old(offset) <= src@.len(),
        ensures
            res_matches(r, parse_number_at(src@, *old(offset) as int), *final(offset) as int),
            *old(offset) <= *final(offset) <= src@.len(),
    {
        let ghost s = src@;
        let ghost i0 = *offset as int;
        let mut text: Vec<u8> = Vec::new();
        loop
            invariant_except_break
                i0 <= *offset <= s.len(),
                s == src@,
                *old(offset) as int == i0,
                num_end(s, i0) == num_end(s, *offset as int),
                text@ =~= s.subrange(i0, *offset as int),
                forall|m: int| i0 <= m < *offset as int ==> num_char(s[m]),
            ensures
                i0 <= *offset <= s.len(),
                s == src@,
                *offset as int == num_end(s, i0),
                *offset as int == s.len() || separator(s[*offset as int]),
                text@ =~= s.subrange(i0, *offset as int),
                forall|m: int| i0 <= m < *offset as int ==> num_char(s[m]),
            decreases s.len() - *offset,
        {
            let ghost before = text@;
            match Self::peek(src, *offset) {
                Some(c) => {
                    if chars::is_num_char(c) {
                        text.push(c);
                        Self::getchar(src, offset);
                        proof {
                            assert(text@ =~= s.subrange(i0, *offset as int));
                        }
                    } else if chars::is_separator(c) {
                        break;
                    } else {
                        proof {
                            assert(num_end(s, *offset as int) == *offset as int);
                        }
                        return ParseResult::PRErr(make_error(ErrKind::NumBadChar, *offset));
                    }
                },
                None => {
                    break;
                },
            }
        }
        match crate::num::parse_i64(text.as_slice()) {
            Some(v) => ParseResult::PROk(Exp::Int(v)),
            None => {
                match crate::num::parse_f64_bits(text.as_slice()) {
                    Some(bits) => ParseResult::PROk(Exp::Float(bits)),
                    None => ParseResult::PRErr(make_error(ErrKind::NumFormat, *offset)),
                }
            },
        }
    }

    /// The string tokenizer: a leading quote, then the bytes up to the
    /// closing quote, stored verbatim with no escape processing.
    pub fn parseString(src: &[u8], offset: &mut usize) -> (r: ParseResult<Vec<u8>>)
        requires
            *old(offset) <= src@.len(),
        ensures
            res_matches(r, parse_string_at(src@, *old(offset) as int), *final(offset) as int),
            *old(offset) <= *final(offset) <= src@.len(),
    {
        let ghost s = src@;
        let ghost i0 = *offset as int;
        let opening = match Self::peek(src, *offset) {
            Some(c) => c == QUOTE,
            None => false,
        };
        if !opening {
            ParseResult::PRErr(make_error(ErrKind::StrExpectQuote, *offset))
        } else {
            Self::getchar(src, offset);
            let mut text: Vec<u8> = Vec::new();
            let mut closed = false;
            let mut failed = false;
            loop
                invariant_except_break
                    i0 + 1 <= *offset <= s.len(),
                    s == src@,
                    *old(offset) as int == i0,
                    s[i0] == QUOTE,
                    0 <= i0 < s.len(),
                    !closed && !failed,
                    str_end(s, i0 + 1) == str_end(s, *offset as int),
                    text@ =~= s.subrange(i0 + 1, *offset as int),
                    forall|m: int| i0 + 1 <= m < *offset as int ==> s[m] != QUOTE,
                ensures
                    i0 + 1 <= *offset <= s.len(),
                    s == src@,
                    *old(offset) as int == i0,
                    0 <= i0 < s.len() && s[i0] == QUOTE,
                    closed == !failed,
                    closed ==> str_end(s, i0 + 1) < s.len(),
                    closed ==> text@ == s.subrange(i0 + 1, str_end(s, i0 + 1)),
                    closed ==> *offset as int == str_end(s, i0 + 1) + 1,
                    failed ==> str_end(s, i0 + 1) >= s.len() && *offset as int == s.len(),
                decreases s.len() - *offset,
            {
                match Self::getchar(src, offset) {
                    None => {
                        proof {
                            assert(str_end(s, *offset as int) == s.len());
                        }
                        failed = true;
                        break;
                    },
                    Some(c) => {
                        if c == QUOTE {
                            proof {
                                assert(str_end(s, *offset as int - 1) == *offset as int - 1);
                            }
                            closed = true;
                            break;
                        } else {
                            text.push(c);
                            proof {
                                assert(text@ =~= s.subrange(i0 + 1, *offset as int));
                            }
                        }
                    },
                }
            }
            if failed {
                ParseResult::PRErr(make_error(ErrKind::StrEos, *offset))
            } else {
                ParseResult::PROk(text)
            }
        }
    }

    /// The symbol tokenizer: a first byte that is a letter or an operator
    /// character, then the maximal run of letters, operator characters and
    /// digits; the byte that ends the run is left unconsumed.
    pub fn parseSymbol(src: &[u8], offset: &mut usize) -> (r: ParseResult<Vec<u8>>)
        requires
            *old(offset) <= src@.len(),
        ensures
            res_matches(r, parse_symbol_at(src@, *old(offset) as int), *final(offset) as int),
            *old(offset) <= *final(offset) <= src@.len(),
    {
        let ghost s = src@;
        let ghost i0 = *offset as int;
        let leading = match Self::peek(src, *offset) {
            Some(c) => chars::is_alpha(c) || chars::is_op(c),
            None => false,
        };
        if !leading {
            ParseResult::PRErr(make_error(ErrKind::SymExpect, *offset))
        } else {
            let mut text: Vec<u8> = Vec::new();
            loop
                invariant_except_break
                    i0 <= *offset <= s.len(),
                    s == src@,
                    *old(offset) as int == i0,
                    0 <= i0 < s.len(),
                    alpha(s[i0]) || op_char(s[i0]),
                    sym_end(s, i0) == sym_end(s, *offset as int),
                    text@ =~= s.subrange(i0, *offset as int),
                ensures
                    i0 <= *offset <= s.len(),
                    s == src@,
                    *old(offset) as int == i0,
                    0 <= i0 < s.len(),
                    alpha(s[i0]) || op_char(s[i0]),
                    *offset as int == sym_end(s, i0),
                    text@ =~= s.subrange(i0, *offset as int),
                decreases s.len() - *offset,
            {
                match Self::peek(src, *offset) {
                    Some(c) if chars::is_sym_char(c) => {
                        text.push(c);
                        Self::getchar(src, offset);
                        proof {
                            assert(text@ =~= s.subrange(i0, *offset as int));
                        }
                    },
                    _ => {
                        break;
                    },
                }
            }
            ParseResult::PROk(text)
        }
    }

    /// The token dispatcher: one byte of lookahead picks the next step; a
    /// lone sign, or a sign followed by anything but a digit, is a symbol.
    fn parseToken(src: &[u8], offset: &mut usize) -> (r: ParseResult<Exp>)
        requires
            *old(offset) <= src@.len(),
        ensures
            res_matches(r, parse_token_at(src@, *old(offset) as int), *final(offset) as int),
            *old(offset) <= *final(offset) <= src@.len(),
            r matches ParseResult::PROk(_) ==> *old(offset) < *final(offset),
        decreases src@.len() - *offset, 1int,
    {
        let ghost s = src@;
        let ghost i0 = *offset as int;
        match Self::peek(src, *offset) {
            None => ParseResult::PRErr(make_error(ErrKind::TokEos, *offset)),
            Some(c) => {
                if c == QUOTE {
                    proof {
                        lemma_str_end_bounds(s, i0 + 1);
                    }
                    match Self::parseString(src, offset) {
                        ParseResult::PROk(r) => ParseResult::PROk(Exp::String(r)),
                        ParseResult::PRErr(err) => ParseResult::PRErr(err),
                    }
                } else {
                    let n = src.len();
                    assert(*offset < n);
                    let num_route = chars::is_digit(c) || ((c == PLUS || c == MINUS)
                        && match Self::peek(src, *offset + 1) {
                        Some(c2) => chars::is_digit(c2),
                        None => false,
                    });
                    if num_route {
                        proof {
                            lemma_num_end_bounds(s, i0 + 1);
                            assert(num_end(s, i0) == num_end(s, i0 + 1));
                        }
                        Self::parseNumber(src, offset)
                    } else if chars::is_alpha(c) || chars::is_op(c) {
                        proof {
                            lemma_sym_end_bounds(s, i0 + 1);
                            assert(sym_end(s, i0) == sym_end(s, i0 + 1));
                        }
                        match Self::parseSymbol(src, offset) {
                            ParseResult::PROk(r) => ParseResult::PROk(Exp::Symbol(r)),
                            ParseResult::PRErr(err) => ParseResult::PRErr(err),
                        }
                    } else if c == LPAREN {
                        Self::parseList(src, offset)
                    } else {
                        ParseResult::PRErr(make_error(ErrKind::TokBadChar, *offset))
                    }
                }
            },
        }
    }

    /// The list parser: consumes the opening parenthesis, then alternates
    /// between skipping whitespace and parsing one element until the
    /// closing parenthesis; the elements are kept in input order.
    fn parseList(src: &[u8], offset: &mut usize) -> (r: ParseResult<Exp>)
        requires
            *old(offset) <= src@.len(),
        ensures
            res_matches(r, parse_list_at(src@, *old(offset) as int), *final(offset) as int),
            *old(offset) <= *final(offset) <= src@.len(),
            r matches ParseResult::PROk(_) ==> *old(offset) < *final(offset),
        decreases src@.len() - *offset, 0int,
    {
        let ghost s = src@;
        let ghost i0 = *offset as int;
        let first = Self::getchar(src, offset);
        let opens = match first {
            Some(c) => c == LPAREN,
            None => false,
        };
        if !opens {
            match first {
                Some(_) => ParseResult::PRErr(make_error(ErrKind::ListBadChar, *offset)),
                None => ParseResult::PRErr(make_error(ErrKind::ListEos, *offset)),
            }
        } else {
            let mut cells: Vec<Exp> = Vec::new();
            proof {
                assert(exps_view(cells@) =~= Seq::<ExpV>::empty());
            }
            loop
                invariant
                    i0 + 1 <= *offset <= s.len(),
                    s == src@,
                    *old(offset) as int == i0,
                    0 <= i0 < s.len(),
                    s[i0] == LPAREN,
                    parse_items_at(s, i0 + 1, Seq::empty()) == parse_items_at(
                        s,
                        *offset as int,
                        exps_view(cells@),
                    ),
                decreases s.len() - *offset,
            {
                let ghost pre = *offset as int;
                let ghost acc = exps_view(cells@);
                Self::skipWS(src, offset);
                proof {
                    lemma_parse_items_ws(s, pre, acc);
                }
                match Self::peek(src, *offset) {
                    Some(c) if c == RPAREN => {
                        Self::getchar(src, offset);
                        return ParseResult::PROk(Exp::List(cells));
                    },
                    Some(_) => {
                        match Self::parseToken(src, offset) {
                            ParseResult::PROk(e) => {
                                proof {
                                    crate::exp::lemma_exps_view_push(cells@, e);
                                }
                                cells.push(e);
                            },
                            ParseResult::PRErr(err) => {
                                return ParseResult::PRErr(err);
                            },
                        }
                    },
                    None => {
                        return ParseResult::PRErr(make_error(ErrKind::ListEos, *offset));
                    },
                }
            }
        }
    }

    /// Parses exactly one expression from the start of the input, after
    /// skipping leading whitespace; trailing bytes are not inspected.
    pub fn fromSExp(src: &[u8]) -> (r: ParseResult<Exp>)
        ensures
            res_value_matches(r, spec_parse(src@)),
    {
        let mut offset: usize = 0;
        Self::skipWS(src, &mut offset);
        Self::parseToken(src, &mut offset)
    }
}

} // verus!
