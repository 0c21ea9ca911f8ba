//! The expression tree, its mathematical model, and the parse-result types.
use vstd::prelude::*;

verus! {

/// Mathematical model of an expression tree.
///
/// `Float` carries the IEEE 754 bit pattern of the value; texts are byte
/// sequences, kept verbatim.
pub enum ExpV {
    Bool(bool),
    Char(char),
    Int(int),
    Float(u64),
    Str(Seq<u8>),
    Symbol(Seq<u8>),
    List(Seq<ExpV>),
}

/// An S-expression: a closed tagged union.
///
/// `Bool` and `Char` are never produced by the parser; they are only
/// constructible programmatically.  `Float` holds the IEEE 754 bit pattern
/// of a 64-bit floating-point value, so equality of floats is bitwise.
/// `String` and `Symbol` own their text as verbatim bytes; a `List` owns its
/// ordered element sequence.
#[derive(PartialEq)]
pub enum Exp {
    Bool(bool),
    Char(char),
    Int(i64),
    Float(u64),
    String(Vec<u8>),
    Symbol(Vec<u8>),
    List(Vec<Exp>),
}

/// The abstraction of an [`Exp`]: the same tree over mathematical sequences.
pub open spec fn exp_view(e: Exp) -> ExpV
    decreases e,
{
    match e {
        Exp::Bool(b) => ExpV::Bool(b),
        Exp::Char(c) => ExpV::Char(c),
        Exp::Int(i) => ExpV::Int(i as int),
        Exp::Float(bits) => ExpV::Float(bits),
        Exp::String(s) => ExpV::Str(s@),
        Exp::Symbol(s) => ExpV::Symbol(s@),
        Exp::List(l) => ExpV::List(exps_view(l@)),
    }
}

/// The element-wise abstraction of a sequence of expressions.
pub open spec fn exps_view(l: Seq<Exp>) -> Seq<ExpV>
    decreases l,
{
    if l.len() == 0 {
        Seq::empty()
    } else {
        seq![exp_view(l[0])] + exps_view(l.drop_first())
    }
}

impl View for Exp {
    type V = ExpV;

    open spec fn view(&self) -> ExpV {
        exp_view(*self)
    }
}

/// Abstracting a sequence of expressions is element-wise: appending one
/// expression appends its abstraction.
pub proof fn lemma_exps_view_push(l: Seq<Exp>, e: Exp)
    ensures
        exps_view(l.push(e)) == exps_view(l).push(exp_view(e)),
    decreases l.len(),
{
    if l.len() == 0 {
        assert(l =~= Seq::<Exp>::empty());
        assert(l.push(e).drop_first() =~= Seq::<Exp>::empty());
        assert(l.push(e)[0] == e);
        assert(exps_view(Seq::<Exp>::empty()) =~= Seq::<ExpV>::empty());
        assert(exps_view(l.push(e)) =~= exps_view(l).push(exp_view(e)));
    } else {
        assert(l.push(e)[0] == l[0]);
        assert(l.push(e).drop_first() =~= l.drop_first().push(e));
        lemma_exps_view_push(l.drop_first(), e);
        assert(exps_view(l.push(e)) == seq![exp_view(l[0])] + exps_view(
            l.drop_first().push(e),
        ));
        assert(exps_view(l.push(e)) =~= exps_view(l).push(exp_view(e)));
    }
}

/// The abstraction of a sequence of expressions keeps its length and maps
/// each element.
pub proof fn lemma_exps_view_index(l: Seq<Exp>)
    ensures
        exps_view(l).len() == l.len(),
        forall|i: int| 0 <= i < l.len() ==> exps_view(l)[i] == exp_view(#[trigger] l[i]),
    decreases l.len(),
{
    if l.len() > 0 {
        lemma_exps_view_index(l.drop_first());
        assert forall|i: int| 0 <= i < l.len() implies exps_view(l)[i] == exp_view(
            #[trigger] l[i],
        ) by {
            if i > 0 {
                assert(exps_view(l.drop_first())[i - 1] == exp_view(l.drop_first()[i - 1]));
                assert(l.drop_first()[i - 1] == l[i]);
            }
        }
    }
}

/// Compares two byte vectors for equality of their contents.
fn bytes_eq(a: &Vec<u8>, b: &Vec<u8>) -> (r: bool)
    ensures
        r == (a@ == b@),
{
    if a.len() != b.len() {
        false
    } else {
        let mut i: usize = 0;
        let mut same = true;
        while i < a.len()
            invariant
                0 <= i <= a@.len(),
                a@.len() == b@.len(),
                same ==> forall|j: int| 0 <= j < i ==> a@[j] == b@[j],
                !same ==> a@ != b@,
            decreases a@.len() - i,
        {
            if a[i] != b[i] {
                same = false;
            }
            i = i + 1;
        }
        proof {
            if same {
                assert(a@ =~= b@);
            }
        }
        same
    }
}

impl Exp {
    /// Structural, variant-exact equality: no cross-variant equality, and
    /// list equality is length plus pairwise, order-sensitive element
    /// equality.  Floats compare by their bit patterns.
    pub fn eq(&self, other: &Exp) -> (r: bool)
        ensures
            r == (exp_view(*self) == exp_view(*other)),
        decreases *self,
    {
        match (self, other) {
            (Exp::Bool(a), Exp::Bool(b)) => *a == *b,
            (Exp::Char(a), Exp::Char(b)) => *a == *b,
            (Exp::Int(a), Exp::Int(b)) => *a == *b,
            (Exp::Float(a), Exp::Float(b)) => *a == *b,
            (Exp::String(a), Exp::String(b)) => bytes_eq(a, b),
            (Exp::Symbol(a), Exp::Symbol(b)) => bytes_eq(a, b),
            (Exp::List(a), Exp::List(b)) => {
                proof {
                    lemma_exps_view_index(a@);
                    lemma_exps_view_index(b@);
                }
                if a.len() != b.len() {
                    false
                } else {
                    let mut i: usize = 0;
                    let mut same = true;
                    while i < a.len()
                        invariant
                            0 <= i <= a@.len(),
                            a@.len() == b@.len(),
                            *self == Exp::List(*a),
                            *other == Exp::List(*b),
                            exps_view(a@).len() == a@.len(),
                            exps_view(b@).len() == b@.len(),
                            forall|j: int|
                                0 <= j < a@.len() ==> exps_view(a@)[j] == exp_view(
                                    #[trigger] a@[j],
                                ),
                            forall|j: int|
                                0 <= j < b@.len() ==> exps_view(b@)[j] == exp_view(
                                    #[trigger] b@[j],
                                ),
                            same ==> forall|j: int|
                                0 <= j < i ==> exps_view(a@)[j] == exps_view(b@)[j],
                            !same ==> exps_view(a@) != exps_view(b@),
                        decreases a@.len() - i,
                    {
                        proof {
                            assert(self->List_0 == *a);
                            assert(decreases_to!(*self => self->List_0));
                            assert(decreases_to!(*a => a@));
                            assert(decreases_to!(a@ => a@[i as int]));
                            assert(decreases_to!(*self => a@[i as int]));
                        }
                        if !a[i].eq(&b[i]) {
                            same = false;
                        }
                        i = i + 1;
                    }
                    proof {
                        if same {
                            assert(exps_view(a@) =~= exps_view(b@));
                        }
                    }
                    same
                }
            },
            _ => false,
        }
    }
}

/// A parse failure: a fixed human-readable message and the byte offset in
/// the original input at which the failure was detected.
#[derive(PartialEq)]
pub struct ParseError {
    pub message: String,
    pub offset: usize,
}

/// The result of any parsing routine: a success payload or the first
/// [`ParseError`] encountered.  Parsing never panics.
#[derive(PartialEq)]
pub enum ParseResult<T> {
    PROk(T),
    PRErr(ParseError),
}

/// The failure taxonomy: premature end of input, a character mismatch
/// against an expectation, a disallowed character inside an in-progress
/// token, or numeric text that denotes no value.
#[derive(Clone, Copy, PartialEq, Eq)]
pub enum ErrKind {
    NumBadChar,
    NumFormat,
    StrExpectQuote,
    StrEos,
    SymExpect,
    TokBadChar,
    TokEos,
    ListBadChar,
    ListEos,
}

/// The fixed human-readable message reported for each failure kind.
pub open spec fn err_message(k: ErrKind) -> Seq<char> {
    match k {
        ErrKind::NumBadChar => "Unexpected end of stream (sign)"@,
        ErrKind::NumFormat => "invalid number format"@,
        ErrKind::StrExpectQuote => "Expected \""@,
        ErrKind::StrEos => "Unexpected end of stream (string)"@,
        ErrKind::SymExpect => "Expected alpha/operator"@,
        ErrKind::TokBadChar => "unexpected char (token)"@,
        ErrKind::TokEos => "unexpected end of stream (token)"@,
        ErrKind::ListBadChar => "unexpected character (list)"@,
        ErrKind::ListEos => "unexpected end of stream (list)"@,
    }
}

/// Builds the [`ParseError`] value for a failure kind at a byte offset.
pub(crate) fn make_error(kind: ErrKind, offset: usize) -> (e: ParseError)
    ensures
        e.message@ == err_message(kind),
        e.offset == offset,
{
    let m: &str = match kind {
        ErrKind::NumBadChar => "Unexpected end of stream (sign)",
        ErrKind::NumFormat => "invalid number format",
        ErrKind::StrExpectQuote => "Expected \"",
        ErrKind::StrEos => "Unexpected end of stream (string)",
        ErrKind::SymExpect => "Expected alpha/operator",
        ErrKind::TokBadChar => "unexpected char (token)",
        ErrKind::TokEos => "unexpected end of stream (token)",
        ErrKind::ListBadChar => "unexpected character (list)",
        ErrKind::ListEos => "unexpected end of stream (list)",
    };
    ParseError { message: m.to_owned(), offset }
}

} // verus!
