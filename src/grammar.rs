use vstd::prelude::*;

use crate::lexer::{LexError, LexErrorView};
use crate::token::{JsonKind, TokenView};

verus! {

/// A violation of the JSON grammar, with the kind and line of the token at
/// which it was found (or none, where the input ended there).
#[derive(Debug, Clone, Copy, PartialEq, Eq, Structural)]
pub enum SyntaxError {
    /// A token that cannot begin a value stands where a value is required.
    UnexpectedToken { found: JsonKind, line: usize },
    /// The input ended where a value is required.
    MissingValue,
    /// A number whose integer part is a zero followed by another digit.
    IllegalLeadingZero { line: usize },
    /// A token other than the one the grammar requires at that point.
    Mismatch { expected: JsonKind, found: JsonKind, line: usize },
    /// The input ended where the grammar requires a token of kind `expected`.
    MissingToken { expected: JsonKind },
    /// A token that is neither of the two kinds the grammar allows there.
    MismatchEither { expected: JsonKind, or: JsonKind, found: JsonKind, line: usize },
    /// The input ended where the grammar requires one of two kinds of token.
    MissingEither { expected: JsonKind, or: JsonKind },
}

/// Why a text was rejected: a lexical error, or a grammar violation.
#[derive(Debug, Clone, PartialEq, Eq)]
pub enum ParseError {
    Lex(LexError),
    Syntax(SyntaxError),
}

pub enum ParseErrorView {
    Lex(LexErrorView),
    Syntax(SyntaxError),
}

impl View for ParseError {
    type V = ParseErrorView;

    open spec fn view(&self) -> ParseErrorView {
        match self {
            ParseError::Lex(e) => ParseErrorView::Lex(e@),
            ParseError::Syntax(e) => ParseErrorView::Syntax(*e),
        }
    }
}

/// What a grammar procedure that starts at some position of the token
/// sequence does: `Ok(n)` when it consumes `n` tokens, or `Err((p, e))` when it
/// finds the violation `e` while the cursor is at position `p`.
pub type Step = Result<nat, (nat, SyntaxError)>;

pub open spec fn has_kind(ts: Seq<TokenView>, i: nat, k: JsonKind) -> bool {
    i < ts.len() && ts[i as int].kind == k
}

pub open spec fn is_whitespace(k: JsonKind) -> bool {
    k == JsonKind::Space || k == JsonKind::HorizontalTab || k == JsonKind::LineFeed || k
        == JsonKind::CarriageReturn
}

pub open spec fn is_digit(k: JsonKind) -> bool {
    k == JsonKind::Digit || k == JsonKind::Zero
}

/// The number of whitespace tokens in the run that begins at `i`.
pub open spec fn ws_run(ts: Seq<TokenView>, i: nat) -> nat
    decreases ts.len() - i,
{
    if i < ts.len() && is_whitespace(ts[i as int].kind) {
        1 + ws_run(ts, i + 1)
    } else {
        0
    }
}

/// The number of digit tokens in the run that begins at `i`.
pub open spec fn digit_run(ts: Seq<TokenView>, i: nat) -> nat
    decreases ts.len() - i,
{
    if i < ts.len() && is_digit(ts[i as int].kind) {
        1 + digit_run(ts, i + 1)
    } else {
        0
    }
}

/// A run never reaches past the end of the sequence.
pub proof fn lemma_run_bounds(ts: Seq<TokenView>, i: nat)
    ensures
        i + ws_run(ts, i) <= if i <= ts.len() { ts.len() } else { i },
        i + digit_run(ts, i) <= if i <= ts.len() { ts.len() } else { i },
    decreases ts.len() - i,
{
    if i < ts.len() {
        lemma_run_bounds(ts, i + 1);
    }
}

pub open spec fn line_at(ts: Seq<TokenView>, i: nat) -> usize {
    ts[i as int].line as usize
}

/// The violation at `i`, where a value is required.
pub open spec fn unexpected(ts: Seq<TokenView>, i: nat) -> (nat, SyntaxError) {
    if i < ts.len() {
        (i, SyntaxError::UnexpectedToken { found: ts[i as int].kind, line: line_at(ts, i) })
    } else {
        (i, SyntaxError::MissingValue)
    }
}

/// The violation at `i`, where a token of kind `k` is required.
pub open spec fn mismatch(ts: Seq<TokenView>, i: nat, k: JsonKind) -> (nat, SyntaxError) {
    if i < ts.len() {
        (i, SyntaxError::Mismatch { expected: k, found: ts[i as int].kind, line: line_at(ts, i) })
    } else {
        (i, SyntaxError::MissingToken { expected: k })
    }
}

/// The violation at `i`, where a token of kind `a` or `b` is required.
pub open spec fn mismatch_either(ts: Seq<TokenView>, i: nat, a: JsonKind, b: JsonKind) -> (
    nat,
    SyntaxError,
) {
    if i < ts.len() {
        (
            i,
            SyntaxError::MismatchEither {
                expected: a,
                or: b,
                found: ts[i as int].kind,
                line: line_at(ts, i),
            },
        )
    } else {
        (i, SyntaxError::MissingEither { expected: a, or: b })
    }
}

/// A zero at `i` that another digit follows.
pub open spec fn leading_zero(ts: Seq<TokenView>, i: nat) -> bool {
    has_kind(ts, i, JsonKind::Zero) && (has_kind(ts, i + 1, JsonKind::Digit) || has_kind(
        ts,
        i + 1,
        JsonKind::Zero,
    ))
}

/// The integer part of a number: an optional minus, then a run of digits that
/// does not begin with a zero followed by another digit.
pub open spec fn integer(ts: Seq<TokenView>, i: nat) -> Step {
    if leading_zero(ts, i) {
        Err((i, SyntaxError::IllegalLeadingZero { line: line_at(ts, i) }))
    } else if has_kind(ts, i, JsonKind::Minus) {
        if leading_zero(ts, i + 1) {
            Err(((i + 1) as nat, SyntaxError::IllegalLeadingZero { line: line_at(ts, i + 1) }))
        } else if has_kind(ts, i + 1, JsonKind::Digit) || has_kind(ts, i + 1, JsonKind::Zero) {
            Ok(2 + digit_run(ts, i + 2))
        } else {
            Err(mismatch_either(ts, i + 1, JsonKind::Digit, JsonKind::Zero))
        }
    } else {
        Ok(digit_run(ts, i))
    }
}

/// The optional fraction of a number: a decimal point and a run of digits.
pub open spec fn fraction(ts: Seq<TokenView>, i: nat) -> nat {
    if has_kind(ts, i, JsonKind::DecimalPoint) {
        1 + digit_run(ts, i + 1)
    } else {
        0
    }
}

/// The optional exponent marker of a number, with its optional sign. The
/// digits after it are left to what follows.
pub open spec fn exponent(ts: Seq<TokenView>, i: nat) -> nat {
    if has_kind(ts, i, JsonKind::E) {
        if has_kind(ts, i + 1, JsonKind::Plus) || has_kind(ts, i + 1, JsonKind::Minus) {
            2
        } else {
            1
        }
    } else {
        0
    }
}

pub open spec fn number(ts: Seq<TokenView>, i: nat) -> Step {
    match integer(ts, i) {
        Ok(a) => {
            let b = fraction(ts, i + a);
            Ok(a + b + exponent(ts, i + a + b))
        },
        Err(e) => Err(e),
    }
}

/// A value at `i`: an object, an array, a string, a keyword or a number.
pub open spec fn value(ts: Seq<TokenView>, i: nat) -> Step
    decreases ts.len() - i, 0nat,
{
    if has_kind(ts, i, JsonKind::BeginObject) {
        match object(ts, i + 1) {
            Ok(o) => Ok(1 + o),
            Err(e) => Err(e),
        }
    } else if has_kind(ts, i, JsonKind::BeginArray) {
        match array(ts, i + 1) {
            Ok(a) => Ok(1 + a),
            Err(e) => Err(e),
        }
    } else if has_kind(ts, i, JsonKind::StringVal) || has_kind(ts, i, JsonKind::True) || has_kind(
        ts,
        i,
        JsonKind::False,
    ) || has_kind(ts, i, JsonKind::Null) {
        Ok(1)
    } else if has_kind(ts, i, JsonKind::Minus) || has_kind(ts, i, JsonKind::Digit) || has_kind(
        ts,
        i,
        JsonKind::Zero,
    ) {
        number(ts, i)
    } else {
        Err(unexpected(ts, i))
    }
}

/// An element at `i`: optional whitespace, a value, optional whitespace.
pub open spec fn element(ts: Seq<TokenView>, i: nat) -> Step
    decreases ts.len() - i, 1nat,
{
    let w = ws_run(ts, i);
    let j = i + w;
    proof {
        lemma_run_bounds(ts, i);
    }
    match value(ts, j) {
        Ok(b) => Ok(w + b + ws_run(ts, j + b)),
        Err(e) => Err(e),
    }
}

/// The rest of an object after its opening brace.
pub open spec fn object(ts: Seq<TokenView>, i: nat) -> Step
    decreases ts.len() - i, 2nat,
{
    let w = ws_run(ts, i);
    let j = i + w;
    if has_kind(ts, j, JsonKind::EndObject) {
        Ok(w + 1)
    } else {
        proof {
            lemma_run_bounds(ts, i);
        }
        match members(ts, j) {
            Ok(m) => if has_kind(ts, j + m, JsonKind::EndObject) {
                Ok(w + m + 1)
            } else {
                Err(mismatch(ts, j + m, JsonKind::EndObject))
            },
            Err(e) => Err(e),
        }
    }
}

/// One or more members, separated by commas.
pub open spec fn members(ts: Seq<TokenView>, i: nat) -> Step
    decreases ts.len() - i, 1nat,
{
    match member(ts, i) {
        Ok(m) => if has_kind(ts, i + m, JsonKind::ValueSeperator) {
            match members(ts, i + m + 1) {
                Ok(r) => Ok(m + 1 + r),
                Err(e) => Err(e),
            }
        } else {
            Ok(m)
        },
        Err(e) => Err(e),
    }
}

/// A member: a string key, a colon and an element, with optional whitespace
/// before the key and before the colon.
pub open spec fn member(ts: Seq<TokenView>, i: nat) -> Step
    decreases ts.len() - i, 0nat,
{
    let w1 = ws_run(ts, i);
    let k = i + w1;
    if !has_kind(ts, k, JsonKind::StringVal) {
        Err(mismatch(ts, k, JsonKind::StringVal))
    } else {
        let w2 = ws_run(ts, k + 1);
        let c = k + 1 + w2;
        if !has_kind(ts, c, JsonKind::NameSeperator) {
            Err(mismatch(ts, c, JsonKind::NameSeperator))
        } else {
            match element(ts, c + 1) {
                Ok(e) => Ok(w1 + 1 + w2 + 1 + e),
                Err(x) => Err(x),
            }
        }
    }
}

/// The rest of an array after its opening bracket.
pub open spec fn array(ts: Seq<TokenView>, i: nat) -> Step
    decreases ts.len() - i, 3nat,
{
    let w = ws_run(ts, i);
    let j = i + w;
    if has_kind(ts, j, JsonKind::EndArray) {
        Ok(w + 1)
    } else {
        proof {
            lemma_run_bounds(ts, i);
        }
        match elements(ts, j) {
            Ok(m) => if has_kind(ts, j + m, JsonKind::EndArray) {
                Ok(w + m + 1)
            } else {
                Err(mismatch(ts, j + m, JsonKind::EndArray))
            },
            Err(e) => Err(e),
        }
    }
}

/// One or more elements, separated by commas.
pub open spec fn elements(ts: Seq<TokenView>, i: nat) -> Step
    decreases ts.len() - i, 2nat,
{
    match element(ts, i) {
        Ok(e) => if has_kind(ts, i + e, JsonKind::ValueSeperator) {
            match elements(ts, i + e + 1) {
                Ok(r) => Ok(e + 1 + r),
                Err(x) => Err(x),
            }
        } else {
            Ok(e)
        },
        Err(x) => Err(x),
    }
}

/// Where a procedure finds a violation: never before the position it starts
/// from, and for an element never inside its leading whitespace.
pub proof fn lemma_element_err_after(ts: Seq<TokenView>, i: nat)
    ensures
        element(ts, i) is Err ==> element(ts, i)->Err_0.0 >= i + ws_run(ts, i),
    decreases ts.len() - i, 1nat,
{
    lemma_run_bounds(ts, i);
    lemma_value_err_after(ts, i + ws_run(ts, i));
}

pub proof fn lemma_value_err_after(ts: Seq<TokenView>, i: nat)
    ensures
        value(ts, i) is Err ==> value(ts, i)->Err_0.0 >= i,
    decreases ts.len() - i, 0nat,
{
    if has_kind(ts, i, JsonKind::BeginObject) {
        lemma_object_err_after(ts, i + 1);
    } else if has_kind(ts, i, JsonKind::BeginArray) {
        lemma_array_err_after(ts, i + 1);
    }
}

pub proof fn lemma_object_err_after(ts: Seq<TokenView>, i: nat)
    ensures
        object(ts, i) is Err ==> object(ts, i)->Err_0.0 >= i + ws_run(ts, i),
    decreases ts.len() - i, 2nat,
{
    let j = i + ws_run(ts, i);
    lemma_run_bounds(ts, i);
    if !has_kind(ts, j, JsonKind::EndObject) {
        lemma_members_err_after(ts, j);
    }
}

pub proof fn lemma_members_err_after(ts: Seq<TokenView>, i: nat)
    ensures
        members(ts, i) is Err ==> members(ts, i)->Err_0.0 >= i,
        members(ts, i) is Err && member(ts, i) is Ok ==> members(ts, i)->Err_0.0 >= i + member(
            ts,
            i,
        )->Ok_0,
    decreases ts.len() - i, 1nat,
{
    lemma_member_err_after(ts, i);
    if let Ok(m) = member(ts, i) {
        if has_kind(ts, i + m, JsonKind::ValueSeperator) {
            lemma_members_err_after(ts, i + m + 1);
        }
    }
}

pub proof fn lemma_member_err_after(ts: Seq<TokenView>, i: nat)
    ensures
        member(ts, i) is Err ==> member(ts, i)->Err_0.0 >= i,
    decreases ts.len() - i, 0nat,
{
    let k = i + ws_run(ts, i);
    if has_kind(ts, k, JsonKind::StringVal) {
        let c = k + 1 + ws_run(ts, k + 1);
        if has_kind(ts, c, JsonKind::NameSeperator) {
            lemma_element_err_after(ts, c + 1);
        }
    }
}

pub proof fn lemma_array_err_after(ts: Seq<TokenView>, i: nat)
    ensures
        array(ts, i) is Err ==> array(ts, i)->Err_0.0 >= i + ws_run(ts, i),
    decreases ts.len() - i, 3nat,
{
    let j = i + ws_run(ts, i);
    lemma_run_bounds(ts, i);
    if !has_kind(ts, j, JsonKind::EndArray) {
        lemma_elements_err_after(ts, j);
    }
}

pub proof fn lemma_elements_err_after(ts: Seq<TokenView>, i: nat)
    ensures
        elements(ts, i) is Err ==> elements(ts, i)->Err_0.0 >= i,
        elements(ts, i) is Err && element(ts, i) is Ok ==> elements(ts, i)->Err_0.0 >= i + element(
            ts,
            i,
        )->Ok_0,
    decreases ts.len() - i, 2nat,
{
    lemma_element_err_after(ts, i);
    if let Ok(e) = element(ts, i) {
        if has_kind(ts, i + e, JsonKind::ValueSeperator) {
            lemma_elements_err_after(ts, i + e + 1);
        }
    }
}

/// An element that starts before the end of the input consumes at least one
/// token.
pub proof fn lemma_element_progress(ts: Seq<TokenView>, i: nat)
    requires
        i < ts.len(),
    ensures
        element(ts, i) is Ok ==> element(ts, i)->Ok_0 >= 1,
{
    if !is_whitespace(ts[i as int].kind) {
        assert(ws_run(ts, i) == 0);
        if has_kind(ts, i, JsonKind::Digit) || has_kind(ts, i, JsonKind::Zero) {
            assert(digit_run(ts, i) >= 1);
        }
    }
}

/// The whole token sequence from `i` on: elements one after another until the
/// input ends.
pub open spec fn document(ts: Seq<TokenView>, i: nat) -> Result<(), (nat, SyntaxError)>
    decreases if i < ts.len() {
        ts.len() - i
    } else {
        0
    },
{
    if i >= ts.len() {
        Ok(())
    } else {
        match element(ts, i) {
            Ok(c) => {
                proof {
                    lemma_element_progress(ts, i);
                }
                document(ts, i + c)
            },
            Err(e) => Err(e),
        }
    }
}

/// Whether a parser whose cursor stands at `p` has already pulled the failing
/// token from a source whose tokens are `ts` and whose fault is `fault`. The
/// parser keeps one token of lookahead, so it pulls position `p + 1` as its
/// cursor reaches `p`.
pub open spec fn reached(ts: Seq<TokenView>, fault: Option<LexErrorView>, p: nat) -> bool {
    fault is Some && p + 1 >= ts.len()
}

pub proof fn lemma_document_err_after(ts: Seq<TokenView>, i: nat)
    ensures
        document(ts, i) is Err ==> document(ts, i)->Err_0.0 >= i,
    decreases if i < ts.len() {
        ts.len() - i
    } else {
        0
    },
{
    if i < ts.len() {
        lemma_element_err_after(ts, i);
        lemma_element_progress(ts, i);
        if let Ok(c) = element(ts, i) {
            lemma_document_err_after(ts, i + c);
        }
    }
}

/// The verdict of a parser whose cursor stands at `i`, on a source whose tokens
/// are `ts` and whose fault is `fault`. A grammar violation is reported only
/// where the parser finds it before it pulls the failing token.
pub open spec fn outcome_from(ts: Seq<TokenView>, fault: Option<LexErrorView>, i: nat) -> Result<
    (),
    ParseErrorView,
> {
    match document(ts, i) {
        Ok(()) => match fault {
            None => Ok(()),
            Some(e) => Err(ParseErrorView::Lex(e)),
        },
        Err((p, e)) => if reached(ts, fault, p) {
            Err(ParseErrorView::Lex(fault->Some_0))
        } else {
            Err(ParseErrorView::Syntax(e))
        },
    }
}

/// The verdict on a token stream: the tokens `ts`, followed by the lexical
/// error `fault` if there is one.
pub open spec fn verdict(ts: Seq<TokenView>, fault: Option<LexErrorView>) -> Result<
    (),
    ParseErrorView,
> {
    outcome_from(ts, fault, 0)
}

pub open spec fn result_view(r: Result<(), ParseError>) -> Result<(), ParseErrorView> {
    match r {
        Ok(()) => Ok(()),
        Err(e) => Err(e@),
    }
}

} // verus!
