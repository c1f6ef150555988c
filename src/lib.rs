//! A streaming syntax validator for JSON text: a lexer that turns characters
//! into classified tokens with line numbers, and a recursive-descent parser
//! that pulls those tokens one at a time and accepts or rejects the input.
use vstd::prelude::*;

pub mod grammar;
pub mod lexer;
pub mod parser;
pub mod spacing;
pub mod token;

use crate::grammar::{
    array, document, element, elements, is_whitespace, result_view, verdict, ws_run, ParseError,
    ParseErrorView,
    SyntaxError,
};
use crate::lexer::{
    blank_tokens, concat_text, count_lf, is_blank, lemma_lexeme_is_prefix, lemma_scan_blanks,
    lemma_scan_lossless, lemma_scan_prefix, lemma_scan_shift, lemma_scan_skip, line_after,
    next_lexeme, scan, shift_lines, single_char_kind, TokenIter,
};
use crate::spacing::{insert_at, lemma_whitespace_insertion, number_part, same_kinds};
use crate::token::{JsonKind, TokenView};
use crate::parser::Parser;

verus! {

/// The verdict on the text `s`: the verdict on the tokens a lexer reads from
/// it, starting on line 1.
pub open spec fn text_verdict(s: Seq<char>) -> Result<(), ParseErrorView> {
    verdict(scan(s, 1).tokens, scan(s, 1).fault)
}

/// Checks that `contents` is well-formed JSON text, reporting the first
/// lexical error or grammar violation otherwise.
pub fn validate(contents: &str) -> (r: Result<(), ParseError>)
    requires
        contents@.len() < usize::MAX,
    ensures
        result_view(r) == text_verdict(contents@),
{
    let tokens = TokenIter::new(contents);
    let mut parser = Parser::new(tokens);
    parser.start()
}

/// `n` opening brackets followed by `m` closing ones.
pub open spec fn brackets(n: nat, m: nat) -> Seq<char> {
    Seq::new(n, |k: int| '[') + Seq::new(m, |k: int| ']')
}

proof fn lemma_scan_brackets(s: Seq<char>, line: nat)
    requires
        forall|k: int| 0 <= k < s.len() ==> s[k] == '[' || s[k] == ']',
    ensures
        scan(s, line).fault is None,
        scan(s, line).tokens.len() == s.len(),
        forall|k: int|
            0 <= k < s.len() ==> #[trigger] scan(s, line).tokens[k].kind == if s[k] == '[' {
                JsonKind::BeginArray
            } else {
                JsonKind::EndArray
            },
    decreases s.len(),
{
    if s.len() > 0 {
        lemma_lexeme_is_prefix(s, line);
        let t = next_lexeme(s, line)->Ok_0;
        let rest = s.skip(1);
        lemma_scan_brackets(rest, line);
        let ts = scan(s, line).tokens;
        assert(ts == seq![t] + scan(rest, line).tokens);
        assert forall|k: int| 0 <= k < s.len() implies #[trigger] ts[k].kind == if s[k] == '[' {
            JsonKind::BeginArray
        } else {
            JsonKind::EndArray
        } by {
            if k > 0 {
                assert(rest[k - 1] == s[k]);
            }
        }
    }
}

/// The token sequence of `n` opening brackets followed by `m` closing ones.
spec fn bracket_tokens(ts: Seq<TokenView>, n: nat, m: nat) -> bool {
    &&& ts.len() == n + m
    &&& forall|i: int| 0 <= i < n ==> #[trigger] ts[i].kind == JsonKind::BeginArray
    &&& forall|i: int| n <= i < n + m ==> #[trigger] ts[i].kind == JsonKind::EndArray
}

/// The `k` innermost arrays form one element of `2 * k` tokens.
proof fn lemma_nested_element(ts: Seq<TokenView>, n: nat, m: nat, k: nat)
    requires
        bracket_tokens(ts, n, m),
        1 <= k <= n,
        k <= m,
    ensures
        element(ts, (n - k) as nat) == Ok::<nat, (nat, SyntaxError)>(2 * k),
    decreases k,
{
    let i = (n - k) as nat;
    assert(ws_run(ts, i) == 0);
    assert(ws_run(ts, i + 1) == 0);
    assert(ws_run(ts, i + 2 * k) == 0) by {
        if i + 2 * k < ts.len() {
            assert(ts[(i + 2 * k) as int].kind == JsonKind::EndArray);
        }
    }
    if k > 1 {
        lemma_nested_element(ts, n, m, (k - 1) as nat);
        assert(ts[i + 2 * k - 1].kind == JsonKind::EndArray);
        assert(elements(ts, i + 1) == Ok::<nat, (nat, SyntaxError)>((2 * (k - 1)) as nat));
        assert(array(ts, i + 1) == Ok::<nat, (nat, SyntaxError)>((2 * k - 1) as nat));
    } else {
        assert(array(ts, i + 1) == Ok::<nat, (nat, SyntaxError)>(1));
    }
}

/// Balanced nesting: any number of nested empty arrays is accepted.
pub proof fn lemma_nested_arrays_accepted(n: nat)
    ensures
        text_verdict(brackets(n, n)) == Ok::<(), ParseErrorView>(()),
{
    let s = brackets(n, n);
    lemma_scan_brackets(s, 1);
    let ts = scan(s, 1).tokens;
    assert(bracket_tokens(ts, n, n)) by {
        assert forall|i: int| 0 <= i < n implies #[trigger] ts[i].kind == JsonKind::BeginArray by {
            assert(s[i] == '[');
        }
        assert forall|i: int| n <= i < n + n implies #[trigger] ts[i].kind == JsonKind::EndArray by {
            assert(s[i] == ']');
        }
    }
    if n > 0 {
        lemma_nested_element(ts, n, n, n);
        assert(document(ts, 2 * n) == Ok::<(), (nat, SyntaxError)>(()));
    }
}

/// With one closing bracket missing, nested empty arrays (two or more) are
/// rejected where a closing bracket is required and the input has ended.
pub proof fn lemma_nested_arrays_unclosed(n: nat)
    requires
        n >= 2,
    ensures
        text_verdict(brackets(n, (n - 1) as nat)) == Err::<(), ParseErrorView>(
            ParseErrorView::Syntax(SyntaxError::MissingToken { expected: JsonKind::EndArray }),
        ),
{
    let m = (n - 1) as nat;
    let s = brackets(n, m);
    lemma_scan_brackets(s, 1);
    let ts = scan(s, 1).tokens;
    assert(bracket_tokens(ts, n, m)) by {
        assert forall|i: int| 0 <= i < n implies #[trigger] ts[i].kind == JsonKind::BeginArray by {
            assert(s[i] == '[');
        }
        assert forall|i: int| n <= i < n + m implies #[trigger] ts[i].kind == JsonKind::EndArray by {
            assert(s[i] == ']');
        }
    }
    lemma_nested_element(ts, n, m, m);
    assert(ws_run(ts, 0) == 0);
    assert(ws_run(ts, 1) == 0);
    assert(elements(ts, 1) == Ok::<nat, (nat, SyntaxError)>(2 * m));
}

proof fn lemma_blank_tokens(w: Seq<char>, line: nat)
    requires
        forall|k: int| 0 <= k < w.len() ==> is_blank(#[trigger] w[k]),
    ensures
        blank_tokens(w, line).len() == w.len(),
        forall|k: int|
            0 <= k < w.len() ==> is_whitespace(#[trigger] blank_tokens(w, line)[k].kind),
    decreases w.len(),
{
    if w.len() > 0 {
        let t = TokenView { kind: single_char_kind(w[0])->Some_0, text: w.take(1), line };
        lemma_blank_tokens(w.drop_first(), line_after(t));
        assert forall|k: int| 0 <= k < w.len() implies is_whitespace(
            #[trigger] blank_tokens(w, line)[k].kind,
        ) by {
            if k > 0 {
                assert(w.drop_first()[k - 1] == w[k]);
            }
        }
    }
}

/// Whitespace between tokens, in the text: inserting a run `w` of spaces,
/// tabs, line feeds and carriage returns into a text that the lexer reads
/// without error, right after its `j`-th token, adds one whitespace token per
/// character there and moves the later tokens down by the line feeds of `w`;
/// and, unless the two tokens around the run are both parts of one number,
/// the text is accepted after the insertion exactly when it was before.
pub proof fn lemma_text_whitespace_insertion(s0: Seq<char>, j: nat, w: Seq<char>)
    requires
        scan(s0, 1).fault is None,
        0 < j < scan(s0, 1).tokens.len(),
        w.len() > 0,
        forall|k: int| 0 <= k < w.len() ==> is_blank(#[trigger] w[k]),
    ensures
        ({
            let ts = scan(s0, 1).tokens;
            let a = concat_text(ts.take(j as int));
            let s = a + w + s0.skip(a.len() as int);
            &&& a == s0.take(a.len() as int)
            &&& scan(s, 1).tokens == ts.take(j as int) + blank_tokens(w, 1 + count_lf(a))
                + shift_lines(ts.skip(j as int), count_lf(w))
            &&& scan(s, 1).fault is None
            &&& !(number_part(ts[j - 1].kind) && number_part(ts[j as int].kind)) ==> (text_verdict(
                s0,
            ) is Ok <==> text_verdict(s) is Ok)
        }),
{
    let ts = scan(s0, 1).tokens;
    let a = concat_text(ts.take(j as int));
    let b = s0.skip(a.len() as int);
    let la = 1 + count_lf(a);
    let m = count_lf(w);
    lemma_scan_skip(s0, 1, j);
    lemma_scan_prefix(s0, 1, j, w + b);
    assert((w + b)[0] == w[0]);
    assert(a + w + b =~= a + (w + b));
    lemma_scan_blanks(w, b, la);
    lemma_scan_shift(b, la, m);
    let s = a + w + b;
    let wt = blank_tokens(w, la);
    let t2 = ts.take(j as int) + wt + shift_lines(ts.skip(j as int), m);
    assert(scan(s, 1).tokens =~= t2);
    if !(number_part(ts[j - 1].kind) && number_part(ts[j as int].kind)) {
        lemma_blank_tokens(w, la);
        assert(same_kinds(t2, insert_at(ts, j, wt))) by {
            assert forall|k: int| 0 <= k < t2.len() implies #[trigger] t2[k].kind == insert_at(
                ts,
                j,
                wt,
            )[k].kind by {
                if k >= j + wt.len() {
                    assert(t2[k] == shift_lines(ts.skip(j as int), m)[k - j - wt.len()]);
                }
            }
        }
        lemma_whitespace_insertion(ts, j, wt, t2, None);
    }
}

} // verus!
