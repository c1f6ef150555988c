use vstd::prelude::*;

use crate::grammar::{
    array, digit_run, element, elements, exponent, fraction, has_kind, integer, is_digit,
    is_whitespace, leading_zero, lemma_array_err_after, lemma_element_err_after,
    lemma_elements_err_after, lemma_member_err_after, lemma_members_err_after,
    lemma_object_err_after, line_at, member, members, mismatch, mismatch_either, number, object,
    reached, unexpected, ws_run, lemma_document_err_after, lemma_element_progress,
    outcome_from, result_view, verdict, ParseError, ParseErrorView, Step, SyntaxError,
};
use crate::lexer::{LexError, LexErrorView};
use crate::token::{JsonKind, Token, TokenSource, TokenView};

verus! {

pub open spec fn token_at(ts: Seq<TokenView>, i: nat) -> Option<TokenView> {
    if i < ts.len() {
        Some(ts[i as int])
    } else {
        None
    }
}

pub open spec fn view_of(t: Option<Token>) -> Option<TokenView> {
    match t {
        Some(x) => Some(x@),
        None => None,
    }
}

/// A recursive-descent validator that pulls tokens from `source` through a
/// window of two tokens: the current one and the one after it.
pub struct Parser<S: TokenSource> {
    source: S,
    curr: Option<Token>,
    peek: Option<Token>,
    /// The lexical error met while filling the window, kept for `start`.
    held: Option<LexError>,
    /// Every token the source yields, from the first on.
    tokens: Ghost<Seq<TokenView>>,
    /// The lexical error the source reports after them, if any.
    fault: Ghost<Option<LexErrorView>>,
    /// The position of `curr` in `tokens`.
    pos: Ghost<nat>,
}

impl<S: TokenSource> Parser<S> {
    pub closed spec fn tokens(&self) -> Seq<TokenView> {
        self.tokens@
    }

    pub closed spec fn fault(&self) -> Option<LexErrorView> {
        self.fault@
    }

    pub closed spec fn pos(&self) -> nat {
        self.pos@
    }

    /// The window holds the tokens at `pos` and `pos + 1`, and the source
    /// holds the ones after them.
    pub closed spec fn wf(&self) -> bool {
        let ts = self.tokens@;
        let p = self.pos@;
        &&& self.held is None
        &&& self.source.wf()
        &&& p <= ts.len()
        &&& self.source.fault() == self.fault@
        &&& self.fault@ is Some ==> p + 1 < ts.len()
        &&& self.source.pending() == if p + 2 <= ts.len() {
            ts.skip(p + 2int)
        } else {
            Seq::empty()
        }
        &&& view_of(self.curr) == token_at(ts, p)
        &&& view_of(self.peek) == token_at(ts, p + 1)
    }

    /// The token in the current slot of the window.
    pub closed spec fn current(&self) -> Option<TokenView> {
        view_of(self.curr)
    }

    /// The token in the lookahead slot of the window.
    pub closed spec fn lookahead(&self) -> Option<TokenView> {
        view_of(self.peek)
    }

    /// The lexical error met while the window was filled, if any.
    pub closed spec fn held_error(&self) -> Option<LexErrorView> {
        match self.held {
            Some(e) => Some(e@),
            None => None,
        }
    }

    /// A parser whose window holds the first two tokens, or that holds the
    /// lexical error met while pulling them.
    pub closed spec fn ready(&self) -> bool {
        &&& self.pos@ == 0
        &&& self.held is None ==> self.wf()
        &&& self.held is Some ==> reached(self.tokens@, self.fault@, 0) && self.held_error()
            == self.fault@
    }

    /// What a grammar procedure that runs from `self` to `next` with result
    /// `r` owes, given what the grammar says of the tokens from the cursor on.
    pub open spec fn follows(self, next: Self, r: Result<(), ParseError>, step: Step) -> bool {
        match step {
            Ok(c) => if reached(self.tokens(), self.fault(), self.pos() + c) {
                r is Err && r->Err_0@ == ParseErrorView::Lex(self.fault()->Some_0)
            } else {
                &&& r is Ok
                &&& next.wf()
                &&& next.tokens() == self.tokens()
                &&& next.fault() == self.fault()
                &&& next.pos() == self.pos() + c
            },
            Err((p, e)) => r is Err && r->Err_0@ == if reached(self.tokens(), self.fault(), p) {
                ParseErrorView::Lex(self.fault()->Some_0)
            } else {
                ParseErrorView::Syntax(e)
            },
        }
    }

    /// Moves the window one token on and pulls the next token from the source;
    /// on an exhausted window it does nothing.
    fn next_token(&mut self) -> (r: Result<(), ParseError>)
        requires
            old(self).wf(),
        ensures
            old(self).pos() < old(self).tokens().len() ==> old(self).follows(*final(self), r, Ok(1)),
            old(self).pos() >= old(self).tokens().len() ==> r is Ok && *final(self) == *old(self),
    {
        if self.curr.is_none() {
            return Ok(());
        }
        let ghost ts = self.tokens@;
        let ghost p = self.pos@;
        match self.source.next_token() {
            Ok(t) => {
                self.curr = self.peek.take();
                self.peek = t;
                self.pos = Ghost(p + 1);
                assert(p + 3 <= ts.len() ==> ts.skip(p + 2int).drop_first() =~= ts.skip(p + 3int));
                assert(self.source.pending() =~= if p + 3 <= ts.len() {
                    ts.skip(p + 3int)
                } else {
                    Seq::empty()
                });
                Ok(())
            },
            Err(e) => Err(ParseError::Lex(e)),
        }
    }

    fn is_kind(&self, kind: &JsonKind) -> (b: bool)
        requires
            self.wf(),
        ensures
            b == has_kind(self.tokens(), self.pos(), *kind),
    {
        match &self.curr {
            None => false,
            Some(val) => val.kind == *kind,
        }
    }

    fn is_next(&self, kind: &JsonKind) -> (b: bool)
        requires
            self.wf(),
        ensures
            b == has_kind(self.tokens(), self.pos() + 1, *kind),
    {
        match &self.peek {
            None => false,
            Some(val) => val.kind == *kind,
        }
    }

    fn illegal_leading_zero(&self) -> (r: Result<(), ParseError>)
        requires
            self.wf(),
        ensures
            r is Err <==> leading_zero(self.tokens(), self.pos()),
            r is Err ==> r->Err_0@ == ParseErrorView::Syntax(
                SyntaxError::IllegalLeadingZero { line: line_at(self.tokens(), self.pos()) },
            ),
    {
        if self.is_kind(&JsonKind::Zero) && (self.is_next(&JsonKind::Digit) || self.is_next(
            &JsonKind::Zero,
        )) {
            let line = match &self.curr {
                Some(t) => t.line,
                None => 0,
            };
            return Err(ParseError::Syntax(SyntaxError::IllegalLeadingZero { line }));
        }
        Ok(())
    }

    /// The violation where a token of kind `kind` is required here.
    fn mismatch_here(&self, kind: &JsonKind) -> (e: SyntaxError)
        requires
            self.wf(),
        ensures
            e == mismatch(self.tokens(), self.pos(), *kind).1,
    {
        match &self.curr {
            Some(t) => SyntaxError::Mismatch { expected: *kind, found: t.kind, line: t.line },
            None => SyntaxError::MissingToken { expected: *kind },
        }
    }

    fn must_match(&mut self, kind: &JsonKind) -> (r: Result<(), ParseError>)
        requires
            old(self).wf(),
        ensures
            old(self).follows(
                *final(self),
                r,
                if has_kind(old(self).tokens(), old(self).pos(), *kind) {
                    Ok(1)
                } else {
                    Err(mismatch(old(self).tokens(), old(self).pos(), *kind))
                },
            ),
            !has_kind(old(self).tokens(), old(self).pos(), *kind) ==> *final(self) == *old(self),
    {
        if !self.is_kind(kind) {
            return Err(ParseError::Syntax(self.mismatch_here(kind)));
        }
        self.next_token()
    }

    fn must_match_either(&mut self, kind1: &JsonKind, kind2: &JsonKind) -> (r: Result<
        (),
        ParseError,
    >)
        requires
            old(self).wf(),
        ensures
            old(self).follows(
                *final(self),
                r,
                if has_kind(old(self).tokens(), old(self).pos(), *kind1) || has_kind(
                    old(self).tokens(),
                    old(self).pos(),
                    *kind2,
                ) {
                    Ok(1)
                } else {
                    Err(mismatch_either(old(self).tokens(), old(self).pos(), *kind1, *kind2))
                },
            ),
            !has_kind(old(self).tokens(), old(self).pos(), *kind1) && !has_kind(
                old(self).tokens(),
                old(self).pos(),
                *kind2,
            ) ==> *final(self) == *old(self),
    {
        if !self.is_kind(kind1) && !self.is_kind(kind2) {
            let e = match &self.curr {
                Some(t) => SyntaxError::MismatchEither {
                    expected: *kind1,
                    or: *kind2,
                    found: t.kind,
                    line: t.line,
                },
                None => SyntaxError::MissingEither { expected: *kind1, or: *kind2 },
            };
            return Err(ParseError::Syntax(e));
        }
        self.next_token()
    }

    fn at_whitespace(&self) -> (b: bool)
        requires
            self.wf(),
        ensures
            b == (self.pos() < self.tokens().len() && is_whitespace(
                self.tokens()[self.pos() as int].kind,
            )),
    {
        match &self.curr {
            Some(val) => match val.kind {
                JsonKind::Space | JsonKind::HorizontalTab | JsonKind::LineFeed
                | JsonKind::CarriageReturn => true,
                _ => false,
            },
            None => false,
        }
    }

    fn at_digit(&self) -> (b: bool)
        requires
            self.wf(),
        ensures
            b == (self.pos() < self.tokens().len() && is_digit(
                self.tokens()[self.pos() as int].kind,
            )),
    {
        match &self.curr {
            Some(val) => match val.kind {
                JsonKind::Digit | JsonKind::Zero => true,
                _ => false,
            },
            None => false,
        }
    }

    /// Consumes a run of whitespace tokens.
    fn whitespace(&mut self) -> (r: Result<(), ParseError>)
        requires
            old(self).wf(),
        ensures
            old(self).follows(*final(self), r, Ok(ws_run(old(self).tokens(), old(self).pos()))),
    {
        while self.at_whitespace()
            invariant
                self.wf(),
                self.tokens() == old(self).tokens(),
                self.fault() == old(self).fault(),
                old(self).pos() <= self.pos(),
                ws_run(self.tokens(), old(self).pos()) == (self.pos() - old(self).pos()) + ws_run(
                    self.tokens(),
                    self.pos(),
                ),
            decreases self.tokens().len() - self.pos(),
        {
            self.next_token()?;
        }
        Ok(())
    }

    /// Consumes a run of digit tokens.
    fn digits(&mut self) -> (r: Result<(), ParseError>)
        requires
            old(self).wf(),
        ensures
            old(self).follows(*final(self), r, Ok(digit_run(old(self).tokens(), old(self).pos()))),
    {
        while self.at_digit()
            invariant
                self.wf(),
                self.tokens() == old(self).tokens(),
                self.fault() == old(self).fault(),
                old(self).pos() <= self.pos(),
                digit_run(self.tokens(), old(self).pos()) == (self.pos() - old(self).pos())
                    + digit_run(self.tokens(), self.pos()),
            decreases self.tokens().len() - self.pos(),
        {
            self.next_token()?;
        }
        Ok(())
    }

    fn integer(&mut self) -> (r: Result<(), ParseError>)
        requires
            old(self).wf(),
        ensures
            old(self).follows(*final(self), r, integer(old(self).tokens(), old(self).pos())),
            leading_zero(old(self).tokens(), old(self).pos()) ==> *final(self) == *old(self),
    {
        self.illegal_leading_zero()?;
        if self.is_kind(&JsonKind::Minus) {
            self.next_token()?;
            self.illegal_leading_zero()?;
            self.must_match_either(&JsonKind::Digit, &JsonKind::Zero)?;
        }
        self.digits()
    }

    fn fraction(&mut self) -> (r: Result<(), ParseError>)
        requires
            old(self).wf(),
        ensures
            old(self).follows(*final(self), r, Ok(fraction(old(self).tokens(), old(self).pos()))),
    {
        if self.is_kind(&JsonKind::DecimalPoint) {
            self.next_token()?;
            self.digits()?;
        }
        Ok(())
    }

    fn exponent(&mut self) -> (r: Result<(), ParseError>)
        requires
            old(self).wf(),
        ensures
            old(self).follows(*final(self), r, Ok(exponent(old(self).tokens(), old(self).pos()))),
    {
        if self.is_kind(&JsonKind::E) {
            self.next_token()?;
            if self.is_kind(&JsonKind::Plus) || self.is_kind(&JsonKind::Minus) {
                self.next_token()?;
            }
        }
        Ok(())
    }

    fn number(&mut self) -> (r: Result<(), ParseError>)
        requires
            old(self).wf(),
        ensures
            old(self).follows(*final(self), r, number(old(self).tokens(), old(self).pos())),
    {
        self.integer()?;
        self.fraction()?;
        self.exponent()
    }

    /// The violation where a value is required here.
    fn unexpected_here(&self) -> (e: SyntaxError)
        requires
            self.wf(),
        ensures
            e == unexpected(self.tokens(), self.pos()).1,
    {
        match &self.curr {
            Some(t) => SyntaxError::UnexpectedToken { found: t.kind, line: t.line },
            None => SyntaxError::MissingValue,
        }
    }

    fn element(&mut self) -> (r: Result<(), ParseError>)
        requires
            old(self).wf(),
        ensures
            old(self).follows(*final(self), r, element(old(self).tokens(), old(self).pos())),
        decreases old(self).tokens().len() - old(self).pos(), 0nat,
    {
        proof {
            lemma_element_err_after(self.tokens(), self.pos());
        }
        self.whitespace()?;
        if self.is_kind(&JsonKind::BeginObject) {
            proof {
                lemma_object_err_after(self.tokens(), self.pos() + 1);
            }
            self.next_token()?;
            self.object()?;
        } else if self.is_kind(&JsonKind::BeginArray) {
            proof {
                lemma_array_err_after(self.tokens(), self.pos() + 1);
            }
            self.next_token()?;
            self.array()?;
        } else if self.is_kind(&JsonKind::StringVal) || self.is_kind(&JsonKind::True)
            || self.is_kind(&JsonKind::False) || self.is_kind(&JsonKind::Null) {
            self.next_token()?;
        } else if self.is_kind(&JsonKind::Minus) || self.is_kind(&JsonKind::Digit) || self.is_kind(
            &JsonKind::Zero,
        ) {
            self.number()?;
        } else {
            return Err(ParseError::Syntax(self.unexpected_here()));
        }
        self.whitespace()
    }

    fn object(&mut self) -> (r: Result<(), ParseError>)
        requires
            old(self).wf(),
        ensures
            old(self).follows(*final(self), r, object(old(self).tokens(), old(self).pos())),
        decreases old(self).tokens().len() - old(self).pos(), 3nat,
    {
        proof {
            lemma_object_err_after(self.tokens(), self.pos());
        }
        self.whitespace()?;
        if self.is_kind(&JsonKind::EndObject) {
            self.next_token()
        } else {
            proof {
                lemma_members_err_after(self.tokens(), self.pos());
            }
            self.members()?;
            self.must_match(&JsonKind::EndObject)
        }
    }

    fn members(&mut self) -> (r: Result<(), ParseError>)
        requires
            old(self).wf(),
        ensures
            old(self).follows(*final(self), r, members(old(self).tokens(), old(self).pos())),
        decreases old(self).tokens().len() - old(self).pos(), 2nat,
    {
        proof {
            lemma_member_err_after(self.tokens(), self.pos());
            lemma_members_err_after(self.tokens(), self.pos());
        }
        self.member()?;
        if self.is_kind(&JsonKind::ValueSeperator) {
            proof {
                lemma_members_err_after(self.tokens(), self.pos() + 1);
            }
            self.next_token()?;
            self.members()
        } else {
            Ok(())
        }
    }

    fn member(&mut self) -> (r: Result<(), ParseError>)
        requires
            old(self).wf(),
        ensures
            old(self).follows(*final(self), r, member(old(self).tokens(), old(self).pos())),
        decreases old(self).tokens().len() - old(self).pos(), 1nat,
    {
        self.whitespace()?;
        self.must_match(&JsonKind::StringVal)?;
        self.whitespace()?;
        proof {
            lemma_element_err_after(self.tokens(), self.pos() + 1);
        }
        self.must_match(&JsonKind::NameSeperator)?;
        self.element()
    }

    fn array(&mut self) -> (r: Result<(), ParseError>)
        requires
            old(self).wf(),
        ensures
            old(self).follows(*final(self), r, array(old(self).tokens(), old(self).pos())),
        decreases old(self).tokens().len() - old(self).pos(), 2nat,
    {
        proof {
            lemma_array_err_after(self.tokens(), self.pos());
        }
        self.whitespace()?;
        if self.is_kind(&JsonKind::EndArray) {
            self.next_token()
        } else {
            proof {
                lemma_elements_err_after(self.tokens(), self.pos());
            }
            self.elements()?;
            self.must_match(&JsonKind::EndArray)
        }
    }

    fn elements(&mut self) -> (r: Result<(), ParseError>)
        requires
            old(self).wf(),
        ensures
            old(self).follows(*final(self), r, elements(old(self).tokens(), old(self).pos())),
        decreases old(self).tokens().len() - old(self).pos(), 1nat,
    {
        proof {
            lemma_element_err_after(self.tokens(), self.pos());
            lemma_elements_err_after(self.tokens(), self.pos());
        }
        self.element()?;
        if self.is_kind(&JsonKind::ValueSeperator) {
            proof {
                lemma_elements_err_after(self.tokens(), self.pos() + 1);
            }
            self.next_token()?;
            self.elements()
        } else {
            Ok(())
        }
    }

    /// A parser over `lexer`, with the first two tokens pulled into its
    /// window. A lexical error met there is kept, and `start` reports it.
    pub fn new(lexer: S) -> (p: Parser<S>)
        requires
            lexer.wf(),
        ensures
            p.ready(),
            p.tokens() == lexer.pending(),
            p.fault() == lexer.fault(),
            p.pos() == 0,
            !reached(lexer.pending(), lexer.fault(), 0) ==> {
                &&& p.wf()
                &&& p.held_error() is None
                &&& p.current() == token_at(lexer.pending(), 0)
                &&& p.lookahead() == token_at(lexer.pending(), 1)
            },
            reached(lexer.pending(), lexer.fault(), 0) ==> p.held_error() == lexer.fault(),
    {
        let ghost ts = lexer.pending();
        let mut p = Parser {
            tokens: Ghost(ts),
            fault: Ghost(lexer.fault()),
            pos: Ghost(0),
            source: lexer,
            curr: None,
            peek: None,
            held: None,
        };
        match p.source.next_token() {
            Ok(t) => p.curr = t,
            Err(e) => {
                p.held = Some(e);
                return p;
            },
        }
        match p.source.next_token() {
            Ok(t) => p.peek = t,
            Err(e) => {
                p.held = Some(e);
                return p;
            },
        }
        assert(p.source.pending() =~= if 2 <= ts.len() {
            ts.skip(2)
        } else {
            Seq::empty()
        });
        p
    }

    /// Validates the whole token stream: elements one after another until
    /// the source is used up.
    pub fn start(&mut self) -> (r: Result<(), ParseError>)
        requires
            old(self).ready(),
        ensures
            result_view(r) == verdict(old(self).tokens(), old(self).fault()),
    {
        let ghost ts = self.tokens@;
        let ghost fault = self.fault@;
        proof {
            lemma_document_err_after(ts, 0);
        }
        if let Some(e) = self.held.take() {
            return Err(ParseError::Lex(e));
        }
        while self.curr.is_some()
            invariant
                self.wf(),
                self.tokens() == ts,
                self.fault() == fault,
                ts == old(self).tokens(),
                fault == old(self).fault(),
                outcome_from(ts, fault, self.pos()) == outcome_from(ts, fault, 0),
            decreases ts.len() - self.pos(),
        {
            proof {
                lemma_element_progress(ts, self.pos());
                if let Ok(c) = element(ts, self.pos()) {
                    lemma_document_err_after(ts, self.pos() + c);
                }
            }
            self.element()?;
        }
        Ok(())
    }
}

} // verus!
