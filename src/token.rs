use vstd::prelude::*;

use crate::lexer::{LexError, LexErrorView};

verus! {

/// The terminal categories of the JSON grammar, one token kind per category.
#[derive(Debug, Clone, Copy, PartialEq, Eq, Structural)]
pub enum JsonKind {
    StringVal,
    False,
    True,
    Null,
    BeginArray,
    BeginObject,
    EndArray,
    EndObject,
    NameSeperator,
    ValueSeperator,
    Space,
    HorizontalTab,
    LineFeed,
    CarriageReturn,
    Plus,
    Minus,
    Digit,
    Zero,
    DecimalPoint,
    E,
}

/// One lexeme of the input: its kind, the exact source text it covers, and
/// the 1-based line on which it begins.
#[derive(Debug, Clone)]
pub struct Token {
    pub kind: JsonKind,
    pub text: String,
    pub line: usize,
}

/// The mathematical value of a token.
pub struct TokenView {
    pub kind: JsonKind,
    pub text: Seq<char>,
    pub line: nat,
}

impl View for Token {
    type V = TokenView;

    open spec fn view(&self) -> TokenView {
        TokenView { kind: self.kind, text: self.text@, line: self.line as nat }
    }
}

impl Token {
    pub fn new(kind: JsonKind, line: usize, text: String) -> (t: Token)
        ensures
            t.kind == kind,
            t.line == line,
            t.text@ == text@,
    {
        Token { kind, line, text }
    }
}

/// A pull-based supply of tokens: each call yields the next token, reports
/// that the stream has ended, or reports the lexical error that ends it.
pub trait TokenSource {
    /// Whether the source's internal state is consistent.
    spec fn wf(&self) -> bool;

    /// The tokens that the source will still yield, in order.
    spec fn pending(&self) -> Seq<TokenView>;

    /// The lexical error that the source reports once `pending` is used up,
    /// if there is one.
    spec fn fault(&self) -> Option<LexErrorView>;

    fn next_token(&mut self) -> (r: Result<Option<Token>, LexError>)
        requires
            old(self).wf(),
        ensures
            old(self).pending().len() > 0 ==> {
                &&& r is Ok && r->Ok_0 is Some
                &&& r->Ok_0->Some_0@ == old(self).pending()[0]
                &&& final(self).wf()
                &&& final(self).pending() == old(self).pending().drop_first()
                &&& final(self).fault() == old(self).fault()
            },
            old(self).pending().len() == 0 && old(self).fault() is None ==> {
                &&& r is Ok && r->Ok_0 is None
                &&& final(self).wf()
                &&& final(self).pending().len() == 0
                &&& final(self).fault() is None
            },
            old(self).pending().len() == 0 && old(self).fault() is Some ==> {
                &&& r is Err
                &&& r->Err_0@ == old(self).fault()->Some_0
            },
    ;
}

/// A token source that yields a fixed list of tokens, in order, and never
/// fails.
pub struct TokenList {
    tokens: Vec<Token>,
    next: usize,
}

pub open spec fn token_views(tokens: Seq<Token>) -> Seq<TokenView> {
    tokens.map_values(|t: Token| t@)
}

impl TokenList {
    pub fn new(tokens: Vec<Token>) -> (l: TokenList)
        ensures
            l.wf(),
            l.pending() == token_views(tokens@),
            l.fault() is None,
    {
        let l = TokenList { tokens, next: 0 };
        assert(l.tokens@.skip(0) =~= l.tokens@);
        l
    }
}

impl TokenSource for TokenList {
    closed spec fn wf(&self) -> bool {
        self.next <= self.tokens.len()
    }

    closed spec fn pending(&self) -> Seq<TokenView> {
        token_views(self.tokens@.skip(self.next as int))
    }

    closed spec fn fault(&self) -> Option<LexErrorView> {
        None
    }

    fn next_token(&mut self) -> (r: Result<Option<Token>, LexError>) {
        if self.next >= self.tokens.len() {
            return Ok(None);
        }
        let t = &self.tokens[self.next];
        let copy = Token { kind: t.kind, text: t.text.clone(), line: t.line };
        self.next = self.next + 1;
        assert(token_views(old(self).tokens@.skip(old(self).next as int)).drop_first()
            =~= token_views(self.tokens@.skip(self.next as int)));
        Ok(Some(copy))
    }
}

} // verus!
