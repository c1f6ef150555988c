use vstd::prelude::*;

use crate::token::{JsonKind, Token, TokenSource, TokenView};

verus! {

/// The category of a lexical error.
#[derive(Debug, Clone, Copy, PartialEq, Eq, Structural)]
pub enum LexErrorKind {
    /// A raw line feed inside an open string.
    MultilineString,
    /// The input ended before the closing quote of a string.
    NonterminatingString,
    /// A run of letters that is none of `null`, `true`, `false`.
    UnknownKeyword,
    /// A character that begins no token.
    UnexpectedChar,
}

/// A fatal lexical error: its category, the offending source text (the open
/// string, the unknown word, or the stray character) and the line of that
/// text's first character.
#[derive(Debug, Clone, PartialEq, Eq)]
pub struct LexError {
    pub kind: LexErrorKind,
    pub text: String,
    pub line: usize,
}

pub struct LexErrorView {
    pub kind: LexErrorKind,
    pub text: Seq<char>,
    pub line: nat,
}

impl View for LexError {
    type V = LexErrorView;

    open spec fn view(&self) -> LexErrorView {
        LexErrorView { kind: self.kind, text: self.text@, line: self.line as nat }
    }
}

/// Whether the non-ASCII character `c` has the Unicode `Alphabetic`
/// property, as `char::is_alphabetic` decides it.
pub uninterp spec fn is_alphabetic_char(c: char) -> bool;

/// Whether `c` is alphabetic: among ASCII characters exactly the letters
/// `a`-`z` and `A`-`Z` are.
pub open spec fn is_alphabetic(c: char) -> bool {
    if c <= '\x7f' {
        ('a' <= c && c <= 'z') || ('A' <= c && c <= 'Z')
    } else {
        is_alphabetic_char(c)
    }
}

/// Relies on `char::is_alphabetic`: among ASCII characters exactly the letters
/// have the `Alphabetic` property; beyond ASCII the answer depends on the
/// character alone.
#[verifier::external_body]
fn alphabetic(c: char) -> (b: bool)
    ensures
        c <= '\x7f' ==> (b <==> ('a' <= c && c <= 'z') || ('A' <= c && c <= 'Z')),
        c > '\x7f' ==> b == is_alphabetic_char(c),
{
    c.is_alphabetic()
}

/// Relies on `String`'s `FromIterator<char>`: the string holds the characters
/// in their order.
#[verifier::external_body]
fn string_from_chars(chars: Vec<char>) -> (s: String)
    ensures
        s@ == chars@,
{
    chars.into_iter().collect()
}

/// The kind of a token that always spans exactly one character `c`, if `c`
/// begins such a token.
pub open spec fn single_char_kind(c: char) -> Option<JsonKind> {
    if c == ' ' {
        Some(JsonKind::Space)
    } else if c == '\n' {
        Some(JsonKind::LineFeed)
    } else if c == '\r' {
        Some(JsonKind::CarriageReturn)
    } else if c == '\t' {
        Some(JsonKind::HorizontalTab)
    } else if c == '{' {
        Some(JsonKind::BeginObject)
    } else if c == '}' {
        Some(JsonKind::EndObject)
    } else if c == '[' {
        Some(JsonKind::BeginArray)
    } else if c == ']' {
        Some(JsonKind::EndArray)
    } else if c == ':' {
        Some(JsonKind::NameSeperator)
    } else if c == ',' {
        Some(JsonKind::ValueSeperator)
    } else if c == '-' {
        Some(JsonKind::Minus)
    } else if c == '+' {
        Some(JsonKind::Plus)
    } else if c == 'E' || c == 'e' {
        Some(JsonKind::E)
    } else if c == '.' {
        Some(JsonKind::DecimalPoint)
    } else if c == '0' {
        Some(JsonKind::Zero)
    } else if '1' <= c && c <= '9' {
        Some(JsonKind::Digit)
    } else {
        None
    }
}

/// Scanning a string literal of `s` (which opens at index 0) from index `i`:
/// the index just past the closing quote, or the error and the index where the
/// offending text ends. A backslash escapes the character after it unless that
/// character is a line feed, so an escaped quote does not close the string.
pub open spec fn string_end(s: Seq<char>, i: nat) -> Result<nat, (LexErrorKind, nat)>
    decreases s.len() - i,
{
    if i >= s.len() {
        Err((LexErrorKind::NonterminatingString, s.len()))
    } else if s[i as int] == '"' {
        Ok(i + 1)
    } else if s[i as int] == '\n' {
        Err((LexErrorKind::MultilineString, i))
    } else if s[i as int] == '\\' && i + 1 < s.len() && s[i + 1int] != '\n' {
        string_end(s, i + 2)
    } else {
        string_end(s, i + 1)
    }
}

/// The end of the run of alphabetic characters of `s` that goes on from `i`.
pub open spec fn word_end(s: Seq<char>, i: nat) -> nat
    decreases s.len() - i,
{
    if i < s.len() && is_alphabetic(s[i as int]) {
        word_end(s, i + 1)
    } else {
        i
    }
}

/// The kind of a keyword, if `w` is one.
pub open spec fn keyword_kind(w: Seq<char>) -> Option<JsonKind> {
    if w == seq!['n', 'u', 'l', 'l'] {
        Some(JsonKind::Null)
    } else if w == seq!['t', 'r', 'u', 'e'] {
        Some(JsonKind::True)
    } else if w == seq!['f', 'a', 'l', 's', 'e'] {
        Some(JsonKind::False)
    } else {
        None
    }
}

/// The first token of the non-empty input `s`, which begins on `line`, or the
/// lexical error found there.
pub open spec fn next_lexeme(s: Seq<char>, line: nat) -> Result<TokenView, LexErrorView> {
    let c = s[0];
    match single_char_kind(c) {
        Some(k) => Ok(TokenView { kind: k, text: s.take(1), line }),
        None => if c == '"' {
            match string_end(s, 1) {
                Ok(n) => Ok(TokenView { kind: JsonKind::StringVal, text: s.take(n as int), line }),
                Err((k, n)) => Err(LexErrorView { kind: k, text: s.take(n as int), line }),
            }
        } else if is_alphabetic(c) {
            let w = s.take(word_end(s, 1) as int);
            match keyword_kind(w) {
                Some(k) => Ok(TokenView { kind: k, text: w, line }),
                None => Err(LexErrorView { kind: LexErrorKind::UnknownKeyword, text: w, line }),
            }
        } else {
            Err(LexErrorView { kind: LexErrorKind::UnexpectedChar, text: s.take(1), line })
        },
    }
}

/// The line on which the token after `t` begins.
pub open spec fn line_after(t: TokenView) -> nat {
    if t.kind == JsonKind::LineFeed {
        t.line + 1
    } else {
        t.line
    }
}

/// What a lexer yields from the input `s` when it starts on `line`: the tokens
/// in order, and the lexical error that ends them, if there is one.
pub struct Scan {
    pub tokens: Seq<TokenView>,
    pub fault: Option<LexErrorView>,
}

proof fn lemma_string_end_bounds(s: Seq<char>, i: nat)
    requires
        1 <= i,
    ensures
        string_end(s, i) is Ok ==> i < string_end(s, i)->Ok_0 <= s.len(),
        string_end(s, i) is Err ==> string_end(s, i)->Err_0.1 <= s.len(),
    decreases s.len() - i,
{
    if i < s.len() && s[i as int] != '"' && s[i as int] != '\n' {
        if s[i as int] == '\\' && i + 1 < s.len() && s[i + 1int] != '\n' {
            lemma_string_end_bounds(s, i + 2);
        } else {
            lemma_string_end_bounds(s, i + 1);
        }
    }
}

proof fn lemma_word_end_bounds(s: Seq<char>, i: nat)
    requires
        i <= s.len(),
    ensures
        i <= word_end(s, i) <= s.len(),
    decreases s.len() - i,
{
    if i < s.len() && is_alphabetic(s[i as int]) {
        lemma_word_end_bounds(s, i + 1);
    }
}

/// A token's text is a non-empty prefix of the input it was read from.
pub proof fn lemma_lexeme_is_prefix(s: Seq<char>, line: nat)
    requires
        s.len() > 0,
    ensures
        next_lexeme(s, line) is Ok ==> {
            let t = next_lexeme(s, line)->Ok_0;
            &&& 1 <= t.text.len() <= s.len()
            &&& t.text == s.take(t.text.len() as int)
            &&& t.line == line
        },
{
    lemma_string_end_bounds(s, 1);
    lemma_word_end_bounds(s, 1);
}

/// The tokens that a lexer reads from `s`, starting on `line`, up to the end of
/// the input or up to the first lexical error.
pub open spec fn scan(s: Seq<char>, line: nat) -> Scan
    decreases s.len(),
{
    if s.len() == 0 {
        Scan { tokens: Seq::empty(), fault: None }
    } else {
        match next_lexeme(s, line) {
            Ok(t) => {
                proof {
                    lemma_lexeme_is_prefix(s, line);
                }
                let rest = scan(s.skip(t.text.len() as int), line_after(t));
                Scan { tokens: seq![t] + rest.tokens, fault: rest.fault }
            },
            Err(e) => Scan { tokens: Seq::empty(), fault: Some(e) },
        }
    }
}

/// The texts of `ts`, one after another.
pub open spec fn concat_text(ts: Seq<TokenView>) -> Seq<char>
    decreases ts.len(),
{
    if ts.len() == 0 {
        Seq::empty()
    } else {
        ts[0].text + concat_text(ts.drop_first())
    }
}

/// Lossless tokenization: the texts of the tokens read from `s`, in order,
/// make up the part of `s` before the first lexical error, and all of `s`
/// where there is none.
pub proof fn lemma_scan_lossless(s: Seq<char>, line: nat)
    ensures
        concat_text(scan(s, line).tokens).len() <= s.len(),
        concat_text(scan(s, line).tokens) == s.take(concat_text(scan(s, line).tokens).len() as int),
        scan(s, line).fault is None ==> concat_text(scan(s, line).tokens) == s,
    decreases s.len(),
{
    if s.len() > 0 {
        lemma_lexeme_is_prefix(s, line);
        if let Ok(t) = next_lexeme(s, line) {
            let n = t.text.len() as int;
            let rest = s.skip(n);
            lemma_scan_lossless(rest, line_after(t));
            let sc = scan(s, line);
            assert(sc.tokens.drop_first() =~= scan(rest, line_after(t)).tokens);
            let tail = concat_text(scan(rest, line_after(t)).tokens);
            assert(concat_text(sc.tokens) == t.text + tail);
            assert forall|k: int| 0 <= k < n + tail.len() implies (t.text + tail)[k] == s[k] by {
                if k >= n {
                    assert(tail[k - n] == rest[k - n]);
                }
            }
            assert(t.text + tail =~= s.take(n + tail.len()));
            if sc.fault is None {
                assert(t.text + rest =~= s);
            }
        } else {
            assert(concat_text(scan(s, line).tokens) =~= s.take(0));
        }
    } else {
        assert(concat_text(scan(s, line).tokens) =~= s.take(0));
    }
}

/// The number of line feeds in `s`.
pub open spec fn count_lf(s: Seq<char>) -> nat
    decreases s.len(),
{
    if s.len() == 0 {
        0
    } else {
        (if s[0] == '\n' {
            1nat
        } else {
            0nat
        }) + count_lf(s.drop_first())
    }
}

proof fn lemma_count_lf_concat(a: Seq<char>, b: Seq<char>)
    ensures
        count_lf(a + b) == count_lf(a) + count_lf(b),
    decreases a.len(),
{
    if a.len() > 0 {
        assert((a + b).drop_first() =~= a.drop_first() + b);
        lemma_count_lf_concat(a.drop_first(), b);
    } else {
        assert(a + b =~= b);
    }
}

proof fn lemma_string_has_no_lf(s: Seq<char>, i: nat)
    requires
        1 <= i <= s.len(),
        forall|k: int| 1 <= k < i ==> s[k] != '\n',
        string_end(s, i) is Ok,
    ensures
        forall|k: int| 1 <= k < string_end(s, i)->Ok_0 ==> s[k] != '\n',
    decreases s.len() - i,
{
    if s[i as int] != '"' {
        if s[i as int] == '\\' && i + 1 < s.len() && s[i + 1int] != '\n' {
            lemma_string_has_no_lf(s, i + 2);
        } else {
            lemma_string_has_no_lf(s, i + 1);
        }
    }
}

/// A token's text holds a line feed only where the token is one.
proof fn lemma_token_lf(s: Seq<char>, line: nat)
    requires
        s.len() > 0,
        next_lexeme(s, line) is Ok,
    ensures
        count_lf(next_lexeme(s, line)->Ok_0.text) == if next_lexeme(s, line)->Ok_0.kind
            == JsonKind::LineFeed {
            1nat
        } else {
            0nat
        },
        line_after(next_lexeme(s, line)->Ok_0) == line + count_lf(next_lexeme(s, line)->Ok_0.text),
{
    let t = next_lexeme(s, line)->Ok_0;
    lemma_lexeme_is_prefix(s, line);
    if single_char_kind(s[0]) is Some {
        assert(t.text.drop_first() =~= Seq::<char>::empty());
        assert(count_lf(t.text) == count_lf(t.text.drop_first()) + if s[0] == '\n' {
            1nat
        } else {
            0nat
        });
    } else if s[0] == '"' {
        lemma_string_end_bounds(s, 1);
        lemma_string_has_no_lf(s, 1);
        assert forall|k: int| 0 <= k < t.text.len() implies t.text[k] != '\n' by {
            assert(t.text[k] == s[k]);
        }
        lemma_no_lf_count(t.text);
    } else {
        let w = t.text;
        assert(w.len() <= 5);
        assert forall|k: int| 0 <= k < w.len() implies w[k] != '\n' by {}
        lemma_no_lf_count(w);
    }
}

proof fn lemma_no_lf_count(s: Seq<char>)
    requires
        forall|k: int| 0 <= k < s.len() ==> s[k] != '\n',
    ensures
        count_lf(s) == 0,
    decreases s.len(),
{
    if s.len() > 0 {
        lemma_no_lf_count(s.drop_first());
    }
}

/// Line attribution: each token read from `s`, starting on `line`, reports
/// `line` plus the number of line feeds before it; so a line feed token
/// reports the line it ends, and the token after it the next one.
pub proof fn lemma_line_attribution(s: Seq<char>, line: nat)
    ensures
        forall|j: int|
            0 <= j < scan(s, line).tokens.len() ==> #[trigger] scan(s, line).tokens[j].line == line
                + count_lf(concat_text(scan(s, line).tokens.take(j))),
        forall|j: int|
            0 <= j < scan(s, line).tokens.len() && #[trigger] scan(s, line).tokens[j].kind
                == JsonKind::LineFeed ==> line + count_lf(concat_text(scan(s, line).tokens.take(j + 1)))
                == scan(s, line).tokens[j].line + 1,
    decreases s.len(),
{
    let ts = scan(s, line).tokens;
    if s.len() > 0 {
        lemma_lexeme_is_prefix(s, line);
        if let Ok(t) = next_lexeme(s, line) {
            let rest = s.skip(t.text.len() as int);
            let l2 = line_after(t);
            lemma_line_attribution(rest, l2);
            lemma_token_lf(s, line);
            let rs = scan(rest, l2).tokens;
            assert(ts == seq![t] + rs);
            assert forall|j: int| 0 <= j <= ts.len() implies count_lf(concat_text(ts.take(j)))
                == if j == 0 {
                0
            } else {
                count_lf(t.text) + count_lf(concat_text(rs.take(j - 1)))
            } by {
                if j > 0 {
                    assert(ts.take(j).drop_first() =~= rs.take(j - 1));
                    lemma_count_lf_concat(t.text, concat_text(rs.take(j - 1)));
                } else {
                    assert(ts.take(j) =~= Seq::<TokenView>::empty());
                }
            }
            assert forall|j: int| 0 <= j < ts.len() implies #[trigger] ts[j].line == line
                + count_lf(concat_text(ts.take(j))) by {
                if j > 0 {
                    assert(ts[j] == rs[j - 1]);
                }
            }
            assert forall|j: int|
                0 <= j < ts.len() && #[trigger] ts[j].kind == JsonKind::LineFeed implies line
                + count_lf(concat_text(ts.take(j + 1))) == ts[j].line + 1 by {
                if j > 0 {
                    assert(ts[j] == rs[j - 1]);
                }
            }
        }
    }
}


/// A whitespace character: space, tab, line feed or carriage return.
pub open spec fn is_blank(c: char) -> bool {
    c == ' ' || c == '\t' || c == '\n' || c == '\r'
}

/// The tokens of the whitespace characters `w`, starting on `line`.
pub open spec fn blank_tokens(w: Seq<char>, line: nat) -> Seq<TokenView>
    decreases w.len(),
{
    if w.len() == 0 {
        Seq::empty()
    } else {
        let t = TokenView { kind: single_char_kind(w[0])->Some_0, text: w.take(1), line };
        seq![t] + blank_tokens(w.drop_first(), line_after(t))
    }
}

/// `ts` with every line moved `m` lines down.
pub open spec fn shift_lines(ts: Seq<TokenView>, m: nat) -> Seq<TokenView> {
    ts.map_values(|t: TokenView| TokenView { kind: t.kind, text: t.text, line: t.line + m })
}

pub open spec fn shift_fault(f: Option<LexErrorView>, m: nat) -> Option<LexErrorView> {
    match f {
        Some(e) => Some(LexErrorView { kind: e.kind, text: e.text, line: e.line + m }),
        None => None,
    }
}

/// Starting `m` lines further down moves every token and the error `m` lines
/// down, and changes nothing else.
pub proof fn lemma_scan_shift(s: Seq<char>, line: nat, m: nat)
    ensures
        scan(s, line + m).tokens == shift_lines(scan(s, line).tokens, m),
        scan(s, line + m).fault == shift_fault(scan(s, line).fault, m),
    decreases s.len(),
{
    if s.len() > 0 {
        lemma_lexeme_is_prefix(s, line);
        lemma_lexeme_is_prefix(s, line + m);
        if let Ok(t) = next_lexeme(s, line) {
            let rest = s.skip(t.text.len() as int);
            lemma_scan_shift(rest, line_after(t), m);
            let t2 = next_lexeme(s, line + m)->Ok_0;
            assert(line_after(t2) == line_after(t) + m);
            assert(scan(s, line + m).tokens =~= shift_lines(scan(s, line).tokens, m));
        }
    } else {
        assert(scan(s, line + m).tokens =~= shift_lines(scan(s, line).tokens, m));
    }
}

/// Whitespace in front of a text is read as one token per character.
pub proof fn lemma_scan_blanks(w: Seq<char>, b: Seq<char>, line: nat)
    requires
        forall|k: int| 0 <= k < w.len() ==> is_blank(#[trigger] w[k]),
    ensures
        scan(w + b, line).tokens == blank_tokens(w, line) + scan(b, line + count_lf(w)).tokens,
        scan(w + b, line).fault == scan(b, line + count_lf(w)).fault,
    decreases w.len(),
{
    if w.len() == 0 {
        assert(w + b =~= b);
        assert(blank_tokens(w, line) + scan(b, line).tokens =~= scan(b, line).tokens);
    } else {
        let s = w + b;
        assert(s[0] == w[0]);
        assert(s.take(1) =~= w.take(1));
        let t = TokenView { kind: single_char_kind(w[0])->Some_0, text: w.take(1), line };
        assert(next_lexeme(s, line) == Ok::<TokenView, LexErrorView>(t));
        assert(s.skip(1) =~= w.drop_first() + b);
        lemma_scan_blanks(w.drop_first(), b, line_after(t));
        assert(count_lf(w) == count_lf(w.drop_first()) + if w[0] == '\n' {
            1nat
        } else {
            0nat
        });
        assert(scan(s, line).tokens =~= blank_tokens(w, line) + scan(b, line + count_lf(w)).tokens);
    }
}

/// After the first `k` tokens of `s`, the lexer reads the rest of `s` as the
/// remaining tokens, from the line those `k` tokens end on.
pub proof fn lemma_scan_skip(s: Seq<char>, line: nat, k: nat)
    requires
        k <= scan(s, line).tokens.len(),
    ensures
        ({
            let a = concat_text(scan(s, line).tokens.take(k as int));
            &&& a.len() <= s.len()
            &&& a == s.take(a.len() as int)
            &&& scan(s.skip(a.len() as int), line + count_lf(a)).tokens == scan(s, line).tokens.skip(
                k as int,
            )
            &&& scan(s.skip(a.len() as int), line + count_lf(a)).fault == scan(s, line).fault
        }),
    decreases k,
{
    let ts = scan(s, line).tokens;
    if k == 0 {
        assert(ts.take(0) =~= Seq::<TokenView>::empty());
        assert(s.skip(0) =~= s);
        assert(ts.skip(0) =~= ts);
        assert(s.take(0) =~= Seq::<char>::empty());
    } else {
        lemma_lexeme_is_prefix(s, line);
        let t = next_lexeme(s, line)->Ok_0;
        let n = t.text.len() as int;
        let rest = s.skip(n);
        let l2 = line_after(t);
        lemma_scan_skip(rest, l2, (k - 1) as nat);
        lemma_token_lf(s, line);
        let rs = scan(rest, l2).tokens;
        assert(ts.take(k as int).drop_first() =~= rs.take(k - 1));
        let a1 = concat_text(rs.take(k - 1));
        let a = concat_text(ts.take(k as int));
        assert(a == t.text + a1);
        lemma_count_lf_concat(t.text, a1);
        assert(rest.skip(a1.len() as int) =~= s.skip(a.len() as int));
        assert(rs.skip(k - 1) =~= ts.skip(k as int));
        assert forall|q: int| 0 <= q < a.len() implies a[q] == s[q] by {
            if q >= n {
                assert(a1[q - n] == rest[q - n]);
            }
        }
        assert(a =~= s.take(a.len() as int));
    }
}

proof fn lemma_word_end_stops(s: Seq<char>, i: nat)
    ensures
        word_end(s, i) < s.len() ==> !is_alphabetic(s[word_end(s, i) as int]),
    decreases s.len() - i,
{
    if i < s.len() && is_alphabetic(s[i as int]) {
        lemma_word_end_stops(s, i + 1);
    }
}

proof fn lemma_word_end_agree(u: Seq<char>, v: Seq<char>, i: nat)
    requires
        i <= word_end(u, i) <= v.len(),
        word_end(u, i) <= u.len(),
        forall|k: int| 0 <= k < word_end(u, i) ==> u[k] == v[k],
        word_end(u, i) == v.len() || !is_alphabetic(v[word_end(u, i) as int]),
    ensures
        word_end(v, i) == word_end(u, i),
    decreases u.len() - i,
{
    if i < u.len() && is_alphabetic(u[i as int]) {
        lemma_word_end_bounds(u, i + 1);
        lemma_word_end_agree(u, v, i + 1);
    }
}

proof fn lemma_string_end_agree(u: Seq<char>, v: Seq<char>, i: nat)
    requires
        1 <= i,
        string_end(u, i) is Ok,
        string_end(u, i)->Ok_0 <= v.len(),
        forall|k: int| 0 <= k < string_end(u, i)->Ok_0 ==> u[k] == v[k],
    ensures
        string_end(v, i) == string_end(u, i),
    decreases u.len() - i,
{
    lemma_string_end_bounds(u, i);
    if u[i as int] != '"' && u[i as int] != '\n' {
        if u[i as int] == '\\' && i + 1 < u.len() && u[i + 1int] != '\n' {
            lemma_string_end_bounds(u, i + 2);
            lemma_string_end_agree(u, v, i + 2);
        } else {
            lemma_string_end_bounds(u, i + 1);
            lemma_string_end_agree(u, v, i + 1);
        }
    }
}

/// The first token depends only on its own characters, and for a keyword on
/// the character after it not being a letter.
proof fn lemma_lexeme_agree(u: Seq<char>, v: Seq<char>, line: nat)
    requires
        u.len() > 0,
        next_lexeme(u, line) is Ok,
        next_lexeme(u, line)->Ok_0.text.len() <= v.len(),
        v.take(next_lexeme(u, line)->Ok_0.text.len() as int) == next_lexeme(u, line)->Ok_0.text,
        keyword_kind(next_lexeme(u, line)->Ok_0.text) is Some ==> (next_lexeme(u, line)->Ok_0.text.len()
            == v.len() || !is_alphabetic(v[next_lexeme(u, line)->Ok_0.text.len() as int])),
    ensures
        next_lexeme(v, line) == next_lexeme(u, line),
{
    let t = next_lexeme(u, line)->Ok_0;
    lemma_lexeme_is_prefix(u, line);
    let n = t.text.len() as int;
    assert forall|k: int| 0 <= k < n implies u[k] == v[k] by {
        assert(t.text[k] == u[k]);
        assert(v.take(n)[k] == v[k]);
    }
    assert(v[0] == u[0]);
    if single_char_kind(u[0]) is Some {
        assert(v.take(1) =~= u.take(1));
    } else if u[0] == '"' {
        lemma_string_end_bounds(u, 1);
        lemma_string_end_agree(u, v, 1);
        assert(v.take(n) =~= u.take(n));
    } else {
        lemma_word_end_bounds(u, 1);
        lemma_word_end_agree(u, v, 1);
        assert(v.take(n) =~= u.take(n));
    }
}

/// Reading a text that begins with the first `j` tokens of `s0`, followed by
/// something that does not begin with a letter, yields those tokens and then
/// whatever the rest yields.
pub proof fn lemma_scan_prefix(s0: Seq<char>, line: nat, j: nat, y: Seq<char>)
    requires
        j <= scan(s0, line).tokens.len(),
        y.len() == 0 || !is_alphabetic(y[0]),
    ensures
        ({
            let a = concat_text(scan(s0, line).tokens.take(j as int));
            &&& scan(a + y, line).tokens == scan(s0, line).tokens.take(j as int) + scan(
                y,
                line + count_lf(a),
            ).tokens
            &&& scan(a + y, line).fault == scan(y, line + count_lf(a)).fault
        }),
    decreases j,
{
    let ts = scan(s0, line).tokens;
    let a = concat_text(ts.take(j as int));
    if j == 0 {
        assert(ts.take(0) =~= Seq::<TokenView>::empty());
        assert(a + y =~= y);
        assert(ts.take(0) + scan(y, line).tokens =~= scan(y, line).tokens);
    } else {
        lemma_lexeme_is_prefix(s0, line);
        let t = next_lexeme(s0, line)->Ok_0;
        let n = t.text.len() as int;
        let s1 = s0.skip(n);
        let l2 = line_after(t);
        let rs = scan(s1, l2).tokens;
        assert(ts.take(j as int).drop_first() =~= rs.take(j - 1));
        let a1 = concat_text(rs.take(j - 1));
        assert(a == t.text + a1);
        let v = a + y;
        assert(v.take(n) =~= t.text);
        if keyword_kind(t.text) is Some && n < v.len() {
            if j == 1 {
                assert(rs.take(0) =~= Seq::<TokenView>::empty());
                assert(v[n] == y[0]);
            } else {
                lemma_scan_lossless(s1, l2);
                lemma_scan_skip(s1, l2, (j - 1) as nat);
                lemma_lexeme_is_prefix(s1, l2);
                assert(rs.take(j - 1)[0] == rs[0]);
                assert(a1.len() >= 1);
                assert(a1[0] == s1[0]);
                assert(v[n] == s0[n]);
                lemma_word_end_bounds(s0, 1);
                lemma_word_end_stops(s0, 1);
            }
        }
        lemma_lexeme_agree(s0, v, line);
        assert(v.skip(n) =~= a1 + y);
        lemma_scan_prefix(s1, l2, (j - 1) as nat, y);
        lemma_token_lf(s0, line);
        lemma_count_lf_concat(t.text, a1);
        assert(scan(v, line).tokens =~= ts.take(j as int) + scan(y, line + count_lf(a)).tokens);
    }
}

/// A lexer over a text: it reads one token per call, from left to right,
/// keeping the number of the line it is on.
pub struct TokenIter {
    chars: Vec<char>,
    pos: usize,
    curr_line: usize,
}

fn char_kind(c: char) -> (k: Option<JsonKind>)
    ensures
        k == single_char_kind(c),
{
    if c == ' ' {
        Some(JsonKind::Space)
    } else if c == '\n' {
        Some(JsonKind::LineFeed)
    } else if c == '\r' {
        Some(JsonKind::CarriageReturn)
    } else if c == '\t' {
        Some(JsonKind::HorizontalTab)
    } else if c == '{' {
        Some(JsonKind::BeginObject)
    } else if c == '}' {
        Some(JsonKind::EndObject)
    } else if c == '[' {
        Some(JsonKind::BeginArray)
    } else if c == ']' {
        Some(JsonKind::EndArray)
    } else if c == ':' {
        Some(JsonKind::NameSeperator)
    } else if c == ',' {
        Some(JsonKind::ValueSeperator)
    } else if c == '-' {
        Some(JsonKind::Minus)
    } else if c == '+' {
        Some(JsonKind::Plus)
    } else if c == 'E' || c == 'e' {
        Some(JsonKind::E)
    } else if c == '.' {
        Some(JsonKind::DecimalPoint)
    } else if c == '0' {
        Some(JsonKind::Zero)
    } else if '1' <= c && c <= '9' {
        Some(JsonKind::Digit)
    } else {
        None
    }
}

/// The keyword that `keyword` spells, if any.
fn check_keyword(keyword: &Vec<char>) -> (k: Option<JsonKind>)
    ensures
        k == keyword_kind(keyword@),
{
    let w = keyword;
    if w.len() == 4 && w[0] == 'n' && w[1] == 'u' && w[2] == 'l' && w[3] == 'l' {
        assert(w@ =~= seq!['n', 'u', 'l', 'l']);
        Some(JsonKind::Null)
    } else if w.len() == 4 && w[0] == 't' && w[1] == 'r' && w[2] == 'u' && w[3] == 'e' {
        assert(w@ =~= seq!['t', 'r', 'u', 'e']);
        Some(JsonKind::True)
    } else if w.len() == 5 && w[0] == 'f' && w[1] == 'a' && w[2] == 'l' && w[3] == 's' && w[4]
        == 'e' {
        assert(w@ =~= seq!['f', 'a', 'l', 's', 'e']);
        Some(JsonKind::False)
    } else {
        None
    }
}

impl TokenIter {
    /// The input that is still to be read.
    pub closed spec fn rest(&self) -> Seq<char> {
        self.chars@.skip(self.pos as int)
    }

    pub closed spec fn line(&self) -> nat {
        self.curr_line as nat
    }

    pub closed spec fn inv(&self) -> bool {
        &&& self.pos <= self.chars.len()
        &&& self.chars.len() < usize::MAX
        &&& 1 <= self.curr_line <= self.pos + 1
    }

    /// A lexer at the start of `contents`, on line 1.
    pub fn new(contents: &str) -> (it: TokenIter)
        requires
            contents@.len() < usize::MAX,
        ensures
            it.wf(),
            it.pending() == scan(contents@, 1).tokens,
            it.fault() == scan(contents@, 1).fault,
    {
        let mut chars: Vec<char> = Vec::new();
        for c in iter: contents.chars()
            invariant
                chars@ == iter.seq().take(iter.index() as int),
                iter.seq() == contents@,
        {
            chars.push(c);
        }
        assert(chars@ =~= contents@);
        TokenIter { chars, pos: 0, curr_line: 1 }
    }

    /// Reads the string literal that opens at the current position.
    fn lex_string(&mut self) -> (r: Result<Token, LexError>)
        requires
            old(self).inv(),
            old(self).rest().len() > 0,
            old(self).rest()[0] == '"',
        ensures
            match string_end(old(self).rest(), 1) {
                Ok(n) => {
                    &&& r is Ok
                    &&& r->Ok_0@ == (TokenView {
                        kind: JsonKind::StringVal,
                        text: old(self).rest().take(n as int),
                        line: old(self).line(),
                    })
                    &&& final(self).inv()
                    &&& final(self).rest() == old(self).rest().skip(n as int)
                    &&& final(self).line() == old(self).line()
                },
                Err((k, n)) => {
                    &&& r is Err
                    &&& r->Err_0@ == (LexErrorView {
                        kind: k,
                        text: old(self).rest().take(n as int),
                        line: old(self).line(),
                    })
                },
            },
    {
        let ghost rest = self.rest();
        let start = self.pos;
        let line = self.curr_line;
        let len = self.chars.len();
        let mut text: Vec<char> = Vec::new();
        text.push('"');
        let mut i: usize = start + 1;
        while i < len
            invariant
                self.inv(),
                self.pos == start,
                self.curr_line == line,
                len == self.chars.len(),
                rest == self.chars@.skip(start as int),
                rest == old(self).rest(),
                line as nat == old(self).line(),
                start < i <= len,
                text@ == self.chars@.subrange(start as int, i as int),
                string_end(rest, (i - start) as nat) == string_end(rest, 1),
            decreases len - i,
        {
            let c = self.chars[i];
            assert(rest[i - start] == c);
            if c == '"' {
                text.push(c);
                assert(string_end(rest, (i - start) as nat) == Ok::<nat, (LexErrorKind, nat)>(
                    (i + 1 - start) as nat,
                ));
                assert(text@ =~= rest.take((i + 1 - start) as int));
                self.pos = i + 1;
                assert(self.rest() =~= rest.skip((i + 1 - start) as int));
                return Ok(Token::new(JsonKind::StringVal, line, string_from_chars(text)));
            }
            if c == '\n' {
                assert(string_end(rest, (i - start) as nat) == Err::<nat, (LexErrorKind, nat)>(
                    (LexErrorKind::MultilineString, (i - start) as nat),
                ));
                assert(text@ =~= rest.take((i - start) as int));
                return Err(LexError {
                    kind: LexErrorKind::MultilineString,
                    text: string_from_chars(text),
                    line,
                });
            }
            if c == '\\' && i + 1 < len && self.chars[i + 1] != '\n' {
                assert(rest[i + 1 - start] == self.chars[i + 1]);
                text.push(c);
                text.push(self.chars[i + 1]);
                i = i + 2;
            } else {
                text.push(c);
                i = i + 1;
            }
            assert(text@ =~= self.chars@.subrange(start as int, i as int));
        }
        assert(text@ =~= rest.take(rest.len() as int));
        Err(LexError { kind: LexErrorKind::NonterminatingString, text: string_from_chars(text), line })
    }

    /// Reads the run of letters that begins at the current position and
    /// classifies it as a keyword.
    fn lex_word(&mut self) -> (r: Result<Token, LexError>)
        requires
            old(self).inv(),
            old(self).rest().len() > 0,
            is_alphabetic(old(self).rest()[0]),
        ensures
            ({
                let w = old(self).rest().take(word_end(old(self).rest(), 1) as int);
                match keyword_kind(w) {
                    Some(k) => {
                        &&& r is Ok
                        &&& r->Ok_0@ == (TokenView { kind: k, text: w, line: old(self).line() })
                        &&& final(self).inv()
                        &&& final(self).rest() == old(self).rest().skip(w.len() as int)
                        &&& final(self).line() == old(self).line()
                    },
                    None => {
                        &&& r is Err
                        &&& r->Err_0@ == (LexErrorView {
                            kind: LexErrorKind::UnknownKeyword,
                            text: w,
                            line: old(self).line(),
                        })
                    },
                }
            }),
    {
        let ghost rest = self.rest();
        let start = self.pos;
        let line = self.curr_line;
        let len = self.chars.len();
        let mut word: Vec<char> = Vec::new();
        word.push(self.chars[start]);
        let mut i: usize = start + 1;
        while i < len && alphabetic(self.chars[i])
            invariant
                self.inv(),
                self.pos == start,
                self.curr_line == line,
                len == self.chars.len(),
                rest == self.chars@.skip(start as int),
                rest == old(self).rest(),
                line as nat == old(self).line(),
                start < i <= len,
                word@ == self.chars@.subrange(start as int, i as int),
                word_end(rest, (i - start) as nat) == word_end(rest, 1),
            decreases len - i,
        {
            assert(rest[i - start] == self.chars[i as int]);
            word.push(self.chars[i]);
            i = i + 1;
            assert(word@ =~= self.chars@.subrange(start as int, i as int));
        }
        proof {
            if i < len {
                assert(rest[i - start] == self.chars[i as int]);
            }
        }
        assert(word@ =~= rest.take((i - start) as int));
        match check_keyword(&word) {
            Some(k) => {
                self.pos = i;
                assert(self.rest() =~= rest.skip((i - start) as int));
                Ok(Token::new(k, line, string_from_chars(word)))
            },
            None => Err(LexError {
                kind: LexErrorKind::UnknownKeyword,
                text: string_from_chars(word),
                line,
            }),
        }
    }
}

impl TokenSource for TokenIter {
    closed spec fn wf(&self) -> bool {
        self.inv()
    }

    closed spec fn pending(&self) -> Seq<TokenView> {
        scan(self.rest(), self.line()).tokens
    }

    closed spec fn fault(&self) -> Option<LexErrorView> {
        scan(self.rest(), self.line()).fault
    }

    fn next_token(&mut self) -> (r: Result<Option<Token>, LexError>) {
        if self.pos >= self.chars.len() {
            return Ok(None);
        }
        let ghost rest = self.rest();
        let c = self.chars[self.pos];
        let line = self.curr_line;
        proof {
            lemma_lexeme_is_prefix(rest, self.line());
            lemma_string_end_bounds(rest, 1);
            lemma_word_end_bounds(rest, 1);
            assert(rest[0] == c);
        }
        match char_kind(c) {
            Some(k) => {
                self.pos = self.pos + 1;
                if k == JsonKind::LineFeed {
                    self.curr_line = self.curr_line + 1;
                }
                assert(self.rest() =~= rest.skip(1));
                let mut text: Vec<char> = Vec::new();
                text.push(c);
                assert(text@ =~= rest.take(1));
                assert(scan(rest, line as nat).tokens.drop_first() =~= scan(
                    self.rest(),
                    self.line(),
                ).tokens);
                Ok(Some(Token::new(k, line, string_from_chars(text))))
            },
            None => {
                if c == '"' {
                    match self.lex_string() {
                        Ok(t) => {
                            assert(scan(rest, line as nat).tokens.drop_first() =~= scan(
                                self.rest(),
                                self.line(),
                            ).tokens);
                            Ok(Some(t))
                        },
                        Err(e) => Err(e),
                    }
                } else if alphabetic(c) {
                    match self.lex_word() {
                        Ok(t) => {
                            assert(scan(rest, line as nat).tokens.drop_first() =~= scan(
                                self.rest(),
                                self.line(),
                            ).tokens);
                            Ok(Some(t))
                        },
                        Err(e) => Err(e),
                    }
                } else {
                    let mut text: Vec<char> = Vec::new();
                    text.push(c);
                    assert(text@ =~= rest.take(1));
                    Err(LexError { kind: LexErrorKind::UnexpectedChar, text: string_from_chars(text), line })
                }
            },
        }
    }
}

} // verus!
