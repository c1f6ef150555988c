use vstd::prelude::*;

use crate::grammar::{
    array, digit_run, document, element, elements, value, exponent, fraction, has_kind, integer,
    is_digit, is_whitespace, leading_zero, lemma_element_progress, lemma_run_bounds, member,
    members, number, object, verdict, ws_run,
};
use crate::lexer::LexErrorView;
use crate::token::{JsonKind, TokenView};

verus! {

/// The kinds of token that make up a number.
pub open spec fn number_part(k: JsonKind) -> bool {
    k == JsonKind::Minus || k == JsonKind::Plus || k == JsonKind::Digit || k == JsonKind::Zero || k
        == JsonKind::DecimalPoint || k == JsonKind::E
}

/// `ts` with `w` inserted before position `g`.
pub open spec fn insert_at(ts: Seq<TokenView>, g: nat, w: Seq<TokenView>) -> Seq<TokenView> {
    ts.take(g as int) + w + ts.skip(g as int)
}

/// One whitespace token `x` inserted between positions `g - 1` and `g` of
/// `ts`, where those two tokens are not both parts of a number.
spec fn safe_gap(ts: Seq<TokenView>, g: nat, x: TokenView) -> bool {
    &&& 0 < g < ts.len()
    &&& is_whitespace(x.kind)
    &&& !(number_part(ts[g - 1].kind) && number_part(ts[g as int].kind))
}

/// `a` and `b` hold tokens of the same kinds, position by position.
pub open spec fn same_kinds(a: Seq<TokenView>, b: Seq<TokenView>) -> bool {
    &&& a.len() == b.len()
    &&& forall|k: int| 0 <= k < a.len() ==> #[trigger] a[k].kind == b[k].kind
}

/// The position in the longer sequence of the token at `i`.
spec fn shifted(g: nat, i: nat) -> nat {
    if i < g {
        i
    } else {
        i + 1
    }
}

/// Position `s` of the longer sequence stands for position `i` of `ts`: it is
/// the same token, or, for `i == g`, the inserted one just before it.
spec fn corresponds(g: nat, i: nat, s: nat) -> bool {
    s == shifted(g, i) || (i == g && s == g)
}

/// As `corresponds`, where inside a number the inserted token may only be
/// reached right after a part of that number.
spec fn in_number(ts: Seq<TokenView>, g: nat, i: nat, s: nat) -> bool {
    &&& corresponds(g, i, s)
    &&& s == g ==> number_part(ts[g - 1].kind)
}

proof fn lemma_kinds(ts: Seq<TokenView>, g: nat, x: TokenView, t2: Seq<TokenView>, i: nat, s: nat)
    requires
        safe_gap(ts, g, x),
        same_kinds(t2, insert_at(ts, g, seq![x])),
        corresponds(g, i, s),
    ensures
        s == shifted(g, i) ==> forall|k: JsonKind|
            #[trigger] has_kind(t2, s, k) == has_kind(ts, i, k),
        s == shifted(g, i) ==> corresponds(g, i + 1, s + 1),
        s != shifted(g, i) ==> s == g && forall|k: JsonKind|
            #[trigger] has_kind(t2, s, k) == (k == x.kind),
{
    let t3 = insert_at(ts, g, seq![x]);
    assert(t2.len() == ts.len() + 1);
    if s == shifted(g, i) {
        if i < ts.len() {
            assert(t2[s as int].kind == t3[s as int].kind);
            if i < g {
                assert(t3[s as int] == ts[i as int]);
            } else {
                assert(t3[s as int] == ts.skip(g as int)[i - g]);
            }
        }
    } else {
        assert(t2[g as int].kind == t3[g as int].kind);
        assert(t3[g as int] == x);
    }
}

proof fn lemma_ws_run(ts: Seq<TokenView>, g: nat, x: TokenView, t2: Seq<TokenView>, i: nat, s: nat)
    requires
        safe_gap(ts, g, x),
        same_kinds(t2, insert_at(ts, g, seq![x])),
        corresponds(g, i, s),
    ensures
        s + ws_run(t2, s) == shifted(g, i + ws_run(ts, i)),
    decreases ts.len() + 1 - s,
{
    lemma_kinds(ts, g, x, t2, i, s);
    if s != shifted(g, i) {
        assert(has_kind(t2, s, x.kind));
        lemma_ws_run(ts, g, x, t2, i, s + 1);
    } else if i < ts.len() && is_whitespace(ts[i as int].kind) {
        assert(has_kind(ts, i, ts[i as int].kind));
        assert(has_kind(t2, s, ts[i as int].kind));
        lemma_ws_run(ts, g, x, t2, i + 1, s + 1);
    } else {
        if s < t2.len() {
            assert(has_kind(t2, s, t2[s as int].kind));
        }
    }
}

proof fn lemma_digit_run(ts: Seq<TokenView>, g: nat, x: TokenView, t2: Seq<TokenView>, i: nat, s: nat)
    requires
        safe_gap(ts, g, x),
        same_kinds(t2, insert_at(ts, g, seq![x])),
        in_number(ts, g, i, s),
    ensures
        in_number(ts, g, i + digit_run(ts, i), s + digit_run(t2, s)),
    decreases ts.len() + 1 - s,
{
    lemma_kinds(ts, g, x, t2, i, s);
    if s != shifted(g, i) {
        assert(has_kind(t2, s, x.kind));
        assert(has_kind(ts, g, ts[g as int].kind));
    } else if i < ts.len() && is_digit(ts[i as int].kind) {
        assert(has_kind(ts, i, ts[i as int].kind));
        assert(has_kind(t2, s, ts[i as int].kind));
        lemma_digit_run(ts, g, x, t2, i + 1, s + 1);
    } else {
        if s < t2.len() {
            assert(has_kind(t2, s, t2[s as int].kind));
        }
    }
}

proof fn lemma_integer(ts: Seq<TokenView>, g: nat, x: TokenView, t2: Seq<TokenView>, i: nat, s: nat)
    requires
        safe_gap(ts, g, x),
        same_kinds(t2, insert_at(ts, g, seq![x])),
        in_number(ts, g, i, s),
    ensures
        integer(ts, i) is Err ==> integer(t2, s) is Err,
        integer(ts, i) is Ok ==> integer(t2, s) is Ok && in_number(
            ts,
            g,
            i + integer(ts, i)->Ok_0,
            s + integer(t2, s)->Ok_0,
        ),
{
    lemma_kinds(ts, g, x, t2, i, s);
    if s == shifted(g, i) {
        lemma_kinds(ts, g, x, t2, i + 1, s + 1);
        if s + 1 == shifted(g, i + 1) {
            lemma_kinds(ts, g, x, t2, i + 2, s + 2);
            if has_kind(ts, i, JsonKind::Minus) && !leading_zero(ts, i + 1) && (has_kind(
                ts,
                i + 1,
                JsonKind::Digit,
            ) || has_kind(ts, i + 1, JsonKind::Zero)) {
                lemma_digit_run(ts, g, x, t2, i + 2, s + 2);
            }
        }
        if !has_kind(ts, i, JsonKind::Minus) {
            lemma_digit_run(ts, g, x, t2, i, s);
        }
    } else {
        lemma_digit_run(ts, g, x, t2, i, s);
    }
}

proof fn lemma_fraction(ts: Seq<TokenView>, g: nat, x: TokenView, t2: Seq<TokenView>, i: nat, s: nat)
    requires
        safe_gap(ts, g, x),
        same_kinds(t2, insert_at(ts, g, seq![x])),
        in_number(ts, g, i, s),
    ensures
        in_number(ts, g, i + fraction(ts, i), s + fraction(t2, s)),
{
    lemma_kinds(ts, g, x, t2, i, s);
    if s == shifted(g, i) {
        lemma_kinds(ts, g, x, t2, i + 1, s + 1);
        if has_kind(ts, i, JsonKind::DecimalPoint) {
            lemma_digit_run(ts, g, x, t2, i + 1, s + 1);
        }
    }
}

proof fn lemma_exponent(ts: Seq<TokenView>, g: nat, x: TokenView, t2: Seq<TokenView>, i: nat, s: nat)
    requires
        safe_gap(ts, g, x),
        same_kinds(t2, insert_at(ts, g, seq![x])),
        in_number(ts, g, i, s),
    ensures
        in_number(ts, g, i + exponent(ts, i), s + exponent(t2, s)),
{
    lemma_kinds(ts, g, x, t2, i, s);
    if s == shifted(g, i) {
        lemma_kinds(ts, g, x, t2, i + 1, s + 1);
        if s + 1 == shifted(g, i + 1) {
            lemma_kinds(ts, g, x, t2, i + 2, s + 2);
        }
    }
}

proof fn lemma_number(ts: Seq<TokenView>, g: nat, x: TokenView, t2: Seq<TokenView>, i: nat, s: nat)
    requires
        safe_gap(ts, g, x),
        same_kinds(t2, insert_at(ts, g, seq![x])),
        in_number(ts, g, i, s),
    ensures
        number(ts, i) is Err ==> number(t2, s) is Err,
        number(ts, i) is Ok ==> number(t2, s) is Ok && corresponds(
            g,
            i + number(ts, i)->Ok_0,
            s + number(t2, s)->Ok_0,
        ),
{
    lemma_integer(ts, g, x, t2, i, s);
    if let Ok(a) = integer(ts, i) {
        let a2 = integer(t2, s)->Ok_0;
        lemma_fraction(ts, g, x, t2, i + a, s + a2);
        let b = fraction(ts, i + a);
        let b2 = fraction(t2, s + a2);
        lemma_exponent(ts, g, x, t2, i + a + b, s + a2 + b2);
    }
}

proof fn lemma_element(ts: Seq<TokenView>, g: nat, x: TokenView, t2: Seq<TokenView>, i: nat, s: nat)
    requires
        safe_gap(ts, g, x),
        same_kinds(t2, insert_at(ts, g, seq![x])),
        corresponds(g, i, s),
    ensures
        element(ts, i) is Err ==> element(t2, s) is Err,
        element(ts, i) is Ok ==> element(t2, s) is Ok && s + element(
            t2,
            s,
        )->Ok_0 == shifted(g, i + element(ts, i)->Ok_0),
    decreases ts.len() - i, 1nat,
{
    lemma_ws_run(ts, g, x, t2, i, s);
    lemma_run_bounds(ts, i);
    let j = i + ws_run(ts, i);
    let j2 = s + ws_run(t2, s);
    lemma_value(ts, g, x, t2, j, j2);
    if let Ok(v) = value(ts, j) {
        let v2 = value(t2, j2)->Ok_0;
        lemma_ws_run(ts, g, x, t2, j + v, j2 + v2);
    }
}

proof fn lemma_value(ts: Seq<TokenView>, g: nat, x: TokenView, t2: Seq<TokenView>, i: nat, s: nat)
    requires
        safe_gap(ts, g, x),
        same_kinds(t2, insert_at(ts, g, seq![x])),
        s == shifted(g, i),
    ensures
        value(ts, i) is Err ==> value(t2, s) is Err,
        value(ts, i) is Ok ==> value(t2, s) is Ok && corresponds(
            g,
            i + value(ts, i)->Ok_0,
            s + value(t2, s)->Ok_0,
        ),
    decreases ts.len() - i, 0nat,
{
    lemma_kinds(ts, g, x, t2, i, s);
    if has_kind(ts, i, JsonKind::BeginObject) {
        lemma_object(ts, g, x, t2, i + 1, s + 1);
    } else if has_kind(ts, i, JsonKind::BeginArray) {
        lemma_array(ts, g, x, t2, i + 1, s + 1);
    } else if has_kind(ts, i, JsonKind::Minus) || has_kind(ts, i, JsonKind::Digit) || has_kind(
        ts,
        i,
        JsonKind::Zero,
    ) {
        lemma_number(ts, g, x, t2, i, s);
    }
}

proof fn lemma_object(ts: Seq<TokenView>, g: nat, x: TokenView, t2: Seq<TokenView>, i: nat, s: nat)
    requires
        safe_gap(ts, g, x),
        same_kinds(t2, insert_at(ts, g, seq![x])),
        corresponds(g, i, s),
    ensures
        object(ts, i) is Err ==> object(t2, s) is Err,
        object(ts, i) is Ok ==> object(t2, s) is Ok && corresponds(
            g,
            i + object(ts, i)->Ok_0,
            s + object(t2, s)->Ok_0,
        ),
    decreases ts.len() - i, 2nat,
{
    lemma_ws_run(ts, g, x, t2, i, s);
    lemma_run_bounds(ts, i);
    let j = i + ws_run(ts, i);
    let j2 = s + ws_run(t2, s);
    lemma_kinds(ts, g, x, t2, j, j2);
    if !has_kind(ts, j, JsonKind::EndObject) {
        lemma_members(ts, g, x, t2, j, j2);
        if let Ok(m) = members(ts, j) {
            let m2 = members(t2, j2)->Ok_0;
            lemma_kinds(ts, g, x, t2, j + m, j2 + m2);
        }
    }
}

proof fn lemma_members(ts: Seq<TokenView>, g: nat, x: TokenView, t2: Seq<TokenView>, i: nat, s: nat)
    requires
        safe_gap(ts, g, x),
        same_kinds(t2, insert_at(ts, g, seq![x])),
        corresponds(g, i, s),
    ensures
        members(ts, i) is Err ==> members(t2, s) is Err,
        members(ts, i) is Ok ==> members(t2, s) is Ok && s + members(
            t2,
            s,
        )->Ok_0 == shifted(g, i + members(ts, i)->Ok_0),
    decreases ts.len() - i, 1nat,
{
    lemma_member(ts, g, x, t2, i, s);
    if let Ok(m) = member(ts, i) {
        let m2 = member(t2, s)->Ok_0;
        lemma_kinds(ts, g, x, t2, i + m, s + m2);
        if has_kind(ts, i + m, JsonKind::ValueSeperator) {
            lemma_members(ts, g, x, t2, i + m + 1, s + m2 + 1);
        }
    }
}

proof fn lemma_member(ts: Seq<TokenView>, g: nat, x: TokenView, t2: Seq<TokenView>, i: nat, s: nat)
    requires
        safe_gap(ts, g, x),
        same_kinds(t2, insert_at(ts, g, seq![x])),
        corresponds(g, i, s),
    ensures
        member(ts, i) is Err ==> member(t2, s) is Err,
        member(ts, i) is Ok ==> member(t2, s) is Ok && s + member(
            t2,
            s,
        )->Ok_0 == shifted(g, i + member(ts, i)->Ok_0),
    decreases ts.len() - i, 0nat,
{
    lemma_ws_run(ts, g, x, t2, i, s);
    let k = i + ws_run(ts, i);
    let k2 = s + ws_run(t2, s);
    lemma_kinds(ts, g, x, t2, k, k2);
    if has_kind(ts, k, JsonKind::StringVal) {
        lemma_ws_run(ts, g, x, t2, k + 1, k2 + 1);
        let c = k + 1 + ws_run(ts, k + 1);
        let c2 = k2 + 1 + ws_run(t2, k2 + 1);
        lemma_kinds(ts, g, x, t2, c, c2);
        if has_kind(ts, c, JsonKind::NameSeperator) {
            lemma_element(ts, g, x, t2, c + 1, c2 + 1);
        }
    }
}

proof fn lemma_array(ts: Seq<TokenView>, g: nat, x: TokenView, t2: Seq<TokenView>, i: nat, s: nat)
    requires
        safe_gap(ts, g, x),
        same_kinds(t2, insert_at(ts, g, seq![x])),
        corresponds(g, i, s),
    ensures
        array(ts, i) is Err ==> array(t2, s) is Err,
        array(ts, i) is Ok ==> array(t2, s) is Ok && corresponds(
            g,
            i + array(ts, i)->Ok_0,
            s + array(t2, s)->Ok_0,
        ),
    decreases ts.len() - i, 3nat,
{
    lemma_ws_run(ts, g, x, t2, i, s);
    lemma_run_bounds(ts, i);
    let j = i + ws_run(ts, i);
    let j2 = s + ws_run(t2, s);
    lemma_kinds(ts, g, x, t2, j, j2);
    if !has_kind(ts, j, JsonKind::EndArray) {
        lemma_elements(ts, g, x, t2, j, j2);
        if let Ok(m) = elements(ts, j) {
            let m2 = elements(t2, j2)->Ok_0;
            lemma_kinds(ts, g, x, t2, j + m, j2 + m2);
        }
    }
}

proof fn lemma_elements(ts: Seq<TokenView>, g: nat, x: TokenView, t2: Seq<TokenView>, i: nat, s: nat)
    requires
        safe_gap(ts, g, x),
        same_kinds(t2, insert_at(ts, g, seq![x])),
        corresponds(g, i, s),
    ensures
        elements(ts, i) is Err ==> elements(t2, s) is Err,
        elements(ts, i) is Ok ==> elements(t2, s) is Ok && s + elements(
            t2,
            s,
        )->Ok_0 == shifted(g, i + elements(ts, i)->Ok_0),
    decreases ts.len() - i, 2nat,
{
    lemma_element(ts, g, x, t2, i, s);
    if let Ok(e) = element(ts, i) {
        let e2 = element(t2, s)->Ok_0;
        lemma_kinds(ts, g, x, t2, i + e, s + e2);
        if has_kind(ts, i + e, JsonKind::ValueSeperator) {
            lemma_elements(ts, g, x, t2, i + e + 1, s + e2 + 1);
        }
    }
}

proof fn lemma_document(ts: Seq<TokenView>, g: nat, x: TokenView, t2: Seq<TokenView>, i: nat, s: nat)
    requires
        safe_gap(ts, g, x),
        same_kinds(t2, insert_at(ts, g, seq![x])),
        corresponds(g, i, s),
    ensures
        document(ts, i) is Ok <==> document(t2, s) is Ok,
    decreases if i < ts.len() {
        ts.len() - i
    } else {
        0
    },
{
    if i < ts.len() {
        lemma_element(ts, g, x, t2, i, s);
        lemma_element_progress(ts, i);
        if let Ok(c) = element(ts, i) {
            let c2 = element(t2, s)->Ok_0;
            lemma_document(ts, g, x, t2, i + c, s + c2);
        }
    }
}

/// Whitespace between tokens: inserting a run of whitespace tokens `w` between
/// positions `g - 1` and `g` of a token stream `ts` does not change whether the
/// stream is accepted, where those two tokens are not both parts of one
/// number (there the whitespace splits the number). Only the kinds of the
/// tokens matter, so `t2` may differ from the inserted stream in its lines and
/// texts.
pub proof fn lemma_whitespace_insertion(
    ts: Seq<TokenView>,
    g: nat,
    w: Seq<TokenView>,
    t2: Seq<TokenView>,
    fault: Option<LexErrorView>,
)
    requires
        0 < g < ts.len(),
        !(number_part(ts[g - 1].kind) && number_part(ts[g as int].kind)),
        w.len() > 0,
        forall|k: int| 0 <= k < w.len() ==> is_whitespace(#[trigger] w[k].kind),
        same_kinds(t2, insert_at(ts, g, w)),
    ensures
        verdict(ts, fault) is Ok <==> verdict(t2, fault) is Ok,
    decreases w.len(),
{
    let w1 = w.drop_last();
    let x = w.last();
    let t1 = insert_at(ts, g, w1);
    if w1.len() > 0 {
        lemma_whitespace_insertion(ts, g, w1, t1, fault);
    } else {
        assert(t1 =~= ts);
    }
    let g1 = g + w1.len();
    assert(t1.take(g1 as int) =~= ts.take(g as int) + w1);
    assert(t1.skip(g1 as int) =~= ts.skip(g as int));
    assert(insert_at(t1, g1, seq![x]) =~= insert_at(ts, g, w));
    assert(t1[g1 as int] == ts[g as int]);
    if w1.len() > 0 {
        assert(t1[g1 - 1] == w1[w1.len() - 1]);
    } else {
        assert(t1[g1 - 1] == ts[g - 1]);
    }
    lemma_document(t1, g1, x, t2, 0, 0);
}

} // verus!
