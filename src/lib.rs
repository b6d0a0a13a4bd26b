//! Splits text into runs of plain text and ANSI CSI sequences (`ESC [`, parameters,
//! intermediaries, one final character), and renders them back to the same text.
use vstd::prelude::*;

mod csi;
mod parser;
mod text;

pub use csi::{csi_of, render_csi, CsiView, CSI};
pub use parser::{
    csi_at, csi_lexeme, final_byte, in_range, intermediaries_end, intermediary, is_final, is_intermediary,
    is_parameter, lemma_lex_from_covers, lemma_lex_from_shift, lemma_lex_split_at_escape, lex,
    lex_from, lexeme_chars, lexemes_chars, parameter, parameters_end, range_span, text_span,
    text_with_csi, tokens_view, Lexeme, Token, ESC, FINAL_HI, FINAL_LO, INTERMEDIARY_HI,
    INTERMEDIARY_LO, PARAMETER_HI, PARAMETER_LO,
};

verus! {

/// A piece of parsed text: plain text, or a CSI sequence.
#[derive(Debug, PartialEq)]
pub enum Value {
    Text(String),
    CSI(CSI),
}

/// What a value holds.
pub enum ValueView {
    Text(Seq<char>),
    Csi(CsiView),
}

impl View for Value {
    type V = ValueView;

    open spec fn view(&self) -> ValueView {
        match self {
            Value::Text(t) => ValueView::Text(t@),
            Value::CSI(c) => ValueView::Csi(c@),
        }
    }
}

/// The scan could not account for the whole input. The scan is total, so this is never
/// returned; it is kept so that callers handle the result as a fallible one.
#[derive(Debug, PartialEq)]
pub enum ParseError {
    Incomplete,
}

/// The value of a lexeme.
pub open spec fn value_of(l: Lexeme) -> ValueView {
    match l {
        Lexeme::Text(t) => ValueView::Text(t),
        Lexeme::Csi(_, _, _) => ValueView::Csi(csi_of(l)),
    }
}

/// The values of a sequence of lexemes, in order.
pub open spec fn values_of(ls: Seq<Lexeme>) -> Seq<ValueView> {
    ls.map_values(|l: Lexeme| value_of(l))
}

/// The values of an input.
pub open spec fn parse(s: Seq<char>) -> Seq<ValueView> {
    values_of(lex(s))
}

/// What a sequence of values holds.
pub open spec fn values_view(vs: Seq<Value>) -> Seq<ValueView> {
    vs.map_values(|v: Value| v@)
}

/// The text of a value.
pub open spec fn render_value(v: ValueView) -> Seq<char> {
    match v {
        ValueView::Text(t) => t,
        ValueView::Csi(c) => render_csi(c),
    }
}

/// The text of a sequence of values, in order.
pub open spec fn render_values(vs: Seq<ValueView>) -> Seq<char>
    decreases vs.len(),
{
    if vs.len() == 0 {
        Seq::empty()
    } else {
        render_value(vs[0]) + render_values(vs.drop_first())
    }
}

proof fn lemma_render_values_of(ls: Seq<Lexeme>)
    ensures
        render_values(values_of(ls)) == lexemes_chars(ls),
    decreases ls.len(),
{
    if ls.len() > 0 {
        assert(values_of(ls).drop_first() =~= values_of(ls.drop_first()));
        lemma_render_values_of(ls.drop_first());
        assert(render_value(value_of(ls[0])) =~= lexeme_chars(ls[0]));
    }
}

proof fn lemma_values_of_add(x: Seq<Lexeme>, y: Seq<Lexeme>)
    ensures
        values_of(x + y) == values_of(x) + values_of(y),
{
    assert(values_of(x + y) =~= values_of(x) + values_of(y));
}

/// Where no CSI sequence starts at an escape, the values of what precedes it, the
/// escape alone, and the values of what follows it, make up the values of the whole.
proof fn lemma_escape_alone(a: Seq<char>, b: Seq<char>)
    requires
        !csi_at(a + seq![ESC] + b, a.len() as int),
    ensures
        parse(a + seq![ESC] + b) == parse(a) + seq![ValueView::Text(seq![ESC])] + parse(b),
{
    let s = a + seq![ESC] + b;
    let k = a.len() as int;
    lemma_lex_split_at_escape(a, b, 0);
    assert(s[k] == ESC);
    assert(lex_from(s, k) == seq![Lexeme::Text(seq![ESC])] + lex_from(s, k + 1));
    lemma_lex_from_shift(a + seq![ESC], b, 0);
    assert((a + seq![ESC]).len() + 0 == k + 1);
    assert(lex_from(s, k) == seq![Lexeme::Text(seq![ESC])] + lex(b));
    lemma_values_of_add(lex(a), lex_from(s, k));
    lemma_values_of_add(seq![Lexeme::Text(seq![ESC])], lex(b));
    assert(values_of(seq![Lexeme::Text(seq![ESC])]) =~= seq![ValueView::Text(seq![ESC])]);
    assert(parse(s) =~= parse(a) + seq![ValueView::Text(seq![ESC])] + parse(b));
}

/// Rendering the values of any input gives the input back.
pub proof fn law_render_parse(s: Seq<char>)
    ensures
        render_values(parse(s)) == s,
{
    lemma_lex_from_covers(s, 0);
    lemma_render_values_of(lex(s));
    assert(s.subrange(0, s.len() as int) =~= s);
}

/// Parsing the rendering of the values of an input gives the same values again.
pub proof fn law_parse_render_parse(s: Seq<char>)
    ensures
        parse(render_values(parse(s))) == parse(s),
{
    law_render_parse(s);
}

/// An escape that is not followed by `[` is a text value of its own, apart from the
/// text before and after it.
pub proof fn law_lone_escape(a: Seq<char>, b: Seq<char>)
    requires
        b.len() == 0 || b[0] != '[',
    ensures
        parse(a + seq![ESC] + b) == parse(a) + seq![ValueView::Text(seq![ESC])] + parse(b),
{
    let s = a + seq![ESC] + b;
    if b.len() > 0 {
        assert(s[a.len() + 1int] == b[0]);
    }
    lemma_escape_alone(a, b);
}

/// An introducer followed by a character that is neither a parameter, an intermediary
/// nor a final character starts no CSI sequence: the escape is a text value of its own,
/// and what follows it begins with text.
pub proof fn law_broken_introducer(a: Seq<char>, c: char, b: Seq<char>)
    requires
        !is_parameter(c),
        !is_intermediary(c),
        !is_final(c),
    ensures
        parse(a + seq![ESC, '[', c] + b) == parse(a) + seq![ValueView::Text(seq![ESC])] + parse(
            seq!['[', c] + b,
        ),
        parse(seq!['[', c] + b)[0] is Text,
{
    let t = seq!['[', c] + b;
    let s = a + seq![ESC] + t;
    let k = a.len() as int;
    assert(a + seq![ESC, '[', c] + b =~= s);
    assert(s[k + 1] == '[');
    assert(s[k + 2] == c);
    assert(range_span(s, k + 2, PARAMETER_LO, PARAMETER_HI) == 0);
    assert(parameters_end(s, k) == k + 2);
    assert(range_span(s, k + 2, INTERMEDIARY_LO, INTERMEDIARY_HI) == 0);
    assert(intermediaries_end(s, k) == k + 2);
    assert(!csi_at(s, k));
    lemma_escape_alone(a, t);
    assert(t[0] == '[');
    assert(!csi_at(t, 0));
    assert(lex(t)[0] is Text);
}

impl Value {
    /// The value of a token.
    pub fn from(token: Token) -> (r: Value)
        ensures
            r@ == value_of(token@),
    {
        match token {
            Token::CSI(_, _, _) => Value::CSI(CSI::from(token)),
            Token::Text(text) => Value::Text(text),
        }
    }

    /// The text of this value.
    pub fn to_string(&self) -> (r: String)
        ensures
            r@ == render_value(self@),
    {
        match self {
            Value::Text(t) => t.clone(),
            Value::CSI(c) => c.to_string(),
        }
    }
}

/// Parses a string into its values: runs of text, and CSI sequences.
pub fn parse_string(string: &str) -> (r: Result<Vec<Value>, ParseError>)
    ensures
        r matches Ok(values) && values_view(values@) == parse(string@),
{
    let mut tokens = text_with_csi(string);
    let ghost all = tokens@;
    let n = tokens.len();
    // Take the tokens from the back, then turn the reversed values around.
    let mut reversed: Vec<Value> = Vec::new();
    while tokens.len() > 0
        invariant
            n == all.len(),
            tokens.len() <= n,
            tokens@ == all.subrange(0, tokens.len() as int),
            reversed.len() == n - tokens.len(),
            forall|j: int|
                0 <= j < reversed.len() ==> #[trigger] reversed@[j]@ == value_of(
                    all[n - 1 - j]@,
                ),
        decreases tokens.len(),
    {
        let token = tokens.pop().unwrap();
        assert(token == all[tokens.len() as int]);
        reversed.push(Value::from(token));
        assert(tokens@ =~= all.subrange(0, tokens.len() as int));
    }
    let mut values: Vec<Value> = Vec::new();
    while reversed.len() > 0
        invariant
            n == all.len(),
            reversed.len() <= n,
            values.len() == n - reversed.len(),
            forall|j: int|
                0 <= j < reversed.len() ==> #[trigger] reversed@[j]@ == value_of(
                    all[n - 1 - j]@,
                ),
            forall|j: int| 0 <= j < values.len() ==> #[trigger] values@[j]@ == value_of(all[j]@),
        decreases reversed.len(),
    {
        let value = reversed.pop().unwrap();
        values.push(value);
    }
    assert(values_view(values@) =~= parse(string@));
    Ok(values)
}

/// The text of a sequence of values: each in turn, a CSI sequence with its introducer.
pub fn render(values: &Vec<Value>) -> (r: String)
    ensures
        r@ == render_values(values_view(values@)),
{
    let mut r = String::new();
    let ghost vs = values_view(values@);
    let mut k: usize = 0;
    assert(vs.subrange(0, vs.len() as int) =~= vs);
    assert(r@ + render_values(vs) =~= render_values(vs));
    while k < values.len()
        invariant
            k <= values.len(),
            vs == values_view(values@),
            r@ + render_values(vs.subrange(k as int, vs.len() as int)) == render_values(vs),
        decreases values.len() - k,
    {
        let piece = values[k].to_string();
        r.append(piece.as_str());
        proof {
            assert(vs.subrange(k as int, vs.len() as int).drop_first() =~= vs.subrange(
                k + 1,
                vs.len() as int,
            ));
        }
        k = k + 1;
    }
    assert(vs.subrange(vs.len() as int, vs.len() as int) =~= Seq::<ValueView>::empty());
    assert(r@ + Seq::<char>::empty() =~= r@);
    r
}

} // verus!
