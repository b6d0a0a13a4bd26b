use vstd::prelude::*;

use crate::text::{chars_of, push_char};

verus! {

/// The escape character, first of the two-character CSI introducer.
pub const ESC: char = '\x1b';

/// Lowest and highest parameter character.
pub const PARAMETER_LO: u32 = 0x30;
pub const PARAMETER_HI: u32 = 0x3f;

/// Lowest and highest intermediary character.
pub const INTERMEDIARY_LO: u32 = 0x20;
pub const INTERMEDIARY_HI: u32 = 0x2f;

/// Lowest and highest final character.
pub const FINAL_LO: u32 = 0x40;
pub const FINAL_HI: u32 = 0x7e;

/// `c` lies in `lo..=hi`.
pub open spec fn in_range(c: char, lo: u32, hi: u32) -> bool {
    lo <= c as u32 <= hi
}

/// Parameter characters: digits, `:`, `;`, `<`, `=`, `>`, `?`.
pub open spec fn is_parameter(c: char) -> bool {
    in_range(c, PARAMETER_LO, PARAMETER_HI)
}

/// Intermediary characters: space and `!` to `/`.
pub open spec fn is_intermediary(c: char) -> bool {
    in_range(c, INTERMEDIARY_LO, INTERMEDIARY_HI)
}

/// Final characters: `@` to `~`.
pub open spec fn is_final(c: char) -> bool {
    in_range(c, FINAL_LO, FINAL_HI)
}

/// Number of consecutive characters of `s`, from position `i` on, that lie in `lo..=hi`.
pub open spec fn range_span(s: Seq<char>, i: int, lo: u32, hi: u32) -> nat
    decreases s.len() - i,
{
    if 0 <= i < s.len() && in_range(s[i], lo, hi) {
        1 + range_span(s, i + 1, lo, hi)
    } else {
        0
    }
}

/// Number of consecutive characters of `s`, from position `i` on, that are not the escape.
pub open spec fn text_span(s: Seq<char>, i: int) -> nat
    decreases s.len() - i,
{
    if 0 <= i < s.len() && s[i] != ESC {
        1 + text_span(s, i + 1)
    } else {
        0
    }
}

/// End of the parameters of a CSI attempt whose introducer stands at `i`.
pub open spec fn parameters_end(s: Seq<char>, i: int) -> int {
    i + 2 + range_span(s, i + 2, PARAMETER_LO, PARAMETER_HI)
}

/// End of the intermediaries of a CSI attempt whose introducer stands at `i`:
/// the position where its final character must stand.
pub open spec fn intermediaries_end(s: Seq<char>, i: int) -> int {
    parameters_end(s, i) + range_span(s, parameters_end(s, i), INTERMEDIARY_LO, INTERMEDIARY_HI)
}

/// A complete CSI sequence starts at position `i` of `s`: the introducer, parameters,
/// then intermediaries, then one final character.
pub open spec fn csi_at(s: Seq<char>, i: int) -> bool {
    &&& 0 <= i
    &&& i + 1 < s.len()
    &&& s[i] == ESC
    &&& s[i + 1] == '['
    &&& intermediaries_end(s, i) < s.len()
    &&& is_final(s[intermediaries_end(s, i)])
}

/// What a token stands for: a run of text, or the three parts of a CSI sequence.
pub enum Lexeme {
    Text(Seq<char>),
    Csi(Seq<char>, Seq<char>, char),
}

/// The parts of the CSI sequence that starts at `i`.
pub open spec fn csi_lexeme(s: Seq<char>, i: int) -> Lexeme {
    Lexeme::Csi(
        s.subrange(i + 2, parameters_end(s, i)),
        s.subrange(parameters_end(s, i), intermediaries_end(s, i)),
        s[intermediaries_end(s, i)],
    )
}

/// The characters that a lexeme covers in the input.
pub open spec fn lexeme_chars(l: Lexeme) -> Seq<char> {
    match l {
        Lexeme::Text(t) => t,
        Lexeme::Csi(p, m, f) => seq![ESC, '['] + p + m + seq![f],
    }
}

/// The tokens of `s` from position `i` on. At each position, in this order: a complete
/// CSI sequence; else a lone escape as text of its own; else the longest run of text
/// without an escape.
pub open spec fn lex_from(s: Seq<char>, i: int) -> Seq<Lexeme>
    decreases s.len() - i,
    via lex_from_decreases
{
    if i < 0 || i >= s.len() {
        Seq::empty()
    } else if csi_at(s, i) {
        seq![csi_lexeme(s, i)] + lex_from(s, intermediaries_end(s, i) + 1)
    } else if s[i] == ESC {
        seq![Lexeme::Text(seq![ESC])] + lex_from(s, i + 1)
    } else {
        // the character at `i` is not an escape, so the run is at least one long
        let t = i + 1 + text_span(s, i + 1);
        seq![Lexeme::Text(s.subrange(i, t))] + lex_from(s, t)
    }
}

#[via_fn]
proof fn lex_from_decreases(s: Seq<char>, i: int) {
    if 0 <= i < s.len() && !csi_at(s, i) && s[i] != ESC {
        lemma_text_span_bound(s, i + 1);
    }
}

proof fn lemma_lexemes_chars_cons(x: Lexeme, rest: Seq<Lexeme>)
    ensures
        lexemes_chars(seq![x] + rest) == lexeme_chars(x) + lexemes_chars(rest),
{
    assert((seq![x] + rest).drop_first() =~= rest);
    assert((seq![x] + rest)[0] == x);
}

/// The tokens of `s` from position `i` on cover the rest of `s` exactly, in order.
pub proof fn lemma_lex_from_covers(s: Seq<char>, i: int)
    requires
        0 <= i <= s.len(),
    ensures
        lexemes_chars(lex_from(s, i)) == s.subrange(i, s.len() as int),
    decreases s.len() - i,
{
    if i == s.len() {
        assert(s.subrange(i, s.len() as int) =~= Seq::<char>::empty());
    } else if csi_at(s, i) {
        let p = parameters_end(s, i);
        let m = intermediaries_end(s, i);
        lemma_range_span_bound(s, i + 2, PARAMETER_LO, PARAMETER_HI);
        lemma_range_span_bound(s, p, INTERMEDIARY_LO, INTERMEDIARY_HI);
        lemma_lex_from_covers(s, m + 1);
        lemma_lexemes_chars_cons(csi_lexeme(s, i), lex_from(s, m + 1));
        assert(lexeme_chars(csi_lexeme(s, i)) =~= s.subrange(i, m + 1));
        assert(s.subrange(i, m + 1) + s.subrange(m + 1, s.len() as int) =~= s.subrange(
            i,
            s.len() as int,
        ));
    } else if s[i] == ESC {
        lemma_lex_from_covers(s, i + 1);
        lemma_lexemes_chars_cons(Lexeme::Text(seq![ESC]), lex_from(s, i + 1));
        assert(seq![ESC] + s.subrange(i + 1, s.len() as int) =~= s.subrange(i, s.len() as int));
    } else {
        lemma_text_span_bound(s, i + 1);
        let t = i + 1 + text_span(s, i + 1);
        lemma_lex_from_covers(s, t);
        lemma_lexemes_chars_cons(Lexeme::Text(s.subrange(i, t)), lex_from(s, t));
        assert(s.subrange(i, t) + s.subrange(t, s.len() as int) =~= s.subrange(
            i,
            s.len() as int,
        ));
    }
}

proof fn lemma_range_span_shift(p: Seq<char>, t: Seq<char>, j: int, lo: u32, hi: u32)
    requires
        0 <= j,
    ensures
        range_span(p + t, p.len() + j, lo, hi) == range_span(t, j, lo, hi),
    decreases t.len() - j,
{
    if j < t.len() {
        assert((p + t)[p.len() + j] == t[j]);
        lemma_range_span_shift(p, t, j + 1, lo, hi);
    }
}

proof fn lemma_text_span_shift(p: Seq<char>, t: Seq<char>, j: int)
    requires
        0 <= j,
    ensures
        text_span(p + t, p.len() + j) == text_span(t, j),
    decreases t.len() - j,
{
    if j < t.len() {
        assert((p + t)[p.len() + j] == t[j]);
        lemma_text_span_shift(p, t, j + 1);
    }
}

/// Tokens do not depend on what precedes them once a token boundary is reached:
/// scanning `p + t` from where `t` starts gives the tokens of `t`.
pub proof fn lemma_lex_from_shift(p: Seq<char>, t: Seq<char>, j: int)
    requires
        0 <= j <= t.len(),
    ensures
        lex_from(p + t, p.len() + j) == lex_from(t, j),
    decreases t.len() - j,
{
    let s = p + t;
    let k = p.len() + j;
    if j < t.len() {
        assert(s[k] == t[j]);
        if j + 1 < t.len() {
            assert(s[k + 1] == t[j + 1]);
        }
        lemma_range_span_shift(p, t, j + 2, PARAMETER_LO, PARAMETER_HI);
        assert(parameters_end(s, k) == p.len() + parameters_end(t, j));
        lemma_range_span_shift(p, t, parameters_end(t, j), INTERMEDIARY_LO, INTERMEDIARY_HI);
        assert(intermediaries_end(s, k) == p.len() + intermediaries_end(t, j));
        let m = intermediaries_end(t, j);
        if m < t.len() {
            assert(s[p.len() + m] == t[m]);
        }
        assert(csi_at(s, k) == csi_at(t, j));
        if csi_at(t, j) {
            let pe = parameters_end(t, j);
            lemma_range_span_bound(t, j + 2, PARAMETER_LO, PARAMETER_HI);
            lemma_range_span_bound(t, pe, INTERMEDIARY_LO, INTERMEDIARY_HI);
            assert(s.subrange(k + 2, p.len() + pe) =~= t.subrange(j + 2, pe));
            assert(s.subrange(p.len() + pe, p.len() + m) =~= t.subrange(pe, m));
            assert(csi_lexeme(s, k) == csi_lexeme(t, j));
            lemma_lex_from_shift(p, t, m + 1);
        } else if t[j] == ESC {
            lemma_lex_from_shift(p, t, j + 1);
        } else {
            lemma_text_span_shift(p, t, j + 1);
            lemma_text_span_bound(t, j + 1);
            let e = j + 1 + text_span(t, j + 1);
            assert(s.subrange(k, p.len() + e) =~= t.subrange(j, e));
            lemma_lex_from_shift(p, t, e);
        }
    }
}

proof fn lemma_range_span_before_escape(a: Seq<char>, b: Seq<char>, i: int, lo: u32, hi: u32)
    requires
        0 <= i <= a.len(),
        !in_range(ESC, lo, hi),
    ensures
        range_span(a + seq![ESC] + b, i, lo, hi) == range_span(a, i, lo, hi),
    decreases a.len() - i,
{
    let s = a + seq![ESC] + b;
    if i < a.len() {
        assert(s[i] == a[i]);
        lemma_range_span_before_escape(a, b, i + 1, lo, hi);
    } else {
        assert(s[i] == ESC);
    }
}

proof fn lemma_text_span_before_escape(a: Seq<char>, b: Seq<char>, i: int)
    requires
        0 <= i <= a.len(),
    ensures
        text_span(a + seq![ESC] + b, i) == text_span(a, i),
    decreases a.len() - i,
{
    let s = a + seq![ESC] + b;
    if i < a.len() {
        assert(s[i] == a[i]);
        lemma_text_span_before_escape(a, b, i + 1);
    } else {
        assert(s[i] == ESC);
    }
}

/// No token runs over an escape that is not its first character: the tokens of
/// `a + [ESC] + b` are those of `a`, then those from the escape on.
pub proof fn lemma_lex_split_at_escape(a: Seq<char>, b: Seq<char>, i: int)
    requires
        0 <= i <= a.len(),
    ensures
        lex_from(a + seq![ESC] + b, i) == lex_from(a, i) + lex_from(
            a + seq![ESC] + b,
            a.len() as int,
        ),
    decreases a.len() - i,
{
    let s = a + seq![ESC] + b;
    let rest = lex_from(s, a.len() as int);
    if i == a.len() {
        assert(lex_from(a, i) + rest =~= rest);
    } else {
        assert(s[i] == a[i]);
        assert(s[a.len() as int] == ESC);
        if i + 1 < a.len() {
            assert(s[i + 1] == a[i + 1]);
            lemma_range_span_before_escape(a, b, i + 2, PARAMETER_LO, PARAMETER_HI);
            lemma_range_span_bound(a, i + 2, PARAMETER_LO, PARAMETER_HI);
            let pe = parameters_end(a, i);
            assert(parameters_end(s, i) == pe);
            lemma_range_span_before_escape(a, b, pe, INTERMEDIARY_LO, INTERMEDIARY_HI);
            lemma_range_span_bound(a, pe, INTERMEDIARY_LO, INTERMEDIARY_HI);
            let m = intermediaries_end(a, i);
            assert(intermediaries_end(s, i) == m);
            if m < a.len() {
                assert(s[m] == a[m]);
            }
            assert(csi_at(s, i) == csi_at(a, i));
            if csi_at(a, i) {
                assert(s.subrange(i + 2, pe) =~= a.subrange(i + 2, pe));
                assert(s.subrange(pe, m) =~= a.subrange(pe, m));
                assert(csi_lexeme(s, i) == csi_lexeme(a, i));
                lemma_lex_split_at_escape(a, b, m + 1);
                assert(lex_from(s, i) =~= lex_from(a, i) + rest);
            }
        } else {
            assert(s[i + 1] == ESC);
            assert(!csi_at(s, i));
            assert(!csi_at(a, i));
        }
        if !csi_at(a, i) {
            if a[i] == ESC {
                lemma_lex_split_at_escape(a, b, i + 1);
                assert(lex_from(s, i) =~= lex_from(a, i) + rest);
            } else {
                lemma_text_span_before_escape(a, b, i + 1);
                lemma_text_span_bound(a, i + 1);
                let e = i + 1 + text_span(a, i + 1);
                assert(s.subrange(i, e) =~= a.subrange(i, e));
                lemma_lex_split_at_escape(a, b, e);
                assert(lex_from(s, i) =~= lex_from(a, i) + rest);
            }
        }
    }
}

/// The tokens of a whole input.
pub open spec fn lex(s: Seq<char>) -> Seq<Lexeme> {
    lex_from(s, 0)
}

/// The characters covered by a sequence of lexemes, in order.
pub open spec fn lexemes_chars(ls: Seq<Lexeme>) -> Seq<char>
    decreases ls.len(),
{
    if ls.len() == 0 {
        Seq::empty()
    } else {
        lexeme_chars(ls[0]) + lexemes_chars(ls.drop_first())
    }
}

/// A token of the input: a run of text, or a CSI sequence split into its parameters,
/// its intermediaries and its final character.
#[derive(Debug, PartialEq)]
pub enum Token {
    Text(String),
    CSI(Vec<char>, Vec<char>, char),
}

impl View for Token {
    type V = Lexeme;

    open spec fn view(&self) -> Lexeme {
        match self {
            Token::Text(t) => Lexeme::Text(t@),
            Token::CSI(p, m, f) => Lexeme::Csi(p@, m@, *f),
        }
    }
}

/// What a sequence of tokens stands for.
pub open spec fn tokens_view(ts: Seq<Token>) -> Seq<Lexeme> {
    ts.map_values(|t: Token| t@)
}

proof fn lemma_tokens_view_push(ts: Seq<Token>, t: Token)
    ensures
        tokens_view(ts.push(t)) == tokens_view(ts).push(t@),
{
    let l = tokens_view(ts.push(t));
    let r = tokens_view(ts).push(t@);
    assert(l.len() == r.len());
    assert forall|k: int| 0 <= k < l.len() implies l[k] == r[k] by {
        if k < ts.len() {
            assert(ts.push(t)[k] == ts[k]);
        } else {
            assert(ts.push(t)[k] == t);
        }
    }
    assert(l =~= r);
}

proof fn lemma_range_span_bound(s: Seq<char>, i: int, lo: u32, hi: u32)
    requires
        0 <= i <= s.len(),
    ensures
        i + range_span(s, i, lo, hi) <= s.len(),
        forall|k: int| i <= k < i + range_span(s, i, lo, hi) ==> in_range(#[trigger] s[k], lo, hi),
        i + range_span(s, i, lo, hi) < s.len() ==> !in_range(s[i + range_span(s, i, lo, hi)], lo, hi),
    decreases s.len() - i,
{
    if i < s.len() && in_range(s[i], lo, hi) {
        lemma_range_span_bound(s, i + 1, lo, hi);
    }
}

proof fn lemma_text_span_bound(s: Seq<char>, i: int)
    requires
        0 <= i <= s.len(),
    ensures
        i + text_span(s, i) <= s.len(),
        forall|k: int| i <= k < i + text_span(s, i) ==> #[trigger] s[k] != ESC,
        i + text_span(s, i) < s.len() ==> s[i + text_span(s, i)] == ESC,
    decreases s.len() - i,
{
    if i < s.len() && s[i] != ESC {
        lemma_text_span_bound(s, i + 1);
    }
}

fn is_not_escape(c: char) -> (r: bool)
    ensures
        r == (c != ESC),
{
    c != ESC
}

/// Whether `c` is a parameter character.
pub fn parameter(c: char) -> (r: bool)
    ensures
        r == is_parameter(c),
{
    PARAMETER_LO <= c as u32 && c as u32 <= PARAMETER_HI
}

/// Whether `c` is an intermediary character.
pub fn intermediary(c: char) -> (r: bool)
    ensures
        r == is_intermediary(c),
{
    INTERMEDIARY_LO <= c as u32 && c as u32 <= INTERMEDIARY_HI
}

/// Whether `c` is a final character.
pub fn final_byte(c: char) -> (r: bool)
    ensures
        r == is_final(c),
{
    FINAL_LO <= c as u32 && c as u32 <= FINAL_HI
}

/// End of the run of parameter characters that starts at `start`.
fn skip_parameters(chars: &Vec<char>, start: usize) -> (end: usize)
    requires
        start <= chars.len(),
    ensures
        end == start + range_span(chars@, start as int, PARAMETER_LO, PARAMETER_HI),
        end <= chars.len(),
{
    proof {
        lemma_range_span_bound(chars@, start as int, PARAMETER_LO, PARAMETER_HI);
    }
    let mut j: usize = start;
    while j < chars.len() && parameter(chars[j])
        invariant
            start <= j <= chars.len(),
            range_span(chars@, start as int, PARAMETER_LO, PARAMETER_HI) == (j - start)
                + range_span(chars@, j as int, PARAMETER_LO, PARAMETER_HI),
        decreases chars.len() - j,
    {
        j = j + 1;
    }
    j
}

/// End of the run of intermediary characters that starts at `start`.
fn skip_intermediaries(chars: &Vec<char>, start: usize) -> (end: usize)
    requires
        start <= chars.len(),
    ensures
        end == start + range_span(chars@, start as int, INTERMEDIARY_LO, INTERMEDIARY_HI),
        end <= chars.len(),
{
    proof {
        lemma_range_span_bound(chars@, start as int, INTERMEDIARY_LO, INTERMEDIARY_HI);
    }
    let mut j: usize = start;
    while j < chars.len() && intermediary(chars[j])
        invariant
            start <= j <= chars.len(),
            range_span(chars@, start as int, INTERMEDIARY_LO, INTERMEDIARY_HI) == (j - start)
                + range_span(chars@, j as int, INTERMEDIARY_LO, INTERMEDIARY_HI),
        decreases chars.len() - j,
    {
        j = j + 1;
    }
    j
}

/// End of the run of text, without an escape, that starts at `start`.
fn text_end(chars: &Vec<char>, start: usize) -> (end: usize)
    requires
        start <= chars.len(),
    ensures
        end == start + text_span(chars@, start as int),
        end <= chars.len(),
{
    proof {
        lemma_text_span_bound(chars@, start as int);
    }
    let mut j: usize = start;
    while j < chars.len() && is_not_escape(chars[j])
        invariant
            start <= j <= chars.len(),
            text_span(chars@, start as int) == (j - start) + text_span(chars@, j as int),
        decreases chars.len() - j,
    {
        j = j + 1;
    }
    j
}

/// The characters `from..to` of `chars`, as a string.
fn string_of(chars: &Vec<char>, from: usize, to: usize) -> (r: String)
    requires
        from <= to <= chars.len(),
    ensures
        r@ == chars@.subrange(from as int, to as int),
{
    let mut r = String::new();
    let mut j: usize = from;
    while j < to
        invariant
            from <= j <= to <= chars.len(),
            r@ == chars@.subrange(from as int, j as int),
        decreases to - j,
    {
        push_char(&mut r, chars[j]);
        assert(r@ =~= chars@.subrange(from as int, j + 1));
        j = j + 1;
    }
    r
}

/// The characters `from..to` of `chars`, as a vector.
fn vec_of(chars: &Vec<char>, from: usize, to: usize) -> (r: Vec<char>)
    requires
        from <= to <= chars.len(),
    ensures
        r@ == chars@.subrange(from as int, to as int),
{
    let mut r: Vec<char> = Vec::new();
    let mut j: usize = from;
    while j < to
        invariant
            from <= j <= to <= chars.len(),
            r@ == chars@.subrange(from as int, j as int),
        decreases to - j,
    {
        r.push(chars[j]);
        assert(r@ =~= chars@.subrange(from as int, j + 1));
        j = j + 1;
    }
    r
}

/// Where a complete CSI sequence starts at `i`: the end of its parameters and the
/// position of its final character.
fn csi_parts(chars: &Vec<char>, i: usize) -> (r: Option<(usize, usize)>)
    requires
        i < chars.len(),
    ensures
        r is Some <==> csi_at(chars@, i as int),
        r matches Some((p, m)) ==> p == parameters_end(chars@, i as int) && m
            == intermediaries_end(chars@, i as int),
{
    if i + 1 < chars.len() && chars[i] == ESC && chars[i + 1] == '[' {
        let p = skip_parameters(chars, i + 2);
        let m = skip_intermediaries(chars, p);
        if m < chars.len() && final_byte(chars[m]) {
            Some((p, m))
        } else {
            None
        }
    } else {
        None
    }
}

/// Splits the characters of an input into tokens: CSI sequences, lone escapes and runs
/// of text, which together cover the input exactly.
fn tokenize(chars: &Vec<char>) -> (r: Vec<Token>)
    ensures
        tokens_view(r@) == lex(chars@),
{
    let ghost s = chars@;
    let mut r: Vec<Token> = Vec::new();
    let mut i: usize = 0;
    assert(tokens_view(r@) =~= Seq::<Lexeme>::empty());
    while i < chars.len()
        invariant
            s == chars@,
            i <= chars.len(),
            tokens_view(r@) + lex_from(s, i as int) == lex(s),
        decreases chars.len() - i,
    {
        let tok: Token;
        let next: usize;
        match csi_parts(chars, i) {
            Some((p, m)) => {
                let parameters = vec_of(chars, i + 2, p);
                let intermediaries = vec_of(chars, p, m);
                tok = Token::CSI(parameters, intermediaries, chars[m]);
                next = m + 1;
            },
            None => {
                if chars[i] == ESC {
                    tok = Token::Text(string_of(chars, i, i + 1));
                    proof {
                        assert(s.subrange(i as int, i + 1) =~= seq![ESC]);
                    }
                    next = i + 1;
                assert(lex_from(s, i as int) == seq![tok@] + lex_from(s, next as int));
                } else {
                    proof {
                        lemma_text_span_bound(s, i + 1);
                    }
                    let t = text_end(chars, i + 1);
                    tok = Token::Text(string_of(chars, i, t));
                    next = t;
                assert(lex_from(s, i as int) == seq![tok@] + lex_from(s, next as int));
                }
            },
        }
        assert(lex_from(s, i as int) =~= seq![tok@] + lex_from(s, next as int));
        let ghost before = r@;
        r.push(tok);
        proof {
            assert(r@ == before.push(tok));
            lemma_tokens_view_push(before, tok);
            assert(tokens_view(before).push(tok@) + lex_from(s, next as int) =~= tokens_view(
                before,
            ) + lex_from(s, i as int));
        }
        i = next;
    }
    r
}

/// Splits an input into tokens: CSI sequences, lone escapes and runs of text, which
/// together cover the input exactly.
pub fn text_with_csi(input: &str) -> (r: Vec<Token>)
    ensures
        tokens_view(r@) == lex(input@),
{
    let chars = chars_of(input);
    tokenize(&chars)
}

} // verus!
