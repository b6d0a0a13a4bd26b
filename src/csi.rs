use vstd::prelude::*;

use crate::parser::{Lexeme, Token, ESC};
use crate::text::push_char;

verus! {

/// A CSI sequence. Sequences that are not recognised keep their characters after the
/// introducer: the parameters, the intermediaries and the final character.
#[derive(Debug, PartialEq)]
pub enum CSI {
    Unknown(String),
}

/// What a CSI value holds.
pub enum CsiView {
    Unknown(Seq<char>),
}

impl View for CSI {
    type V = CsiView;

    open spec fn view(&self) -> CsiView {
        match self {
            CSI::Unknown(s) => CsiView::Unknown(s@),
        }
    }
}

/// The CSI value of a lexeme: for a CSI sequence, its parameters, intermediaries and
/// final character, in that order.
pub open spec fn csi_of(l: Lexeme) -> CsiView {
    match l {
        Lexeme::Csi(p, m, f) => CsiView::Unknown(p + m + seq![f]),
        Lexeme::Text(t) => CsiView::Unknown(t),
    }
}

/// The text of a CSI value: the introducer, then what it holds.
pub open spec fn render_csi(c: CsiView) -> Seq<char> {
    match c {
        CsiView::Unknown(payload) => seq![ESC, '['] + payload,
    }
}

impl CSI {
    fn unknown(parameters: Vec<char>, intermediaries: Vec<char>, final_byte: char) -> (r: CSI)
        ensures
            r@ == CsiView::Unknown(parameters@ + intermediaries@ + seq![final_byte]),
    {
        let mut string = String::new();
        let mut i: usize = 0;
        while i < parameters.len()
            invariant
                i <= parameters.len(),
                string@ == parameters@.subrange(0, i as int),
            decreases parameters.len() - i,
        {
            push_char(&mut string, parameters[i]);
            assert(string@ =~= parameters@.subrange(0, i + 1));
            i = i + 1;
        }
        assert(parameters@.subrange(0, parameters@.len() as int) =~= parameters@);
        let mut j: usize = 0;
        while j < intermediaries.len()
            invariant
                j <= intermediaries.len(),
                string@ == parameters@ + intermediaries@.subrange(0, j as int),
            decreases intermediaries.len() - j,
        {
            push_char(&mut string, intermediaries[j]);
            assert(string@ =~= parameters@ + intermediaries@.subrange(0, j + 1));
            j = j + 1;
        }
        assert(intermediaries@.subrange(0, intermediaries@.len() as int) =~= intermediaries@);
        push_char(&mut string, final_byte);
        assert(string@ =~= parameters@ + intermediaries@ + seq![final_byte]);
        CSI::Unknown(string)
    }

    /// The CSI value of a token that is a CSI sequence.
    pub fn from(token: Token) -> (r: CSI)
        requires
            token is CSI,
        ensures
            r@ == csi_of(token@),
    {
        match token {
            Token::CSI(parameters, intermediaries, final_byte) => {
                CSI::unknown(parameters, intermediaries, final_byte)
            },
            Token::Text(_) => {
                proof {
                    assert(false);
                }
                CSI::Unknown(String::new())
            },
        }
    }

    /// The text of this sequence: the introducer `ESC [`, then what it holds.
    pub fn to_string(&self) -> (r: String)
        ensures
            r@ == render_csi(self@),
    {
        let mut r = String::new();
        push_char(&mut r, ESC);
        push_char(&mut r, '[');
        match self {
            CSI::Unknown(payload) => {
                r.append(payload.as_str());
            },
        }
        assert(r@ =~= render_csi(self@));
        r
    }
}

} // verus!
