//! The errors of the compiler.

use vstd::prelude::*;
use vstd::string::*;
use crate::lexer::{Place, Point, Token, TokenView};

verus! {

/// What can go wrong while an expression is compiled.
#[derive(Debug, PartialEq, Eq)]
pub enum RuccErr {
    /// The text holds something that is no token: a message and the place.
    ParseErr(String, Point),
    /// The tokens do not form an expression: a message and the token at
    /// which this was found.
    TokenErr(String, Token),
    /// A token was asked for behind the last one.
    InsideErr(String),
}

/// An error as a plain value: each message by its characters.
pub enum RuccErrView {
    ParseErr(Seq<char>, Place),
    TokenErr(Seq<char>, TokenView),
    InsideErr(Seq<char>),
}

impl View for RuccErr {
    type V = RuccErrView;

    open spec fn view(&self) -> RuccErrView {
        match *self {
            RuccErr::ParseErr(m, p) => RuccErrView::ParseErr(m@, p@),
            RuccErr::TokenErr(m, t) => RuccErrView::TokenErr(m@, t@),
            RuccErr::InsideErr(m) => RuccErrView::InsideErr(m@),
        }
    }
}

impl RuccErrView {
    /// The error as a line of text: the message, then where it happened.
    pub open spec fn text(self) -> Seq<char> {
        match self {
            RuccErrView::ParseErr(m, p) => m + " at "@ + p.text(),
            RuccErrView::TokenErr(m, t) => m + " "@ + t.text(),
            RuccErrView::InsideErr(m) => m,
        }
    }
}

impl RuccErr {
    /// The error as a line of text for the user.
    pub fn to_string(&self) -> (s: String)
        ensures
            s@ == self@.text(),
    {
        match self {
            RuccErr::ParseErr(m, p) => {
                let mut s = m.clone();
                s.append(" at ");
                p.push_text(&mut s);
                s
            },
            RuccErr::TokenErr(m, t) => {
                let mut s = m.clone();
                s.append(" ");
                t.push_text(&mut s);
                s
            },
            RuccErr::InsideErr(m) => m.clone(),
        }
    }
}

} // verus!
