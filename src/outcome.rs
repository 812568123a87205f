use vstd::prelude::*;

use crate::token::{tok_view, toks_view, SToken, Token};

verus! {

/// Result of a parsing step.
pub enum ParseRes<T> {
    /// The construct was read completely.
    Success(T),
    /// The input ended inside the construct: more text is needed.
    Incomplete,
    /// The input is malformed; the message says why.
    Invalid(String),
}

impl<T> ParseRes<T> {
    /// The value of a successful result.
    pub fn unwrap(self) -> (v: T)
        requires
            self is Success,
        ensures
            self == ParseRes::Success(v),
    {
        match self {
            ParseRes::Success(v) => v,
            ParseRes::Incomplete => vstd::pervasive::unreached(),
            ParseRes::Invalid(_) => vstd::pervasive::unreached(),
        }
    }
}

/// Mathematical model of [`ParseRes`].
pub enum Outcome<A> {
    Success(A),
    Incomplete,
    Invalid(Seq<char>),
}

pub open spec fn res_tok(r: ParseRes<Token>) -> Outcome<SToken> {
    match r {
        ParseRes::Success(t) => Outcome::Success(tok_view(t)),
        ParseRes::Incomplete => Outcome::Incomplete,
        ParseRes::Invalid(m) => Outcome::Invalid(m@),
    }
}

pub open spec fn res_toks(r: ParseRes<Vec<Token>>) -> Outcome<Seq<SToken>> {
    match r {
        ParseRes::Success(v) => Outcome::Success(toks_view(v@)),
        ParseRes::Incomplete => Outcome::Incomplete,
        ParseRes::Invalid(m) => Outcome::Invalid(m@),
    }
}

pub open spec fn msg_unexpected_paren() -> Seq<char> {
    "Unexpected ')'"@
}

pub open spec fn msg_param() -> Seq<char> {
    "Parameters not yet supported."@
}

pub open spec fn msg_arith() -> Seq<char> {
    "Arithmetic expressions not yet supported."@
}

pub open spec fn msg_dq_dollar() -> Seq<char> {
    "Unexpected token after '$' in double quotes"@
}

pub open spec fn msg_assembly() -> Seq<char> {
    "Error converting to parsed form"@
}

} // verus!
