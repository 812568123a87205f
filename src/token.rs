use vstd::prelude::*;

verus! {

/// An expansion: `$(...)`, `${...}` / `$name`, or `$((...))`.
pub enum ExpToken {
    Command(Vec<Token>),
    Param(String),
    Arith(String),
}

/// A piece of a double-quoted run.
pub enum DQToken {
    Str(String),
    Exp(ExpToken),
}

/// A lexical unit of a command line.
pub enum Token {
    Unquoted(String),
    Expansion(ExpToken),
    DoubleQuote(Vec<DQToken>),
    SingleQuote(String),
    PathExp,
    TildeExp,
    Space,
}

/// Mathematical model of [`ExpToken`].
pub enum SExp {
    Command(Seq<SToken>),
    Param(Seq<char>),
    Arith(Seq<char>),
}

/// Mathematical model of [`DQToken`].
pub enum SDQ {
    Str(Seq<char>),
    Exp(SExp),
}

/// Mathematical model of [`Token`].
pub enum SToken {
    Unquoted(Seq<char>),
    Expansion(SExp),
    DoubleQuote(Seq<SDQ>),
    SingleQuote(Seq<char>),
    PathExp,
    TildeExp,
    Space,
}

pub open spec fn exp_view(e: ExpToken) -> SExp
    decreases e,
{
    match e {
        ExpToken::Command(v) => SExp::Command(toks_view(v@)),
        ExpToken::Param(s) => SExp::Param(s@),
        ExpToken::Arith(s) => SExp::Arith(s@),
    }
}

pub open spec fn dq_view(d: DQToken) -> SDQ
    decreases d,
{
    match d {
        DQToken::Str(s) => SDQ::Str(s@),
        DQToken::Exp(e) => SDQ::Exp(exp_view(e)),
    }
}

pub open spec fn dqs_view(s: Seq<DQToken>) -> Seq<SDQ>
    decreases s,
{
    Seq::new(s.len(), |i: int| if 0 <= i < s.len() { dq_view(s[i]) } else { SDQ::Str(seq![]) })
}

pub open spec fn tok_view(t: Token) -> SToken
    decreases t,
{
    match t {
        Token::Unquoted(s) => SToken::Unquoted(s@),
        Token::Expansion(e) => SToken::Expansion(exp_view(e)),
        Token::DoubleQuote(v) => SToken::DoubleQuote(dqs_view(v@)),
        Token::SingleQuote(s) => SToken::SingleQuote(s@),
        Token::PathExp => SToken::PathExp,
        Token::TildeExp => SToken::TildeExp,
        Token::Space => SToken::Space,
    }
}

pub open spec fn toks_view(s: Seq<Token>) -> Seq<SToken>
    decreases s,
{
    Seq::new(s.len(), |i: int| if 0 <= i < s.len() { tok_view(s[i]) } else { SToken::Space })
}

pub open spec fn words_view(s: Seq<Vec<Token>>) -> Seq<Seq<SToken>> {
    s.map_values(|w: Vec<Token>| toks_view(w@))
}

pub proof fn lemma_toks_push(s: Seq<Token>, t: Token)
    ensures
        toks_view(s.push(t)) == toks_view(s).push(tok_view(t)),
{
    assert(toks_view(s.push(t)) =~= toks_view(s).push(tok_view(t)));
}

pub proof fn lemma_dqs_push(s: Seq<DQToken>, d: DQToken)
    ensures
        dqs_view(s.push(d)) == dqs_view(s).push(dq_view(d)),
{
    assert(dqs_view(s.push(d)) =~= dqs_view(s).push(dq_view(d)));
}

pub proof fn lemma_toks_empty()
    ensures
        toks_view(Seq::<Token>::empty()) == Seq::<SToken>::empty(),
{
    assert(toks_view(Seq::<Token>::empty()) =~= Seq::<SToken>::empty());
}

pub proof fn lemma_dqs_empty()
    ensures
        dqs_view(Seq::<DQToken>::empty()) == Seq::<SDQ>::empty(),
{
    assert(dqs_view(Seq::<DQToken>::empty()) =~= Seq::<SDQ>::empty());
}

} // verus!
