use vstd::prelude::*;

use crate::outcome::{
    msg_arith, msg_dq_dollar, msg_param, msg_unexpected_paren, res_tok, res_toks, Outcome,
    ParseRes,
};
use crate::text::push_char;
use crate::token::{
    dqs_view, lemma_dqs_empty, lemma_dqs_push, lemma_toks_empty, lemma_toks_push, tok_view,
    toks_view, DQToken, ExpToken, SDQ, SExp, SToken, Token,
};

verus! {

// ---------------------------------------------------------------------------
// The grammar, over a sequence of characters `s` read from position `i`.
// Each function gives the outcome and the position where reading stopped.
// ---------------------------------------------------------------------------

/// A nested construct that succeeded ended strictly after `i` and within `s`.
pub open spec fn advances(s: Seq<char>, i: int, rest: int) -> bool {
    i < rest <= s.len()
}

/// Pending unquoted text, if any, becomes a token.
pub open spec fn flush(cur: Seq<char>, toks: Seq<SToken>) -> Seq<SToken> {
    if cur.len() > 0 {
        toks.push(SToken::Unquoted(cur))
    } else {
        toks
    }
}

/// Pending text of a double-quoted run, if any, becomes a piece of it.
pub open spec fn flush_dq(cur: Seq<char>, dqs: Seq<SDQ>) -> Seq<SDQ> {
    if cur.len() > 0 {
        dqs.push(SDQ::Str(cur))
    } else {
        dqs
    }
}

/// Position of the newline that ends a comment started before `i`, or the
/// end of the input.
pub open spec fn skip_comment(s: Seq<char>, i: int) -> int
    decreases s.len() - i,
{
    if i >= s.len() || s[i] == '\n' {
        i
    } else {
        skip_comment(s, i + 1)
    }
}

/// Body of a single-quoted run: every character up to the closing quote.
pub open spec fn lex_single(s: Seq<char>, i: int, cur: Seq<char>) -> (Outcome<SToken>, int)
    decreases s.len() - i,
{
    if i >= s.len() {
        (Outcome::Incomplete, i)
    } else if s[i] == '\'' {
        (Outcome::Success(SToken::SingleQuote(cur)), i + 1)
    } else {
        lex_single(s, i + 1, cur.push(s[i]))
    }
}

/// What a backslash followed by `c` adds inside double quotes.
pub open spec fn dq_escape(c: char) -> Seq<char> {
    if c == '\n' {
        seq![]
    } else if c == '\\' || c == '"' || c == '$' || c == '`' {
        seq![c]
    } else {
        seq!['\\', c]
    }
}

/// Unquoted text: a list of tokens, ended by a newline (or by `)` inside a
/// command substitution, when `sub` holds).
pub open spec fn lex_unquoted(
    s: Seq<char>,
    i: int,
    cur: Seq<char>,
    toks: Seq<SToken>,
    sub: bool,
) -> (Outcome<Seq<SToken>>, int)
    decreases s.len() - i, 0int,
{
    if i < 0 || i >= s.len() {
        (Outcome::Incomplete, i)
    } else {
        let c = s[i];
        let done = flush(cur, toks);
        if c == '\n' {
            (Outcome::Success(done), i + 1)
        } else if c == '\'' || c == '"' || c == '$' {
            let (r, rest) = if c == '\'' {
                lex_single(s, i + 1, seq![])
            } else if c == '"' {
                lex_double(s, i + 1, seq![], seq![])
            } else {
                lex_dollar(s, i + 1)
            };
            match r {
                Outcome::Success(t) => if advances(s, i, rest) {
                    lex_unquoted(s, rest, seq![], done.push(t), sub)
                } else {
                    (Outcome::Incomplete, i)
                },
                Outcome::Incomplete => (Outcome::Incomplete, i),
                Outcome::Invalid(m) => (Outcome::Invalid(m), i),
            }
        } else if c == '#' {
            let rest = skip_comment(s, i + 1);
            if advances(s, i, rest) {
                lex_unquoted(s, rest, seq![], done, sub)
            } else {
                (Outcome::Incomplete, i)
            }
        } else if c == '\\' {
            if i + 1 >= s.len() {
                (Outcome::Incomplete, i)
            } else if s[i + 1] == ' ' {
                lex_unquoted(s, i + 2, seq![], done.push(SToken::Space), sub)
            } else if s[i + 1] == '\n' {
                lex_unquoted(s, i + 2, cur, toks, sub)
            } else {
                lex_unquoted(s, i + 2, cur.push(s[i + 1]), toks, sub)
            }
        } else if c == '*' {
            lex_unquoted(s, i + 1, seq![], done.push(SToken::PathExp), sub)
        } else if c == '~' {
            lex_unquoted(s, i + 1, seq![], done.push(SToken::TildeExp), sub)
        } else if c == ')' {
            if sub {
                (Outcome::Success(done), i + 1)
            } else {
                (Outcome::Invalid(msg_unexpected_paren()), i)
            }
        } else {
            lex_unquoted(s, i + 1, cur.push(c), toks, sub)
        }
    }
}

/// What a successful `$` construct contributes to a double-quoted run.
pub open spec fn dq_piece(t: SToken) -> Option<SDQ> {
    match t {
        SToken::Expansion(e) => Some(SDQ::Exp(e)),
        SToken::Unquoted(x) => Some(SDQ::Str(x)),
        _ => None,
    }
}

/// Body of a double-quoted run, up to the closing quote.
pub open spec fn lex_double(s: Seq<char>, i: int, cur: Seq<char>, dqs: Seq<SDQ>) -> (
    Outcome<SToken>,
    int,
)
    decreases s.len() - i, 0int,
{
    if i < 0 || i >= s.len() {
        (Outcome::Incomplete, i)
    } else if s[i] == '\\' {
        if i + 1 >= s.len() {
            (Outcome::Incomplete, i)
        } else {
            lex_double(s, i + 2, cur + dq_escape(s[i + 1]), dqs)
        }
    } else if s[i] == '"' {
        (Outcome::Success(SToken::DoubleQuote(flush_dq(cur, dqs))), i + 1)
    } else if s[i] == '$' {
        let (r, rest) = lex_dollar(s, i + 1);
        match r {
            Outcome::Success(t) => match dq_piece(t) {
                Some(d) => if advances(s, i, rest) {
                    lex_double(s, rest, seq![], flush_dq(cur, dqs).push(d))
                } else {
                    (Outcome::Incomplete, i)
                },
                None => (Outcome::Invalid(msg_dq_dollar()), i),
            },
            Outcome::Incomplete => (Outcome::Incomplete, i),
            Outcome::Invalid(m) => (Outcome::Invalid(m), i),
        }
    } else {
        lex_double(s, i + 1, cur.push(s[i]), dqs)
    }
}

/// What follows a `$`.
pub open spec fn lex_dollar(s: Seq<char>, i: int) -> (Outcome<SToken>, int)
    decreases s.len() - i, 3int,
{
    if i < 0 || i >= s.len() {
        (Outcome::Incomplete, i)
    } else if s[i] == '{' {
        (Outcome::Invalid(msg_param()), i + 1)
    } else if s[i] == '(' {
        lex_paren(s, i + 1)
    } else if s[i] == '\n' {
        (Outcome::Success(SToken::Unquoted(seq!['$'])), i + 1)
    } else {
        (Outcome::Invalid(msg_param()), i)
    }
}

/// What follows `$(`.
pub open spec fn lex_paren(s: Seq<char>, i: int) -> (Outcome<SToken>, int)
    decreases s.len() - i, 2int,
{
    if i < 0 || i >= s.len() {
        (Outcome::Incomplete, i)
    } else if s[i] == '(' {
        (Outcome::Invalid(msg_arith()), i + 1)
    } else {
        lex_sub(s, i)
    }
}

/// A command substitution: unquoted text up to the matching `)`.
pub open spec fn lex_sub(s: Seq<char>, i: int) -> (Outcome<SToken>, int)
    decreases s.len() - i, 1int,
{
    if i < 0 || i >= s.len() {
        (Outcome::Incomplete, i)
    } else {
        let (r, rest) = lex_unquoted(s, i, seq![], seq![], true);
        match r {
            Outcome::Success(ts) => (Outcome::Success(SToken::Expansion(SExp::Command(ts))), rest),
            Outcome::Incomplete => (Outcome::Incomplete, i),
            Outcome::Invalid(m) => (Outcome::Invalid(m), i),
        }
    }
}

// ---------------------------------------------------------------------------
// The lexer, over a vector of characters read from position `pos`.
// ---------------------------------------------------------------------------

fn flush_tokens(curr_expr: String, tokens: &mut Vec<Token>)
    ensures
        toks_view(final(tokens)@) == flush(curr_expr@, toks_view(old(tokens)@)),
{
    if !curr_expr.as_str().is_empty() {
        proof {
            lemma_toks_push(tokens@, Token::Unquoted(curr_expr));
        }
        tokens.push(Token::Unquoted(curr_expr));
    }
}

fn push_token(tokens: &mut Vec<Token>, t: Token)
    ensures
        toks_view(final(tokens)@) == toks_view(old(tokens)@).push(tok_view(t)),
{
    proof {
        lemma_toks_push(tokens@, t);
    }
    tokens.push(t);
}

fn flush_dq_tokens(curr_expr: String, dq_tokens: &mut Vec<DQToken>)
    ensures
        dqs_view(final(dq_tokens)@) == flush_dq(curr_expr@, dqs_view(old(dq_tokens)@)),
{
    if !curr_expr.as_str().is_empty() {
        proof {
            lemma_dqs_push(dq_tokens@, DQToken::Str(curr_expr));
        }
        dq_tokens.push(DQToken::Str(curr_expr));
    }
}

/// Skips the body of a comment.
pub(crate) fn parse_comment(cs: &Vec<char>, pos: usize) -> (r: usize)
    requires
        pos <= cs@.len(),
    ensures
        r as int == skip_comment(cs@, pos as int),
        pos <= r <= cs@.len(),
    decreases cs@.len() - pos,
{
    if pos >= cs.len() || cs[pos] == '\n' {
        pos
    } else {
        parse_comment(cs, pos + 1)
    }
}

/// Reads the body of a single-quoted run; `curr_expr` is the text already read.
pub(crate) fn parse_single_quoted_expr(cs: &Vec<char>, pos: usize, curr_expr: String) -> (r: (
    ParseRes<Token>,
    usize,
))
    requires
        pos <= cs@.len(),
    ensures
        (res_tok(r.0), r.1 as int) == lex_single(cs@, pos as int, curr_expr@),
        r.0 is Success ==> pos < r.1 <= cs@.len(),
    decreases cs@.len() - pos,
{
    let mut curr_expr = curr_expr;
    if pos >= cs.len() {
        (ParseRes::Incomplete, pos)
    } else if cs[pos] == '\'' {
        (ParseRes::Success(Token::SingleQuote(curr_expr)), pos + 1)
    } else {
        push_char(&mut curr_expr, cs[pos]);
        parse_single_quoted_expr(cs, pos + 1, curr_expr)
    }
}

/// Reads unquoted text up to the newline that ends it, or up to `)` when
/// `sub` holds; `curr_expr` and `tokens` are what was read before `pos`.
pub(crate) fn parse_unquoted(
    cs: &Vec<char>,
    pos: usize,
    curr_expr: String,
    tokens: Vec<Token>,
    sub: bool,
) -> (r: (ParseRes<Vec<Token>>, usize))
    requires
        pos <= cs@.len(),
    ensures
        (res_toks(r.0), r.1 as int) == lex_unquoted(
            cs@,
            pos as int,
            curr_expr@,
            toks_view(tokens@),
            sub,
        ),
        r.0 is Success ==> pos < r.1 <= cs@.len(),
    decreases cs@.len() - pos, 0int,
{
    let mut curr_expr = curr_expr;
    let mut tokens = tokens;
    if pos >= cs.len() {
        return (ParseRes::Incomplete, pos);
    }
    let c = cs[pos];
    proof {
        lemma_toks_empty();
        lemma_dqs_empty();
    }
    if c == '\n' {
        flush_tokens(curr_expr, &mut tokens);
        (ParseRes::Success(tokens), pos + 1)
    } else if c == '\'' || c == '"' || c == '$' {
        let (result, rest) = if c == '\'' {
            parse_single_quoted_expr(cs, pos + 1, String::new())
        } else if c == '"' {
            parse_double_quoted_expr(cs, pos + 1, String::new(), Vec::new())
        } else {
            parse_dollar_expr(cs, pos + 1)
        };
        match result {
            ParseRes::Success(t) => {
                flush_tokens(curr_expr, &mut tokens);
                push_token(&mut tokens, t);
                parse_unquoted(cs, rest, String::new(), tokens, sub)
            },
            ParseRes::Incomplete => (ParseRes::Incomplete, pos),
            ParseRes::Invalid(err) => (ParseRes::Invalid(err), pos),
        }
    } else if c == '#' {
        let rest = parse_comment(cs, pos + 1);
        flush_tokens(curr_expr, &mut tokens);
        parse_unquoted(cs, rest, String::new(), tokens, sub)
    } else if c == '\\' {
        if pos + 1 >= cs.len() {
            (ParseRes::Incomplete, pos)
        } else {
            let next = cs[pos + 1];
            if next == ' ' {
                flush_tokens(curr_expr, &mut tokens);
                push_token(&mut tokens, Token::Space);
                parse_unquoted(cs, pos + 2, String::new(), tokens, sub)
            } else if next == '\n' {
                parse_unquoted(cs, pos + 2, curr_expr, tokens, sub)
            } else {
                push_char(&mut curr_expr, next);
                parse_unquoted(cs, pos + 2, curr_expr, tokens, sub)
            }
        }
    } else if c == '*' || c == '~' {
        flush_tokens(curr_expr, &mut tokens);
        push_token(&mut tokens, if c == '*' { Token::PathExp } else { Token::TildeExp });
        parse_unquoted(cs, pos + 1, String::new(), tokens, sub)
    } else if c == ')' {
        if sub {
            flush_tokens(curr_expr, &mut tokens);
            (ParseRes::Success(tokens), pos + 1)
        } else {
            (ParseRes::Invalid("Unexpected ')'".to_owned()), pos)
        }
    } else {
        push_char(&mut curr_expr, c);
        parse_unquoted(cs, pos + 1, curr_expr, tokens, sub)
    }
}

/// Reads the body of a double-quoted run; `curr_expr` and `dq_tokens` are
/// what was read before `pos`.
pub(crate) fn parse_double_quoted_expr(
    cs: &Vec<char>,
    pos: usize,
    curr_expr: String,
    dq_tokens: Vec<DQToken>,
) -> (r: (ParseRes<Token>, usize))
    requires
        pos <= cs@.len(),
    ensures
        (res_tok(r.0), r.1 as int) == lex_double(cs@, pos as int, curr_expr@, dqs_view(dq_tokens@)),
        r.0 is Success ==> pos < r.1 <= cs@.len(),
    decreases cs@.len() - pos, 0int,
{
    let mut curr_expr = curr_expr;
    let mut dq_tokens = dq_tokens;
    if pos >= cs.len() {
        return (ParseRes::Incomplete, pos);
    }
    let c = cs[pos];
    if c == '\\' {
        if pos + 1 >= cs.len() {
            (ParseRes::Incomplete, pos)
        } else {
            let next = cs[pos + 1];
            let ghost before = curr_expr@;
            if next == '\n' {
            } else if next == '\\' || next == '"' || next == '$' || next == '`' {
                push_char(&mut curr_expr, next);
            } else {
                push_char(&mut curr_expr, '\\');
                push_char(&mut curr_expr, next);
            }
            assert(curr_expr@ =~= before + dq_escape(next));
            parse_double_quoted_expr(cs, pos + 2, curr_expr, dq_tokens)
        }
    } else if c == '"' {
        flush_dq_tokens(curr_expr, &mut dq_tokens);
        (ParseRes::Success(Token::DoubleQuote(dq_tokens)), pos + 1)
    } else if c == '$' {
        let (result, rest) = parse_dollar_expr(cs, pos + 1);
        match result {
            ParseRes::Success(t) => {
                let piece = match t {
                    Token::Expansion(e) => DQToken::Exp(e),
                    Token::Unquoted(x) => DQToken::Str(x),
                    _ => {
                        return (
                            ParseRes::Invalid("Unexpected token after '$' in double quotes".to_owned()),
                            pos,
                        );
                    },
                };
                flush_dq_tokens(curr_expr, &mut dq_tokens);
                proof {
                    lemma_dqs_push(dq_tokens@, piece);
                }
                dq_tokens.push(piece);
                parse_double_quoted_expr(cs, rest, String::new(), dq_tokens)
            },
            ParseRes::Incomplete => (ParseRes::Incomplete, pos),
            ParseRes::Invalid(err) => (ParseRes::Invalid(err), pos),
        }
    } else {
        push_char(&mut curr_expr, c);
        parse_double_quoted_expr(cs, pos + 1, curr_expr, dq_tokens)
    }
}

/// Reads what follows a `$`.
pub(crate) fn parse_dollar_expr(cs: &Vec<char>, pos: usize) -> (r: (ParseRes<Token>, usize))
    requires
        pos <= cs@.len(),
    ensures
        (res_tok(r.0), r.1 as int) == lex_dollar(cs@, pos as int),
        r.0 is Success ==> pos < r.1 <= cs@.len(),
    decreases cs@.len() - pos, 3int,
{
    if pos >= cs.len() {
        (ParseRes::Incomplete, pos)
    } else if cs[pos] == '{' {
        parse_bracketed_param(cs, pos + 1)
    } else if cs[pos] == '(' {
        parse_dollar_paren_expr(cs, pos + 1)
    } else if cs[pos] == '\n' {
        let mut dollar = String::new();
        push_char(&mut dollar, '$');
        (ParseRes::Success(Token::Unquoted(dollar)), pos + 1)
    } else {
        parse_unbracketed_param(cs, pos)
    }
}

/// `$name`: parameters are not supported.
pub(crate) fn parse_unbracketed_param(cs: &Vec<char>, pos: usize) -> (r: (ParseRes<Token>, usize))
    ensures
        res_tok(r.0) == Outcome::<SToken>::Invalid(msg_param()),
        r.1 == pos,
{
    (ParseRes::Invalid("Parameters not yet supported.".to_owned()), pos)
}

/// `${...}`: parameters are not supported.
pub(crate) fn parse_bracketed_param(cs: &Vec<char>, pos: usize) -> (r: (ParseRes<Token>, usize))
    ensures
        res_tok(r.0) == Outcome::<SToken>::Invalid(msg_param()),
        r.1 == pos,
{
    (ParseRes::Invalid("Parameters not yet supported.".to_owned()), pos)
}

/// `$((...))`: arithmetic expressions are not supported.
pub(crate) fn parse_arith_expr(cs: &Vec<char>, pos: usize) -> (r: (ParseRes<Token>, usize))
    ensures
        res_tok(r.0) == Outcome::<SToken>::Invalid(msg_arith()),
        r.1 == pos,
{
    (ParseRes::Invalid("Arithmetic expressions not yet supported.".to_owned()), pos)
}

/// Reads what follows `$(`.
pub(crate) fn parse_dollar_paren_expr(cs: &Vec<char>, pos: usize) -> (r: (ParseRes<Token>, usize))
    requires
        pos <= cs@.len(),
    ensures
        (res_tok(r.0), r.1 as int) == lex_paren(cs@, pos as int),
        r.0 is Success ==> pos < r.1 <= cs@.len(),
    decreases cs@.len() - pos, 2int,
{
    if pos >= cs.len() {
        (ParseRes::Incomplete, pos)
    } else if cs[pos] == '(' {
        parse_arith_expr(cs, pos + 1)
    } else {
        parse_subcommand(cs, pos)
    }
}

/// Reads a command substitution up to its closing `)`.
pub(crate) fn parse_subcommand(cs: &Vec<char>, pos: usize) -> (r: (ParseRes<Token>, usize))
    requires
        pos <= cs@.len(),
    ensures
        (res_tok(r.0), r.1 as int) == lex_sub(cs@, pos as int),
        r.0 is Success ==> pos < r.1 <= cs@.len(),
    decreases cs@.len() - pos, 1int,
{
    if pos >= cs.len() {
        return (ParseRes::Incomplete, pos);
    }
    proof {
        lemma_toks_empty();
    }
    let (result, rest) = parse_unquoted(cs, pos, String::new(), Vec::new(), true);
    match result {
        ParseRes::Success(tokens) => (
            ParseRes::Success(Token::Expansion(ExpToken::Command(tokens))),
            rest,
        ),
        ParseRes::Incomplete => (ParseRes::Incomplete, pos),
        ParseRes::Invalid(err) => (ParseRes::Invalid(err), pos),
    }
}

} // verus!
