use vstd::prelude::*;

use crate::expand::{expand_from, expr_expansion, field_split, field_splitting, pathname_expansion};
use crate::lexer::{lex_double, lex_single, lex_unquoted, parse_double_quoted_expr, parse_unquoted};
use crate::outcome::{msg_assembly, Outcome, ParseRes};
use crate::text::{chars_of, push_char};
use crate::token::{
    dq_view, dqs_view, lemma_dqs_empty, lemma_toks_empty, tok_view, toks_view, words_view,
    DQToken, SDQ, SToken, Token,
};

verus! {

/// How two commands are combined.
pub enum ParseOp {
    And,
    Or,
    Sequence,
}

/// A parsed command line.
pub enum Parsed {
    /// A single command: its words, fully resolved.
    Sentence(Vec<String>),
    /// Two commands combined by an operator.
    Expr(Box<Parsed>, Box<Parsed>, ParseOp),
}

// ---------------------------------------------------------------------------
// Word assembly.
// ---------------------------------------------------------------------------

/// The text of a double-quoted run; `None` when it holds an expansion.
pub open spec fn dq_text(dqs: Seq<SDQ>) -> Option<Seq<char>>
    decreases dqs.len(),
{
    if dqs.len() == 0 {
        Some(seq![])
    } else {
        match (dq_text(dqs.drop_last()), dqs.last()) {
            (Some(a), SDQ::Str(x)) => Some(a + x),
            _ => None,
        }
    }
}

/// The text a token contributes to its word; `None` for a marker or an expansion.
pub open spec fn token_text(t: SToken) -> Option<Seq<char>> {
    match t {
        SToken::Unquoted(x) => Some(x),
        SToken::SingleQuote(x) => Some(x),
        SToken::DoubleQuote(d) => dq_text(d),
        SToken::Space => Some(seq![' ']),
        _ => None,
    }
}

/// The text of a word: the texts of its tokens, in order.
pub open spec fn word_text(w: Seq<SToken>) -> Option<Seq<char>>
    decreases w.len(),
{
    if w.len() == 0 {
        Some(seq![])
    } else {
        match (word_text(w.drop_last()), token_text(w.last())) {
            (Some(a), Some(b)) => Some(a + b),
            _ => None,
        }
    }
}

/// Assembly of words into strings: fails when any word holds an unresolved token.
pub open spec fn assemble(words: Seq<Seq<SToken>>) -> Outcome<Seq<Seq<char>>> {
    if forall|i: int| 0 <= i < words.len() ==> (#[trigger] word_text(words[i])) is Some {
        Outcome::Success(Seq::new(words.len(), |i: int| word_text(words[i])->0))
    } else {
        Outcome::Invalid(msg_assembly())
    }
}

/// The stages after tokenizing: expansion, field splitting, pathname
/// expansion (which changes nothing) and assembly.
pub open spec fn process(toks: Seq<SToken>) -> Outcome<Seq<Seq<char>>> {
    match expand_from(toks, 0) {
        Outcome::Success(t) => assemble(field_split(t)),
        Outcome::Incomplete => Outcome::Incomplete,
        Outcome::Invalid(m) => Outcome::Invalid(m),
    }
}

/// What parsing a command line gives: the words of its first line.
pub open spec fn command_spec(s: Seq<char>) -> Outcome<Seq<Seq<char>>> {
    match lex_unquoted(s, 0, seq![], seq![], false).0 {
        Outcome::Success(toks) => process(toks),
        Outcome::Incomplete => Outcome::Incomplete,
        Outcome::Invalid(m) => Outcome::Invalid(m),
    }
}

pub open spec fn strings_view(v: Seq<String>) -> Seq<Seq<char>> {
    v.map_values(|w: String| w@)
}

pub open spec fn sentence_view(p: Parsed) -> Seq<Seq<char>> {
    match p {
        Parsed::Sentence(v) => strings_view(v@),
        Parsed::Expr(..) => seq![],
    }
}

/// Model of a parse result; a success is always a single sentence.
pub open spec fn res_parsed(r: ParseRes<Parsed>) -> Outcome<Seq<Seq<char>>> {
    match r {
        ParseRes::Success(p) => Outcome::Success(sentence_view(p)),
        ParseRes::Incomplete => Outcome::Incomplete,
        ParseRes::Invalid(m) => Outcome::Invalid(m@),
    }
}

/// Appends the text of a double-quoted run to `current`; false when the run
/// holds an expansion.
fn append_dq_text(dqs: &Vec<DQToken>, current: &mut String) -> (ok: bool)
    ensures
        ok == dq_text(dqs_view(dqs@)) is Some,
        ok ==> final(current)@ == old(current)@ + dq_text(dqs_view(dqs@))->0,
{
    let ghost d = dqs_view(dqs@);
    let ghost start = current@;
    let mut i: usize = 0;
    proof {
        assert(d.take(0) =~= Seq::<SDQ>::empty());
        assert(start + seq![] =~= start);
    }
    while i < dqs.len()
        invariant
            d == dqs_view(dqs@),
            i <= dqs@.len(),
            dq_text(d.take(i as int)) is Some,
            current@ == start + dq_text(d.take(i as int))->0,
        decreases dqs@.len() - i,
    {
        proof {
            assert(d.take(i + 1).drop_last() =~= d.take(i as int));
            assert(d[i as int] == dq_view(dqs@[i as int]));
        }
        match &dqs[i] {
            DQToken::Str(x) => {
                current.append(x.as_str());
                assert(current@ =~= start + dq_text(d.take(i + 1))->0);
            },
            DQToken::Exp(_) => {
                proof {
                    lemma_dq_text_none(d, i as int);
                }
                return false;
            },
        }
        i += 1;
    }
    assert(d.take(dqs@.len() as int) =~= d);
    true
}

proof fn lemma_dq_text_none(d: Seq<SDQ>, i: int)
    requires
        0 <= i < d.len(),
        d[i] is Exp,
    ensures
        dq_text(d) is None,
    decreases d.len(),
{
    if i < d.len() - 1 {
        assert(d.drop_last()[i] == d[i]);
        lemma_dq_text_none(d.drop_last(), i);
    }
}

proof fn lemma_word_text_none(w: Seq<SToken>, i: int)
    requires
        0 <= i < w.len(),
        token_text(w[i]) is None,
    ensures
        word_text(w) is None,
    decreases w.len(),
{
    if i < w.len() - 1 {
        assert(w.drop_last()[i] == w[i]);
        lemma_word_text_none(w.drop_last(), i);
    }
}

/// The text of one word; `None` when it holds an unresolved token.
fn word_string(word: &Vec<Token>) -> (r: Option<String>)
    ensures
        match word_text(toks_view(word@)) {
            Some(x) => r is Some && r->0@ == x,
            None => r is None,
        },
{
    let ghost w = toks_view(word@);
    let mut current = String::new();
    let mut i: usize = 0;
    proof {
        assert(w.take(0) =~= Seq::<SToken>::empty());
    }
    while i < word.len()
        invariant
            w == toks_view(word@),
            i <= word@.len(),
            word_text(w.take(i as int)) is Some,
            current@ == word_text(w.take(i as int))->0,
        decreases word@.len() - i,
    {
        let ghost before = current@;
        proof {
            assert(w.take(i + 1).drop_last() =~= w.take(i as int));
            assert(w[i as int] == tok_view(word@[i as int]));
        }
        match &word[i] {
            Token::Unquoted(x) => {
                current.append(x.as_str());
            },
            Token::SingleQuote(x) => {
                current.append(x.as_str());
            },
            Token::Space => {
                push_char(&mut current, ' ');
            },
            Token::DoubleQuote(dqs) => {
                if !append_dq_text(dqs, &mut current) {
                    proof {
                        lemma_word_text_none(w, i as int);
                    }
                    return None;
                }
            },
            _ => {
                proof {
                    lemma_word_text_none(w, i as int);
                }
                return None;
            },
        }
        assert(current@ =~= word_text(w.take(i + 1))->0);
        i += 1;
    }
    assert(w.take(word@.len() as int) =~= w);
    Some(current)
}

/// Assembles each word into one string.
pub fn to_parsed_form(ast: Vec<Vec<Token>>) -> (r: ParseRes<Parsed>)
    ensures
        res_parsed(r) == assemble(words_view(ast@)),
        r is Success ==> r->Success_0 is Sentence,
{
    let ghost ws = words_view(ast@);
    let mut sentence: Vec<String> = Vec::new();
    let mut i: usize = 0;
    while i < ast.len()
        invariant
            ws == words_view(ast@),
            i <= ast@.len(),
            sentence@.len() == i,
            forall|k: int| 0 <= k < i ==> (#[trigger] word_text(ws[k])) is Some,
            forall|k: int| 0 <= k < i ==> (#[trigger] sentence@[k])@ == word_text(ws[k])->0,
        decreases ast@.len() - i,
    {
        assert(ws[i as int] == toks_view(ast@[i as int]@));
        match word_string(&ast[i]) {
            Some(w) => {
                sentence.push(w);
            },
            None => {
                return ParseRes::Invalid("Error converting to parsed form".to_owned());
            },
        }
        i += 1;
    }
    assert(strings_view(sentence@) =~= Seq::new(ws.len(), |k: int| word_text(ws[k])->0));
    ParseRes::Success(Parsed::Sentence(sentence))
}

/// The stages that follow tokenizing.
pub fn process_tokens(ast: Vec<Token>) -> (r: ParseRes<Parsed>)
    ensures
        res_parsed(r) == process(toks_view(ast@)),
        r is Success ==> r->Success_0 is Sentence,
{
    let ast = match expr_expansion(ast) {
        ParseRes::Success(v) => v,
        ParseRes::Invalid(err) => return ParseRes::Invalid(err),
        ParseRes::Incomplete => return ParseRes::Incomplete,
    };
    let ast = match field_splitting(ast) {
        ParseRes::Success(v) => v,
        ParseRes::Invalid(err) => return ParseRes::Invalid(err),
        ParseRes::Incomplete => return ParseRes::Incomplete,
    };
    let ast = match pathname_expansion(ast) {
        ParseRes::Success(v) => v,
        ParseRes::Invalid(err) => return ParseRes::Invalid(err),
        ParseRes::Incomplete => return ParseRes::Incomplete,
    };
    to_parsed_form(ast)
}

/// Parses the first line of `text` into the words of a command.
pub fn parse_command(text: &str) -> (r: ParseRes<Parsed>)
    ensures
        res_parsed(r) == command_spec(text@),
        r is Success ==> r->Success_0 is Sentence,
{
    let cs = chars_of(text);
    proof {
        lemma_toks_empty();
    }
    let (result, _) = parse_unquoted(&cs, 0, String::new(), Vec::new(), false);
    match result {
        ParseRes::Success(tokens) => process_tokens(tokens),
        ParseRes::Incomplete => ParseRes::Incomplete,
        ParseRes::Invalid(err) => ParseRes::Invalid(err),
    }
}

// ---------------------------------------------------------------------------
// Quoted runs on their own.
// ---------------------------------------------------------------------------

/// No single quote in `s[a..b]`.
pub open spec fn no_quote(s: Seq<char>, a: int, b: int) -> bool {
    forall|k: int| a <= k < b ==> s[k] != '\''
}

pub(crate) proof fn lemma_lex_single(s: Seq<char>, i: int, cur: Seq<char>)
    requires
        0 <= i <= s.len(),
    ensures
        match lex_single(s, i, cur) {
            (Outcome::Success(t), rest) => i < rest <= s.len() && s[rest - 1] == '\'' && no_quote(
                s,
                i,
                rest - 1,
            ) && t == SToken::SingleQuote(cur + s.subrange(i, rest - 1)),
            (Outcome::Incomplete, _) => no_quote(s, i, s.len() as int),
            _ => false,
        },
    decreases s.len() - i,
{
    if i < s.len() {
        if s[i] == '\'' {
            assert(cur + s.subrange(i, i) =~= cur);
        } else {
            lemma_lex_single(s, i + 1, cur.push(s[i]));
            match lex_single(s, i + 1, cur.push(s[i])) {
                (Outcome::Success(_), rest) => {
                    assert(cur.push(s[i]) + s.subrange(i + 1, rest - 1) =~= cur + s.subrange(
                        i,
                        rest - 1,
                    ));
                },
                _ => {},
            }
        }
    }
}

/// Model of a result that carries a count of characters read and a text.
pub open spec fn res_text(r: ParseRes<(usize, String)>) -> Outcome<(int, Seq<char>)> {
    match r {
        ParseRes::Success((n, x)) => Outcome::Success((n as int, x@)),
        ParseRes::Incomplete => Outcome::Incomplete,
        ParseRes::Invalid(m) => Outcome::Invalid(m@),
    }
}

/// Reads the body of a single-quoted run from the start of `text` (the
/// opening quote already read), after the text `curr_expr`. On success gives
/// the number of characters read, closing quote included, and `curr_expr`
/// followed by every character before that quote: nothing is special inside
/// single quotes. Without a closing quote, more input is needed.
pub fn parse_single_quoted_expr(text: &str, curr_expr: String) -> (r: ParseRes<(usize, String)>)
    ensures
        match r {
            ParseRes::Success((n, out)) => 1 <= n <= text@.len() && text@[n - 1] == '\''
                && no_quote(text@, 0, n - 1) && out@ == curr_expr@ + text@.subrange(0, n - 1),
            ParseRes::Incomplete => no_quote(text@, 0, text@.len() as int),
            ParseRes::Invalid(_) => false,
        },
{
    let cs = chars_of(text);
    proof {
        lemma_lex_single(cs@, 0, curr_expr@);
    }
    let (result, rest) = crate::lexer::parse_single_quoted_expr(&cs, 0, curr_expr);
    match result {
        ParseRes::Success(Token::SingleQuote(out)) => ParseRes::Success((rest, out)),
        ParseRes::Success(_) => vstd::pervasive::unreached(),
        ParseRes::Incomplete => ParseRes::Incomplete,
        ParseRes::Invalid(err) => ParseRes::Invalid(err),
    }
}

/// What reading a double-quoted run on its own gives: the characters read
/// and its text, after the text `cur`. A run that holds an expansion has no
/// text of its own and is rejected.
pub open spec fn quoted_spec(s: Seq<char>, cur: Seq<char>) -> Outcome<(int, Seq<char>)> {
    match lex_double(s, 0, cur, seq![]) {
        (Outcome::Success(SToken::DoubleQuote(d)), rest) => match dq_text(d) {
            Some(x) => Outcome::Success((rest, x)),
            None => Outcome::Invalid(msg_assembly()),
        },
        (Outcome::Success(_), _) => Outcome::Invalid(msg_assembly()),
        (Outcome::Incomplete, _) => Outcome::Incomplete,
        (Outcome::Invalid(m), _) => Outcome::Invalid(m),
    }
}

/// Reads the body of a double-quoted run from the start of `text` (the
/// opening quote already read), after the text `curr_expr`.
pub fn parse_quoted_expr(text: &str, curr_expr: String) -> (r: ParseRes<(usize, String)>)
    ensures
        res_text(r) == quoted_spec(text@, curr_expr@),
{
    let cs = chars_of(text);
    proof {
        lemma_dqs_empty();
    }
    let (result, rest) = parse_double_quoted_expr(&cs, 0, curr_expr, Vec::new());
    match result {
        ParseRes::Success(Token::DoubleQuote(dqs)) => {
            let mut out = String::new();
            if append_dq_text(&dqs, &mut out) {
                assert(out@ =~= dq_text(dqs_view(dqs@))->0);
                ParseRes::Success((rest, out))
            } else {
                ParseRes::Invalid("Error converting to parsed form".to_owned())
            }
        },
        ParseRes::Success(_) => ParseRes::Invalid("Error converting to parsed form".to_owned()),
        ParseRes::Incomplete => ParseRes::Incomplete,
        ParseRes::Invalid(err) => ParseRes::Invalid(err),
    }
}

} // verus!
