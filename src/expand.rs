use vstd::prelude::*;

use crate::lexer::flush;
use crate::outcome::{msg_arith, msg_param, res_toks, Outcome, ParseRes};
use crate::text::{chars_of, push_char};
use crate::token::{
    lemma_toks_empty, lemma_toks_push, tok_view, toks_view, words_view, ExpToken, SExp, SToken,
    Token,
};

verus! {

/// The message with which an expansion that cannot be resolved is rejected.
pub open spec fn unsupported(t: SToken) -> Option<Seq<char>> {
    match t {
        SToken::Expansion(SExp::Param(_)) => Some(msg_param()),
        SToken::Expansion(SExp::Arith(_)) => Some(msg_arith()),
        _ => None,
    }
}

/// Expansion resolution from position `i` on: the first parameter or
/// arithmetic expansion rejects the line; otherwise the tokens are kept.
pub open spec fn expand_from(toks: Seq<SToken>, i: int) -> Outcome<Seq<SToken>>
    decreases toks.len() - i,
{
    if i < 0 || i >= toks.len() {
        Outcome::Success(toks)
    } else {
        match unsupported(toks[i]) {
            Some(m) => Outcome::Invalid(m),
            None => expand_from(toks, i + 1),
        }
    }
}

/// State of field splitting: the finished words, the tokens of the word in
/// progress, and the unquoted text not yet placed in it.
pub struct Split {
    pub words: Seq<Seq<SToken>>,
    pub current: Seq<SToken>,
    pub pending: Seq<char>,
}

pub open spec fn split_init() -> Split {
    Split { words: seq![], current: seq![], pending: seq![] }
}

/// Ends the word in progress, if it holds anything.
pub open spec fn end_word(st: Split) -> Split {
    let w = flush(st.pending, st.current);
    Split {
        words: if w.len() > 0 { st.words.push(w) } else { st.words },
        current: seq![],
        pending: seq![],
    }
}

pub open spec fn split_char(st: Split, c: char) -> Split {
    if c == ' ' {
        end_word(st)
    } else {
        Split { words: st.words, current: st.current, pending: st.pending.push(c) }
    }
}

pub open spec fn split_text(st: Split, x: Seq<char>) -> Split
    decreases x.len(),
{
    if x.len() == 0 {
        st
    } else {
        split_char(split_text(st, x.drop_last()), x.last())
    }
}

/// Unquoted text is split at spaces; any other token joins the word in progress.
pub open spec fn split_token(st: Split, t: SToken) -> Split {
    match t {
        SToken::Unquoted(x) => split_text(st, x),
        _ => Split { words: st.words, current: flush(st.pending, st.current).push(t), pending: seq![] },
    }
}

pub open spec fn split_tokens(st: Split, ts: Seq<SToken>) -> Split
    decreases ts.len(),
{
    if ts.len() == 0 {
        st
    } else {
        split_token(split_tokens(st, ts.drop_last()), ts.last())
    }
}

/// Field splitting: the words of a token list.
pub open spec fn field_split(ts: Seq<SToken>) -> Seq<Seq<SToken>> {
    end_word(split_tokens(split_init(), ts)).words
}

pub open spec fn split_view(words: Seq<Vec<Token>>, current: Seq<Token>, pending: Seq<char>) -> Split {
    Split { words: words_view(words), current: toks_view(current), pending }
}

proof fn lemma_words_push(s: Seq<Vec<Token>>, w: Vec<Token>)
    ensures
        words_view(s.push(w)) == words_view(s).push(toks_view(w@)),
{
    assert(words_view(s.push(w)) =~= words_view(s).push(toks_view(w@)));
}

/// Rejects parameter and arithmetic expansions, which cannot be resolved.
pub fn expr_expansion(ast: Vec<Token>) -> (r: ParseRes<Vec<Token>>)
    ensures
        res_toks(r) == expand_from(toks_view(ast@), 0),
{
    let ghost v = toks_view(ast@);
    let mut i: usize = 0;
    while i < ast.len()
        invariant
            v == toks_view(ast@),
            i <= ast@.len(),
            expand_from(v, i as int) == expand_from(v, 0),
        decreases ast@.len() - i,
    {
        assert(v[i as int] == tok_view(ast@[i as int]));
        match &ast[i] {
            Token::Expansion(ExpToken::Param(_)) => {
                return ParseRes::Invalid("Parameters not yet supported.".to_owned());
            },
            Token::Expansion(ExpToken::Arith(_)) => {
                return ParseRes::Invalid("Arithmetic expressions not yet supported.".to_owned());
            },
            _ => {},
        }
        i += 1;
    }
    ParseRes::Success(ast)
}

/// Ends the word in progress.
fn end_word_exec(result: &mut Vec<Vec<Token>>, current: &mut Vec<Token>, s: &mut String)
    ensures
        split_view(final(result)@, final(current)@, final(s)@) == end_word(
            split_view(old(result)@, old(current)@, old(s)@),
        ),
{
    let mut word: Vec<Token> = Vec::new();
    let mut pending = String::new();
    std::mem::swap(&mut word, current);
    std::mem::swap(&mut pending, s);
    proof {
        lemma_toks_empty();
    }
    if !pending.as_str().is_empty() {
        proof {
            lemma_toks_push(word@, Token::Unquoted(pending));
        }
        word.push(Token::Unquoted(pending));
    }
    if word.len() > 0 {
        proof {
            lemma_words_push(result@, word);
        }
        result.push(word);
    }
}

/// Field splitting: unquoted text is split at spaces, with no empty words;
/// every other token stays in the word in progress.
pub fn field_splitting(ast: Vec<Token>) -> (r: ParseRes<Vec<Vec<Token>>>)
    ensures
        r is Success,
        words_view(r->Success_0@) == field_split(toks_view(ast@)),
{
    let ghost v = toks_view(ast@);
    let total = ast.len();
    let ghost n = total as nat;
    let mut rest = ast;
    let mut result: Vec<Vec<Token>> = Vec::new();
    let mut current: Vec<Token> = Vec::new();
    let mut s = String::new();
    let mut k: usize = 0;
    proof {
        lemma_toks_empty();
        assert(words_view(result@) =~= Seq::<Seq<SToken>>::empty());
        assert(v.take(0) =~= Seq::<SToken>::empty());
    }
    while rest.len() > 0
        invariant
            n == v.len(),
            n == total,
            k + rest@.len() == n,
            toks_view(rest@) == v.subrange(k as int, n as int),
            split_view(result@, current@, s@) == split_tokens(split_init(), v.take(k as int)),
        decreases rest@.len(),
    {
        let ghost before = split_view(result@, current@, s@);
        proof {
            assert(toks_view(rest@)[0] == tok_view(rest@[0]));
            assert(v[k as int] == tok_view(rest@[0]));
        }
        let ghost rest_old = rest@;
        let token = rest.remove(0);
        proof {
            assert(rest@ =~= rest_old.subrange(1, rest_old.len() as int));
            assert forall|i: int| 0 <= i < rest@.len() implies toks_view(rest@)[i] == v[k + 1 + i] by {
                assert(toks_view(rest_old)[i + 1] == tok_view(rest_old[i + 1]));
                assert(v.subrange(k as int, n as int)[i + 1] == v[k + 1 + i]);
            }
            assert(toks_view(rest@) =~= v.subrange(k + 1, n as int));
            assert(v.take(k + 1).drop_last() =~= v.take(k as int));
            assert(split_tokens(split_init(), v.take(k + 1)) == split_token(before, v[k as int]));
        }
        let ghost tv = tok_view(token);
        assert(tv == v[k as int]);
        match token {
            Token::Unquoted(string) => {
                let xs = chars_of(string.as_str());
                let mut j: usize = 0;
                proof {
                    assert(xs@.take(0) =~= Seq::<char>::empty());
                }
                while j < xs.len()
                    invariant
                        j <= xs@.len(),
                        split_view(result@, current@, s@) == split_text(before, xs@.take(j as int)),
                    decreases xs@.len() - j,
                {
                    proof {
                        assert(xs@.take(j + 1).drop_last() =~= xs@.take(j as int));
                    }
                    let c = xs[j];
                    if c == ' ' {
                        end_word_exec(&mut result, &mut current, &mut s);
                    } else {
                        push_char(&mut s, c);
                    }
                    j += 1;
                }
                proof {
                    assert(xs@.take(xs@.len() as int) =~= xs@);
                    assert(tv == SToken::Unquoted(xs@));
                }
            },
            other => {
                proof {
                    lemma_toks_empty();
                }
                if !s.as_str().is_empty() {
                    let mut pending = String::new();
                    std::mem::swap(&mut pending, &mut s);
                    proof {
                        lemma_toks_push(current@, Token::Unquoted(pending));
                    }
                    current.push(Token::Unquoted(pending));
                }
                proof {
                    lemma_toks_push(current@, other);
                }
                current.push(other);
                assert(s@ =~= Seq::<char>::empty());
                assert(!(tv is Unquoted));
                assert(split_view(result@, current@, s@) == split_token(before, tv));
            },
        }
        k += 1;
    }
    proof {
        assert(v.take(n as int) =~= v);
    }
    end_word_exec(&mut result, &mut current, &mut s);
    ParseRes::Success(result)
}

/// Pathname expansion: the marker is carried through; words are unchanged.
pub fn pathname_expansion(ast: Vec<Vec<Token>>) -> (r: ParseRes<Vec<Vec<Token>>>)
    ensures
        r == ParseRes::Success(ast),
{
    ParseRes::Success(ast)
}

} // verus!
