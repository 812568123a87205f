use vstd::prelude::*;

use crate::expand::{
    end_word, expand_from, field_split, split_init, split_text, split_tokens, Split,
};
use crate::lexer::{
    advances, dq_escape, dq_piece, flush, flush_dq, lex_dollar, lex_double, lex_unquoted,
    skip_comment,
};
use crate::outcome::{msg_unexpected_paren, Outcome};
use crate::parser::{
    assemble, command_spec, dq_text, lemma_lex_single, no_quote, process, quoted_spec, token_text,
    word_text,
};
use crate::token::{SDQ, SToken};

verus! {

/// A character with no meaning to the lexer outside quotes, other than a
/// space: not a quote, backslash, `$`, `#`, `*`, `~`, `)` or newline.
pub open spec fn ordinary(c: char) -> bool {
    c != '\'' && c != '"' && c != '\\' && c != '$' && c != '#' && c != '*' && c != '~' && c != ')'
        && c != '\n'
}

pub open spec fn all_ordinary(s: Seq<char>, a: int, b: int) -> bool {
    forall|k: int| a <= k < b ==> ordinary(#[trigger] s[k])
}

/// Ordinary characters only accumulate into the pending unquoted text.
proof fn lemma_lex_ordinary(
    s: Seq<char>,
    i: int,
    j: int,
    cur: Seq<char>,
    toks: Seq<SToken>,
    sub: bool,
)
    requires
        0 <= i <= j <= s.len(),
        all_ordinary(s, i, j),
    ensures
        lex_unquoted(s, i, cur, toks, sub) == lex_unquoted(s, j, cur + s.subrange(i, j), toks, sub),
    decreases j - i,
{
    if i == j {
        assert(cur + s.subrange(i, j) =~= cur);
    } else {
        assert(ordinary(s[i]));
        lemma_lex_ordinary(s, i + 1, j, cur.push(s[i]), toks, sub);
        assert(cur.push(s[i]) + s.subrange(i + 1, j) =~= cur + s.subrange(i, j));
    }
}

/// Text without spaces stays pending in field splitting.
proof fn lemma_split_no_space(x: Seq<char>)
    requires
        forall|k: int| 0 <= k < x.len() ==> x[k] != ' ',
    ensures
        split_text(split_init(), x) == (Split { words: seq![], current: seq![], pending: x }),
    decreases x.len(),
{
    if x.len() > 0 {
        lemma_split_no_space(x.drop_last());
        assert(x.drop_last().push(x.last()) =~= x);
    } else {
        assert(x =~= Seq::<char>::empty());
    }
}

/// A line of ordinary characters without spaces comes out of parsing as
/// the same text: one word holding it, or no word at all when it is empty.
pub proof fn lemma_literal_passthrough(t: Seq<char>)
    requires
        forall|k: int| 0 <= k < t.len() ==> ordinary(#[trigger] t[k]) && t[k] != ' ',
    ensures
        command_spec(t.push('\n')) == Outcome::Success(
            if t.len() == 0 {
                Seq::<Seq<char>>::empty()
            } else {
                seq![t]
            },
        ),
{
    let s = t.push('\n');
    let n = t.len() as int;
    assert(all_ordinary(s, 0, n)) by {
        assert forall|k: int| 0 <= k < n implies ordinary(#[trigger] s[k]) by {
            assert(s[k] == t[k]);
        }
    }
    lemma_lex_ordinary(s, 0, n, seq![], seq![], false);
    assert(Seq::<char>::empty() + s.subrange(0, n) =~= t);
    let toks = flush(t, seq![]);
    assert(lex_unquoted(s, 0, seq![], seq![], false).0 == Outcome::Success(toks));
    if n == 0 {
        assert(toks =~= Seq::<SToken>::empty());
        assert(split_tokens(split_init(), toks) == split_init());
        assert(field_split(toks) =~= Seq::<Seq<SToken>>::empty());
        assert(assemble(field_split(toks)) == Outcome::Success(Seq::<Seq<char>>::empty())) by {
            assert(Seq::new(0, |i: int| word_text(field_split(toks)[i])->0) =~= Seq::<
                Seq<char>,
            >::empty());
        }
    } else {
        assert(toks == seq![SToken::Unquoted(t)]);
        assert(expand_from(toks, 1) == Outcome::Success(toks));
        assert(expand_from(toks, 0) == Outcome::Success(toks));
        lemma_split_no_space(t);
        assert(toks.drop_last() =~= Seq::<SToken>::empty());
        assert(split_tokens(split_init(), Seq::<SToken>::empty()) == split_init());
        assert(split_tokens(split_init(), toks) == split_text(split_init(), t));
        let w = seq![SToken::Unquoted(t)];
        assert(flush(t, seq![]) == w);
        assert(field_split(toks) == seq![w]) by {
            assert(Seq::<Seq<SToken>>::empty().push(w) =~= seq![w]);
        }
        assert(w.drop_last() =~= Seq::<SToken>::empty());
        assert(word_text(w) == Some(t)) by {
            assert(token_text(w.last()) == Some(t));
            assert(word_text(Seq::<SToken>::empty()) == Some(Seq::<char>::empty()));
            assert(Seq::<char>::empty() + t =~= t);
        }
        let words = seq![w];
        assert(forall|i: int| 0 <= i < words.len() ==> (#[trigger] word_text(words[i])) is Some);
        assert(Seq::new(1, |i: int| word_text(words[i])->0) =~= seq![t]);
        assert(process(toks) == Outcome::Success(seq![t]));
    }
}

/// A `)` that no `$(` opened rejects the line: here, one that follows
/// ordinary characters at the start of the input.
pub proof fn lemma_unmatched_paren(p: Seq<char>, q: Seq<char>)
    requires
        forall|k: int| 0 <= k < p.len() ==> ordinary(#[trigger] p[k]),
    ensures
        command_spec(p + seq![')'] + q) == Outcome::<Seq<Seq<char>>>::Invalid(msg_unexpected_paren()),
{
    let s = p + seq![')'] + q;
    let n = p.len() as int;
    assert(all_ordinary(s, 0, n)) by {
        assert forall|k: int| 0 <= k < n implies ordinary(#[trigger] s[k]) by {
            assert(s[k] == p[k]);
        }
    }
    lemma_lex_ordinary(s, 0, n, seq![], seq![], false);
    assert(s[n] == ')');
}

/// `a` is the text `p` followed by `b`, or both are absent.
pub open spec fn prefixed(p: Seq<char>, a: Option<Seq<char>>, b: Option<Seq<char>>) -> bool {
    match (a, b) {
        (Some(x), Some(y)) => x == p + y,
        (None, None) => true,
        _ => false,
    }
}

/// Text of a double-quoted run read so far: its pieces, then the pending text.
pub open spec fn pending_text(cur: Seq<char>, dqs: Seq<SDQ>) -> Option<Seq<char>> {
    match dq_text(dqs) {
        Some(x) => Some(x + cur),
        None => None,
    }
}

proof fn lemma_flush_dq_text(cur: Seq<char>, dqs: Seq<SDQ>)
    ensures
        dq_text(flush_dq(cur, dqs)) == pending_text(cur, dqs),
{
    if cur.len() > 0 {
        assert(dqs.push(SDQ::Str(cur)).drop_last() =~= dqs);
    } else {
        assert(cur =~= Seq::<char>::empty());
        match dq_text(dqs) {
            Some(x) => assert(x + cur =~= x),
            None => {},
        }
    }
}

proof fn lemma_push_piece(p: Seq<char>, d1: Seq<SDQ>, d2: Seq<SDQ>, piece: SDQ)
    requires
        prefixed(p, dq_text(d1), dq_text(d2)),
    ensures
        prefixed(p, pending_text(seq![], d1.push(piece)), pending_text(seq![], d2.push(piece))),
{
    assert(d1.push(piece).drop_last() =~= d1);
    assert(d2.push(piece).drop_last() =~= d2);
    match (dq_text(d1), dq_text(d2), piece) {
        (Some(a1), Some(a2), SDQ::Str(x)) => {
            assert(a1 + x + Seq::<char>::empty() =~= p + (a2 + x + Seq::<char>::empty()));
        },
        _ => {},
    }
}

/// Two reads of the same double-quoted text agree, the first one's text
/// being `p` followed by the second one's.
pub open spec fn dq_results_prefixed(
    p: Seq<char>,
    r1: (Outcome<SToken>, int),
    r2: (Outcome<SToken>, int),
) -> bool {
    r1.1 == r2.1 && match (r1.0, r2.0) {
        (Outcome::Success(SToken::DoubleQuote(a)), Outcome::Success(SToken::DoubleQuote(b))) => {
            prefixed(p, dq_text(a), dq_text(b))
        },
        (Outcome::Incomplete, Outcome::Incomplete) => true,
        (Outcome::Invalid(m1), Outcome::Invalid(m2)) => m1 == m2,
        _ => false,
    }
}

proof fn lemma_double_prefixed(
    p: Seq<char>,
    s: Seq<char>,
    i: int,
    c1: Seq<char>,
    d1: Seq<SDQ>,
    c2: Seq<char>,
    d2: Seq<SDQ>,
)
    requires
        0 <= i <= s.len(),
        prefixed(p, pending_text(c1, d1), pending_text(c2, d2)),
    ensures
        dq_results_prefixed(p, lex_double(s, i, c1, d1), lex_double(s, i, c2, d2)),
    decreases s.len() - i,
{
    if i < s.len() {
        if s[i] == '\\' {
            if i + 1 < s.len() {
                let e = dq_escape(s[i + 1]);
                match (dq_text(d1), dq_text(d2)) {
                    (Some(x1), Some(x2)) => {
                        assert(x1 + (c1 + e) =~= x1 + c1 + e);
                        assert(x2 + (c2 + e) =~= x2 + c2 + e);
                        assert(p + (x2 + c2) + e =~= p + (x2 + c2 + e));
                    },
                    _ => {},
                }
                lemma_double_prefixed(p, s, i + 2, c1 + e, d1, c2 + e, d2);
            }
        } else if s[i] == '"' {
            lemma_flush_dq_text(c1, d1);
            lemma_flush_dq_text(c2, d2);
        } else if s[i] == '$' {
            let (r, rest) = lex_dollar(s, i + 1);
            match r {
                Outcome::Success(t) => match dq_piece(t) {
                    Some(piece) => if advances(s, i, rest) {
                        lemma_flush_dq_text(c1, d1);
                        lemma_flush_dq_text(c2, d2);
                        lemma_push_piece(p, flush_dq(c1, d1), flush_dq(c2, d2), piece);
                        lemma_double_prefixed(
                            p,
                            s,
                            rest,
                            seq![],
                            flush_dq(c1, d1).push(piece),
                            seq![],
                            flush_dq(c2, d2).push(piece),
                        );
                    },
                    None => {},
                },
                _ => {},
            }
        } else {
            let ch = s[i];
            match (dq_text(d1), dq_text(d2)) {
                (Some(x1), Some(x2)) => {
                    assert(x1 + c1.push(ch) =~= (x1 + c1).push(ch));
                    assert(x2 + c2.push(ch) =~= (x2 + c2).push(ch));
                    assert(p + (x2 + c2).push(ch) =~= (p + (x2 + c2)).push(ch));
                },
                _ => {},
            }
            lemma_double_prefixed(p, s, i + 1, c1.push(ch), d1, c2.push(ch), d2);
        }
    }
}

/// Reading a double-quoted run after a text `p` gives `p` followed by what
/// reading it alone gives; the characters read and any failure are the same.
pub proof fn lemma_quoted_accumulates(s: Seq<char>, p: Seq<char>)
    ensures
        match (quoted_spec(s, p), quoted_spec(s, seq![])) {
            (Outcome::Success((n1, x1)), Outcome::Success((n2, x2))) => n1 == n2 && x1 == p + x2,
            (Outcome::Incomplete, Outcome::Incomplete) => true,
            (Outcome::Invalid(m1), Outcome::Invalid(m2)) => m1 == m2,
            _ => false,
        },
{
    assert(dq_text(Seq::<SDQ>::empty()) == Some(Seq::<char>::empty()));
    assert(Seq::<char>::empty() + p =~= p + (Seq::<char>::empty() + Seq::<char>::empty()));
    lemma_double_prefixed(p, s, 0, p, seq![], seq![], seq![]);
}

/// Every finished word holds at least one token.
pub open spec fn words_nonempty(st: Split) -> bool {
    forall|i: int| 0 <= i < st.words.len() ==> (#[trigger] st.words[i]).len() > 0
}

proof fn lemma_end_word_nonempty(st: Split)
    requires
        words_nonempty(st),
    ensures
        words_nonempty(end_word(st)),
{
    let w = flush(st.pending, st.current);
    if w.len() > 0 {
        assert forall|i: int| 0 <= i < st.words.push(w).len() implies (#[trigger] st.words.push(
            w,
        )[i]).len() > 0 by {
            if i < st.words.len() {
                assert(st.words.push(w)[i] == st.words[i]);
            }
        }
    }
}

proof fn lemma_split_text_nonempty(st: Split, x: Seq<char>)
    requires
        words_nonempty(st),
    ensures
        words_nonempty(split_text(st, x)),
    decreases x.len(),
{
    if x.len() > 0 {
        lemma_split_text_nonempty(st, x.drop_last());
        lemma_end_word_nonempty(split_text(st, x.drop_last()));
    }
}

proof fn lemma_split_tokens_nonempty(ts: Seq<SToken>)
    ensures
        words_nonempty(split_tokens(split_init(), ts)),
    decreases ts.len(),
{
    if ts.len() > 0 {
        lemma_split_tokens_nonempty(ts.drop_last());
        let st = split_tokens(split_init(), ts.drop_last());
        match ts.last() {
            SToken::Unquoted(x) => lemma_split_text_nonempty(st, x),
            _ => {},
        }
    }
}

/// Field splitting never makes an empty word: a run of spaces only ends
/// the word in progress, if there is one.
pub proof fn lemma_no_empty_words(ts: Seq<SToken>)
    ensures
        forall|i: int| 0 <= i < field_split(ts).len() ==> (#[trigger] field_split(ts)[i]).len() > 0,
{
    lemma_split_tokens_nonempty(ts);
    lemma_end_word_nonempty(split_tokens(split_init(), ts));
}

proof fn lemma_skip_comment(s: Seq<char>, i: int, j: int)
    requires
        0 <= i <= j < s.len(),
        s[j] == '\n',
        forall|k: int| i <= k < j ==> s[k] != '\n',
    ensures
        skip_comment(s, i) == j,
    decreases j - i,
{
    if i < j {
        lemma_skip_comment(s, i + 1, j);
    }
}

/// A comment is dropped with everything after it on its line: a line of
/// ordinary characters (spaces allowed) followed by `#` and any text up to
/// the newline parses as the line without the comment.
pub proof fn lemma_comment_stripped(p: Seq<char>, c: Seq<char>)
    requires
        forall|k: int| 0 <= k < p.len() ==> ordinary(#[trigger] p[k]),
        forall|k: int| 0 <= k < c.len() ==> #[trigger] c[k] != '\n',
    ensures
        command_spec(p + seq!['#'] + c + seq!['\n']) == command_spec(p + seq!['\n']),
{
    let s1 = p + seq!['#'] + c + seq!['\n'];
    let s2 = p + seq!['\n'];
    let n = p.len() as int;
    assert(all_ordinary(s1, 0, n)) by {
        assert forall|k: int| 0 <= k < n implies ordinary(#[trigger] s1[k]) by {
            assert(s1[k] == p[k]);
        }
    }
    assert(all_ordinary(s2, 0, n)) by {
        assert forall|k: int| 0 <= k < n implies ordinary(#[trigger] s2[k]) by {
            assert(s2[k] == p[k]);
        }
    }
    lemma_lex_ordinary(s1, 0, n, seq![], seq![], false);
    lemma_lex_ordinary(s2, 0, n, seq![], seq![], false);
    assert(Seq::<char>::empty() + s1.subrange(0, n) =~= p);
    assert(Seq::<char>::empty() + s2.subrange(0, n) =~= p);
    let end = s1.len() - 1;
    assert forall|k: int| n + 1 <= k < end implies s1[k] != '\n' by {
        assert(s1[k] == c[k - n - 1]);
    }
    lemma_skip_comment(s1, n + 1, end);
    let done = flush(p, seq![]);
    assert(lex_unquoted(s1, end, seq![], done, false).0 == Outcome::Success(done)) by {
        assert(flush(seq![], done) == done);
    }
}

/// A single quote that is not closed leaves the line incomplete, whatever
/// follows it (newlines included): more input must be read and the whole
/// text parsed again.
pub proof fn lemma_open_quote_incomplete(p: Seq<char>, q: Seq<char>)
    requires
        forall|k: int| 0 <= k < p.len() ==> ordinary(#[trigger] p[k]),
        forall|k: int| 0 <= k < q.len() ==> #[trigger] q[k] != '\'',
    ensures
        command_spec(p + seq!['\''] + q) == Outcome::<Seq<Seq<char>>>::Incomplete,
{
    let s = p + seq!['\''] + q;
    let n = p.len() as int;
    assert(all_ordinary(s, 0, n)) by {
        assert forall|k: int| 0 <= k < n implies ordinary(#[trigger] s[k]) by {
            assert(s[k] == p[k]);
        }
    }
    lemma_lex_ordinary(s, 0, n, seq![], seq![], false);
    assert(s[n] == '\'');
    lemma_lex_single(s, n + 1, seq![]);
    assert(no_quote(s, n + 1, s.len() as int)) by {
        assert forall|k: int| n + 1 <= k < s.len() implies s[k] != '\'' by {
            assert(s[k] == q[k - n - 1]);
        }
    }
}

} // verus!
