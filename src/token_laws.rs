use vstd::prelude::*;
use crate::lexer::{
    atom_char, atom_len, is_paren, lemma_atom_len_ge, lemma_atom_run, tokens_of, white_space,
};

verus! {

/// A single parenthesis, or a non-empty run of atom characters.
pub open spec fn token_shape(t: Seq<char>) -> bool {
    ||| t == seq!['(']
    ||| t == seq![')']
    ||| t.len() > 0 && forall|j: int| 0 <= j < t.len() ==> atom_char(#[trigger] t[j])
}

/// The text with its whitespace taken out.
pub open spec fn strip_white_space(s: Seq<char>) -> Seq<char>
    decreases s.len(),
{
    if s.len() == 0 {
        Seq::empty()
    } else {
        (if white_space(s[0]) {
            Seq::empty()
        } else {
            seq![s[0]]
        }) + strip_white_space(s.drop_first())
    }
}

/// The tokens written one after the other.
pub open spec fn concat_tokens(ts: Seq<Seq<char>>) -> Seq<char>
    decreases ts.len(),
{
    if ts.len() == 0 {
        Seq::empty()
    } else {
        ts[0] + concat_tokens(ts.drop_first())
    }
}

/// How many times the character `c` occurs in the text.
pub open spec fn count_char(s: Seq<char>, c: char) -> nat
    decreases s.len(),
{
    if s.len() == 0 {
        0
    } else {
        (if s[0] == c {
            1nat
        } else {
            0nat
        }) + count_char(s.drop_first(), c)
    }
}

/// How many of the tokens are the one-character text `c`.
pub open spec fn count_token(ts: Seq<Seq<char>>, c: char) -> nat
    decreases ts.len(),
{
    if ts.len() == 0 {
        0
    } else {
        (if ts[0] == seq![c] {
            1nat
        } else {
            0nat
        }) + count_token(ts.drop_first(), c)
    }
}

/// The tokens written with one space between each two.
pub open spec fn join_spaced(ts: Seq<Seq<char>>) -> Seq<char>
    decreases ts.len(),
{
    if ts.len() == 0 {
        Seq::empty()
    } else if ts.len() == 1 {
        ts[0]
    } else {
        ts[0] + seq![' '] + join_spaced(ts.drop_first())
    }
}

/// A run of atom characters at the start stays whole when whitespace is
/// taken out, and holds no parenthesis.
proof fn lemma_skip_atom_run(s: Seq<char>, m: int, c: char)
    requires
        0 <= m <= s.len(),
        is_paren(c),
        forall|j: int| 0 <= j < m ==> atom_char(#[trigger] s[j]),
    ensures
        strip_white_space(s) == s.take(m) + strip_white_space(s.skip(m)),
        count_char(s, c) == count_char(s.skip(m), c),
    decreases m,
{
    if m == 0 {
        assert(s.skip(0) =~= s);
        assert(s.take(0) + strip_white_space(s) =~= strip_white_space(s));
    } else {
        let t = s.drop_first();
        assert forall|j: int| 0 <= j < m - 1 implies atom_char(#[trigger] t[j]) by {
            assert(t[j] == s[j + 1]);
        }
        lemma_skip_atom_run(t, m - 1, c);
        assert(t.skip(m - 1) =~= s.skip(m));
        assert(s.take(m) =~= seq![s[0]] + t.take(m - 1));
        assert(atom_char(s[0]));
    }
}

/// The shape, order and parenthesis counts of the tokens, for one
/// parenthesis character `c`.
proof fn lemma_token_facts(s: Seq<char>, c: char)
    requires
        is_paren(c),
    ensures
        forall|i: int| 0 <= i < tokens_of(s).len() ==> token_shape(#[trigger] tokens_of(s)[i]),
        concat_tokens(tokens_of(s)) == strip_white_space(s),
        count_token(tokens_of(s), c) == count_char(s, c),
    decreases s.len(),
{
    if s.len() > 0 {
        let ts = tokens_of(s);
        if is_paren(s[0]) {
            let rest = s.drop_first();
            lemma_token_facts(rest, c);
            assert(ts.drop_first() =~= tokens_of(rest));
            assert(ts[0] == seq![s[0]]);
            if s[0] == '(' {
                assert(seq![s[0]] =~= seq!['(']);
            } else {
                assert(seq![s[0]] =~= seq![')']);
            }
            if s[0] != c {
                assert(seq![s[0]] != seq![c]) by {
                    assert(seq![s[0]][0] != seq![c][0]);
                }
            }
            assert forall|i: int| 0 <= i < ts.len() implies token_shape(#[trigger] ts[i]) by {
                if i > 0 {
                    assert(ts[i] == tokens_of(rest)[i - 1]);
                }
            }
        } else if white_space(s[0]) {
            lemma_token_facts(s.drop_first(), c);
        } else {
            let n = atom_len(s) as int;
            lemma_atom_run(s);
            let tok = s.take(n);
            let rest = s.skip(n);
            lemma_token_facts(rest, c);
            lemma_skip_atom_run(s, n, c);
            assert(ts[0] == tok);
            assert(ts.drop_first() =~= tokens_of(rest));
            assert(tok != seq![c]) by {
                assert(tok[0] != seq![c][0]);
            }
            assert forall|i: int| 0 <= i < ts.len() implies token_shape(#[trigger] ts[i]) by {
                if i > 0 {
                    assert(ts[i] == tokens_of(rest)[i - 1]);
                } else {
                    assert forall|j: int| 0 <= j < tok.len() implies atom_char(
                        #[trigger] tok[j],
                    ) by {
                        assert(tok[j] == s[j]);
                    }
                }
            }
        }
    }
}

/// Tokens are laid out as the text has them: each token is a single
/// parenthesis or a non-empty run of characters that are neither whitespace
/// nor a parenthesis; written one after the other they give the text
/// without its whitespace; and there is one `(` token for each `(` of the
/// text, one `)` token for each `)`.
pub proof fn lemma_token_layout(s: Seq<char>)
    ensures
        forall|i: int| 0 <= i < tokens_of(s).len() ==> token_shape(#[trigger] tokens_of(s)[i]),
        concat_tokens(tokens_of(s)) == strip_white_space(s),
        count_token(tokens_of(s), '(') == count_char(s, '('),
        count_token(tokens_of(s), ')') == count_char(s, ')'),
{
    lemma_token_facts(s, '(');
    lemma_token_facts(s, ')');
}

/// A token followed by whitespace or the end of the text is read back as
/// that token.
proof fn lemma_tokens_of_token_then(t: Seq<char>, tail: Seq<char>)
    requires
        token_shape(t),
        tail.len() == 0 || white_space(tail[0]),
    ensures
        tokens_of(t + tail) == seq![t] + tokens_of(tail),
{
    let s = t + tail;
    assert(s[0] == t[0]);
    if t == seq!['('] || t == seq![')'] {
        assert(s.drop_first() =~= tail);
        assert(seq![s[0]] =~= t);
    } else {
        assert(atom_char(t[0]));
        assert forall|j: int| 0 <= j < t.len() implies atom_char(#[trigger] s[j]) by {
            assert(s[j] == t[j]);
        }
        if tail.len() > 0 {
            assert(s[t.len() as int] == tail[0]);
        }
        lemma_atom_len_ge(s, t.len() as int);
        assert(s.take(t.len() as int) =~= t);
        assert(s.skip(t.len() as int) =~= tail);
    }
}

/// Well-shaped tokens written with single spaces are read back as they were.
proof fn lemma_tokens_of_joined(ts: Seq<Seq<char>>)
    requires
        forall|i: int| 0 <= i < ts.len() ==> token_shape(#[trigger] ts[i]),
    ensures
        tokens_of(join_spaced(ts)) == ts,
    decreases ts.len(),
{
    if ts.len() == 1 {
        lemma_tokens_of_token_then(ts[0], Seq::empty());
        assert(ts[0] + Seq::<char>::empty() =~= ts[0]);
        assert(seq![ts[0]] + tokens_of(Seq::<char>::empty()) =~= ts);
    } else if ts.len() > 1 {
        let rest = ts.drop_first();
        assert forall|i: int| 0 <= i < rest.len() implies token_shape(#[trigger] rest[i]) by {
            assert(rest[i] == ts[i + 1]);
        }
        lemma_tokens_of_joined(rest);
        let tail = seq![' '] + join_spaced(rest);
        assert(ts[0] + seq![' '] + join_spaced(rest) =~= ts[0] + tail);
        assert(tail[0] == ' ');
        assert(white_space(' '));
        lemma_tokens_of_token_then(ts[0], tail);
        assert(tail.drop_first() =~= join_spaced(rest));
        assert(seq![ts[0]] + rest =~= ts);
    }
}

/// Tokenising again the tokens written with one space between each two
/// gives the same tokens.
pub proof fn lemma_retokenise_joined(s: Seq<char>)
    ensures
        tokens_of(join_spaced(tokens_of(s))) == tokens_of(s),
{
    lemma_token_facts(s, '(');
    lemma_tokens_of_joined(tokens_of(s));
}

/// Runs of atom characters stay whole: where the text is cut inside such a
/// run, reading the whole text gives the first part's tokens and the second
/// part's, but with the first part's last token and the second part's first
/// token joined into one.
pub proof fn lemma_runs_stay_whole(p: Seq<char>, q: Seq<char>)
    requires
        p.len() > 0,
        q.len() > 0,
        atom_char(p.last()),
        atom_char(q[0]),
    ensures
        tokens_of(p).len() > 0,
        tokens_of(q).len() > 0,
        tokens_of(p + q) == tokens_of(p).drop_last() + seq![
            tokens_of(p).last() + tokens_of(q)[0],
        ] + tokens_of(q).drop_first(),
    decreases p.len(),
{
    let s = p + q;
    let (tp, tq, ts) = (tokens_of(p), tokens_of(q), tokens_of(s));
    assert(s[0] == p[0]);
    lemma_atom_run(q);
    let m = atom_len(q) as int;
    assert(tq[0] == q.take(m));
    assert(tq.drop_first() =~= tokens_of(q.skip(m)));
    if is_paren(p[0]) || white_space(p[0]) {
        let rest = p.drop_first();
        assert(rest.last() == p.last());
        lemma_runs_stay_whole(rest, q);
        assert(s.drop_first() =~= rest + q);
        if is_paren(p[0]) {
            assert(tp =~= seq![seq![p[0]]] + tokens_of(rest));
            assert(tp.drop_last() =~= seq![seq![p[0]]] + tokens_of(rest).drop_last());
            assert(ts =~= seq![seq![p[0]]] + tokens_of(rest + q));
        }
    } else {
        lemma_atom_run(p);
        let n = atom_len(p) as int;
        if n < p.len() {
            let rest = p.skip(n);
            assert(rest.last() == p.last());
            assert forall|j: int| 0 <= j < n implies atom_char(#[trigger] s[j]) by {
                assert(s[j] == p[j]);
            }
            assert(s[n] == p[n]);
            lemma_atom_len_ge(s, n);
            lemma_runs_stay_whole(rest, q);
            assert(s.take(n) =~= p.take(n));
            assert(s.skip(n) =~= rest + q);
            assert(tp =~= seq![p.take(n)] + tokens_of(rest));
            assert(tp.drop_last() =~= seq![p.take(n)] + tokens_of(rest).drop_last());
            assert(ts =~= seq![p.take(n)] + tokens_of(rest + q));
        } else {
            let k = p.len() + m;
            assert forall|j: int| 0 <= j < k implies atom_char(#[trigger] s[j]) by {
                if j >= p.len() {
                    assert(s[j] == q[j - p.len()]);
                }
            }
            if k < s.len() {
                assert(s[k] == q[m]);
            }
            lemma_atom_len_ge(s, k);
            assert(s.take(k) =~= p + q.take(m));
            assert(s.skip(k) =~= q.skip(m));
            assert(p.skip(n) =~= Seq::<char>::empty());
            assert(p.take(n) =~= p);
            assert(tp =~= seq![p]);
            assert(ts =~= seq![p + q.take(m)] + tokens_of(q.skip(m)));
        }
    }
}

} // verus!
