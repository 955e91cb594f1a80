use vstd::prelude::*;
use crate::tree::{flat, well_formed, Expr, LexError};

verus! {

/// How a token moves the nesting depth.
pub open spec fn step(t: Seq<char>) -> int {
    if t == seq!['('] {
        1
    } else if t == seq![')'] {
        -1
    } else {
        0
    }
}

/// Starting at depth `d`, the depth never falls below zero and ends at zero.
pub open spec fn balanced_from(ts: Seq<Seq<char>>, d: int) -> bool
    decreases ts.len(),
{
    if ts.len() == 0 {
        d == 0
    } else {
        d + step(ts[0]) >= 0 && balanced_from(ts.drop_first(), d + step(ts[0]))
    }
}

/// Every `)` closes an earlier `(`, and every `(` is closed.
pub open spec fn balanced(ts: Seq<Seq<char>>) -> bool {
    balanced_from(ts, 0)
}

/// The tokens that a stack of unfinished lists stands for: each frame's
/// nodes followed by the `(` that opened the next one.
spec fn flat_frames<'a>(st: Seq<Vec<Expr<'a>>>) -> Seq<Seq<char>>
    decreases st.len(),
{
    if st.len() == 0 {
        Seq::empty()
    } else {
        flat_frames(st.drop_last()) + flat(st.last()@) + seq![seq!['(']]
    }
}

/// Adding a node at the end adds its tokens at the end.
proof fn lemma_flat_push<'a>(ns: Seq<Expr<'a>>, e: Expr<'a>)
    ensures
        flat(ns.push(e)) == flat(ns) + match e {
            Expr::Atom(t) => seq![t@],
            Expr::List(l) => seq![seq!['(']] + flat(l@) + seq![seq![')']],
        },
        well_formed(ns.push(e)) == (well_formed(ns) && match e {
            Expr::Atom(t) => t@ != seq!['('] && t@ != seq![')'],
            Expr::List(l) => well_formed(l@),
        }),
{
    assert(ns.push(e).drop_last() =~= ns);
    assert(ns.push(e).last() == e);
}

/// Balance from position `k` is one step and then balance from `k + 1`.
proof fn lemma_balanced_step(ts: Seq<Seq<char>>, k: int, d: int)
    requires
        0 <= k < ts.len(),
    ensures
        balanced_from(ts.skip(k), d) == (d + step(ts[k]) >= 0 && balanced_from(
            ts.skip(k + 1),
            d + step(ts[k]),
        )),
{
    assert(ts.skip(k).drop_first() =~= ts.skip(k + 1));
    assert(ts.skip(k)[0] == ts[k]);
}

/// Whether the token is the one-character text `c`.
fn token_is(t: &str, c: char) -> (r: bool)
    ensures
        r == (t@ == seq![c]),
{
    if t.unicode_len() == 1 {
        let first = t.get_char(0);
        if first == c {
            assert(t@ =~= seq![c]);
            true
        } else {
            false
        }
    } else {
        false
    }
}

/// Builds the tree that the tokens spell: a `(` opens a list, its `)` closes
/// it, any other token is an atom. The parentheses must be balanced;
/// otherwise the result is `UnbalancedParentheses`. On success the nodes are
/// written with exactly the given tokens, and no atom holds a parenthesis.
pub fn parser<'a>(v: Vec<&'a str>) -> (r: Result<Vec<Expr<'a>>, LexError>)
    ensures
        r is Ok <==> balanced(v@.map_values(|t: &str| t@)),
        r matches Ok(nodes) ==> flat(nodes@) == v@.map_values(|t: &str| t@) && well_formed(
            nodes@,
        ),
        r matches Err(e) ==> e == LexError::UnbalancedParentheses,
{
    let ghost ts = v@.map_values(|t: &str| t@);
    let mut current: Vec<Expr<'a>> = Vec::new();
    let mut stack: Vec<Vec<Expr<'a>>> = Vec::new();
    let mut k: usize = 0;
    assert(ts.take(0) =~= Seq::<Seq<char>>::empty());
    assert(ts.skip(0) =~= ts);
    while k < v.len()
        invariant
            ts == v@.map_values(|t: &str| t@),
            k <= v.len(),
            flat_frames(stack@) + flat(current@) == ts.take(k as int),
            forall|i: int| 0 <= i < stack.len() ==> well_formed(#[trigger] stack@[i]@),
            well_formed(current@),
            balanced(ts) == balanced_from(ts.skip(k as int), stack.len() as int),
        decreases v.len() - k,
    {
        let value = v[k];
        assert(value@ == ts[k as int]);
        proof {
            lemma_balanced_step(ts, k as int, stack.len() as int);
        }
        assert(ts.take(k + 1) =~= ts.take(k as int).push(ts[k as int]));
        if token_is(value, '(') {
            let ghost st = stack@;
            let ghost cur = current@;
            stack.push(current);
            current = Vec::new();
            assert(stack@.drop_last() =~= st);
            assert(flat(current@) =~= Seq::<Seq<char>>::empty());
            assert(flat_frames(stack@) + flat(current@) =~= flat_frames(st) + flat(cur) + seq![
                seq!['('],
            ]);
            assert forall|i: int| 0 <= i < stack.len() implies well_formed(
                #[trigger] stack@[i]@,
            ) by {
                if i < st.len() {
                    assert(stack@[i] == st[i]);
                }
            }
        } else if token_is(value, ')') {
            let ghost st = stack@;
            let ghost cur = current@;
            match stack.pop() {
                None => {
                    return Err(LexError::UnbalancedParentheses);
                },
                Some(prev) => {
                    let ghost p = prev@;
                    assert(prev == st.last());
                    assert(st.drop_last() =~= stack@);
                    assert(well_formed(st[st.len() - 1]@));
                    let mut prev = prev;
                    let closed = Expr::List(current);
                    proof {
                        lemma_flat_push(p, closed);
                        assert(flat_frames(st) == flat_frames(stack@) + flat(p) + seq![seq!['(']]);
                    }
                    prev.push(closed);
                    current = prev;
                    assert(flat(current@) == flat(p) + (seq![seq!['(']] + flat(cur) + seq![
                        seq![')'],
                    ]));
                    assert(flat_frames(stack@) + flat(current@) =~= flat_frames(st) + flat(cur)
                        + seq![seq![')']]);
                    assert forall|i: int| 0 <= i < stack.len() implies well_formed(
                        #[trigger] stack@[i]@,
                    ) by {
                        assert(stack@[i] == st[i]);
                    }
                },
            }
        } else {
            let ghost cur = current@;
            let atom = Expr::Atom(value);
            proof {
                lemma_flat_push(cur, atom);
            }
            current.push(atom);
            assert(flat_frames(stack@) + flat(current@) =~= flat_frames(stack@) + flat(cur)
                + seq![value@]);
        }
        k = k + 1;
    }
    assert(ts.skip(k as int) =~= Seq::<Seq<char>>::empty());
    assert(ts.take(k as int) =~= ts);
    if stack.len() > 0 {
        return Err(LexError::UnbalancedParentheses);
    }
    assert(flat_frames(stack@) =~= Seq::<Seq<char>>::empty());
    Ok(current)
}

} // verus!
