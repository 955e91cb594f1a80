use vstd::prelude::*;
use crate::lexer::{atom_char, atom_len, is_paren, lemma_atom_run, tokens_of, white_space};
use crate::parser::{balanced, balanced_from, step};
use crate::tree::{flat, well_formed, Expr};

verus! {

/// How a character moves the nesting depth of a text.
pub open spec fn char_step(c: char) -> int {
    if c == '(' {
        1
    } else if c == ')' {
        -1
    } else {
        0
    }
}

/// Starting at depth `d`, the text's parentheses never take the depth below
/// zero and leave it at zero.
pub open spec fn text_balanced_from(s: Seq<char>, d: int) -> bool
    decreases s.len(),
{
    if s.len() == 0 {
        d == 0
    } else {
        d + char_step(s[0]) >= 0 && text_balanced_from(s.drop_first(), d + char_step(s[0]))
    }
}

/// The parentheses of the text pair up, each `)` with an earlier `(`.
pub open spec fn text_balanced(s: Seq<char>) -> bool {
    text_balanced_from(s, 0)
}

/// How much the tokens move the depth in all.
pub open spec fn net(ts: Seq<Seq<char>>) -> int
    decreases ts.len(),
{
    if ts.len() == 0 {
        0
    } else {
        step(ts[0]) + net(ts.drop_first())
    }
}

/// How many `(` tokens open a pair at depth `d`, when the tokens start at
/// depth `d0`.
pub open spec fn opens_at(ts: Seq<Seq<char>>, d0: int, d: int) -> nat
    decreases ts.len(),
{
    if ts.len() == 0 {
        0
    } else {
        (if ts[0] == seq!['('] && d0 == d {
            1nat
        } else {
            0nat
        }) + opens_at(ts.drop_first(), d0 + step(ts[0]), d)
    }
}

/// How many list nodes stand at depth `d` (the given nodes being at depth 0).
pub open spec fn lists_at<'a>(ns: Seq<Expr<'a>>, d: int) -> nat
    decreases ns,
{
    if ns.len() == 0 {
        0
    } else {
        lists_at(ns.drop_last(), d) + match ns.last() {
            Expr::Atom(_) => 0nat,
            Expr::List(l) => (if d == 0 {
                1nat
            } else {
                0nat
            }) + lists_at(l@, d - 1),
        }
    }
}

/// How many tokens are atoms, that is neither `(` nor `)`.
pub open spec fn atom_tokens(ts: Seq<Seq<char>>) -> nat
    decreases ts.len(),
{
    if ts.len() == 0 {
        0
    } else {
        (if step(ts[0]) == 0 {
            1nat
        } else {
            0nat
        }) + atom_tokens(ts.drop_first())
    }
}

/// How many atom nodes stand in the nodes, at any depth.
pub open spec fn atoms_in<'a>(ns: Seq<Expr<'a>>) -> nat
    decreases ns,
{
    if ns.len() == 0 {
        0
    } else {
        atoms_in(ns.drop_last()) + match ns.last() {
            Expr::Atom(_) => 1nat,
            Expr::List(l) => atoms_in(l@),
        }
    }
}

/// Depth counts over two token sequences written one after the other.
proof fn lemma_concat_depths(a: Seq<Seq<char>>, b: Seq<Seq<char>>, d0: int, d: int)
    ensures
        net(a + b) == net(a) + net(b),
        atom_tokens(a + b) == atom_tokens(a) + atom_tokens(b),
        opens_at(a + b, d0, d) == opens_at(a, d0, d) + opens_at(b, d0 + net(a), d),
    decreases a.len(),
{
    if a.len() == 0 {
        assert(a + b =~= b);
    } else {
        assert((a + b).drop_first() =~= a.drop_first() + b);
        assert((a + b)[0] == a[0]);
        lemma_concat_depths(a.drop_first(), b, d0 + step(a[0]), d);
    }
}

/// Depth counts over a single token.
proof fn lemma_single(t: Seq<char>, d0: int, d: int)
    ensures
        net(seq![t]) == step(t),
        atom_tokens(seq![t]) == if step(t) == 0 {
            1nat
        } else {
            0nat
        },
        opens_at(seq![t], d0, d) == if t == seq!['('] && d0 == d {
            1nat
        } else {
            0nat
        },
{
    let p = seq![t];
    assert(p.drop_first() =~= Seq::<Seq<char>>::empty());
    assert(net(p.drop_first()) == 0);
    assert(atom_tokens(p.drop_first()) == 0);
    assert(opens_at(p.drop_first(), d0 + step(t), d) == 0);
    assert(p[0] == t);
}

/// The tokens of well-formed nodes leave the depth where it was, and open
/// one pair for each list, at that list's depth.
proof fn lemma_flat_depths<'a>(ns: Seq<Expr<'a>>, d0: int, d: int)
    requires
        well_formed(ns),
    ensures
        net(flat(ns)) == 0,
        atom_tokens(flat(ns)) == atoms_in(ns),
        opens_at(flat(ns), d0, d) == lists_at(ns, d - d0),
    decreases ns,
{
    if ns.len() > 0 {
        let init = ns.drop_last();
        lemma_flat_depths(init, d0, d);
        let part = match ns.last() {
            Expr::Atom(t) => seq![t@],
            Expr::List(l) => seq![seq!['(']] + flat(l@) + seq![seq![')']],
        };
        lemma_concat_depths(flat(init), part, d0, d);
        assert(flat(ns) == flat(init) + part);
        match ns.last() {
            Expr::Atom(t) => {
                lemma_single(t@, d0, d);
            },
            Expr::List(l) => {
                let open = seq![seq!['(']];
                let close = seq![seq![')']];
                lemma_flat_depths(l@, d0 + 1, d);
                lemma_concat_depths(open + flat(l@), close, d0, d);
                lemma_concat_depths(open, flat(l@), d0, d);
                lemma_single(seq!['('], d0, d);
                lemma_single(seq![')'], d0 + 1, d);
                assert(seq![')'] != seq!['(']) by {
                    assert(seq![')'][0] != seq!['('][0]);
                }
                assert(part == open + flat(l@) + close);
            },
        }
    }
}

/// A run of atom characters does not move the depth of a text.
proof fn lemma_text_skip_atom(s: Seq<char>, m: int, d: int)
    requires
        0 <= m <= s.len(),
        d >= 0,
        forall|j: int| 0 <= j < m ==> atom_char(#[trigger] s[j]),
    ensures
        text_balanced_from(s, d) == text_balanced_from(s.skip(m), d),
    decreases m,
{
    if m == 0 {
        assert(s.skip(0) =~= s);
    } else {
        let t = s.drop_first();
        assert(!is_paren(s[0]));
        assert forall|j: int| 0 <= j < m - 1 implies atom_char(#[trigger] t[j]) by {
            assert(t[j] == s[j + 1]);
        }
        lemma_text_skip_atom(t, m - 1, d);
        assert(t.skip(m - 1) =~= s.skip(m));
    }
}

/// Tokenising keeps the parentheses, so it keeps balance.
proof fn lemma_tokens_balanced(s: Seq<char>, d: int)
    requires
        d >= 0,
    ensures
        balanced_from(tokens_of(s), d) == text_balanced_from(s, d),
    decreases s.len(),
{
    if s.len() > 0 {
        let ts = tokens_of(s);
        if is_paren(s[0]) {
            let rest = tokens_of(s.drop_first());
            assert(ts.drop_first() =~= rest);
            assert(ts[0] == seq![s[0]]);
            if s[0] == '(' {
                assert(step(ts[0]) == 1);
            } else {
                assert(seq![s[0]] != seq!['(']) by {
                    assert(seq![s[0]][0] != seq!['('][0]);
                }
                assert(step(ts[0]) == -1);
            }
            if d + char_step(s[0]) >= 0 {
                lemma_tokens_balanced(s.drop_first(), d + char_step(s[0]));
            }
        } else if white_space(s[0]) {
            lemma_tokens_balanced(s.drop_first(), d);
        } else {
            let n = atom_len(s);
            lemma_atom_run(s);
            let tok = s.take(n as int);
            assert(tok[0] == s[0]);
            assert(tok != seq!['(']) by {
                assert(tok[0] != seq!['('][0]);
            }
            assert(tok != seq![')']) by {
                assert(tok[0] != seq![')'][0]);
            }
            assert(ts[0] == tok);
            assert(ts.drop_first() =~= tokens_of(s.skip(n as int)));
            lemma_tokens_balanced(s.skip(n as int), d);
            lemma_text_skip_atom(s, n as int, d);
        }
    }
}

/// On text whose parentheses pair up, the tokens are balanced too, so
/// `parser` succeeds on `tokeniser`'s result; and in the tree it returns
/// (the well-formed nodes written with those tokens) the lists at each
/// depth are as many as the pairs of parentheses opened at that depth.
pub proof fn lemma_lists_match_pairs_by_depth<'a>(s: Seq<char>, nodes: Seq<Expr<'a>>, d: int)
    requires
        text_balanced(s),
    ensures
        balanced(tokens_of(s)),
        flat(nodes) == tokens_of(s) && well_formed(nodes) ==> lists_at(nodes, d) == opens_at(
            tokens_of(s),
            0,
            d,
        ),
{
    lemma_tokens_balanced(s, 0);
    if well_formed(nodes) {
        lemma_flat_depths(nodes, 0, d);
    }
}

/// Every token that is not a parenthesis becomes exactly one atom node: the
/// well-formed nodes written with the tokens (what `parser` returns when it
/// succeeds) hold as many atoms as the tokens hold atom tokens.
pub proof fn lemma_atoms_match_atom_tokens<'a>(ts: Seq<Seq<char>>, nodes: Seq<Expr<'a>>)
    ensures
        flat(nodes) == ts && well_formed(nodes) ==> atoms_in(nodes) == atom_tokens(ts),
{
    if well_formed(nodes) {
        lemma_flat_depths(nodes, 0, 0);
    }
}

/// The two sequences hold the same nodes: atoms with the same text and
/// lists with the same children, at every depth.
pub open spec fn same_nodes<'a>(a: Seq<Expr<'a>>, b: Seq<Expr<'a>>) -> bool
    decreases a,
{
    if a.len() == 0 {
        b.len() == 0
    } else if b.len() == 0 {
        false
    } else {
        same_nodes(a.drop_last(), b.drop_last()) && match a.last() {
            Expr::Atom(s) => match b.last() {
                Expr::Atom(t) => s@ == t@,
                Expr::List(_) => false,
            },
            Expr::List(l) => match b.last() {
                Expr::Atom(_) => false,
                Expr::List(m) => same_nodes(l@, m@),
            },
        }
    }
}

/// No prefix of the tokens takes the depth below zero.
pub open spec fn prefixes_nonnegative(ts: Seq<Seq<char>>) -> bool {
    forall|k: int| 0 <= k <= ts.len() ==> net(#[trigger] ts.take(k)) >= 0
}

/// The tokens of well-formed nodes never go below the depth they start at.
proof fn lemma_flat_prefixes<'a>(ns: Seq<Expr<'a>>)
    requires
        well_formed(ns),
    ensures
        prefixes_nonnegative(flat(ns)),
        ns.len() > 0 ==> flat(ns).len() > 0,
    decreases ns,
{
    if ns.len() == 0 {
        assert forall|k: int| 0 <= k <= flat(ns).len() implies net(
            #[trigger] flat(ns).take(k),
        ) >= 0 by {
            assert(flat(ns).take(k) =~= Seq::<Seq<char>>::empty());
        }
    } else {
        let init = ns.drop_last();
        let fi = flat(init);
        lemma_flat_prefixes(init);
        lemma_flat_depths(init, 0, 0);
        let open = seq![seq!['(']];
        let close = seq![seq![')']];
        let part = match ns.last() {
            Expr::Atom(t) => seq![t@],
            Expr::List(l) => open + flat(l@) + close,
        };
        assert(flat(ns) == fi + part);
        lemma_single(seq!['('], 0, 0);
        lemma_single(seq![')'], 0, 0);
        assert(seq![')'] != seq!['(']) by {
            assert(seq![')'][0] != seq!['('][0]);
        }
        match ns.last() {
            Expr::Atom(t) => {
                lemma_single(t@, 0, 0);
            },
            Expr::List(l) => {
                lemma_flat_prefixes(l@);
                lemma_flat_depths(l@, 0, 0);
                lemma_concat_depths(open + flat(l@), close, 0, 0);
                lemma_concat_depths(open, flat(l@), 0, 0);
            },
        }
        assert forall|k: int| 0 <= k <= flat(ns).len() implies net(
            #[trigger] flat(ns).take(k),
        ) >= 0 by {
            if k <= fi.len() {
                assert(flat(ns).take(k) =~= fi.take(k));
            } else {
                let j = k - fi.len();
                assert(flat(ns).take(k) =~= fi + part.take(j));
                lemma_concat_depths(fi, part.take(j), 0, 0);
                match ns.last() {
                    Expr::Atom(t) => {
                        assert(part.take(j) =~= part);
                    },
                    Expr::List(l) => {
                        let fl = flat(l@);
                        if j <= 1 + fl.len() {
                            assert(part.take(j) =~= open + fl.take(j - 1));
                            lemma_concat_depths(open, fl.take(j - 1), 0, 0);
                        } else {
                            assert(part.take(j) =~= part);
                        }
                    },
                }
            }
        }
    }
}

/// Where two splits at a `(` leave balanced tails, the first tail is not
/// the shorter: else the longer would hold a prefix that goes below zero.
proof fn lemma_not_shorter(
    p: Seq<Seq<char>>,
    x: Seq<Seq<char>>,
    q: Seq<Seq<char>>,
    y: Seq<Seq<char>>,
)
    requires
        p + seq![seq!['(']] + x == q + seq![seq!['(']] + y,
        net(x) == 0,
        net(y) == 0,
        prefixes_nonnegative(y),
    ensures
        !(x.len() < y.len()),
{
    if x.len() < y.len() {
        let open = seq![seq!['(']];
        let g = p + open + x;
        let cut = y.len() - x.len() - 1;
        let front = y.take(cut);
        assert(g == q + open + y);
        assert forall|i: int| 0 <= i < y.len() implies #[trigger] y[i] == (front + open + x)[i] by {
            assert(y[i] == g[q.len() + 1 + i]);
            if i > cut {
                assert(g[q.len() + 1 + i] == x[i - cut - 1]);
            } else if i == cut {
                assert(g[q.len() + 1 + i] == open[0]);
            }
        }
        assert(y =~= front + open + x);
        lemma_concat_depths(front + open, x, 0, 0);
        lemma_concat_depths(front, open, 0, 0);
        lemma_single(seq!['('], 0, 0);
        assert(net(y.take(cut)) >= 0);
    }
}

/// The tokens that well-formed nodes are written with determine the nodes:
/// two well-formed sequences of nodes written with the same tokens hold
/// the same nodes. So what `parser` returns is the only result its
/// contract allows.
pub proof fn lemma_written_nodes_unique<'a>(a: Seq<Expr<'a>>, b: Seq<Expr<'a>>)
    requires
        well_formed(a),
        well_formed(b),
        flat(a) == flat(b),
    ensures
        same_nodes(a, b),
    decreases a,
{
    lemma_flat_prefixes(a);
    lemma_flat_prefixes(b);
    if a.len() > 0 && b.len() > 0 {
        let (ai, bi) = (a.drop_last(), b.drop_last());
        let open = seq![seq!['(']];
        let close = seq![seq![')']];
        let f = flat(a);
        assert(seq![')'] != seq!['(']) by {
            assert(seq![')'][0] != seq!['('][0]);
        }
        match a.last() {
            Expr::Atom(s) => {
                assert(f == flat(ai) + seq![s@]);
                assert(f.last() == s@);
                match b.last() {
                    Expr::Atom(t) => {
                        assert(f == flat(bi) + seq![t@]);
                        assert(f.drop_last() =~= flat(ai));
                        assert(f.drop_last() =~= flat(bi));
                        lemma_written_nodes_unique(ai, bi);
                    },
                    Expr::List(m) => {
                        assert(f == flat(bi) + (open + flat(m@) + close));
                        assert(f.last() == seq![')']);
                    },
                }
            },
            Expr::List(l) => {
                assert(f == flat(ai) + (open + flat(l@) + close));
                assert(f.last() == seq![')']);
                match b.last() {
                    Expr::Atom(t) => {
                        assert(f == flat(bi) + seq![t@]);
                        assert(f.last() == t@);
                    },
                    Expr::List(m) => {
                        assert(f == flat(bi) + (open + flat(m@) + close));
                        let (x, y) = (flat(l@), flat(m@));
                        assert(f.drop_last() =~= flat(ai) + open + x);
                        assert(f.drop_last() =~= flat(bi) + open + y);
                        lemma_flat_prefixes(l@);
                        lemma_flat_prefixes(m@);
                        lemma_flat_depths(l@, 0, 0);
                        lemma_flat_depths(m@, 0, 0);
                        lemma_not_shorter(flat(ai), x, flat(bi), y);
                        lemma_not_shorter(flat(bi), y, flat(ai), x);
                        let g = f.drop_last();
                        assert(x =~= g.skip(g.len() - x.len()));
                        assert(y =~= g.skip(g.len() - y.len()));
                        assert(flat(ai) =~= g.take(flat(ai).len() as int));
                        assert(flat(bi) =~= g.take(flat(bi).len() as int));
                        lemma_written_nodes_unique(ai, bi);
                        lemma_written_nodes_unique(l@, m@);
                    },
                }
            },
        }
    }
}

} // verus!
