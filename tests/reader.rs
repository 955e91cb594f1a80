use sexpr_reader::{parser, render_nodes, tokeniser, Expr, LexError};

fn atom(s: &str) -> Expr<'_> {
    Expr::Atom(s)
}

fn lists_at_depth(nodes: &[Expr<'_>], depth: usize) -> usize {
    let mut count = 0;
    for node in nodes {
        if let Expr::List(children) = node {
            if depth == 0 {
                count += 1;
            } else {
                count += lists_at_depth(children, depth - 1);
            }
        }
    }
    count
}

fn atoms_in(nodes: &[Expr<'_>]) -> usize {
    let mut count = 0;
    for node in nodes {
        match node {
            Expr::Atom(_) => count += 1,
            Expr::List(children) => count += atoms_in(children),
        }
    }
    count
}

#[test]
fn nested_list_scenario() {
    let tokens = tokeniser("(a b (c d) e)");
    assert_eq!(tokens, vec!["(", "a", "b", "(", "c", "d", ")", "e", ")"]);
    let tree = parser(tokens).unwrap();
    assert_eq!(
        tree,
        vec![Expr::List(vec![
            atom("a"),
            atom("b"),
            Expr::List(vec![atom("c"), atom("d")]),
            atom("e"),
        ])]
    );
}

#[test]
fn empty_input_scenario() {
    let tokens = tokeniser("");
    assert!(tokens.is_empty());
    let tree = parser(tokens).unwrap();
    assert!(tree.is_empty());
}

#[test]
fn unclosed_open_scenario() {
    let tokens = tokeniser("(a");
    assert_eq!(tokens, vec!["(", "a"]);
    assert_eq!(parser(tokens), Err(LexError::UnbalancedParentheses));
}

#[test]
fn unmatched_close_scenario() {
    let tokens = tokeniser("a)");
    assert_eq!(tokens, vec!["a", ")"]);
    assert_eq!(parser(tokens), Err(LexError::UnbalancedParentheses));
}

#[test]
fn empty_list_scenario() {
    let tokens = tokeniser("()");
    assert_eq!(tokens, vec!["(", ")"]);
    assert_eq!(parser(tokens).unwrap(), vec![Expr::List(vec![])]);
}

#[test]
fn top_level_siblings_scenario() {
    let tokens = tokeniser("a (b) c");
    assert_eq!(tokens, vec!["a", "(", "b", ")", "c"]);
    assert_eq!(
        parser(tokens).unwrap(),
        vec![atom("a"), Expr::List(vec![atom("b")]), atom("c")]
    );
}

#[test]
fn whitespace_only_gives_no_tokens() {
    assert!(tokeniser(" \t\n  \r ").is_empty());
}

#[test]
fn other_whitespace_splits_atoms() {
    assert_eq!(tokeniser("a\tb\nc\u{a0}d\u{3000}e"), vec!["a", "b", "c", "d", "e"]);
}

#[test]
fn atom_next_to_parentheses_is_split() {
    assert_eq!(tokeniser("(abc)"), vec!["(", "abc", ")"]);
    assert_eq!(tokeniser("x(y)z"), vec!["x", "(", "y", ")", "z"]);
}

#[test]
fn adjacent_parentheses_are_separate_tokens() {
    assert_eq!(tokeniser("(())"), vec!["(", "(", ")", ")"]);
    assert_eq!(parser(tokeniser("(())")).unwrap(), vec![Expr::List(vec![Expr::List(vec![])])]);
}

#[test]
fn non_ascii_atoms_are_kept_whole() {
    assert_eq!(tokeniser("(héllo wörld)"), vec!["(", "héllo", "wörld", ")"]);
}

#[test]
fn close_before_open_is_unbalanced() {
    assert_eq!(parser(tokeniser(")(")), Err(LexError::UnbalancedParentheses));
}

#[test]
fn deep_unclosed_nesting_is_unbalanced() {
    assert_eq!(parser(tokeniser("((a) (b)")), Err(LexError::UnbalancedParentheses));
}

#[test]
fn lists_per_depth_match_pairs_per_depth() {
    let text = "(a (b) (c (d))) (e)";
    let tree = parser(tokeniser(text)).unwrap();
    assert_eq!(lists_at_depth(&tree, 0), 2);
    assert_eq!(lists_at_depth(&tree, 1), 2);
    assert_eq!(lists_at_depth(&tree, 2), 1);
    assert_eq!(lists_at_depth(&tree, 3), 0);
}

#[test]
fn paren_tokens_match_paren_characters() {
    let text = "(f (g x) y)) ((";
    let tokens = tokeniser(text);
    let opens = tokens.iter().filter(|t| **t == "(").count();
    let closes = tokens.iter().filter(|t| **t == ")").count();
    assert_eq!(opens, text.chars().filter(|c| *c == '(').count());
    assert_eq!(closes, text.chars().filter(|c| *c == ')').count());
    let without_space: String = text.chars().filter(|c| !c.is_whitespace()).collect();
    assert_eq!(tokens.concat(), without_space);
}

#[test]
fn atom_nodes_match_atom_tokens() {
    let tokens = tokeniser("(a b (c d) e) f");
    let atom_tokens = tokens.iter().filter(|t| **t != "(" && **t != ")").count();
    let tree = parser(tokens).unwrap();
    assert_eq!(atoms_in(&tree), atom_tokens);
    assert_eq!(atom_tokens, 6);
}

#[test]
fn retokenising_joined_tokens_is_stable() {
    let tokens = tokeniser("  (a  b(c)\td)e ");
    let joined = tokens.join(" ");
    assert_eq!(joined, "( a b ( c ) d ) e");
    assert_eq!(tokeniser(&joined), tokens);
}

#[test]
fn render_atom_and_list() {
    assert_eq!(atom("x").render(), "Atom(x)");
    let list = Expr::List(vec![atom("c"), Expr::List(vec![]), atom("d")]);
    assert_eq!(list.render(), "List([Atom(c), List([]), Atom(d)])");
}

#[test]
fn render_whole_tree() {
    let tree = parser(tokeniser("a (b) c")).unwrap();
    assert_eq!(render_nodes(&tree), "[Atom(a), List([Atom(b)]), Atom(c)]");
    assert_eq!(render_nodes(&Vec::new()), "[]");
}

#[test]
fn runs_cut_in_two_are_joined_again() {
    assert_eq!(tokeniser("(ab"), vec!["(", "ab"]);
    assert_eq!(tokeniser("cd e)"), vec!["cd", "e", ")"]);
    assert_eq!(tokeniser("(abcd e)"), vec!["(", "abcd", "e", ")"]);
}
