//! An s-expression reader: text is split into tokens, and the tokens are
//! built into a tree of atoms and lists.
//!
//! `tokeniser` and `parser` carry exact contracts over the spec functions
//! `tokens_of`, `balanced`, `flat` and `well_formed`; the proof functions
//! `lemma_*` state what follows for the pair of them.
mod laws;
mod lexer;
mod parser;
mod render;
mod token_laws;
mod tree;

pub use laws::{
    atom_tokens, atoms_in, char_step, lemma_atoms_match_atom_tokens,
    lemma_lists_match_pairs_by_depth, lemma_written_nodes_unique, lists_at, net, opens_at,
    prefixes_nonnegative, same_nodes, text_balanced, text_balanced_from,
};
pub use lexer::{atom_char, atom_len, is_paren, tokeniser, tokens_of, white_space};
pub use parser::{balanced, balanced_from, parser, step};
pub use render::{render_nodes, rendered, rendered_items, rendered_nodes};
pub use token_laws::{
    concat_tokens, count_char, count_token, join_spaced, lemma_retokenise_joined,
    lemma_runs_stay_whole, lemma_token_layout, strip_white_space, token_shape,
};
pub use tree::{flat, well_formed, Expr, LexError};
