//! String rewriting systems over a small alphabet and automata for one
//! regular language, with machine-checked contracts.
//!
//! - `words`: words as character sequences, lexicographic order.
//! - `rewriting`: rule sets, the systems T and T', one-step rewriting.
//! - `orders`: word orders under which every rewriting step decreases.
//! - `termination`: no infinite rewriting sequence under T or under T'.
//! - `search`: breadth-first search for reachable normal forms.
//! - `invariants`: quantities that the rules of T and T' keep.
//! - `rng`, `fuzzing`: random words and chains, and the two experiments on them.
//! - `automata`, `product`: a nondeterministic automaton, a deterministic one,
//!   and a product with six property automata, proved to accept the same words.
//! - `regexes`: the same language as regular expressions, and the comparison
//!   of all five recognisers on a word.

pub mod words;
pub mod rewriting;
pub mod orders;
pub mod termination;
pub mod search;
pub mod invariants;
mod rng;
pub mod fuzzing;
pub mod automata;
pub mod product;
pub mod regexes;

pub use rewriting::{build_tprime, kb_completion_rules, rules_from, rules_t};
