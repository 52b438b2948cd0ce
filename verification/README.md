# trs_fuzz

Two small studies with machine-checked contracts (Verus):

- String rewriting over the alphabet `A B C D E F G H I J Q`: the system T,
  its shortlex reorientation T' with the Knuth–Bendix family
  `G F^n G -> G F^(n+1)`, one-step rewriting, a breadth-first search for
  normal forms, and three invariants (number of `Q`s, order of `Q`s, parity
  of `#A + #B + #C + #D + #J`) that every rule keeps. Proved laws include:
  every T step decreases in a right-to-left lexicographic order, every T'
  step decreases in shortlex, every `C^n` is a T-normal form, every
  rewriting path keeps the invariants, and both T and T' terminate.
- One regular language over `a b c`, recognised by a nondeterministic
  automaton, a deterministic one and a product of six property automata
  (proved to accept the same words), and by two regular expressions
  (`regex`, `fancy-regex`).

Layout:

- `src/` — the verified library (`words`, `rewriting`, `orders`,
  `termination`, `search`,
  `invariants`, `fuzzing`, `automata`, `product`, `regexes`; random numbers
  come from `rand` through `rng`).
- `tests/` — tests on concrete values.
- `app/main.rs` — the command-line driver:
  `nf-compare`, `invariants`, `automata [iterations] [max_len]`.
