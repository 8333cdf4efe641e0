# shogi_core

A tsume-shogi (mating problem) engine and problem generator, written in
Verus: executable Rust whose contracts Verus proves. The rules of shogi,
move generation and the two full-width mate searches have exact contracts.
The df-pn solver's contracts state what its table holds and what every
line it returns satisfies; on a fresh solver a search of up to three plies
answers as the direct mate-in-one and mate-in-three searches do, but for
deeper searches the contracts do not say that a proof it finds is a mate.
The backward construction of problems has exact contracts over the state
of the seeded generator: a seed fixes the mated position, every unwound
move and the candidate. The random candidates and their variations have
contracts that state what every result satisfies.

## Layout

- `src/pieces.rs`, `src/zobrist.rs`, `src/state.rs`: pieces, moves, the
  position with its incremental hash, making and unmaking moves.
- `src/attacks.rs`, `src/movegen.rs`, `src/legal.rs`: attacks, pseudo-legal
  and legal moves, checks, the drop rules (two pawns on a file, pawn-drop
  mate, dead pieces).
- `src/search.rs`, `src/validate.rs`: the full-width mate searches with
  their memo (the engine's, which sets futile interpositions aside, and
  the generator's, which plays every reply), and the validation of a
  problem with each.
- `src/dfpn.rs`: the df-pn solver with its transposition and dominance
  tables, and the extraction of a unique solution.
- `src/initial.rs`, `src/notation.rs`: problems as lists of pieces, and the
  text keys of moves.
- `src/rng.rs`, `src/backward.rs`: the seeded generator and the making of
  problems backwards from a mated position.
- `src/generate.rs`, `src/keys.rs`, `src/collect.rs`: candidates, pruning,
  normalization, scoring, the keys that tell problems apart and the set of
  problems a run keeps.
- `app/`: the command line, JSON and the browser bindings, which Verus does
  not see.
- `tests/`: the tests, run against the compiled library.

The hash maps of the solvers are `rustc_hash` maps, reached through small
trusted wrappers whose contracts state what a read gives back of a write.
