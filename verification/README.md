# lrp

LR parser generation over numbered symbols: FIRST and FOLLOW sets, the canonical
LR(1), SLR(1) and LALR(1) automata, their action tables, and the pushdown automaton
that runs a table over a stream of tokens. The library is written in Verus; every
function carries a contract that Verus proves.

## Layout

- `src/symset.rs`, `src/table.rs`, `src/state.rs`: sorted symbol sets, tables from
  symbols to symbol sets, and item sets kept in canonical order.
- `src/pos.rs`, `src/grammar.rs`, `src/grammars.rs`: items, grammars and a few example
  grammars, among them the grammar of grammar files.
- `src/reach.rs`, `src/tabler.rs`: FIRST and FOLLOW as least fixpoints, the tables of a
  parser, conflicts, and the merging of equal action rows.
- `src/lr.rs`: closures, moves, and the canonical collection of item sets.
- `src/decide.rs`: the actions of each state.
- `src/clr.rs`, `src/slr.rs`, `src/lalr.rs`: the three parsers.
- `src/action.rs`, `src/dfa.rs`, `src/parser.rs`: actions, the automaton and the runs of a
  parser's table.
- `src/depth.rs`, `src/merge.rs`, `src/cores.rs`, `src/looks.rs`, `src/conflicts.rs`:
  laws that span the parts above: runs of a built table never lack a row or a state
  below a reduction; merging equal rows changes no run; the three parsers' states hold the same item
  sets once lookaheads are dropped; LR(1) and LALR(1) lookaheads lie within FOLLOW; and
  where the SLR(1) table has no conflict, neither have the LR(1) and LALR(1) tables.
- `src/wopast.rs`, `src/prodbuild.rs`, `src/expand.rs`: grammar files: their syntax
  trees and the reductor that builds them while the grammar of grammar files is
  parsed; productions while they are built, with the names bound to their items; and
  the productions an alternative stands for once its optional items and sub-rules are
  expanded.
- `src/fromsrc.rs`, `src/codegen.rs`: reading the tokens of a grammar file into a
  builder, and the Rust code of the grammar and of the reductors that the builder stands
  for, byte for byte.
- `src/fixpoint.rs`: iterating a map until it leaves its argument unchanged.
- `app/main.rs`, `app/wopfile.rs`: a demonstration program that prints the tables of an
  LALR(1) parser and traces its automaton over lines read from standard input; given the
  path of a grammar file, it lexes the file, parses it, prints its syntax tree, and
  writes the grammar and reductor code it stands for to `out.rs`.
- `tests/`: tests of the library on the example grammars.
