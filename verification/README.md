# syl_elab

Driver analysis for elaborated hardware designs, written in Verus: every
executable function carries a contract, and Verus proves the code meets it.

Given an elaborated design (modules, ports, declared objects, drives and
reads, each drive and read under a stack of `if`/`for` scopes), the library

- gathers the design's facts from its items: declared objects, drives and
  reads, each under the scopes it sits in; instances contribute through the
  directions of their module's ports or through what a table of opaque
  modules says of them,
- resolves each driven and read place against the design's objects,
- checks each drive: a next-value drive must target storage, a continuous one
  must not, places must stay within their objects, and no two drives of places
  that may share a bit may be active together (scopes in opposite branches of
  one `if`, or tri-state enables that exclude each other, keep them apart),
- checks completeness: every output port of a defined module, every read of a
  local signal and every required signal is driven in every case,
- summarises the facts per expanded cell instance, and per instance of a
  module that the opaque table lists as a source cell.

## Layout

- `src/expr.rs`, `src/design.rs`, `src/eir.rs`: the elaborated design.
- `src/text.rs`, `src/symbol.rs`, `src/formula.rs`, `src/parse.rs`,
  `src/bound.rs`, `src/range.rs`: symbolic bit bounds as linear formulas.
- `src/place.rs`, `src/overlap.rs`, `src/read_places.rs`: driver places, their
  resolution and whether two may overlap.
- `src/guard.rs`, `src/guard_coverage.rs`, `src/loop_bounds.rs`,
  `src/tristate.rs`: scopes, when guards exclude or cover each other, loops
  over symbolic widths, tri-state enables.
- `src/coverage.rs`, `src/port_coverage.rs`, `src/completeness.rs`: bit
  coverage of ports, reads and signals.
- `src/validate.rs`, `src/eir_facts.rs`: validation and gathering the facts
  from the items.
- `src/const_eval.rs`, `src/builder_env.rs`: what elaboration makes of a
  constant's value, and the builder's variables indexed by static type.
- `src/collect.rs`, `src/facts.rs`, `src/summary.rs`, `src/source_cells.rs`,
  `src/drc.rs`, `src/analyzer.rs`: resolving the facts, summaries, the
  design-rule checks and the single-pass analysis.

The library does not evaluate constant expressions itself: it takes the
outcome of an evaluation. It has no item for the boundary of an opaque cell
and so no check of such boundaries; lowering a program into the design's
items is not part of it either.

Laws that relate several functions are public proof functions named
`lemma_*`; `tests/` runs the library on concrete designs.
