# patch_refiner

Validation and refinement of AI-generated unified-diff patch candidates,
written in Verus: the library's functions carry `requires`/`ensures`
contracts that Verus proves.

- `src/repair.rs`: pre-parse repair of diffs (missing context markers,
  wrong hunk-header counts), keeping each line's ending (`\n` or `\r\n`)
  as it came; `src/repair_laws.rs` proves that repairing a repaired diff
  changes nothing, for every diff.
- `src/refiner.rs`: evaluation of requests in syntactic and exemplar modes,
  over `diffy` for parsing and applying patches; `src/laws.rs` proves what
  every evaluation keeps (approvals rest on real matches, comparisons stay
  within one target file, failures explain each candidate).
- `src/lexer.rs`, `src/distance.rs`, `src/counters.rs`: the comment- and
  string-aware lexer over a `prettydiff` word diff, its hypotheses (with the
  laws on how each step keeps them) and their ranking.
- `src/text.rs`, `src/numbers.rs`: character-level text and decimal numbers.
- `src/models.rs`, `src/cli.rs`, `src/checkers.rs`: request/response model,
  command-line options, compile-check decisions.
- `app/`: the `patch-refiner` command (JSON I/O, floating-point language
  weights and distance scores, running compile commands).
