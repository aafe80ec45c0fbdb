# pda_parser

A parser that indexes sentences (ended by `.`) and nested `[bracketed]`
segments of a text, written twice as a pushdown automaton: `LittleParser`
decides every transition by peeking at its stack, `ParserNonDetPDA` decides
some of them in its handlers. Both are verified with Verus against one model.

- `src/defs.rs`: stack symbols, segments, and the queue that gives segments
  out earliest start first, latest end first.
- `src/automaton.rs`: the shared model of both automata and their transitions.
- `src/parser_pda.rs`, `src/parser_nondet_pda.rs`: the two automata.
- `src/report.rs`: the report line of each segment.
- `src/laws.rs`: what holds of the automata as a whole: they take the same
  transitions, they stay well-formed from a fresh start, and every segment they report lies in the text, with brackets
  delimited and nested and sentences ending at a `.`.
- `src/matching.rs`: what a parse reports, worked out from the text alone:
  each matched pair of brackets once, at its depth; each sentence once, with
  its kind, at depth 0; and the plain and unbalanced segments at the edges of
  brackets.
- `app/lib.rs`: prints the report of a sample text.
