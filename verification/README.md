# xpath_eval

XPath 1.0 (https://www.w3.org/TR/1999/REC-xpath-19991116/) for documents
held in memory, written in Verus: the library states in its contracts what
each function computes and proves it.

- `src/document.rs` — the data model (§5): a document as an arena of nodes
  in document order, built only through methods that keep it well formed.
- `src/axes.rs` — the thirteen axes (§2.2), with the laws that tie them
  together (the partition of a document around a node, the axes of
  attribute nodes).
- `src/eval.rs` — node tests, namespace prefixes, location steps,
  node-sets in document order, the errors of evaluation.
- `src/functions.rs` — the string and node functions of the core library
  (§4) and the resolution of function calls.
- `src/lexer.rs`, `src/parser.rs` — tokens (§3.7) and the grammar, each
  with a definition of its result that the code is proved to compute;
  `src/lexer_laws.rs` — what precedes a point of the text does not change
  how the rest is tokenized.
- `src/abbreviations.rs` — laws that the abbreviated syntax (`@`, `.`,
  `..`, `//`, a step with no axis) reads as its full form, over tokens in
  any context and over whole expression texts, and that the grammar
  depends only on the tokens ahead of it.
- `src/ast.rs`, `src/chars.rs`, `src/seqs.rs` — the syntax tree and helpers.
- `app/` — evaluation itself: XPath numbers are IEEE-754 doubles, which the
  verified library does not hold, so values, operators and the number
  functions live there, on top of the library.
