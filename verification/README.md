# mecab_grammar

An EBNF-style grammar matcher for MeCab token streams, with bunsetsu (phrase chunk)
segmentation and the MCBD dictionary packing format, verified with Verus.

Layout:

- `src/` — the verified library.
  - `lexer.rs`, `parser.rs`, `msg.rs` — grammar text to rules, and the error messages.
  - `syntax.rs` — the rule and pattern types, rule lookup, merging, capture analysis.
  - `token.rs`, `matcher.rs`, `positions.rs` — matching patterns against tokens.
  - `prefer.rs` — which end a match takes: the ends of a pattern in order of preference
    (longest first, unless a repetition or option of a wildcard makes the pattern non-greedy).
  - `traces.rs` — how the fixed positions of a match relate to the ends of its pattern.
  - `bunsetsu.rs`, `grammar.rs` — phrase chunks and the matcher's public interface.
  - `csv_parser.rs` — rules from the rows of a grammar CSV.
  - `pack.rs` — the MCBD format.
  - `node.rs`, `text.rs`, `dict_info.rs` — tokens, character-level helpers, plain types.
- `tests/` — tests of the library.
- `app/` — the Node.js (N-API) bindings: the MeCab C library, file access, and reading CSV
  text into rows.
