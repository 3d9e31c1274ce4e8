# Verified text primitives

Small text utilities — casing, lines, Markdown inspection, whitespace
normalization, readability metrics, slugs, tokens, truncation and words —
written in Verus. Every public function states its result over a
mathematical model (`Seq<char>`, `int`) and Verus proves the code against it.

## Layout

- `src/text.rs`: the shared model (trimming, splitting, joining, runs,
  UTF-8 widths) and the few trusted calls into std's Unicode tables.
- `src/case.rs`, `src/line.rs`, `src/normalize.rs`, `src/readable.rs`,
  `src/slug.rs`, `src/token.rs`, `src/truncate.rs`, `src/word.rs`: one module
  per family of primitives.
- `src/markdown.rs` and `src/markdown/`: line-based Markdown inspection
  (headings, links, images, fenced code, frontmatter, outline, plain text).
- `tests/`: executable tests on concrete inputs.

Properties that relate several calls (idempotence, ordering, what a
round trip gives back) are public proof functions named `law_*`.
