# latex_treefmt

A LaTeX formatter built on tree-sitter's concrete syntax tree, written in Verus:
each formatting pass states what it produces as a specification over the text
it receives, and Verus proves the code against it.

## Layout

- `src/syntax.rs`, `src/tree.rs`: the syntax tree as plain values, the
  source-backed reconstruction, and character positions of nodes.
- `src/metadata.rs`: what the passes read from a tree (depths per row, math
  ranges, script groups, formula delimiters, alignment blocks).
- `src/mathfmt.rs`, `src/items.rs`, `src/display.rs`, `src/environments.rs`:
  the passes that read a tree, each a list of edits applied by `src/edits.rs`.
- `src/layout.rs`, `src/align.rs`, `src/prose.rs`: the line-based passes.
- `src/skip.rs`: the `% latex-treefmt: off` / `on` regions.
- `src/writer.rs`: the sequence of passes; `LatexWriter::start` and
  `FormatJob::resume` take one tree each, `LatexWriter::write` drives them with a
  `LatexParser`.
- `src/parser.rs`: the parser, tree-sitter with the grammar of
  `tree-sitter-latex`.
- `app/main.rs`: the command-line program.

## Building against the grammar

The published `tree-sitter-latex` 0.1.0 package ships the grammar's parse
tables (`src/parser.c`) without its external scanner (`src/scanner.c`); its
build script compiles the scanner only when the file is present. A binary that
reaches `LatexParser::new`, `LatexParser::parse` or `format` therefore fails to
link, the command-line program included. The library itself builds and
verifies. The tests in `tests/` stand in for the parser: they build by hand the
trees a parse gives and drive the writer with `LatexWriter::start` and
`FormatJob::resume`.
