# cgrammar: a verified C23 lexer, parser and lossless syntax tree

This crate turns C source text into a red-green syntax tree that keeps every
byte of the source, and proves with Verus what it does.

- `src/lexer.rs`: the byte lexer (trivia, comments, line directives, all
  token kinds), stated as spec functions over the source bytes; identifier
  characters are classified by chumsky (Unicode `XID_Start`/`XID_Continue`);
  `lex` merges adjacent string literals and follows `# <line> "<file>"`
  markers.
- `src/value.rs`: the values of tokens: integer constants, escape sequences,
  character constants, string literals, suffixes.
- `src/parser.rs`: a recursive-descent parser for C23 that records its
  result as events of a green-tree builder; it never drops a token. What
  stands directly in the translation unit are external declarations, each
  holding a declaration or a function definition, and error nodes, each
  holding one token that cannot start a declaration; a given typedef name
  at the start of a declaration is read as its type specifier. A tree too
  large to index is kept flat, as its tokens alone.
- `src/green.rs`: green nodes and the builder that replays events into a
  tree; a built tree is determined by its events (an unwrapped mark leaves
  no trace, rewinding restores what was built).
- `src/red.rs`: the red tree with parent, child and sibling links (each
  node's children are its green node's children, at consecutive offsets),
  a pre-order walk that reaches every node once, text access, lossless
  printing and reading tokens back.
- `src/span.rs`, `src/token.rs`, `src/syntax.rs`: spans and source contexts,
  token types, syntax kinds.
- `src/print.rs`: how punctuators and constants are spelled; a printed
  constant reads back as itself.
- `src/visit.rs`: which visitor hook a node of each kind goes to.
- `src/lib.rs`: `parse_tree` and friends, and the laws that tie them
  together: printing a parsed source gives it back (a source of trivia
  alone is kept as one whitespace leaf), and reading the tokens of a parsed
  tree back gives the tokens of the source, with their values.
- `app/main.rs`: a command-line program that parses a file and prints its
  tree, with a tree visitor that dispatches through `visit_hook`.

`tests/` holds the tests, run against the compiled library.

The library offers the lossless syntax tree only: there is no typed AST,
no AST visitor and no AST printer, and no parser combinators are exported.
