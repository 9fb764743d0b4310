# rex

The front end of the Rex language: lexer, parser, name resolver and HIR
lowering, written in Verus with contracts that the verifier checks.

- `src/text.rs` — character and UTF-8 helpers shared by the stages.
- `src/diagnostics.rs` — spans and diagnostics.
- `src/lexer.rs` — `lex`, specified exactly by `lex_spec` (a state machine over
  the source characters), together with what each token says of its source.
- `src/ast.rs` — the syntax arena, the trees read from it, and the layout in
  which a tree is stored (`module_layout`).
- `src/parser.rs` — `parse`, specified by the tree that the grammar functions
  (`parse_module` and the functions it calls) give for the token sequence, and
  by the arena that stores that tree.
- `src/name_resolver.rs` — `resolve`, specified by `resolve_spec`, with the laws
  on the symbols it declares and on what resolved names refer to.
- `src/hir.rs` — the HIR arena and its trees.
- `src/lowering.rs` — `lower`, specified by `lower_spec`, with the law that the
  lowered functions mean the syntax tree with names replaced by symbols.
- `app/main.rs` — the command line: `rex lex <file>` and `rex parse <file>`.
