# Bang

The front end of Bang, a small, strongly typed scripting language, written in
Verus. The library's functions carry contracts that Verus proves; the few
calls into `smallvec`, `ahash` and std that Verus cannot read stand behind
small trusted wrappers whose contracts are taken as given.

## Layout

- `src/text.rs` — bytes of strings, character boundaries, decimal numbers.
- `src/tokens.rs` — a byte-level tokeniser whose tokens cover every byte of
  the source, and its exact specification.
- `src/ast.rs`, `src/parser.rs` — a syntax tree that refers to its tokens,
  the parser that builds it from them, and a visitor that is handed every
  node in post-order.
- `src/print.rs` — colours for the terminal, and the syntax tree drawn as a
  tree.
- `src/scanner.rs`, `src/token.rs`, `src/error.rs` — a scanner that reads a
  source one token at a time and turns indentation into block tokens, and
  the messages of its errors.
- `src/chunk.rs` — bytecode instructions, the line of each instruction kept
  as runs, constants and the chunk builder.
- `src/compiler.rs` — the compiler from the syntax tree to bytecode, stated
  as a function of the tree (`spec_compile`); `is_compilable` tells whether
  it takes a tree.
- `src/syntax/` — the tokeniser (with format strings), syntax tree and parser
  that the formatter, linter and typechecker work on; `is_parsable` tells
  whether the parser can run over a source.
- `src/formatter.rs` — the opinionated formatter: its output is a function of
  the tree, stated in full.
- `src/linter.rs` — five lint rules and the diagnostics they report.
- `src/typechecker/` — the bidirectional typechecker, with its table of
  types and the narrowing of types in conditions; `is_checkable` tells
  whether it takes a tree.
- `app/main.rs` — the `bang` command line (`run`, `lint`, `format`,
  `typecheck`, `tokens`, `ast`) and the REPL.
- `app/vm.rs` — the virtual machine that runs compiled chunks; its values
  are floating-point numbers, so it is not part of the verified library.

Number constants are kept by their literal text written in its simplest
form, so `1`, `1.0` and `01` share one entry of a chunk's constants; two
spellings of the same floating-point value that differ otherwise do not.
