# plingo

An incremental compiler framework: source documents, lexing, generalized LR
parsing with recovery, stable syntax identities, and scope graphs. After an edit
tokens are read again from before the edit on, up to a place where the stacks are
those of the revision before; from there on its parse is taken over.

- `src/framework/source.rs`, `revision.rs`, `coordinates.rs`: edits, revisions,
  and where unchanged text went.
- `src/framework/lex/`: lexer modes, tokens with identities, lexing after an
  edit, and the facts that are published of tokens.
- `src/framework/parse/`: LR(1) tables, graph-structured stacks, reductions,
  repairs, reading tokens again, taking over the rest of an old parse, and what
  changed in the tree.
- `src/framework/scope/`: paths over labels, the scope graph, resolution, and
  preferences among paths.
- `src/component/`: edits of open documents, structural artifacts, and runs of
  elaboration rules.
- `app/`: ordinary Rust around the library.

Every function of the library carries a contract, and Verus proves it. Trusted
are the wrappers around `ropey`, `indexmap`, `smallvec` and `fluent_uri`; each
says above it what it claims of the function that it calls.
