# cljvindent

Indentation and alignment of Clojure, ClojureScript and EDN source, with
its behaviour stated in contracts and proved with Verus.

- `src/` is the verified library. `text` holds byte-level text helpers
  (lines, Unicode white space, character counts), `helpers` columns, block
  shifting and the syntax tree as plain values, `model` the data the aligners
  exchange, `alignable` the aligner interface, `aligners/` one aligner per kind
  of form (maps, vectors, `ns`, binding forms such as `let` and `loop`,
  threading and branching forms, `cond`-like forms and `condp`) together with
  the layout of test/result pairs they share (`generic_builder`), `engine` the
  bottom-up formatting of forms, whole files and collections of strings, and
  `logging` the logging options.
- Parsing is done by `tree_sitter` with the `tree_sitter_clojure` grammar,
  behind one trusted function, `helpers::get_tree`; everything the engine reads
  from the tree is checked against the text before use.
- `app/` is the Emacs module: option handling, logging set-up, file reading
  and writing, and formatting collections on several threads.
- `tests/` runs the library on concrete texts.
