# java_lsp

A language server for Java whose logic is verified with Verus.

- `src/` is the library: the protocol framing, the document store with its
  incremental syntax trees, the workspace index and the features on top of it
  (definitions, hover, completion), the class file reader and the stubs it
  renders, and the rules by which builds, JDKs and Lombok sources are handled.
  Every function states what it returns or changes, and the laws that span
  functions are proof functions named `law_*`.
- `tests/` runs the library on concrete values, with tree-sitter, serde_json,
  lsp-types and zip linked.
- `app/` is the program: it reads and writes the standard streams, walks the
  file system, runs Gradle, Maven and `javac`, and carries out the tasks that
  the library hands out.

Texts are modelled as sequences of characters, paths as texts with `/` between
their parts, and syntax trees as the list of their nodes in document order.
What tree-sitter, serde_json, lsp-types, zip and std compute is stated at the
few items marked `external_body` or `assume_specification`; everything else is
proved.
