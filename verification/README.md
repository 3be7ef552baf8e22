# uiua_native

The static-analysis core of a native compiler for the Uiua array language,
written in Verus and proved against its contracts.

- `src/data_flow.rs` simulates the stack of a compiled Uiua program and
  builds, for each function, a data-flow graph (the HIR of `src/hir.rs`).
  The simulation is stated as a specification (`step`, `sim`, `hir_of`) and
  the builders are proved to follow it.
- `src/analysis/construct.rs` builds the typed IR (`construct_tir`): the
  main function and every function it calls are analysed node by node,
  once per distinct set of argument types, against the specification
  `tir_of`.
- `src/tir.rs` holds the value-type lattice: scalar, array, map, structure and
  enumeration types with symbolic shapes, their supertypes, call supertypes
  and monomorphization matching.
- `src/mir/polynomial.rs` is the polynomial arithmetic of symbolic shapes, in
  a canonical form kept as a type invariant; `instantiate.rs` substitutes its
  variables.
- `src/analysis/` types constants and the pervasive primitives (sign,
  negation, absolute value, floor, ceiling, round, the comparisons) and the
  decisions of a function call (reusing a monomorphization, call input
  types, output types) and of a row-wise call (row counts, row types, the
  checks that the counts agree, output types).
- `src/float.rs` handles doubles by their IEEE 754 bit patterns: equality,
  order, conversion from integers and rounding to whole numbers.
- `src/generic_ir.rs` wraps the graph type of petgraph behind stated
  contracts, and reads a function back from its listing (one line per node:
  the identifiers it makes, its node, the identifiers it reads), as
  specified by `read_listing`.

`app/` is the command-line front end: it compiles a program with the uiua
crate, converts the assembly to the library's model, and writes the IR as
RON text or Graphviz graphs, or the typed IR as RON text. It also holds the
primitives whose analysis computes with doubles (`not`, the floating-point
functions, `divide`, `atangent` and `root`). Code generation to LLVM IR and
executables is not part of this project.
