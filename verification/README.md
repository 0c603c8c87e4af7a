# monument

A verified library for composing in change ringing. It turns a course layout (blocks of rows, and the
links by which segments of them can be joined) into a graph in which every composition is a path, and
makes that graph smaller before it is searched.

- `src/` is the library. Every function states in its contract what it returns, and Verus proves it,
  except for the few functions that call other crates and two functions of the standard library, whose
  contracts are relied on.
  - `primitives`, `text`, `music`: rows, masks, place notation, and other values.
  - `select`, `hashing`, `keyed`, `frontier`: collections.
  - `layout`: course layouts, their segments and calls. `layout::to_graph` builds the graph of a
    layout whose compositions have a single part.
  - `node_range`, `graph`, `size`, `optimise`: graphs and the passes that make them smaller.
  - `expansion`, `falseness`, `predecessors`, `assemble`: building a graph out of ranges of rows.
    `finite` shows that there are only finitely many nodes to build, and `soundness` holds what is
    true of every graph that is built.
  - `query`: what is searched for, and how.
- `app/` runs a query. It does what cannot be verified: threads, printing, and floating-point scores.
- `tests/` holds tests of the library.

Rows are multiplied and displayed, and place notation is parsed, by the `bellframe` crate; the number
of cores is counted by the `num_cpus` crate. The functions that make these calls say in their
documentation what is relied on; so do the specifications of `String::push` and of `swap` on slices.
