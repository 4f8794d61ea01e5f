# p4_gcl

Translates P4 programs into graphs of guarded commands, with Verus proofs.

A program comes as a typed intermediate representation in which names have been resolved. The
result is a directed graph. Its nodes hold commands (assign a value to a variable, or report a
bug), its edges hold predicates, and an edge may be taken when its predicate is true.

```rust
let mut graph = GclGraph::new();
match program.try_to_gcl(&mut graph, &metadata) {
    Some(start) => { /* the graph holds the program, which starts at `start` */ }
    None => { /* the program was refused, and the graph is as it was */ }
}
```

`try_to_gcl` can be called with anything. It tests that the graph is well-formed, that the last
declaration of the program instantiates `V1Switch`, that every call finds its function, and that
the graph has room for what the program adds, which it counts beforehand. It refuses a program
exactly where one of these fails. `to_gcl` tests nothing: its caller has to know them.

## What is proved

Each `to_gcl` is proved to put exactly the nodes and edges into the graph that
`src/translation.rs` gives for the part of the program, in that order, and to keep the graph
well-formed. On top of that:

- `src/growth.rs`: a translation only adds; what was in the graph stays.
- `src/count.rs`: how many nodes, edges and names a program adds can be told from the program.
- `src/placement.rs`: what is added does not depend on the edges that are there, and a block in two
  parts is the two blocks with an edge between them.
- `src/meaning/`: the graph of a program does what the program means, and nothing else. A run
  goes wrong exactly where the program reads a variable without a value or assigns to one that
  has not been declared; a function returns to its caller; and a run has no choice on the way.
  An expression without calls does so in any well-formed graph.

These do not cover actions that call themselves, since the graph has one return target for each
action. Where no two actions have the same number, there are none. A program
with constants and a control block leaves a choice at its start node.

## Layout

| File | Contents |
| --- | --- |
| `src/ir.rs` | the program |
| `src/metadata.rs` | what is known of its types |
| `src/gcl.rs` | predicates, commands and nodes |
| `src/store.rs` | the `petgraph` graph that holds them, and what is taken for granted of it |
| `src/graph.rs` | the graph with its functions and fresh names |
| `src/to_gcl/` | the translation, and the tests before it (`budget.rs`, `checked.rs`) |
| `src/text.rs` | decimal numerals |
| `src/translation.rs`, `src/growth.rs`, `src/count.rs`, `src/placement.rs`, `src/meaning/` | what is proved |
