# cwe_checker_lib (verified core)

Parts of the cwe_checker library, written in Verus and proved against their
contracts.

- `src/graph.rs`: the directed graph of a fixpoint computation, stored in a
  `petgraph` graph; each `petgraph` call goes through a small trusted wrapper.
- `src/fixpoint.rs`: the generic worklist fixpoint algorithm. When merging is a
  semilattice, every node that is not on the worklist has its outgoing edges
  absorbed by their end nodes, so a computation whose worklist runs empty holds
  a solution (`lemma_stabilized_is_fixpoint`).
- `src/intermediate_representation.rs`: programs, subroutines, blocks, jumps and
  term identifiers, with the searches `find_block` and
  `find_sub_containing_jump`.
- `src/log.rs`, `src/order.rs`: CWE warnings and log messages, the order of
  warnings (that of the derived `Ord`) and a verified sort.
- `src/checkers/`: the checks for CWE-215 (debug sections of ELF files, parsed
  with `goblin`), CWE-476 (collecting the warnings of the analysis) and CWE-676
  (calls to dangerous functions).

`app/` holds the serde forms of the data types and the entry points that take
their configuration as JSON. `tests/` runs the library on concrete values.

## Representation

- The node values of a fixpoint computation are held in a `BTreeMap` keyed by
  the node index, where an `FnvHashMap` would hash them: vstd specifies
  `BTreeMap`, while nothing specifies fnv's hasher, so `node_values()` returns
  the `BTreeMap`.
- Nodes and edges are numbered by `usize` indices, and the graph of a fixpoint
  problem is a `FlowGraph` without labels: an analysis keeps its node and edge
  labels in tables indexed by the same numbers.
- The maps and sets of a program that are keyed by term identifiers are
  sequences in increasing order of their keys (`Program::wf`), and the
  dangerous symbols of the CWE-676 check are a list of (term identifier, name)
  pairs: their keys are structs of strings, whose derived order Verus does not
  read.
- Jumps, blocks and extern symbols hold only what the checks read; expressions
  and definitions are not part of this representation.
- `Computation::compute` stops after `u64::MAX` node updates, as every loop
  here has a termination measure.
- The check for CWE-215 calls goblin in the library only on input that goblin
  merely peeks at. Input that goes to one of goblin's format parsers (ELF,
  archive, PE, single-architecture Mach-O; `is_object_format_image`) is parsed
  by the caller, since each of those parsers does unchecked arithmetic on values
  read from the file and panics on some crafted input; the verified
  `check_sections` then decides what the check reports.
