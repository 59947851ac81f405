# samplex

Sampling randomizations of quantum circuits, as a chain of circuit dialects. The library is written and proved in
Verus; the Python module around it is ordinary Rust.

```text
annotated circuit     boxes with annotations on them: what randomization is wanted
  -- build -->
emission circuit      emissions, collect boxes and content boxes: where randomization lives
  + distribution table
  -- absorb_dressing, merge_collectors -->
  -- lower -->
sampling graph        dataflow over virtual state
  + template circuit  a parameterized circuit, with the gates of a synthesizer in place of each collector
  + parameter table   the symbolic angles absorbed into collectors
  -- merge_parallel_nodes, prune, set_virtual_types -->
```

`absorb_dressing` and `merge_collectors` come before `lower`, which mints the template's parameters, and
`absorb_dressing` should come before `merge_collectors`: two collectors merge only with nothing between them, and
absorption is what clears what is there. Both orders are valid.

## Layout

- `src/` is the library. Most root modules hold one stage's vocabulary; each file under `passes/` is one transform.
  `emission_circuit_navigation` is how a pass walks a nested circuit, `track` and `spine` are the flat reading of one.
  A circuit is a list of instructions in an order that respects the wires, each with a number that stays with it.
- `tests/` runs the library from outside.
- `app/` is the Python module: it reads a `DAGCircuit`, runs the passes, and writes circuits out again.

## What is taken on trust

The contracts of the wrappers around `hashbrown`'s maps and sets (`collections`) and around `petgraph`'s stable graph
(`graph`). Each says above it what it claims.
