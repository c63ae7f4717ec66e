# ricci

Graph learning primitives with verified cores: Ollivier-Ricci edge curvature,
homomorphism-count node features, the graph of relations of a knowledge graph,
exact segment maximum and minimum over edge lists, and the relational graph
convolution.

- `src/` is the library. Every function carries a contract, and Verus proves all
  of them but the three named at the end.
  Floating-point numbers are held as bit patterns (`ieee`); the library orders,
  negates, classifies, rounds and moves them. Where an algorithm needs their
  arithmetic (random-walk measures, entropic transport, tensor products), it
  takes the result or a function as an argument.
- `app/` puts the library on ndarray matrices and Burn tensors, and holds the
  layers that are tensor arithmetic throughout (Poincare ball, GCN, HGCN).
- `tests/` runs the library on concrete graphs.

| Module | What it proves |
|---|---|
| `curvature` | which inputs are rejected and why, one entry per edge in order, the transport problem of each edge |
| `hops` | hop distances are shortest walks and form a metric |
| `features` | walk and closed-walk counts, invariant under weights and relabeling |
| `relgraph` | the four interaction adjacencies, their symmetries, and the statistics |
| `scatter`, `csr` | winners of every segment, on the edge list and on grouped edges, are the same and unique |
| `nn` | which transform serves which relation, and the order of summation |
| `counted`, `metrics` | every segment max/min call counts itself once, with all its values |

Three functions of `graphops` are trusted: `bfs_distances`, `walk_counts` and
`closed_walk_counts`. Their claims stand above the functions that call them.
