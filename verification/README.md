# random_mythos

A procedural mythos generator, verified with Verus.

A mythos is a set of entities (`ent00`, `ent01`, ...) with a level of power
and elemental domains (water, earth, fire, air), and relations between them
(parent, invoker, creator) that form a directed acyclic graph. Generation
draws the relations, fixes the levels along a topological order, draws the
domains along the relations, and the mythos is described in prose and as a
Graphviz graph.

Layout:

- `src/` the verified library: `domains` (elemental domains, blending and
  mutation), `relations` (the relation matrix, its generation, adjacency and
  topological sort), `graph` (paths, reachability and acyclicity, with their
  lemmas), `mythos` (entities, levels and domains of a mythos), `description`
  and `dot` (text output), `text` (decimal notation), `plains`, and `laws`
  (properties that tie the operations together). Random draws come from the
  `rand` crate behind the two functions of `random`; `console` writes the
  drawn primary elements to standard output.
- `app/` the command-line program: argument parsing, logging, files, and the
  JSON import and export.
- `tests/` tests of the library.
