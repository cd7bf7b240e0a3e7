# graph library, verified

A general purpose graph data type and algorithm library, written in Verus.
Every function states its behaviour in `requires` / `ensures` clauses over a
mathematical model of the graph, and Verus proves that the code meets them.

## Layout

- `src/view.rs`: `GraphView`, the model every contract is stated over
  (vertices, vertex weights, the edges stored from each vertex, directedness),
  with the definitions of edges between two vertices, adjacency, walks and
  reachability, and the lemmas relating them.
- `src/graph.rs`, `src/property.rs`: the `Graph` trait and the traits for graphs
  that can be changed (`NewVertex`, `RemoveVertex`, `AddEdge`, `RemoveEdge`,
  `GraphMut`, `VertexCount`, `EdgeCount`).
- `src/adjacency_list.rs`: `AdjListGraph`, an adjacency-list graph.
- `src/vertex_map.rs`: `VertexMapGraph`, a graph whose vertices are chosen by
  its user, backed by another graph.
- `src/ensured.rs`: a graph together with a vertex known to be in it.
- `src/constraint/`: wrappers that keep a property of a graph (directed,
  undirected, unique edges, no loops, non-null, reflexive, connected, weakly
  connected, unilateral, unilaterally connected).
- `src/algo/`: depth-first traversal (carrying a payload whose hooks it calls
  as it visits, explores and exits vertices) and breadth-first traversal,
  searches, reachability, Tarjan's strongly connected components and
  Dijkstra's shortest paths; algorithms that do not hold their graph can be
  retained with it and stepped (`retain.rs`).
- `tests/`: tests of the library on concrete graphs.
