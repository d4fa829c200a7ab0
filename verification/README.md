# gridiron

An adaptive mesh refinement library for conservation laws on structured,
rectilinear grid patches.

- `src/` is the library, written and proved with Verus: index spaces and
  memory regions, interval and rectangle maps, search trees, the mesh
  topology, the routing of messages between automata, the scheduling of
  compute tasks, and the decisions of the message-passing layer (tree
  broadcast and reduce schedules, ordering by iteration, backoff, delivery
  retries).
- `tests/` exercises the library on concrete values.
- `app/` is the part that runs threads, talks to the network, serializes
  messages and computes on floating-point patch data, on top of the library.
