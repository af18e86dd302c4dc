# rlu

Two verified data structures and the read-log-update (RLU) synchronization
scheme they can sit on.

- `src/binary_tree.rs`: an unbalanced binary search tree with insertion,
  grafting, search along the right spine, cutting out the largest and
  smallest nodes, and one-step rebalancing. Each operation is specified by a
  spec function on the tree. Laws state that insertion keeps the values,
  the size and the search-tree property and where the new value lands in
  the in-order sequence; that rebalancing keeps the values, the size and
  the in-order sequence, and, with distinct values under a total order,
  the search-tree property; that a search tree with distinct values is
  sorted; and that cloning keeps the shape.
- `src/rlu.rs`: RLU over an arena. Objects live in `Rlu::heap`, copies in
  the write sets of each thread's data block in `Rlu::pool`. Readers enter
  and leave sections; writers lock objects (copying them into their write
  set), write the copies, and commit on leaving, after which the copies are
  written back once the other threads have left their sections. The state
  invariant `Rlu::wf` ties object headers to write-set entries; every
  operation keeps it. Laws state that a read-only section changes no
  object, that abort keeps every object's data, and that a commit writes
  the copies back and frees what was queued.
- `src/rlu_set.rs`: a set kept as a linked list in RLU memory, used by one
  thread. Its view is the sequence of values from the head; `insert` puts a
  new value in front, `delete` unlinks it, both through locked copies.

`app/` holds what formats values for people: the statistics report, the
text of a set and the drawing of a tree.
