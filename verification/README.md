# bptree

Three small containers with machine-checked contracts:

- `src/bptree.rs` (with its lemmas in `src/bptree/lemmas.rs`): a B+ tree from `u64` keys to
  records. Leaves hold the records and have order 3; inner nodes hold separator keys and have
  order 4. Every operation is specified over the map the tree stands for and over its records
  in key order, and keeps the tree sound: keys ordered, leaves at one depth, every node at
  most full and every node below the root at least half full. The contracts also fix the
  layout: where a full node splits and which key moves up (`split_child`), which neighbour
  lends a key or is joined before a deletion enters a child at its minimum
  (`borrow_or_merge`, `rebalanced`), which node holds which records after a deletion
  (`deleted_below`, `deleted_from`), where an insertion puts its record (`inserted_below`,
  `inserted_into`), and that an update changes one record and nothing else. An insertion is
  refused only where the tree already holds a record for the key. Two laws in the same file
  show that a split and a rebalancing keep a sound node sound with the same records.
- `src/bst.rs`: an unbalanced binary search tree of values ordered by `PartialOrd`.
- `src/queue.rs`: a first-in first-out queue kept as a linked list.
- `src/entries.rs`: ordered runs of key/record pairs and the maps they stand for.
- `src/laws.rs`: laws that relate the operations to each other.

`app/` holds the program that exercises the B+ tree and prints its checks, and the printing
of each structure.
