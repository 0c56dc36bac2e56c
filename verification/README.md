# cds

Sequential data structures with verified contracts, and the concurrent
structures built around them.

`src/` is the verified library:

- `map`, `sequential`: the interface of a map that one thread owns, with
  contracts over the map it holds.
- `avltree`, `tree`: AVL trees; every operation keeps the tree balanced.
- `btree`: a B-tree with at most 11 keys in a node, whose nodes split,
  merge and borrow.
- `linkedlist`: a sorted singly linked list.
- `art`: an adaptive radix tree over byte-encoded keys, with inner nodes of
  four sizes and compressed paths.
- `stack`, `queue`: sequential stacks and queues, a fat-node queue, and the
  requests that a flat-combining queue applies.
- `laws`: what holds across operations (a read after a write, an insert
  undone by a remove, first-in first-out, last-in first-out).

`app/` holds what threads share: locks, the lock-based and lock-free stacks
and queues, the flat-combining lock and the concurrent AVL trees. They work
through pointers that crossbeam-epoch protects and through locks, which take
`unsafe` code; the sequential structures they guard are those of `src/`.

The crate has no spin lock and no sequence lock, so it has no structures
built on them: there is no `SpinLockStack`, `SpinLockQueue`,
`TwoSpinLockQueue` or `SeqLockAVLTree`.
