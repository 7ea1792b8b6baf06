# rustunsafedatastruct

Classic data structures, written in Verus and proved against their
contracts:

- `vec`: `ManVec`, a growable array with an explicit, doubling capacity.
- `list`: a singly linked `List` with its iterators.
- `hashmap`: `HashMap`, buckets of `HashTableList` chosen by std's
  `DefaultHasher` keyed with two random words; its model is a `Map`.
- `redblacktree`: `RedBlackTree`, an ordered multimap kept balanced; every
  operation keeps the red-black invariants.
- `skiplist`: `SkipList`, an ordered map whose nodes live in an arena and whose
  heights come from coin flips.
- `maxheap`: `MaxHeap` over a `ManVec`; its model is a `Multiset`.
- `quicksortbinarysearch`: `quick_sort`, `binary_search` and `shuffle`.
- `tree`, `bsttree`: binary trees with their traversals, and binary search
  trees.
- `key`: `IntKey`, the integer-like keys that the ordered structures compare.

Each module ends with the laws that relate its operations (a read after a
write, an operation that undoes another).  `tests/` runs the structures on
concrete values; `app/` is a small program that exercises them, with the
stop watch and the spin lock that stay outside the verified library.
