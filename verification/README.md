# crossync

Concurrent containers and locks, with their behaviour stated in contracts and proved by Verus.

## What is here

- `src/` is the verified library. Every shared structure is a plain record, and each method is
  one atomic transition of it. Where a thread has to retry or to sleep, a machine says which
  access comes next and is told what it found.
  - `base`: backoff, sleeping on a word, the recursive mutex with a group mode, the condition
    variable, parking, and a value behind a lock.
  - `sync`: the lock word, the reader-writer mutex, guards, the barrier, the reader-writer lock,
    and `protocol`, which shows that writers and readers are kept apart.
  - `lock_free`: a cell behind a lock that spins.
  - `atomic`: `AtomicVec`, `AtomicHashMap`, `AtomicBuffer`, `AtomicCell`, `AtomicArray` and
    `Atomic`.
  - `channels`: a channel with many senders and many receivers.
  - `order` and `handles`: the order in which queues hand out their items, and how the handles
    of a record are counted.
- `tests/` runs the library on values.
- `app/` puts the records where threads reach them: it makes each transition one step, performs
  what the machines ask for, and calls the operating system to sleep and to wake. The ring buffer
  there has no lock: its counters and slots are atomic words, and the machines of `atomic::ring`
  say which of them comes next.

## Laws

Beside the contracts of the functions, public proof functions state what holds across calls:

- mutual exclusion over every run of a lock word, and between the owner of a recursive mutex and a
  group of any size, over whole calls and over the single accesses that they are made of;
- first-in first-out over every run of a vector, a ring buffer and a channel, and what threads that
  are late with their slots can and cannot do to a ring buffer and to a vector;
- that threads which fill an array together each get a slot of their own, and that a push is
  refused only once every slot is taken, whatever its machine asks for in between;
- what a map finds after an insert or a remove, and that the shard of a hash is one of the shards,
  told by the hash and their number;
- that no notification is lost between the look at a counter and the sleep on it, that parking
  tokens are conserved, and that a barrier releases its group, or lets everyone pass who waits for
  nobody;
- that the last handle is told apart.

The contracts of a vector also say how many blocks it keeps for reuse.

## What is trusted

Three functions of `std` have no proof behind them: `std::hint::spin_loop`,
`BuildHasher::hash_one` and `RandomState::new`. Nothing is claimed of their results.
