# todc

Algorithms for distributed computing, with their behaviour stated in
contracts and proved with Verus.

- `src/linearizability`: histories of calls and responses, and a checker
  that searches for a linearization of a history against a sequential
  specification. A history it accepts has a linearization. It accepts
  every history that has one when four things hold: the specification's
  `init` and `apply` answer alike to alike arguments, cloning a state gives
  an equal state, the pairs of marks and states that it caches obey vstd's
  model of hash-set keys (vstd states that model for primitive types only,
  so for these pairs it is an assumption of the caller), and every call in
  the history comes before its response and every response answers a call.
- `src/register`: shared registers — one holding an integer, one holding
  any `Copy` value, and one holding values packed into 64 bits.
- `src/snapshot`: `N`-component snapshot objects — one keeping its
  components together, the unbounded and bounded snapshots of Afek, Attiya,
  Dolev, Gafni, Merritt and Shavit, and the lattice-agreement snapshot of
  Attiya and Rachman — with the packing of their contents into 64 bits.
- `src/abd.rs`: the decisions of the message-passing register of Attiya,
  Bar-Noy and Dolev: the order of labelled values, which value a server
  keeps, the size of a majority, and which value a read returns.
- `app/`: a program that shares a snapshot object between threads, and an
  HTTP server for the message-passing register (`serve` and the neighbours'
  URLs as arguments).

Registers and snapshot objects are proved as sequential objects: a write or
update takes `&mut self`, and sharing one between threads goes through a
lock.
