# rp

The decision core of an observatory run-plan service, written and proved in
Verus.

- `src/planner` picks the next target, derives progress from the frames on
  disk, and shapes the answers of the ephemeris and catalog tools.
- `src/persistence` holds the image cache, the exposure documents and the
  rules for reading them back from disk.
- `src/routes` frames images and events and decides what each HTTP route
  answers.
- `src/binary64.rs` compares doubles exactly by their bit patterns, and
  `src/arithmetic.rs` computes with them, on integers, rounding as IEEE-754
  does.
- `app` is the service around it: files, sockets, the clock and JSON.

What the library takes from other crates stands behind small functions whose
doc comments say what is relied on.
