# librbs_core

The core of a fast loader for RBS (Ruby type signature) environments,
written in Verus and proved correct against its contracts.

- `src/` — the verified library:
  - `interner` — string, namespace and type-name interning;
  - `signature`, `source` — the parts of a parsed signature the
    environment reads;
  - `syntax` — what the walks read of the parser's tree: the class of
    each node variant and type expressions as trees;
  - `env` — the environment (`insert`: registering declarations;
    `use_map`: `# use` aliases; `resolution`: recorded outcomes);
  - `resolver` — type-name resolution (`name_resolver`), the walk over
    every source (`driver`) and the model of what it records (`outcome`);
  - `discovery`, `repository` — which signature files and library
    directories to load, gem versions and their lookup;
  - `directive` — the `# resolve-type-names:` magic comment;
  - `materialize` — bookkeeping for turning an environment into Ruby
    objects: the resolution cursor, caches and their switches, and the
    rows of the phase-time report.
- `tests/` — tests run against the compiled library.
- `app/` — what touches the file system, the environment variables,
  the clock and the RBS parser; it reads, calls the library and hands
  back its results.

Maps and sets are std's `HashMap`/`HashSet` keyed by integers, vstd's
`StringHashMap` keyed by strings, and `Vec` tables. vstd specifies a
std map only for hashers whose behaviour it knows; using the
`FxBuildHasher` of `rustc-hash` would need a trusted claim about that
hasher which the project's rules do not allow, so it is not used. For
the same reason the namespace interner keeps integer-keyed hash buckets
(with a verified hash of the path) rather than a map keyed by
`(Vec<Sym>, bool)`, a key vstd's map specifications do not cover.
