# prep

Verified core of Prep, a package and build tool for native code.

- `src/` is the library, verified with Verus: validated identifiers
  (`manifest`, `identifiers`) and exactly which manifests and lockfiles are
  valid and when a lockfile resolves a manifest (`validity`, `lock_match`),
  their normal forms (`normal`, `order`), the dependency
  graph and its build order (`graph`, `graph_properties`, `graph_acceptance`,
  `graph_reach`), build-result identities (`identity`, `identity_refusals`,
  `encoding`), the plugin protocol's frame checks and the probe exchange as a
  step function (`protocol`, `plugin`), the result store's layout, names and
  checks (`store`), the steps of starting, publishing and recovering staging
  transactions (`publication`), the grouping of activated files
  (`activation`), the command line's decisions (`cli`) and the test
  plugins' names (`support`). `text` and `text_map` hold the string
  ordering, formatting and map primitives these rest on; `outside` declares
  the `std` and `serde_json` types carried through unchanged.
- `app/` is the program around it: TOML and JSON reading and writing, plugin
  processes, the store's filesystem work (each step of which the library
  decides) and `main`.
- `tests/` exercises the library on concrete values.

Each module states its functions' contracts over mathematical models; the
`law_*` proof functions state the properties that hold across calls, such as
build orders holding exactly the packages reachable from the root, each after
its dependencies, result identities not depending on the order of their
inputs, and written manifests and lockfiles not depending on the order they
were listed in.
