# openmobisim_core

The core of an agent-based road traffic simulator, written in Verus: every function under
`src/` carries a contract that Verus proves.

## Layout

- `src/` — the verified library.
  - `ids`, `order`, `text`, `hash`: dense entity ids, external-id tables assigned by byte
    order, FNV-1a fingerprints.
  - `time`, `queue`, `loading`: the master clock and its step grid, the event queue, and the
    order in which a loading takes up the trips of the day.
  - `rng`, `reduce`: counter-based random streams over ChaCha8 (`rand_chacha`) and
    fixed-order parallel reductions (`rayon`).
  - `diagnostics`, `registry`, `factory`: the capped diagnostics report and the name-based
    registries of methods.
  - `store`, `grouping`, `propensity`, `generate`, `route_update`, `route_choice`,
    `route_cache`: route sets and their inverted index, the congestion propensity of links,
    the planning of route updates, route identities and renumbering, and the cache of route
    sets.
  - `equilibration`, `iterate`, `events`, `run`: the shape of a run's iterations and the
    accounting of one loading.
- `tests/` — tests of the library on concrete values.
- `app/` — what stays outside the proofs: floating-point arithmetic (units, draws, float sums,
  gaps), the option parsing of the methods, the equilibration strategies as trait objects, and
  the shared, locked cache.

The trusted boundary is small and named: the calls into `rand_chacha` and `rayon`, and the
`Debug` quoting of a string, each behind one `#[verifier::external_body]` function whose doc
comment says what its contract claims.

## What is not here

The simulator's road network, demand tables, loading engines and choice models live in
sibling crates of the workspace (`openmobisim_core_graph`, `openmobisim_core_demand`,
`openmobisim_core_loading`, `openmobisim_core_choice`) that this crate does not have. What
cannot be parted from them is left out, in `src/` and `app/` alike: the shortest-path and
fastest-route searches, node snapping, the route attributes, route-set generation over a
network, the run's fingerprint of network and demand, the bike and walk layers, link times,
the route-choice models and their gaps, and the `Run` itself with its loading engines. Their
integer decisions stand in `src/`: the loading order and its event queue, the accounting of a
loading, the static route of a trip, the shape of a run's iterations, the planning of route
updates, route renumbering when sets grow, and the congestion propensity's peak loads.
