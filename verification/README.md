# poe-optimizer-import

Offline, bounded import policies for owned game data, written in Verus. The
checks on imported data are verified functions; their contracts state what
they return, which errors come on which inputs, and, for the item-line
conversions and the staging of item observations, that a call whose checks
pass and whose charges fit its budgets succeeds.

`OwnedMappingIndex::new` promises acceptance of a valid package whose
collections and texts fit the limits; it counts each complete output member
set once per entry that reaches it, an upper bound on what it charges.

Not provided by this crate: attributing source rows to item ranges
(`ItemSourceLayoutPolicy::attribute`), normalizing fresh game data, compiling
passive views, extending recipes, tree allocations, assembling a whole
release and compiling membership patches. Those steps build on engine,
draft and canonical-encoding types that are not part of this crate; the
checks they rely on (refinement, membership, release manifests, item lines,
mapping packages) are here. Item-line policies are not bounded by their
encoded size here, for the same reason.

Layout:

- `src/` — the verified library.
  - `registry` — the owned-ID allocation history: sequential `def.` keys,
    tombstones, and the successor relation hosts use before persisting edits.
  - `mapping` — exact external identity mappings and the checked mapping
    package: unique selectors, active and described targets, one-to-one exact
    mappings, reviewed ambiguity, coherence with mapped parents, and the
    bindings to a registry snapshot, schema, policy and source pin.
  - `membership`, `refinement` — monotonic additions to partial schema
    membership and the preservation of a schema across such a refinement.
  - `item_lines` — injected item text-line policies: checking a policy
    against the owned schema, matching lines without guessing capture
    boundaries, and folding line evidence into item fields and issues.
  - `item_source`, `observations`, `observation_policy` — source layout
    policies, the item observation catalog, and the compilation of reviewed
    display observations into template allowlists; staging rebuilds and
    re-checks the successor line policy, the predecessor's rules followed by
    the new ones.
  - `provenance`, `release`, `recipe`, `gems`, `normalize` — source pins,
    release and artifact manifests, gem refinements and query targets.
- `tests/` — executable tests of the library.
- `app/` — JSON codecs and error reporting around the library; floating-point
  catalog values are decoded there and handed over by their bit patterns.
