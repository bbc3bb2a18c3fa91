# agent_health_check

A registry of the health of an LLM agent's components (model provider, vector
store, database, tools, ...), verified with Verus.

- `src/status.rs`: `Status` (`Okay`, `Degraded(reason)`, `Down(reason)`,
  `Unknown`), its severity and its text.
- `src/registry.rs`: `HealthRegistry`, a vector of entries kept sorted by name;
  its view is a finite map from names to statuses.
- `src/model.rs`: what the registry's questions mean on that map.
- `src/order.rs`: the order of names (that of `str`, byte-wise on UTF-8).
- `src/summary.rs`, `src/text.rs`: counts by kind and their one-line text.
- `src/laws.rs`: properties of the registry as a whole, proved over the map.

Names are listed in the order of `str`. Among components of the same, worst
severity, `overall` reports the one whose name comes first.
