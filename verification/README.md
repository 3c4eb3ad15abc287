# dashboard_metrics

The verified core of a status dashboard's metrics collection.

- `src/text.rs`: character-level text operations (Unicode whitespace trimming,
  ASCII lower-casing, splitting, code-point ordering, decimal parsing), each
  specified over the `Seq<char>` view of a string.
- `src/order.rs`: ordering by a pair of text fields and a stable insertion
  sort, proved sorted, permutation-preserving, order-preserving within equal
  keys and unique.
- `src/catalog.rs`: the model catalog: the estate allowlist parser, the
  estate filter, the decision taken on each catalog poll, and their laws.
- `src/netdata.rs`: the Netdata agent: endpoint URLs and queries, the node list, series
  keys and columns, the featured node, the decision taken on each metrics
  poll, and their laws.
- `app/`: HTTP polling (reqwest, tokio), JSON decoding (serde, serde_json),
  logging (tracing) and the floating-point figures of node snapshots.
