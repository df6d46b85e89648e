# ternary_trust

Trust and relationship dynamics between agents, verified with Verus.

Trust scores lie in `[-100, 100]` and fall into five stages (Stranger, Wary,
Acquaintance, Friend, Companion). Events move one direction of a
bidirectional relation, clamped to the bounds. A network keeps one relation
for each pair of distinct named agents, under the pair's key in lexicographic
order, and ranks agents by the average trust others have in them.

Layout:

- `src/` — the verified library:
  - `stage.rs`: stages, their names and ordinals;
  - `event.rs`: trust events and their impacts;
  - `score.rs`: bounds, clamping, and the integer steps of decay and forgiveness;
  - `relation.rs`: bidirectional relations;
  - `names.rs`: lexicographic order on names and the canonical pair key;
  - `average.rs`: exact comparison of averages given as totals and counts;
  - `network.rs`: the network of agents, its view, and its laws;
  - `reputation.rs`: aggregates of several scores.
- `app/` — the parts that work with `f64` rates, averages and thresholds,
  built on the library.
- `tests/` — tests run against the compiled library.
