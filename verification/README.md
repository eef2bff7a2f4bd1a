# lau-agent-homeostasis

Self-regulating mechanisms that keep a software agent balanced.

- `src/` is the verified library (Verus):
  - `types` — urgency levels and their names, stress actions, alerts;
  - `naming` — the `alert-N` identifiers, proved injective;
  - `systems` — the alert book: numbering and timestamps, capacity (oldest dropped first),
    acknowledgement, the active and critical views, clearing of resolved
    metrics, with the invariant that identifiers rise from the oldest alert to
    the newest, so that no two alerts share one;
  - `regulators` — the zone regulator: zones sorted stably by lower bound,
    and the first zone that holds a reading, over order keys that stand for
    the readings.
- `app/` is the floating-point side: the homeostasis controller, the PID and
  bang-bang regulators, circadian and stress models, urgency from a
  deviation ratio, the order keys of `f64` readings, and serde forms of the
  verified types.
- `tests/` runs the verified library on concrete values.
