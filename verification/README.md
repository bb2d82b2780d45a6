# Crucible

A deterministic real-time-strategy simulation (64×64 maps, one resource, a
fixed 10 ticks per second, server-authoritative), its scripted opponents and
the bookkeeping around evolving a learned commander, written in Verus.

## Layout

- `src/` — the verified library.
  - Simulation: `fixed` (fixed-point positions), `entity` (players, unit and
    building types, balance tables), `map` (seeded symmetric maps, path
    finding), `rng`, `game` (state, commands, the win rule), `orders`
    (command validation), `movement`, `tick` (the per-tick phases and
    `step`), `combat`, `economy`, `fog` (visibility and memory).
  - Matches: `serialize` (replays), `golden` (the determinism scenarios),
    `bot`, `scripted` (easy/medium/hard bots), `headless` (match runner),
    `session` (a live human-vs-bot match, one tick at a time), `lobby`
    (which opponent a request names).
  - Commander and training: `features` (the fog-legal observation), `network`
    (layout), `decision` (head choices to commands), `ghost` (replaying human
    matches), `balance`, `fitness`, `curriculum`.
- `tests/` — scenario and unit tests of the library.
- `app/` — what the library leaves out: the JSON wire format (serde), the
  floating-point commander (network, features, scored decisions), fitness
  scores, report helpers and the browser shim.
