# Kraken Space Program

A part-based rocket sandbox built on Bevy, Rapier and Lua-defined parts. The decisions
the engine makes are a library verified with Verus; the floating-point physics, the
rendering and the Lua runtime are an application around it.

## Layout

- `src/` — the verified library (`kraken_space_program`):
  - `sdk` — the part registry (sorted by id, first definition of an id kept), mesh path
    resolution, the shape and module vocabularies, and the Lua sandbox's globals and
    instruction budget.
  - `physics::joints` — when an overloaded joint breaks: on its third consecutive
    overloaded tick, with a calm tick resetting the count.
  - `vessel` — stage requests and decouplers, splitting a vessel at a cut joint (each half
    keeps exactly one root), how an assembled stack is wired, and which vessels an impact
    wrecks.
  - `diagnostics::test_pilot` — the scripted pilot's profiles and its stage-on-flameout
    rule.
- `tests/` — tests of the library on concrete values.
- `app/` — the game: Bevy plugins and systems, Rapier, rendering, the HUD, and the Lua VM.
  It converts ECS state to plain values, calls the library, and applies the result.

Part entities cross into the library as their `Entity::to_bits` value.
