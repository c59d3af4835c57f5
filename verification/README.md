# atomica — CHROME AND CODE, the verified rules

A deterministic, seeded auto-battler: hex topology with a staggered seam, a roll-under
2d10 contest, skills and netrunning ratings, equipment tags, scored objectives, the
battle's decisions (who to fight, where to step, what an area strikes, who a runner
dives, whether a blow or a hack lands) and the run / campaign progression above a
battle.

## Layout

- `src/` — the library, every function with a contract proved by Verus:
  `hex`, `board` (geometry and the seam), `rng`, `roll` (randomness and the contest),
  `skills`, `hack`, `combat` (teams, tags, footprints), `chargen` (the decorator
  vocabulary, lifecycles, generator order, wards), `implant`, `status`, `profile`,
  `terrain`, `objective`, `tactics` (every per-tick decision of a battle) and `run`
  (progression bookkeeping).
- `app/` — the program around it: the float-valued character sheet and damage engine,
  the battle loop that applies the library's decisions, authored content, and the
  command line (`trace` / `probe`).
- `tests/` — scenario tests of the library.
