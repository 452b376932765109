# fallingsand_sim

The integer core of a falling-sand cell simulation with rigid bodies, written in
Verus: every function in `src/` carries a contract that Verus proves.

- Cells: powder, liquid and gas movement rules (`powder`, `liquid`, `gas`), the
  block schedule and the chunk journal (`schedule`, `block`, `journal`).
- Bodies: fixed-point rotation and motion (`rotation`, `coarse_rotation`,
  `motion`, `vector`, `arith`), body state and mass properties (`state`),
  capture, spawn, reshape and despawn (`bodies`, `reshape`), islands and parts
  (`islands`, `parts`), buoyancy and settling (`buoyancy`, `settling`).
- Rounds: move proposals, contact classification, tie resolution and commits
  (`proposal`, `classify`, `rounds`, `exchange`, `commit`, `contact`).

Hash sets and maps come from `rustc_hash` and are reached through a few trusted
wrappers in `fx`; the two integer square roots call `isqrt` from std. Everything
else is proved. The tests under `tests/` run the library on concrete values.
