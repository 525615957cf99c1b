# kirara

Rigid and soft body physics for the web (three.js through WebAssembly).

- `src/` is the `kirara_core` library, verified with Verus: the integer and
  boolean bookkeeping of the engine.
  - `body`: sleep and wake state of a rigid body (`Activity`).
  - `broadphase`: the pairs a bounding-volume tree leaf reports, the pairs
    infinite planes add (each pair once), and the sorted pair list; proved to
    equal the brute-force pair list whenever the tree reports exactly the
    overlapping pairs of non-plane bodies.
  - `constraint`: axis locks of the 6-DOF joint and joint index validity.
  - `softbody`: cloth grid topology (springs by kind, faces) and the table of
    particle pins to rigid bodies.
- `app/` is the floating-point engine around it (math, shapes, contacts,
  solvers, joints, world, character, vehicle, soft bodies) and the
  `wasm-bindgen` bindings.
- `tests/` runs the library on concrete inputs.
