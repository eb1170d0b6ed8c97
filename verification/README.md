# web_3d_car

A browser soft-body driving sandbox (node/beam cars on procedural terrain),
split into a verified library and the code around it.

- `src/` — the library, verified with Verus. It holds the discrete logic of the
  simulation, each function with a contract and the laws that relate them:
  - `camera`: camera-mode selection;
  - `drivetrain`: the gearbox state machine (manual R-N-1..6 shifting,
    automatic brake-to-reverse and rpm shifts);
  - `structure`: the beam store, its endpoint list and its reset;
  - `lattice`, `car`: lattice and chassis topology (grid beams, frame faces,
    corner skeleton);
  - `mounts`: the choice of the chassis nodes a wheel hub is mounted to;
  - `collision`: the connected-pair set skipped by self-collision and the row
    split of the parallel pass;
  - `scene`: terrain mesh connectivity and the value-noise hash;
  - `layout`, `lines`, `descriptor`, `fleet`: the buffers shared with the
    renderer, the stress-banded line list, the soft-body descriptor and the
    car bookkeeping of the world.
- `app/` — ordinary Rust around the library: the `f32` physics (solver,
  contacts, tires, engine), the glam camera, the Rapier scene and the wasm
  entry point `World`.
- `tests/` — tests of the library's public functions.
