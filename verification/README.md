# coulomb

A Coulomb gas on a square lattice: mobile charges anneal by batch-Metropolis
moves under screened repulsion, short-range attraction, line charges and charge
painted with a brush, which can be undone. The library is written and proved in
Verus.

Real numbers are of a type that the caller picks, along with the arithmetic on
them: the trait `physics::Physics`. No contract assumes anything of it, so what
is proved holds for rounded arithmetic too. What needs exact arithmetic says so:
see `exact` and the modules that build on it.

## Modules

- `physics`, `terms`, `formulas`, `fold`, `stream`, `lattice`: numbers, potentials,
  sums, random words, cells.
- `kernel`, `spectrum`, `convolve`: interaction tables and convolution by them.
- `sim`, `scene`, `proposal`, `anneal`: the gas, its set-up, and an iteration of
  annealing.
- `stroke`, `patch`, `paint`, `undo`: strokes of the brush, and taking them back.
- `tiling`, `offsets`, `words`, `gpu`, `adapter`: sweeps on a graphics device, as
  far as the host has a part in them.
- `session`, `json`, `surface`, `scenario`, `duration`, `shader`, `wgsl`: what the
  programs around the gas decide.
- `tally`, `complex`, `plane`, `exact`, `balance`, `parity`: the gas under exact
  arithmetic. Fourier sums give the direct sum around a torus, the potential is
  the direct sum over charges, moves cost what the energy changes by, the running
  energy is the total, and the device's energy is the host's.
- `signs`, `rise`: strokes of opposite signs do the opposite, and positive paint
  never lowers the potential.
- `bounds`: a stroke stays near its points.
- `cold`, `repeat`, `parts`, `rounding`: a cold gas hardly climbs, runs can be
  repeated from the start, and undo takes all parts of a stroke back, off by
  rounding alone.

## Programs

`app/` holds the programs: `coulomb validate`, `coulomb bench`,
`coulomb validate-wgsl` and `coulomb android-build`, and the functions that the
Android app calls. They expect the shaders under `shaders/` and, to validate,
`py_reference.py` beside `Cargo.toml`.

Set `WGPU_BACKEND` to `vulkan`, `metal`, `dx12` or `gl` to look for adapters on
one interface alone, and `WGPU_ADAPTER_NAME` to a part of an adapter's name to
pick that one.
