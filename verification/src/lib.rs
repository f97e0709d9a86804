//! A Coulomb gas on a square lattice: batch-Metropolis proposals, painted
//! charge with undo, tiled sweeps, and the bookkeeping of the programs around
//! them. Real-valued quantities are of a type that the caller picks, along with
//! the arithmetic on them: see `physics::Physics`.

pub mod adapter;
pub mod anneal;
pub mod balance;
pub mod bounds;
pub mod calls;
pub mod canvas;
pub mod cold;
pub mod complex;
pub mod convolve;
pub mod duration;
pub mod exact;
pub mod field;
pub mod fold;
pub mod formulas;
pub mod gpu;
pub mod ink;
pub mod json;
pub mod kernel;
pub mod lattice;
pub mod launches;
pub mod limits;
pub mod measured;
pub mod metropolis;
pub mod numbers;
pub mod offsets;
pub mod paint;
pub mod parity;
pub mod parts;
pub mod patch;
pub mod physics;
pub mod plane;
pub mod proposal;
pub mod repeat;
pub mod rise;
pub mod rounding;
pub mod scenario;
pub mod scene;
pub mod session;
pub mod shader;
pub mod shown;
pub mod signs;
pub mod sim;
pub mod spectrum;
pub mod start;
pub mod stream;
pub mod stroke;
pub mod surface;
pub mod tables;
pub mod tally;
pub mod terms;
pub mod tiling;
pub mod undo;
pub mod wgsl;
pub mod words;
