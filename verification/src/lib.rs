//! Spatial hash index for a two-dimensional particle fluid.
//!
//! Particles live on an integer lattice of cells whose edge is the smoothing
//! radius of the fluid. A fixed table of buckets maps each cell to a chain of
//! particle indices, threaded through the particles themselves, so that the
//! particles near a point are found by walking the chains of the nine cells
//! around it. Cells far apart may share a bucket: a walk drops the particles
//! of cells outside the nine, and a test that the caller supplies, on the
//! distance as a rule, tells the neighbours among the others. Cells of one
//! block may share a bucket too: a walk follows such a bucket once, so that no
//! particle is met twice.
//!
//! - [`cell`]: cells, the mixing function from a cell to a bucket, the block
//!   of nine cells around a cell.
//! - [`particle`]: what the index keeps of a particle, and the chains that
//!   the links form.
//! - [`grid`]: the table of buckets and the walk over the neighbours.
//! - [`placement`]: what the table and the links hold once the particles have
//!   been placed in index order.
//! - [`system`]: a fixed number of particles with their table, rebuilt at
//!   every step and after every transform of the particles.
//! - [`laws`]: what holds of the walks, whatever the size of the table.

pub mod cell;
pub mod particle;
pub mod grid;
pub mod placement;
pub mod system;
pub mod laws;
