//! Outward branching growth of circular entities on a 2D plane.
//!
//! A population of circles ("things") grows outward from root entities,
//! competing for space. Each simulation step rebuilds a spatial index
//! (a quadtree) over the current positions, injects energy into live
//! roots, lets energized entities branch into new children where there
//! is room, and grows every marked entity that does not collide with a
//! neighbour.
//!
//! All geometry is integral: positions are plane coordinates, sizes are
//! radii, and distances are compared through their squares, so every
//! step is a pure function of the previous state and the random-number
//! state. The `step` function's contract pins the successor state
//! exactly, which makes seeded runs reproducible by construction.

pub mod geom;
pub mod rng;
pub mod angle;
pub mod quadtree;
pub mod config;
pub mod model;
pub mod wf;
pub mod sim;
pub mod laws;
