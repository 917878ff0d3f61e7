//! Grid mazes packed into 32-bit squares: construction, carving helpers,
//! recorded histories for playback, and the table lookups around them.

pub mod maze;
pub mod tape;
pub mod key;
pub mod builders;
pub mod rng;
pub mod tables;
pub mod run;
pub mod solvers;
pub mod playback;
pub mod monitor;
pub mod painters;
pub mod frames;
pub mod measure;
pub mod glyph;
