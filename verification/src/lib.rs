//! Terrain engine for a 2-D tile sandbox game.
//!
//! The crate covers the three subsystems that carry the engine's real
//! logic, each verified against its contract:
//!
//! * world generation — height-map synthesis, column fill, mountain and
//!   sky-island placement, and random-walk cavern carving over a fixed
//!   tile grid (`gen`);
//! * windowed streaming — an active rectangle derived from the camera,
//!   reconciled by stripe differencing against a pool of reusable
//!   drawable handles (`stream`);
//! * visibility — recursive shadowcasting over eight octants, bounded by
//!   radius and by the active window (`visibility`).
//!
//! Noise samples enter the library as pre-scaled integer arrays and
//! drawing leaves it as a list of plain commands, so the host engine and
//! the noise source stay outside the verified core.

pub mod gen;
pub mod grid;
pub mod rect;
mod rng;
pub mod stream;
pub mod tile;
pub mod visibility;
pub mod world;
