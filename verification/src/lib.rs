//! A signed-distance-field renderer over fixed-point numbers.
//!
//! Every quantity is an integer count of millionths ([`fixed::ONE`] stands for
//! 1.0), and every operation saturates at [`fixed::LIMIT`], so that each function
//! of the library is total and its result is pinned down by a specification
//! over the integers.

pub mod fixed;
pub mod vec3;
pub mod field;
pub mod march;
pub mod random;
pub mod trace;
pub mod color;
pub mod frame;
pub mod radial;
pub mod aimed;
pub mod passing;
pub mod piercing;
