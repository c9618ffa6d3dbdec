//! Building blocks for serving a desktop over RDP.
//!
//! - [`geometry`]: damage-region arithmetic.
//! - [`cursor`]: the transparent pointer shape.
//! - [`session`]: KWin virtual-output sessions.

pub mod cursor;
pub mod geometry;
pub mod session;
