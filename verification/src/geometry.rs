//! Damage-region geometry: an axis-aligned rectangle type and the
//! arithmetic the damage-tracking pipeline needs on top of it.
//!
//! Every function is specified twice over. Its own `ensures` pins the exact
//! rectangles it returns, in order; the `law_` lemmas say what those
//! rectangles mean as sets of pixels.

pub mod area;
pub mod debt;
pub mod merge;
pub mod region;
pub mod subtract;

pub use area::{damage_fraction, total_area};
pub use debt::DebtAccumulator;
pub use merge::{is_adjacent, merge_regions};
pub use region::Region;
pub use subtract::{MAX_PIECES, subtract_regions};
