//! Difficulty estimation for rhythm-game maps, on integer quantities.
//!
//! Two pieces carry the weight: the decomposition of a slider into its timed
//! scoring sub-objects, and the aggregation of per-object strain into ranked
//! section peaks. Times are whole microseconds; positions are integers in a
//! unit of the caller's choice; strain values are integers of which only the
//! order and the sign matter.

pub mod any;
pub mod catch;
pub mod model;
