//! Unicode text algorithms: bidirectional layout (UAX #9), line breaking
//! (UAX #14), text segmentation (UAX #29), normalization (UAX #15), case
//! mapping, display width, safe truncation and cursor movement.
use vstd::prelude::*;

pub mod bidi;
pub mod casemap;
pub mod cursor;
pub mod data;
pub mod linebreak;
pub mod normalize;
pub mod segment;
pub mod text;
pub mod truncate;
pub mod width;

verus! {

} // verus!
