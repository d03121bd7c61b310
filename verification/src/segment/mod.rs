//! UAX #29 Unicode Text Segmentation: grapheme cluster, word and sentence
//! boundaries for cursor movement, backspace, truncation and counting.
pub mod grapheme;
pub mod sentence;
pub mod word;

pub use grapheme::{grapheme_boundaries, grapheme_cluster_boundaries, GraphemeClusterBoundaries};
pub use word::word_boundaries;
pub use sentence::sentence_boundaries;
