//! Unicode character property data.
pub mod bidi_class;
pub mod casemap;
pub mod grapheme_break;
pub mod line_break;
pub mod normalization;
pub mod sentence_break;
pub mod word_break;
