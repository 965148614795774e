//! A markdown formatting core: it renders a structural event stream into a
//! canonical text, computes a minimal edit list that turns the original text
//! into that canonical text, and translates the edits into line/column
//! positions for an editor protocol.

pub mod diff;
pub mod error;
pub mod event;
pub mod fmt;
pub mod index;
pub mod laws;
pub mod parse;
pub mod proto;
pub mod render;
pub mod store;
pub mod text;
pub mod wrap;

pub use error::Error;
