//! A resumable, event-based parser for DASH MPD (Media Presentation
//! Description) documents.
//!
//! The parser is incremental: MPD bytes may be fed in arbitrarily small
//! chunks, and parsing suspends at the end of the available input and
//! resumes exactly where it left off when more bytes arrive.  Instead of
//! building a DOM, it emits a flat stream of events: tag opens, tag closes,
//! typed attribute values and non-fatal parse errors.

pub mod attributes;
pub mod errors;
pub mod events;
pub mod processor;
pub mod reportable;
pub mod s_element;
pub mod utils;
pub mod values;
pub mod xml;

pub use errors::ParsingError;
