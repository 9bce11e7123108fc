//! The non-fatal error channel: parse-level failures are packaged as a
//! human-readable message and surfaced to the host as a custom event,
//! without aborting the parse.

use vstd::prelude::*;

verus! {

/// A non-fatal parsing error, carrying a human-readable description.
///
/// Errors of this kind never abort parsing: they are reported to the host
/// through the custom-event channel and parsing continues with the next
/// recoverable token or attribute.
#[derive(Debug, Clone)]
pub struct ParsingError(pub String);

} // verus!
