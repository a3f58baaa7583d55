//! HL7 v2 message transmission support: MLLP byte framing, header-segment
//! parsing, and acknowledgment classification.
//!
//! The library works on plain byte sequences. Network and file I/O live
//! outside of it; callers hand in the raw bytes of a message or of a received
//! acknowledgment and get back parsed records, classifications, or a
//! [`errors::Hl7Error`] saying exactly what was wrong.

pub mod ack;
pub mod errors;
pub mod framing;
pub mod header;
pub mod segments;
