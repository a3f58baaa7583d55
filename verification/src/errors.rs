//! The failure taxonomy of message validation and acknowledgment
//! interpretation. I/O failures (file access, connection, transmission) are
//! the caller's business and have no variant here: nothing in this library
//! touches a file or a socket.

use vstd::prelude::*;

verus! {

/// Which expected segment was absent from an acknowledgment.
#[derive(Clone, Copy, PartialEq, Eq, Structural, Debug)]
pub enum SegmentKind {
    /// The message header segment, identified by "MSH".
    Header,
    /// The acknowledgment segment, identified by "MSA".
    Acknowledgment,
}

/// Everything that can go wrong while validating a message or interpreting
/// an acknowledgment. An unrecognized acknowledgment code is not an error:
/// it is a valid classification outcome.
#[derive(Clone, Copy, PartialEq, Eq, Structural, Debug)]
pub enum Hl7Error {
    /// The header segment is too short to carry a field separator at its
    /// fourth position.
    MalformedHeader,
    /// The first segment of the message is not a header segment.
    NotAHeaderSegment,
    /// The transport handed back an empty buffer.
    NoDataReceived,
    /// The acknowledgment lacks one of its two expected segments.
    MissingSegment(SegmentKind),
    /// The acknowledgment segment has no second field to carry the reply
    /// code.
    TruncatedAckSegment,
}

} // verus!
