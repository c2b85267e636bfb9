//! The error taxonomy of the broker core.

use vstd::prelude::*;

verus! {

/// Every failure a core operation can report.
///
/// `NoMoreEvents` is an expected end-of-stream outcome, not a fault;
/// `EndOfSegment` is its segment-level counterpart, reported when a read
/// cursor sits exactly at the end of one segment file.
#[derive(Clone, Copy, Debug, PartialEq, Eq, Structural)]
pub enum BrokerError {
    /// A token or event-id string is not of the form `{decimal}-{rest}`.
    InvalidToken,
    /// The presented key does not match the stored key (wrong key, or a
    /// tombstoned record whose key was zeroed).
    Unauthorized,
    /// The named topic has no log directory.
    UnknownTopic,
    /// The consumer has read everything the topic currently holds.
    NoMoreEvents,
    /// A segment read cursor sits exactly at the end of the segment.
    EndOfSegment,
    /// An offset does not address a whole stored record, or stored bytes
    /// cannot be decoded as the record they should hold.
    CorruptRecord,
    /// The backing store is absent or cannot hold the request.
    IoFailure,
    /// A topic name contains whitespace.
    InvalidName,
    /// A topic of that name already exists.
    TopicExists,
}

} // verus!
