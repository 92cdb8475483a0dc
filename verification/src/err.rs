//! The error taxonomy of the codec.

use vstd::prelude::*;

verus! {

/// Everything that can go wrong while encoding or decoding a DNS message.
///
/// `SocketError` is never produced by the codec itself; it is reserved for
/// the transport loop that feeds datagrams to the codec.
#[derive(Clone, Copy, Debug, PartialEq, Eq, Structural)]
pub enum DnsError {
    /// A domain-name label is empty or longer than 63 bytes, or the bytes of
    /// a name on the wire are truncated or carry a reserved length tag.
    InvalidName,
    /// A length byte with its top two bits set: a DNS compression pointer,
    /// which this codec deliberately does not follow.
    UnsupportedCompression,
    /// Fewer than 12 bytes where a header was expected.
    TruncatedHeader,
    /// An answer record ends before its fixed fields or its declared data.
    TruncatedAnswer,
    /// An answer's `data` does not have exactly `length` bytes.
    LengthMismatch,
    /// A numeric tag outside the range of its enum, or too few bytes left to
    /// read a question's type or class.
    InvalidEnumValue,
    /// A transport-level failure; raised only by the surrounding server loop.
    SocketError,
}

} // verus!
