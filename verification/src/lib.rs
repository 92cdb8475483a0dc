//! A verified codec for the DNS wire format: the 12-byte header with its
//! bit-packed flag bytes, length-prefixed domain-name labels, question and
//! answer records, and the assembly of whole query/response messages.
//!
//! Every multi-byte integer on the wire is big-endian; enums encode to their
//! numeric tags. Compression pointers are detected and rejected rather than
//! misread as label lengths.

pub mod answer;
pub mod err;
pub mod fields;
pub mod header;
pub mod message;
pub mod name;
pub mod question;
pub mod wire;
