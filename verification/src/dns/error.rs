//! Errors raised while reading or writing DNS packets.

use vstd::prelude::*;

verus! {

/// Declares `std::io::Error` to the verifier as an opaque type: its values
/// are carried, nothing is known of what they hold.
#[verifier::external_type_specification]
#[verifier::external_body]
pub struct ExIoError(std::io::Error);

/// Declares `core::str::Utf8Error` to the verifier as an opaque type: its
/// values are carried, nothing is known of what they hold.
#[verifier::external_type_specification]
#[verifier::external_body]
pub struct ExUtf8Error(core::str::Utf8Error);

/// Everything that can go wrong while handling a DNS packet.
#[derive(Debug)]
pub enum DnsError {
    /// An access at the given position would leave the packet buffer.
    BufferOverflow(usize),
    /// A compressed name followed more pointers than allowed.
    TooManyJumps,
    /// A label of a name to be written is longer than 63 bytes.
    LabelTooLarge(usize),
    /// The network layer failed.
    Io(std::io::Error),
    /// Some bytes were not valid UTF-8.
    Utf8(core::str::Utf8Error),
}

/// A failure of the network layer is a DNS error.
impl From<std::io::Error> for DnsError {
    fn from(e: std::io::Error) -> (res: DnsError) {
        DnsError::Io(e)
    }
}

impl vstd::std_specs::convert::FromSpecImpl<std::io::Error> for DnsError {
    open spec fn obeys_from_spec() -> bool {
        true
    }

    open spec fn from_spec(e: std::io::Error) -> DnsError {
        DnsError::Io(e)
    }
}

/// Bytes that are not valid UTF-8 are a DNS error.
impl From<core::str::Utf8Error> for DnsError {
    fn from(e: core::str::Utf8Error) -> (res: DnsError) {
        DnsError::Utf8(e)
    }
}

impl vstd::std_specs::convert::FromSpecImpl<core::str::Utf8Error> for DnsError {
    open spec fn obeys_from_spec() -> bool {
        true
    }

    open spec fn from_spec(e: core::str::Utf8Error) -> DnsError {
        DnsError::Utf8(e)
    }
}

/// Result type of the DNS operations.
pub type Result<T> = core::result::Result<T, DnsError>;

} // verus!
