//! Errors of the connection and reliability layers.
use vstd::prelude::*;

verus! {

/// What could not be decoded.
#[derive(Debug, Clone, Copy, PartialEq, Eq, Structural)]
pub enum DecodingErrorKind {
    PacketType,
    OrderingGuarantee,
    DeliveryGuarantee,
}

/// Why an outgoing packet was refused.
#[derive(Debug, Clone, Copy, PartialEq, Eq, Structural)]
pub enum PacketErrorKind {
    ExceededMaxPacketSize,
    PacketCannotBeFragmented,
}

/// Why a fragment could not be reassembled.
#[derive(Debug, Clone, Copy, PartialEq, Eq, Structural)]
pub enum FragmentErrorKind {
    ExceededMaxFragments,
    AlreadyProcessedFragment,
    CouldNotFindFragmentById,
    FragmentWithUnevenNumberOfFragemts,
    MultipleAckHeaders,
    MissingAckHeader,
}

/// Which header of the reliability layer could not be read.
#[derive(Debug, Clone, Copy, PartialEq, Eq, Structural)]
pub enum HeaderKind {
    Standard,
    Acknowledgment,
    Arranging,
    Fragment,
}

/// The kind of a failed read or write on a byte buffer.
#[derive(Debug, Clone, Copy, PartialEq, Eq, Structural)]
pub enum IoErrorKind {
    /// A read ran past the end of the buffer.
    UnexpectedEof,
    /// A write did not fit into the buffer.
    WriteZero,
}

/// Every error of the library.
#[derive(Debug, Clone, Copy, PartialEq, Eq, Structural)]
pub enum ErrorKind {
    DecodingError(DecodingErrorKind),
    FragmentError(FragmentErrorKind),
    PacketError(PacketErrorKind),
    ProtocolVersionMismatch,
    CouldNotReadHeader(HeaderKind),
    IOError(IoErrorKind),
}

} // verus!
