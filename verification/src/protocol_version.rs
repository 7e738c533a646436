//! The protocol version that every packet header carries, as a CRC-16.
use crate::wire::{checksum_x25, crc16_x25};
use vstd::prelude::*;
use vstd::string::StringSliceAdditionalSpecFns;

verus! {

/// The protocol spoken by this library.
pub const PROTOCOL_VERSION: &'static str = "laminar-0.1.0";

/// The CRC-16 of the protocol version: the first two bytes of every header.
pub open spec fn version_crc16() -> u16 {
    crc16_x25(PROTOCOL_VERSION.spec_bytes())
}

/// Operations on the current protocol version.
pub struct ProtocolVersion;

impl ProtocolVersion {
    /// The current protocol version.
    pub fn get_version() -> (r: &'static str)
        ensures
            r@ == PROTOCOL_VERSION@,
    {
        PROTOCOL_VERSION
    }

    /// The CRC-16 of the current protocol version.
    pub fn get_crc16() -> (r: u16)
        ensures
            r == version_crc16(),
    {
        checksum_x25(PROTOCOL_VERSION.as_bytes())
    }

    /// Whether a received CRC-16 names the current protocol version.
    pub fn valid_version(protocol_version_crc16: u16) -> (r: bool)
        ensures
            r == (protocol_version_crc16 == version_crc16()),
    {
        protocol_version_crc16 == ProtocolVersion::get_crc16()
    }
}

} // verus!
