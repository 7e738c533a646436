//! The settings of a connection.
use vstd::prelude::*;

verus! {

/// Settings shared by all connections of a socket. Durations are in
/// milliseconds.
#[derive(Debug, Clone, Copy)]
pub struct Config {
    /// How long a connection may stay silent in both directions.
    pub idle_connection_timeout: u64,
    /// How many unacknowledged reliable packets a connection may have.
    pub max_packets_in_flight: u16,
    /// The largest unreliable payload that may be sent.
    pub receive_buffer_max_size: usize,
    /// The largest payload of one fragment.
    pub fragment_size: u16,
    /// The largest number of fragments of one packet.
    pub max_fragments: u8,
    /// How many packets may be reassembled at once.
    pub fragment_reassembly_buffer_size: u16,
}

impl Config {
    /// Settings under which fragments can be computed: the fragment size is
    /// nonzero and the reassembly ring has a slot.
    pub open spec fn wf(&self) -> bool {
        &&& self.fragment_size > 0
        &&& self.fragment_reassembly_buffer_size > 0
    }
}

impl Default for Config {
    fn default() -> (r: Self)
        ensures
            r.idle_connection_timeout == 5000,
            r.max_packets_in_flight == 512,
            r.receive_buffer_max_size == 1500,
            r.fragment_size == 1450,
            r.max_fragments == 16,
            r.fragment_reassembly_buffer_size == 64,
    {
        Config {
            idle_connection_timeout: 5000,
            max_packets_in_flight: 512,
            receive_buffer_max_size: 1500,
            fragment_size: 1450,
            max_fragments: 16,
            fragment_reassembly_buffer_size: 64,
        }
    }
}

} // verus!
