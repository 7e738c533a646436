//! A connection layer over UDP: the packet header of the handshake protocol,
//! the per-connection handshake state machine, and the reliability layer
//! (acknowledgements, ordering, sequencing and fragmentation).
pub mod error;
pub mod packet;
pub mod wire;
pub mod protocol_version;
pub mod packet_header;
pub mod activity_system;
pub mod sequence_buffer;
pub mod acknowledgment;
pub mod keyed_vec;
pub mod arranging;
pub mod config;
pub mod headers;
pub mod fragmentation;
pub mod reliability_system;
pub mod events;
pub mod messenger;
pub mod address_connection;
pub mod connection_manager;
pub mod client_connection;
