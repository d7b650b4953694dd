//! Passive TCP traffic reconstruction.
//!
//! The library decodes IPv4 and TCP headers from raw bytes, reassembles
//! fragmented IPv4 datagrams, tracks TCP connection state and in-order
//! payload bytes per direction, classifies the application protocol of a
//! connection, and drives all of it from a single per-frame dispatch
//! routine.  Capture and record persistence are left to the surrounding
//! program: every function here works on plain values.

pub mod tcp_stream;
pub mod stream_table;
pub mod ip_header;
pub mod tcp_header;
pub mod ip_reassembly;
pub mod protocol_identifier;
pub mod packet_processor;
