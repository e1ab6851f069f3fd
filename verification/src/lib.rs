//! A QUIC transport library: variable-length integers, frame and packet
//! codecs, stream state machines and connection state.
pub mod varint;
pub mod common;
pub mod buf;
pub mod error;
pub mod frame;
pub mod range_set;
pub mod packet;
pub mod connection;
pub mod programs;
pub mod text;
