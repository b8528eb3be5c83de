//! The receiving side of a QUIC stream.
pub mod answers;
pub mod error;
pub mod flowcontrol;
pub mod gap_list;
pub mod laws;
pub mod range_buf;
pub mod recv_buf;
pub mod sorter;
pub mod state;
