//! Putting a QUIC stream back together.
pub mod buffer;
pub mod bytes_spec;
pub mod stream;
pub mod varint;

pub use buffer::Error;
pub use buffer::Reassembler;
pub use varint::VarInt;
