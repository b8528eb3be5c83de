//! Buffers that stream data is read from and written to.
pub mod chunk;
pub mod duplex;
pub mod error;
pub mod reader;
pub mod reassembler;
pub mod writer;
pub mod zero;

pub use error::Error;
pub use reader::Reader;
pub use reassembler::Reassembler;
