//! The file-list wire format: entries, and the stateful encoder and decoder
//! that exchange them.

pub mod bytes;
pub mod decoder;
pub mod encoder;
pub mod entry;
pub mod wire;

pub use decoder::{DecodeError, Decoder};
pub use encoder::Encoder;
pub use entry::{group_by_inode, Entry, InodeEntry};
