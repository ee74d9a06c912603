//! The peer wire protocol: buffers, messages, framing.

pub mod bitfield;
pub mod buffer;
pub mod message;
pub mod peers;
pub mod tracker;
pub mod wire;
