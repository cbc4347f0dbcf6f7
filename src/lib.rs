//! Typed command/response messages for a sensor pad, carried over a byte
//! stream as self-delimiting frames with an optional integrity check.

pub mod checksum;
pub mod codec;
pub mod device;
pub mod framing;
pub mod message;
pub mod push_buffer;
pub mod reader;
pub mod types;
pub mod wire;

pub use codec::{Codec, DeserializeError, Integrity, Payload, SerializeError};
pub use message::{Command, Response};
pub use push_buffer::{BufferOverflow, PushBuffer};
pub use reader::ReadError;
pub use types::AdcValues;
