//! The codec engine: wire-level helpers, the byte-exact specification of the
//! protocol, and the message encoder and decoder.

pub mod decoder;
pub mod encoder;
pub mod laws;
pub mod model;
pub mod types;
pub mod wire;

pub use decoder::MessageDecoder;
pub use encoder::MessageEncoder;
pub use types::{FieldTypeCode, FieldValueData, MessageHeader, Result};
