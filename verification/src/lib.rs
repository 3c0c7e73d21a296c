//! Schema-driven binary codec for exchange trading-protocol messages.
//!
//! A loaded schema (message definitions with ordered field lists and
//! business-ID-keyed extensions, see [`config`]) drives both directions of
//! the codec: the encoder turns a structured [`message::Message`] into a
//! framed, checksummed byte buffer, and the decoder turns such a buffer back
//! into a `Message`. Both directions are specified byte-exactly by spec
//! functions and verified against them.

pub mod codec;
pub mod config;
pub mod message;
pub mod util;
