//! Schema model and registry.
//!
//! The codec consumes an already-parsed schema: a collection of
//! [`types::MessageDef`] values. [`manager::ConfigManager`] holds them keyed
//! by message type, with a derived lookup keyed by (message type, business
//! ID) for extensions.

pub mod manager;
pub mod parser;
pub mod types;

pub use manager::ConfigManager;
pub use types::{BizExtension, FieldDef, MessageConfig, MessageDef};
