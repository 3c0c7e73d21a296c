//! The structured, in-memory form of a message: a header, and field values
//! keyed by name with insertion order preserved.

pub mod field_value;
pub mod header;
pub mod message;

pub use field_value::scalar_val;
pub use field_value::FieldValue;
pub use field_value::Val;
pub use header::MessageHeader;
pub use message::Message;
