//! A JSON value tree with a lossless decimal number representation, and a
//! verified serializer producing compact or pretty-printed JSON text.

pub mod json;
pub mod laws;
pub mod text;
pub mod traits;

pub use json::{JsonObject, JsonValue, NumberValue};
pub use traits::Serialize;
