//! A compact little-endian binary codec: fixed-width primitives, length-prefixed
//! strings and sequences, optional values, and schema-driven product and sum types.
pub mod error;
pub mod decoder;
pub mod codec;
pub mod primitive;
pub mod composite;
pub mod sequence;
pub mod text;
pub mod schema;

pub use error::Error;
pub use decoder::Decoder;
pub use schema::{decode_value, encode_value, Shape, Value};
pub use codec::{decode, encode, ByteDecode, ByteEncode, ByteTransport};
pub use vstd::view::DeepView;
