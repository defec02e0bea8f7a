//! A binary codec for Avro's primitive types and its array and map containers.
//!
//! Every value is encoded to a plain byte sequence and decoded back from a
//! forward-only [`cursor::ByteCursor`], so that the decoder of a container can
//! drive the decoders of its elements over one shared stream.
pub mod cursor;
pub mod varint;
pub mod codec;
pub mod array;
pub mod map;
pub mod float;
pub mod values;
