//! Transforms applied to an encoded message body as a whole.
pub mod snappy;
