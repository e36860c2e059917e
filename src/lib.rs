//! Wire codecs for a versioned request/response protocol: primitive encodings,
//! versioned message layouts with a tagged-field trailer, and header selection.
pub mod compression;
pub mod laws;
pub mod messages;
pub mod protocol;
pub mod registry;

