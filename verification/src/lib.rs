//! Decisions behind serving a seekable byte stream over HTTP: which ranges of
//! the stream a request selects, what the answer says about them, and how
//! several ranges are framed as one multipart body.

pub mod client;
pub mod cursor;
pub mod delivery;
pub mod exchange;
pub mod multipart;
pub mod ranges;
pub mod reading;
pub mod requests;
pub mod seekstream;
pub mod text;
