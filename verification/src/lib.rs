//! Wire formats of a media-over-QUIC control channel: variable-length
//! integers, key-value pairs, the SETUP message, and request identifiers.
pub mod key_value_pair;
pub mod request_id;
pub mod setup;
pub mod vi64;
