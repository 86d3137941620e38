//! A layered wire-protocol stack for byte streams: consistent overhead byte
//! stuffing for framing, LEB128 variable-length integers, tag-length-value
//! records, and a small control protocol composed from them.
pub mod buffer;
pub mod cobs;
pub mod cobs_new;
pub mod control;
pub mod leb128;
pub mod packet;
pub mod tlv;
