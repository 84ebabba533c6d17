//! Receive-side core of an HL7 v2 endpoint: MLLP framing, message parsing,
//! acknowledgments and a bounded in-memory message store.

pub mod config;
pub mod hl7;
pub mod mllp;
pub mod store;
pub mod text;
