//! HL7 v2 messages: their data model, the parser and the acknowledgment builder.

pub mod identity;
pub mod parser;
pub mod round_trip;
pub mod types;
