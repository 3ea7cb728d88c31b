//! Encoding and decoding of contract-call data in the Ethereum contract ABI
//! wire format: 32-byte big-endian words, head/tail layout with offset words
//! for dynamic values, and 4-byte function selectors.

pub mod account;
pub mod codec;
pub mod data;
pub mod error;
pub mod laws;
pub mod layout;
pub mod reader;
pub mod reading;
pub mod selector;
pub mod sequence;
pub mod types;
pub mod word;
pub mod writer;
