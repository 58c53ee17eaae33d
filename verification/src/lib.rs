//! Core of a small local-network file transfer utility: the byte encodings that the
//! sender and the receiver exchange (padded names and codes, little-endian counters,
//! chunk frames and checksum replies), the transfer-code generator and the ordering of
//! received fragments, each with a verified contract.

pub mod bytes_util;
pub mod network_utils;
pub mod networking;
