//! Reconstruction of RPC calls from text-format capture files.
//!
//! A capture file is a sequence of newline-terminated records, each describing
//! one side (request or response) of an RPC exchange. The entry parser turns
//! the raw bytes of one file into a sequence of parse results, one per record;
//! the call correlator pairs the parsed entries into logical calls, keeping
//! orphaned sides and protocol anomalies observable instead of dropping them.

pub mod entry;
pub mod parse;
pub mod correlate;
pub mod dump;
