//! String, command-line and memory-layout helpers for the MOO server,
//! verified with Verus.

pub mod ascii_string;
pub mod crypto;
pub mod memory;
pub mod parse_cmd;
