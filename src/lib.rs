//! Hex dumps in the layout of `xxd`, and the way back from such a dump to bytes.
//!
//! A dump line is an offset of at least eight lowercase hexadecimal digits, `": "`,
//! the bytes in hexadecimal with a space between groups, padding for a short last
//! line, two spaces, and the bytes again as printable ASCII or `.`.
mod text;
mod dump;
mod undump;
mod config;
mod hex;
pub mod laws;

pub use config::{Config, ConfigError, MAX_WIDTH};
pub use dump::{format_hex_dump_line, hex_dump};
pub use hex::run;
pub use undump::{format_reverse_hex_dump_line, reverse_hex_dump, HexError};
