//! Parsing and formatting of bandwidth magnitudes written in the binary
//! prefix system (`KiB/s`, `MiB/s`, ... as powers of 1024 of bytes per
//! second), over the exact `bandwidth::Bandwidth` magnitude type.

pub mod bwext;
pub mod chars;
pub mod errors;
pub mod laws;
pub mod numeric;
pub mod parse;
pub mod render;
pub mod rounding;
pub mod strutil;
pub mod units;

pub use errors::Error;
pub use numeric::pow10;
pub use numeric::pow1024;
pub use numeric::rhe;
pub use parse::parse_binary_bandwidth;
pub use parse::parse_binary_fraction;
pub use render::format_binary_bandwidth;
pub use render::FormattedBinaryBandwidth;
