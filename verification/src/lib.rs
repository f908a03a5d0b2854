//! A compact binary event-log toolkit: it converts web-server access-log
//! text into a fixed-width binary stream of 8-byte `(timestamp, address)`
//! records, and computes daily-unique, monthly-unique, and global-unique
//! address reports by scanning that stream.

pub mod calendar;
pub mod codec;
pub mod ipv4;
pub mod laws;
pub mod parse;
pub mod passes;
pub mod split;
pub mod textfmt;

mod buckets;
mod ipset;

pub use codec::Record;
pub use codec::decode;
pub use codec::decode_stream;
pub use codec::encode;
pub use parse::ParseError;
pub use parse::log2mlg;
pub use parse::parse_log_line;
pub use passes::mlg2dau;
pub use passes::mlg2mau;
pub use passes::mlg2uniq;
