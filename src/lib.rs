//! An authoritative DNS responder driven by a protobuf configuration file.
//!
//! - `varint`: protobuf wire-format primitives (varints, tags, length-delimited
//!   fields, skipping).
//! - `config`: the walker over `ConfigurationFile -> NetworkResolution ->
//!   Instance -> Uri_Slot -> Uri` that extracts `(tags, ip, port)` entries.
//! - `ipv4`, `text`: dotted-quad addresses, decimal text, name normalisation.
//! - `table`: the record table from normalised tag to address and port.
//! - `name`: DNS names in label-sequence wire form.
//! - `packet`: query parsing and response building.
//! - `fib`: a deliberately slow Fibonacci used as CPU load.

pub mod fib;
pub mod text;
pub mod varint;
pub mod config;
pub mod ipv4;
pub mod table;
pub mod name;
pub mod packet;
