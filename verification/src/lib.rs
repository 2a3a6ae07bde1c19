//! A recursive DNS resolver core: the wire codec for DNS messages, with
//! compressed domain names, and the decision logic of iterative resolution.
//!
//! Every function states its result over a mathematical model of the wire
//! format, and the codec is proved to read back what it writes.

pub mod parser;
pub mod server;
