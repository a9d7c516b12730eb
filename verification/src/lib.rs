//! Verified protocol core for a line-oriented "bus interrogator" device
//! driven over an unbuffered byte-stream transport.
//!
//! The library covers the transport framing and response harvesting:
//! pacing a command onto the wire in two-byte bursts, deciding when a
//! reply is complete from a run of empty polls, splitting the reply into
//! lines, decoding the hexadecimal payload of a tagged `READ: ` line,
//! and driving a windowed memory dump. The physical transport (opening
//! the port, writing, sleeping, polling) is left to the surrounding
//! program, which feeds plain bytes in and out of these functions.

pub mod dump;
pub mod parse;
pub mod receive;
pub mod transmit;
