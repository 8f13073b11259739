//! Message passing between a parent process and its children, a distributed
//! bank built on it, and Lamport logical clocks.
//!
//! - `communication`: messages, their wire format and framing, and the
//!   parent/child protocols as state machines, and a model of a whole bank
//!   run in which money is conserved.
//! - `banking`: accounts with gap-filled balance histories, transfer orders,
//!   their binary encodings, and the transfer decisions.
//! - `lamport_clock`: the logical clock and its rules.
//! - `codec`, `text`: big-endian integers and decimal/hexadecimal text.

pub mod banking;
pub mod codec;
pub mod communication;
pub mod lamport_clock;
pub mod text;
