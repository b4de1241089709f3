//! Reliability core for a game network transport: datagram framing,
//! per-peer connection bookkeeping, confirmation batching, retransmission
//! and message fragmentation, all driven by caller-supplied clocks.

pub mod book;
pub mod confirms;
pub mod fragment;
pub mod header;
pub mod messages;
pub mod resend;
