//! A multi-target ICMP echo prober: the wire codec, the payload patterns,
//! the time-windowed statistics store and the decisions of the send,
//! receive and report loops.

pub mod codec;
pub mod payload;
pub mod ping;
pub mod report;
pub mod stat;
