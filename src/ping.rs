//! The decisions of the send and receive loops: what frame a round sends,
//! when the sender stops, and which datagrams become reply records.

use std::time::Duration;

use vstd::prelude::*;

use crate::codec::{MAX_PAYLOAD, decode_reply, encode_request, reply_of, request_frame};
use crate::payload::{
    Patterns, TIMESTAMP_LEN, decode_timestamp, is_corrupted, law_payload_timestamp, probe_payload,
    timestamp_of,
};
use crate::stat::{
    Probe, Result, find_record, keys_unique, latency_of, lemma_upsert_stores, merged_reply, upsert,
    window_of_time,
};

verus! {

/// The configuration of a probing run.
pub struct PingOption {
    /// Read and write timeout of the sockets.
    pub timeout: Duration,
    /// Time to live of the requests.
    pub ttl: u32,
    /// Type of service of the requests, if set.
    pub tos: Option<u32>,
    /// Identifier that marks this run's requests and replies.
    pub ident: u16,
    /// Payload length in bytes.
    pub len: usize,
    /// Rounds per second, over all targets.
    pub rate: u64,
    /// Grace delay in seconds before a window is reported.
    pub delay: u64,
    /// Rounds to send before stopping, if bounded.
    pub count: Option<i64>,
}

impl PingOption {
    /// The payload length leaves room for the timestamp and fits in one
    /// datagram.
    pub fn payload_len_ok(&self) -> (r: bool)
        ensures
            r == (TIMESTAMP_LEN <= self.len <= MAX_PAYLOAD),
    {
        TIMESTAMP_LEN <= self.len && self.len <= MAX_PAYLOAD
    }
}

/// The sender's round counter.
pub struct SendState {
    /// Sequence number of the next round.
    pub seq: u16,
    /// Rounds sent so far.
    pub sent: i64,
}

impl SendState {
    /// Before the first round: sequence one, nothing sent.
    pub fn new() -> (r: SendState)
        ensures
            r.seq == 1,
            r.sent == 0,
    {
        SendState { seq: 1, sent: 0 }
    }

    /// Ends a round: the sequence number moves on, wrapping at 16 bits, one
    /// more round is counted, and the result says whether `count` rounds
    /// have now been sent.
    pub fn finish_round(&mut self, count: Option<i64>) -> (done: bool)
        ensures
            final(self).seq == (old(self).seq + 1) % 65536,
            final(self).sent == if old(self).sent == i64::MAX {
                i64::MAX as int
            } else {
                old(self).sent + 1
            },
            done == (count is Some && final(self).sent >= count->0),
    {
        self.seq = self.seq.wrapping_add(1);
        if self.sent < i64::MAX {
            self.sent = self.sent + 1;
        }
        match count {
            Some(c) => self.sent >= c,
            None => false,
        }
    }
}

/// The request frame of one round: sequence `seq` sent at `ts`, with the
/// timestamp and the pattern of `seq` as payload.
pub fn build_request(ident: u16, seq: u16, patterns: &Patterns, ts: u128) -> (frame: Vec<u8>)
    requires
        TIMESTAMP_LEN <= patterns.random@.len() <= MAX_PAYLOAD,
    ensures
        frame@ == request_frame(ident, seq, probe_payload(patterns.random@, seq, ts)),
{
    let payload = patterns.payload(seq, ts);
    encode_request(ident, seq, payload.as_slice())
}

/// A reply of this run, read out of a datagram.
pub struct Reply {
    /// The IPv4 address that replied.
    pub source: [u8; 4],
    pub seq: u16,
    /// The transmit timestamp carried in the payload.
    pub txts: u128,
    /// The payload did not come back as it was sent.
    pub bitflip: bool,
}

/// The datagram holds an echo reply of the run with identifier `ident`
/// whose payload is long enough to carry a timestamp.
pub open spec fn is_own_reply(d: Seq<u8>, ident: u16) -> bool {
    &&& reply_of(d) is Ok
    &&& reply_of(d)->Ok_0.identifier == ident
    &&& reply_of(d)->Ok_0.payload.len() >= TIMESTAMP_LEN
}

/// Reads a datagram as a reply of this run. Datagrams that are no echo
/// replies, are truncated, or carry another identifier are skipped.
pub fn accept_reply(datagram: &[u8], ident: u16, patterns: &Patterns) -> (r: Option<Reply>)
    ensures
        r is Some <==> is_own_reply(datagram@, ident),
        r is Some ==> {
            let v = reply_of(datagram@)->Ok_0;
            &&& r->0.source@ == v.source
            &&& r->0.seq == v.sequence
            &&& r->0.txts == timestamp_of(v.payload)
            &&& r->0.bitflip == is_corrupted(patterns.random@, v.sequence, v.payload)
        },
{
    match decode_reply(datagram) {
        Err(_) => None,
        Ok(reply) => {
            if reply.identifier != ident || reply.payload.len() < TIMESTAMP_LEN {
                None
            } else {
                let txts = decode_timestamp(reply.payload.as_slice());
                let bitflip = patterns.is_corrupted(reply.sequence, reply.payload.as_slice());
                Some(Reply { source: reply.source, seq: reply.sequence, txts, bitflip })
            }
        },
    }
}

/// The record of a reply from `target` received at `rxts`.
pub open spec fn reply_probe(txts: u128, rxts: u128, seq: u16, target: Seq<char>, bitflip: bool) -> Probe {
    Probe { txts, rxts, seq, target, latency: 0, received: true, bitflip }
}

/// The record a reply becomes, given the name of the address it came from
/// and the time it was read.
pub fn reply_record(reply: &Reply, target: &str, rxts: u128) -> (r: Result)
    ensures
        r@ == reply_probe(reply.txts, rxts, reply.seq, target@, reply.bitflip),
{
    Result {
        txts: reply.txts,
        rxts,
        seq: reply.seq,
        target: target.to_string(),
        latency: 0,
        received: true,
        bitflip: reply.bitflip,
    }
}


/// A reply is filed in the window that its request was registered in: the
/// key comes from the timestamp the payload carried, whatever the time it
/// is read.
pub proof fn law_reply_window(random: Seq<u8>, seq: u16, ts: u128)
    requires
        random.len() >= TIMESTAMP_LEN,
    ensures
        window_of_time(timestamp_of(probe_payload(random, seq, ts)) as u128) == window_of_time(ts),
{
    law_payload_timestamp(random, seq, ts);
}

/// A corrupted payload changes nothing but the flag: the reply stored in
/// its window is received, flagged, and has the same latency as an intact
/// one.
pub proof fn law_bitflip_keeps_accounting(
    s: Seq<Probe>,
    txts: u128,
    rxts: u128,
    seq: u16,
    target: Seq<char>,
)
    requires
        keys_unique(s),
    ensures
        ({
            let t = upsert(s, merged_reply(reply_probe(txts, rxts, seq, target, true)));
            let stored = t[find_record(t, (target, seq))];
            &&& stored.bitflip
            &&& stored.received
            &&& stored.latency == latency_of(txts, rxts)
            &&& stored.latency == merged_reply(reply_probe(txts, rxts, seq, target, false)).latency
        }),
{
    lemma_upsert_stores(s, merged_reply(reply_probe(txts, rxts, seq, target, true)));
}

} // verus!
