//! Probe payloads: a transmit timestamp in the first sixteen bytes, then one
//! of four fill patterns chosen by sequence number, checked on receipt.

use vstd::prelude::*;

use crate::codec::MAX_PAYLOAD;

verus! {

/// Bytes at the start of a payload that hold the transmit timestamp.
pub const TIMESTAMP_LEN: usize = 16;

/// The fill pattern of a payload.
#[derive(Clone, Copy, Debug, PartialEq, Eq)]
pub enum Pattern {
    /// The per-run random bytes.
    Random,
    /// All bytes zero.
    Zero,
    /// All bytes one.
    One,
    /// All bytes 0x5A.
    Marker,
}

/// The pattern of sequence number `seq`, by `seq % 4`.
pub open spec fn pattern_of(seq: u16) -> Pattern {
    if seq % 4 == 0 {
        Pattern::Random
    } else if seq % 4 == 1 {
        Pattern::Zero
    } else if seq % 4 == 2 {
        Pattern::One
    } else {
        Pattern::Marker
    }
}

/// The pattern that sequence number `seq` uses.
pub fn pattern_for(seq: u16) -> (p: Pattern)
    ensures
        p == pattern_of(seq),
{
    let r = seq % 4;
    if r == 0 {
        Pattern::Random
    } else if r == 1 {
        Pattern::Zero
    } else if r == 2 {
        Pattern::One
    } else {
        Pattern::Marker
    }
}

/// Byte `i` of the pattern of `seq`, given the per-run random bytes.
pub open spec fn pattern_byte(random: Seq<u8>, seq: u16, i: int) -> u8 {
    match pattern_of(seq) {
        Pattern::Random => random[i],
        Pattern::Zero => 0,
        Pattern::One => 1,
        Pattern::Marker => 0x5A,
    }
}

/// 256 to the power `n`.
pub open spec fn pow256(n: nat) -> nat
    decreases n,
{
    if n == 0 {
        1
    } else {
        256 * pow256((n - 1) as nat)
    }
}

/// The sixteen big-endian bytes of `ts`.
pub open spec fn timestamp_bytes(ts: u128) -> Seq<u8> {
    Seq::new(16, |i: int| ((ts as nat / pow256((15 - i) as nat)) % 256) as u8)
}

/// The number that the big-endian bytes `s` stand for.
pub open spec fn from_be(s: Seq<u8>) -> nat
    decreases s.len(),
{
    if s.len() == 0 {
        0
    } else {
        (from_be(s.drop_last()) * 256 + s.last()) as nat
    }
}

/// The transmit timestamp held by a payload.
pub open spec fn timestamp_of(payload: Seq<u8>) -> nat {
    from_be(payload.take(TIMESTAMP_LEN as int))
}

/// The payload sent with sequence `seq` at time `ts`: the timestamp, then
/// the pattern of `seq` from byte sixteen on.
pub open spec fn probe_payload(random: Seq<u8>, seq: u16, ts: u128) -> Seq<u8> {
    Seq::new(
        random.len(),
        |i: int|
            if i < TIMESTAMP_LEN {
                timestamp_bytes(ts)[i]
            } else {
                pattern_byte(random, seq, i)
            },
    )
}

/// A received payload does not hold the pattern of `seq` from byte sixteen
/// on, or has another length than the payloads sent.
pub open spec fn is_corrupted(random: Seq<u8>, seq: u16, payload: Seq<u8>) -> bool {
    ||| payload.len() != random.len()
    ||| exists|i: int|
        TIMESTAMP_LEN <= i < payload.len() && payload[i] != pattern_byte(random, seq, i)
}

/// Relies on rand::thread_rng and rand::Rng::fill: `len` bytes from the
/// thread's generator, whatever their values. `fill` panics only when the
/// generator fails.
#[verifier::external_body]
fn random_bytes(len: usize) -> (r: Vec<u8>)
    ensures
        r@.len() == len,
{
    let mut v = vec![0u8; len];
    rand::Rng::fill(&mut rand::thread_rng(), &mut v[..]);
    v
}

/// Sixteen bytes span exactly the range of `u128`.
pub proof fn lemma_pow256_16()
    ensures
        pow256(16) == u128::MAX + 1,
{
    reveal_with_fuel(pow256, 17);
}

proof fn lemma_pow256_pos(n: nat)
    ensures
        pow256(n) >= 1,
    decreases n,
{
    if n > 0 {
        lemma_pow256_pos((n - 1) as nat);
    }
}

proof fn lemma_timestamp_prefix(ts: u128, n: nat)
    requires
        n <= 16,
    ensures
        from_be(timestamp_bytes(ts).take(n as int)) == ts as nat / pow256((16 - n) as nat),
    decreases n,
{
    let b = timestamp_bytes(ts);
    if n == 0 {
        assert(b.take(0) =~= Seq::<u8>::empty());
        lemma_pow256_16();
        assert(ts as nat / pow256(16) == 0) by {
            vstd::arithmetic::div_mod::lemma_basic_div(ts as int, pow256(16) as int);
        }
    } else {
        let m = (n - 1) as nat;
        lemma_timestamp_prefix(ts, m);
        let y = ts as nat / pow256((16 - n) as nat);
        lemma_pow256_pos((16 - n) as nat);
        assert(pow256((16 - m) as nat) == pow256((16 - n) as nat) * 256);
        assert(ts as nat / pow256((16 - m) as nat) == y / 256) by {
            vstd::arithmetic::div_mod::lemma_div_denominator(ts as int, pow256((16 - n) as nat) as int, 256);
        }
        assert(b.take(n as int).drop_last() =~= b.take(m as int));
        assert(b.take(n as int).last() == (y % 256) as u8);
        assert((y / 256) * 256 + y % 256 == y) by {
            vstd::arithmetic::div_mod::lemma_fundamental_div_mod(y as int, 256);
        }
    }
}

/// Reading back the bytes of a timestamp gives the timestamp.
pub proof fn lemma_timestamp_round_trip(ts: u128)
    ensures
        from_be(timestamp_bytes(ts)) == ts,
{
    lemma_timestamp_prefix(ts, 16);
    assert(pow256(0) == 1);
    assert(ts as nat / 1 == ts);
    assert(timestamp_bytes(ts).take(16) =~= timestamp_bytes(ts));
}

/// The per-run fill patterns. The random bytes fix the payload length.
pub struct Patterns {
    pub random: Vec<u8>,
}

impl Patterns {
    /// Patterns for payloads of `len` bytes, with fresh random bytes.
    pub fn new(len: usize) -> (p: Patterns)
        requires
            TIMESTAMP_LEN <= len <= MAX_PAYLOAD,
        ensures
            p.random@.len() == len,
    {
        Patterns { random: random_bytes(len) }
    }

    /// The payload for sequence `seq` sent at `ts`.
    pub fn payload(&self, seq: u16, ts: u128) -> (r: Vec<u8>)
        requires
            TIMESTAMP_LEN <= self.random@.len(),
        ensures
            r@ == probe_payload(self.random@, seq, ts),
    {
        let stamp = encode_timestamp(ts);
        let pattern = pattern_for(seq);
        let n = self.random.len();
        let mut out: Vec<u8> = Vec::new();
        let mut i: usize = 0;
        while i < n
            invariant
                n == self.random@.len(),
                TIMESTAMP_LEN <= n,
                i <= n,
                stamp@ == timestamp_bytes(ts),
                pattern == pattern_of(seq),
                out@ == probe_payload(self.random@, seq, ts).take(i as int),
            decreases n - i,
        {
            let b = if i < TIMESTAMP_LEN {
                stamp[i]
            } else {
                match pattern {
                    Pattern::Random => self.random[i],
                    Pattern::Zero => 0u8,
                    Pattern::One => 1u8,
                    Pattern::Marker => 0x5Au8,
                }
            };
            out.push(b);
            i = i + 1;
            assert(out@ =~= probe_payload(self.random@, seq, ts).take(i as int));
        }
        assert(out@ =~= probe_payload(self.random@, seq, ts));
        out
    }

    /// Whether a reply payload for `seq` differs from what was sent from byte
    /// sixteen on.
    pub fn is_corrupted(&self, seq: u16, payload: &[u8]) -> (r: bool)
        ensures
            r == is_corrupted(self.random@, seq, payload@),
    {
        if payload.len() != self.random.len() {
            return true;
        }
        let pattern = pattern_for(seq);
        let mut i: usize = TIMESTAMP_LEN;
        while i < payload.len()
            invariant
                payload@.len() == self.random@.len(),
                pattern == pattern_of(seq),
                TIMESTAMP_LEN <= i,
                i <= payload@.len() || i == TIMESTAMP_LEN,
                forall|j: int| TIMESTAMP_LEN <= j < i ==> payload@[j] == pattern_byte(self.random@, seq, j),
            decreases payload@.len() - i,
        {
            let expected = match pattern {
                Pattern::Random => self.random[i],
                Pattern::Zero => 0u8,
                Pattern::One => 1u8,
                Pattern::Marker => 0x5Au8,
            };
            if payload[i] != expected {
                return true;
            }
            i = i + 1;
        }
        false
    }
}

/// The sixteen big-endian bytes of a timestamp.
pub fn encode_timestamp(ts: u128) -> (r: Vec<u8>)
    ensures
        r@ == timestamp_bytes(ts),
{
    let mut out: Vec<u8> = vec![0u8; 16];
    let mut t: u128 = ts;
    let mut i: usize = 16;
    assert(pow256(0) == 1);
    assert(ts as nat / 1 == ts);
    while i > 0
        invariant
            i <= 16,
            out@.len() == 16,
            t == ts as nat / pow256((16 - i) as nat),
            forall|j: int| i <= j < 16 ==> out@[j] == timestamp_bytes(ts)[j],
        decreases i,
    {
        i = i - 1;
        proof {
            lemma_pow256_pos((15 - i) as nat);
            assert(pow256((16 - i) as nat) == pow256((15 - i) as nat) * 256);
            vstd::arithmetic::div_mod::lemma_div_denominator(ts as int, pow256((15 - i) as nat) as int, 256);
        }
        out.set(i, (t % 256) as u8);
        t = t / 256;
    }
    assert(out@ =~= timestamp_bytes(ts));
    out
}

/// The transmit timestamp in the first sixteen bytes of a payload.
pub fn decode_timestamp(payload: &[u8]) -> (r: u128)
    requires
        payload@.len() >= TIMESTAMP_LEN,
    ensures
        r == timestamp_of(payload@),
{
    let mut acc: u128 = 0;
    let mut i: usize = 0;
    proof {
        lemma_pow256_16();
        assert(payload@.take(0) =~= Seq::<u8>::empty());
    }
    while i < TIMESTAMP_LEN
        invariant
            i <= TIMESTAMP_LEN <= payload@.len(),
            acc == from_be(payload@.take(i as int)),
            acc < pow256(i as nat),
            pow256(16) == u128::MAX + 1,
        decreases TIMESTAMP_LEN - i,
    {
        proof {
            assert(payload@.take(i + 1).drop_last() =~= payload@.take(i as int));
            lemma_pow256_le(i as nat + 1, 16);
            assert(acc * 256 + payload@[i as int] < pow256(i as nat + 1)) by (nonlinear_arith)
                requires
                    acc < pow256(i as nat),
                    payload@[i as int] < 256,
                    pow256(i as nat + 1) == 256 * pow256(i as nat),
            ;
        }
        acc = acc * 256 + payload[i] as u128;
        i = i + 1;
    }
    acc
}

proof fn lemma_pow256_le(a: nat, b: nat)
    requires
        a <= b,
    ensures
        pow256(a) <= pow256(b),
    decreases b,
{
    if a < b {
        lemma_pow256_le(a, (b - 1) as nat);
        lemma_pow256_pos((b - 1) as nat);
    }
}


/// A payload that comes back as it was sent is not flagged; one whose byte
/// at offset sixteen or later was changed is, as with the 0x5A marker
/// pattern of a sequence number that is 3 modulo 4.
pub proof fn law_bitflip_detected(random: Seq<u8>, seq: u16, ts: u128, i: int, v: u8)
    requires
        random.len() >= TIMESTAMP_LEN,
        TIMESTAMP_LEN <= i < random.len(),
        v != probe_payload(random, seq, ts)[i],
    ensures
        !is_corrupted(random, seq, probe_payload(random, seq, ts)),
        is_corrupted(random, seq, probe_payload(random, seq, ts).update(i, v)),
        seq % 4 == 3 ==> probe_payload(random, seq, ts)[i] == 0x5A,
{
    let p = probe_payload(random, seq, ts);
    assert(p.update(i, v)[i] != pattern_byte(random, seq, i));
}

/// The timestamp read back from a payload is the one it was sent with.
pub proof fn law_payload_timestamp(random: Seq<u8>, seq: u16, ts: u128)
    requires
        random.len() >= TIMESTAMP_LEN,
    ensures
        timestamp_of(probe_payload(random, seq, ts)) == ts,
{
    lemma_timestamp_round_trip(ts);
    assert(probe_payload(random, seq, ts).take(TIMESTAMP_LEN as int) =~= timestamp_bytes(ts));
}

} // verus!
