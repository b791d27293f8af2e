//! ICMP echo frames: building a request, and reading a reply out of an IPv4
//! datagram.

use vstd::prelude::*;

verus! {

/// ICMP type of an echo request.
pub const ECHO_REQUEST: u8 = 8;

/// ICMP type of an echo reply.
pub const ECHO_REPLY: u8 = 0;

/// Length of the ICMP echo header.
pub const ICMP_HEADER_LEN: usize = 8;

/// Length of an IPv4 header without options.
pub const IPV4_MIN_HEADER_LEN: usize = 20;

/// The largest echo payload an IPv4 datagram can carry.
pub const MAX_PAYLOAD: usize = 65507;

/// The 16-bit word `k` of `d`, big-endian; a last odd byte is the high half.
pub open spec fn word_at(d: Seq<u8>, k: int) -> int {
    if 2 * k + 1 < d.len() {
        d[2 * k] * 256 + d[2 * k + 1]
    } else {
        d[2 * k] * 256
    }
}

/// The number of 16-bit words of `d`, a last odd byte counting as one.
pub open spec fn word_count(d: Seq<u8>) -> int {
    (d.len() as int + 1) / 2
}

/// The sum of the first `n` words of `d`, leaving out word `skip`.
pub open spec fn word_sum(d: Seq<u8>, n: int, skip: int) -> int
    decreases n,
{
    if n <= 0 {
        0
    } else {
        word_sum(d, n - 1, skip) + if n - 1 == skip {
            0
        } else {
            word_at(d, n - 1)
        }
    }
}

/// Adds the carries above 16 bits back into the low 16 bits until none is
/// left.
pub open spec fn fold_carries(x: nat) -> nat
    decreases x,
    via fold_carries_decreases
{
    if x < 65536 {
        x
    } else {
        fold_carries(x / 65536 + x % 65536)
    }
}

#[via_fn]
proof fn fold_carries_decreases(x: nat) {
    if x >= 65536 {
        assert(x / 65536 + x % 65536 < x) by (nonlinear_arith)
            requires
                x >= 65536,
                x == 65536 * (x / 65536) + x % 65536,
                0 <= x % 65536 < 65536,
        ;
    }
}

/// The Internet checksum of `d` with word `skip` left out: the complement
/// of the folded sum of its 16-bit words; zero for no data.
pub open spec fn checksum_of(d: Seq<u8>, skip: int) -> u16 {
    if d.len() == 0 {
        0
    } else {
        (65535 - fold_carries(word_sum(d, word_count(d), skip) as nat)) as u16
    }
}

/// Relies on pnet_packet::util::checksum: the complement of the folded sum
/// of the big-endian 16-bit words of `data` (a last odd byte padded with a
/// zero), word `skipword` left out, and zero for no data. Its 32-bit sum
/// cannot overflow within the length allowed here.
#[verifier::external_body]
fn internet_checksum(data: &[u8], skipword: usize) -> (r: u16)
    requires
        data@.len() <= 131072,
    ensures
        r == checksum_of(data@, skipword as int),
{
    pnet_packet::util::checksum(data, skipword)
}

/// The eight header bytes of an echo message.
pub open spec fn echo_header(kind: u8, checksum: u16, identifier: u16, sequence: u16) -> Seq<u8> {
    seq![
        kind,
        0u8,
        (checksum / 256) as u8,
        (checksum % 256) as u8,
        (identifier / 256) as u8,
        (identifier % 256) as u8,
        (sequence / 256) as u8,
        (sequence % 256) as u8,
    ]
}

/// The echo request for `identifier`, `sequence` and `payload`, with its
/// checksum computed over the frame whose checksum field is zero.
pub open spec fn request_frame(identifier: u16, sequence: u16, payload: Seq<u8>) -> Seq<u8> {
    let zeroed = echo_header(ECHO_REQUEST, 0, identifier, sequence) + payload;
    echo_header(ECHO_REQUEST, checksum_of(zeroed, 1), identifier, sequence) + payload
}

fn push_all(out: &mut Vec<u8>, bytes: &[u8])
    ensures
        final(out)@ == old(out)@ + bytes@,
{
    let mut i: usize = 0;
    while i < bytes.len()
        invariant
            i <= bytes@.len(),
            out@ == old(out)@ + bytes@.take(i as int),
        decreases bytes@.len() - i,
    {
        out.push(bytes[i]);
        i = i + 1;
        assert(out@ =~= old(out)@ + bytes@.take(i as int));
    }
    assert(bytes@.take(bytes@.len() as int) =~= bytes@);
}

/// Builds an echo request frame: the eight-byte header with its checksum,
/// then the payload.
pub fn encode_request(identifier: u16, sequence: u16, payload: &[u8]) -> (frame: Vec<u8>)
    requires
        payload@.len() <= MAX_PAYLOAD,
    ensures
        frame@ == request_frame(identifier, sequence, payload@),
{
    let mut frame: Vec<u8> = Vec::new();
    frame.push(ECHO_REQUEST);
    frame.push(0);
    frame.push(0);
    frame.push(0);
    frame.push((identifier / 256) as u8);
    frame.push((identifier % 256) as u8);
    frame.push((sequence / 256) as u8);
    frame.push((sequence % 256) as u8);
    assert(frame@ =~= echo_header(ECHO_REQUEST, 0, identifier, sequence));
    push_all(&mut frame, payload);
    let ghost zeroed = frame@;
    let c = internet_checksum(frame.as_slice(), 1);
    frame.set(2, (c / 256) as u8);
    frame.set(3, (c % 256) as u8);
    assert(frame@ =~= request_frame(identifier, sequence, payload@));
    frame
}


/// Why a datagram could not be read as an echo reply.
#[derive(Clone, Copy, Debug, PartialEq, Eq)]
pub enum DecodeError {
    /// Too short for the headers it declares.
    Truncated,
    /// The IPv4 header length field is below the minimum of five words.
    BadHeaderLength,
    /// An ICMP message other than an echo reply with code zero.
    NotAnEchoReply,
}

/// The fields of an ICMP echo message.
pub struct Echo {
    pub kind: u8,
    pub code: u8,
    pub identifier: u16,
    pub sequence: u16,
    pub payload: Vec<u8>,
}

/// What an echo message holds.
pub struct EchoView {
    pub kind: u8,
    pub code: u8,
    pub identifier: u16,
    pub sequence: u16,
    pub payload: Seq<u8>,
}

impl View for Echo {
    type V = EchoView;

    open spec fn view(&self) -> EchoView {
        EchoView {
            kind: self.kind,
            code: self.code,
            identifier: self.identifier,
            sequence: self.sequence,
            payload: self.payload@,
        }
    }
}

/// The big-endian 16-bit value at `i` and `i + 1`.
pub open spec fn be16_at(d: Seq<u8>, i: int) -> u16 {
    (d[i] * 256 + d[i + 1]) as u16
}

/// The echo message in `f`, or none when `f` is shorter than its header.
pub open spec fn echo_of(f: Seq<u8>) -> Option<EchoView> {
    if f.len() < ICMP_HEADER_LEN {
        None
    } else {
        Some(
            EchoView {
                kind: f[0],
                code: f[1],
                identifier: be16_at(f, 4),
                sequence: be16_at(f, 6),
                payload: f.subrange(ICMP_HEADER_LEN as int, f.len() as int),
            },
        )
    }
}

fn copy_range(d: &[u8], from: usize, to: usize) -> (r: Vec<u8>)
    requires
        from <= to <= d@.len(),
    ensures
        r@ == d@.subrange(from as int, to as int),
{
    let mut r: Vec<u8> = Vec::new();
    let mut i: usize = from;
    while i < to
        invariant
            from <= i <= to <= d@.len(),
            r@ == d@.subrange(from as int, i as int),
        decreases to - i,
    {
        r.push(d[i]);
        i = i + 1;
        assert(r@ =~= d@.subrange(from as int, i as int));
    }
    r
}

fn be16(d: &[u8], i: usize) -> (r: u16)
    requires
        i + 1 < d@.len(),
    ensures
        r == be16_at(d@, i as int),
{
    d[i] as u16 * 256 + d[i + 1] as u16
}

/// Reads the fields of an ICMP echo message.
pub fn parse_echo(frame: &[u8]) -> (r: Result<Echo, DecodeError>)
    ensures
        match echo_of(frame@) {
            None => r == Err::<Echo, DecodeError>(DecodeError::Truncated),
            Some(e) => r is Ok && r->Ok_0@ == e,
        },
{
    if frame.len() < ICMP_HEADER_LEN {
        return Err(DecodeError::Truncated);
    }
    let e = Echo {
        kind: frame[0],
        code: frame[1],
        identifier: be16(frame, 4),
        sequence: be16(frame, 6),
        payload: copy_range(frame, ICMP_HEADER_LEN, frame.len()),
    };
    Ok(e)
}

/// An echo reply read out of an IPv4 datagram.
pub struct EchoReply {
    /// The IPv4 source address: the probed target.
    pub source: [u8; 4],
    pub identifier: u16,
    pub sequence: u16,
    pub payload: Vec<u8>,
}

/// What an echo reply holds.
pub struct ReplyView {
    pub source: Seq<u8>,
    pub identifier: u16,
    pub sequence: u16,
    pub payload: Seq<u8>,
}

impl View for EchoReply {
    type V = ReplyView;

    open spec fn view(&self) -> ReplyView {
        ReplyView {
            source: self.source@,
            identifier: self.identifier,
            sequence: self.sequence,
            payload: self.payload@,
        }
    }
}

/// The IPv4 header length of `d` in bytes, from its header length field.
pub open spec fn ip_header_len(d: Seq<u8>) -> int {
    (d[0] % 16) * 4
}

/// Where the IPv4 payload of `d` ends: at its total length, within the
/// bytes that are there and not before the header's end.
pub open spec fn ip_payload_end(d: Seq<u8>) -> int {
    let h = ip_header_len(d);
    let t = be16_at(d, 2) as int;
    if t < h {
        h
    } else if t > d.len() {
        d.len() as int
    } else {
        t
    }
}

/// The echo reply carried by the IPv4 datagram `d`, or why there is none.
pub open spec fn reply_of(d: Seq<u8>) -> Result<ReplyView, DecodeError> {
    if d.len() < IPV4_MIN_HEADER_LEN {
        Err(DecodeError::Truncated)
    } else if ip_header_len(d) < IPV4_MIN_HEADER_LEN {
        Err(DecodeError::BadHeaderLength)
    } else if d.len() < ip_header_len(d) {
        Err(DecodeError::Truncated)
    } else {
        match echo_of(d.subrange(ip_header_len(d), ip_payload_end(d))) {
            None => Err(DecodeError::Truncated),
            Some(e) => if e.kind != ECHO_REPLY || e.code != 0 {
                Err(DecodeError::NotAnEchoReply)
            } else {
                Ok(
                    ReplyView {
                        source: d.subrange(12, 16),
                        identifier: e.identifier,
                        sequence: e.sequence,
                        payload: e.payload,
                    },
                )
            },
        }
    }
}

/// Reads an echo reply out of a raw IPv4 datagram: strips the header by its
/// length field and checks for an ICMP echo reply with code zero. The
/// checksum is not checked.
pub fn decode_reply(datagram: &[u8]) -> (r: Result<EchoReply, DecodeError>)
    ensures
        match reply_of(datagram@) {
            Err(e) => r == Err::<EchoReply, DecodeError>(e),
            Ok(v) => r is Ok && r->Ok_0@ == v,
        },
{
    let d = datagram;
    if d.len() < IPV4_MIN_HEADER_LEN {
        return Err(DecodeError::Truncated);
    }
    let h = (d[0] % 16) as usize * 4;
    if h < IPV4_MIN_HEADER_LEN {
        return Err(DecodeError::BadHeaderLength);
    }
    if d.len() < h {
        return Err(DecodeError::Truncated);
    }
    let t = be16(d, 2) as usize;
    let end = if t < h {
        h
    } else if t > d.len() {
        d.len()
    } else {
        t
    };
    let icmp = copy_range(d, h, end);
    match parse_echo(icmp.as_slice()) {
        Err(e) => Err(e),
        Ok(e) => {
            if e.kind != ECHO_REPLY || e.code != 0 {
                Err(DecodeError::NotAnEchoReply)
            } else {
                let source: [u8; 4] = [d[12], d[13], d[14], d[15]];
                assert(source@ =~= d@.subrange(12, 16));
                Ok(
                    EchoReply {
                        source,
                        identifier: e.identifier,
                        sequence: e.sequence,
                        payload: e.payload,
                    },
                )
            }
        },
    }
}


/// Folding carries keeps the value modulo 65535, gives at most 65535, and
/// gives zero only for zero.
pub proof fn lemma_fold_carries(x: nat)
    ensures
        fold_carries(x) <= 65535,
        fold_carries(x) % 65535 == x % 65535,
        x == 0 <==> fold_carries(x) == 0,
    decreases x,
{
    if x >= 65536 {
        let q = x / 65536;
        let r = x % 65536;
        assert(x == 65536 * q + r && 0 <= r < 65536) by (nonlinear_arith)
            requires
                q == x / 65536,
                r == x % 65536,
        ;
        assert(q >= 1 && q + r < x) by (nonlinear_arith)
            requires
                x == 65536 * q + r,
                0 <= r < 65536,
                x >= 65536,
        ;
        assert((q + r) % 65535 == x % 65535) by (nonlinear_arith)
            requires
                x == 65536 * q + r,
                q >= 0,
                r >= 0,
        {
            assert(x == 65535 * q + (q + r));
            vstd::arithmetic::div_mod::lemma_mod_multiples_vanish(q as int, (q + r) as int, 65535);
        }
        lemma_fold_carries((q + r) as nat);
    }
}

proof fn lemma_word_sum_with_checksum(d: Seq<u8>, d2: Seq<u8>, n: int, c: int)
    requires
        d.len() == d2.len(),
        d.len() >= 4,
        0 <= n <= word_count(d),
        d[2] == 0 && d[3] == 0,
        d2[2] * 256 + d2[3] == c,
        forall|i: int| 0 <= i < d.len() && i != 2 && i != 3 ==> d2[i] == d[i],
    ensures
        word_sum(d2, n, -1) == word_sum(d, n, 1) + if n >= 2 {
            c
        } else {
            0
        },
    decreases n,
{
    if n > 0 {
        lemma_word_sum_with_checksum(d, d2, n - 1, c);
        let k = n - 1;
        if k != 1 {
            if 2 * k + 1 < d.len() {
                assert(d2[2 * k] == d[2 * k] && d2[2 * k + 1] == d[2 * k + 1]);
            } else {
                assert(d2[2 * k] == d[2 * k]);
            }
            assert(word_at(d2, k) == word_at(d, k));
        }
    }
}

/// An encoded request reads back as an echo request with code zero and the
/// same identifier, sequence and payload; and the sum of all its 16-bit
/// words, checksum included, folds to 0xFFFF.
pub proof fn law_request_round_trip(identifier: u16, sequence: u16, payload: Seq<u8>)
    ensures
        echo_of(request_frame(identifier, sequence, payload)) == Some(
            EchoView { kind: ECHO_REQUEST, code: 0, identifier, sequence, payload },
        ),
        fold_carries(
            word_sum(
                request_frame(identifier, sequence, payload),
                word_count(request_frame(identifier, sequence, payload)),
                -1,
            ) as nat,
        ) == 65535,
{
    let f = request_frame(identifier, sequence, payload);
    let zeroed = echo_header(ECHO_REQUEST, 0, identifier, sequence) + payload;
    let c = checksum_of(zeroed, 1);
    assert(f.subrange(8, f.len() as int) =~= payload);
    assert(be16_at(f, 4) == identifier);
    assert(be16_at(f, 6) == sequence);
    assert(f[2] * 256 + f[3] == c);
    let n = word_count(f);
    assert(forall|i: int| 0 <= i < zeroed.len() && i != 2 && i != 3 ==> f[i] == zeroed[i]);
    lemma_word_sum_with_checksum(zeroed, f, n, c as int);
    let sum = word_sum(zeroed, n, 1);
    assert(sum >= 0) by {
        lemma_word_sum_nonneg(zeroed, n, 1);
    }
    lemma_fold_carries(sum as nat);
    let total = sum + c;
    assert(c == 65535 - fold_carries(sum as nat));
    lemma_fold_carries(total as nat);
    assert(total > 0);
    assert(total % 65535 == 0) by {
        vstd::arithmetic::div_mod::lemma_add_mod_noop(sum, c as int, 65535);
        vstd::arithmetic::div_mod::lemma_add_mod_noop(fold_carries(sum as nat) as int, c as int, 65535);
        assert(fold_carries(sum as nat) + c == 65535);
    }
}

proof fn lemma_word_sum_nonneg(d: Seq<u8>, n: int, skip: int)
    ensures
        word_sum(d, n, skip) >= 0,
    decreases n,
{
    if n > 0 {
        lemma_word_sum_nonneg(d, n - 1, skip);
    }
}

} // verus!
