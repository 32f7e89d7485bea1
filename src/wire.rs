//! The frame's wire format, stated over byte sequences.
use vstd::prelude::*;
use crate::bytes::{be16_bytes, be16_value, be32_bytes, be32_value, be64_bytes, be64_value};
use crate::fec::{crc32_ieee, differing, rs_corrected, rs_parity, ECC_LEN, CODED_BLOCK_LEN, REED_SOLOMON_BLOCK_LEN};
use crate::FRAME_LEN;

verus! {

/// Bytes of the sequence number at the head of a frame.
pub const SEQNO_LEN: usize = 8;

/// Bytes of the length prefix before each packet.
pub const PACKET_LEN_PREFIX: usize = 2;

/// Bytes of the zero spacer before the checksum.
pub const SPACER_LEN: usize = 2;

/// Bytes of the checksum.
pub const CRC_LEN: usize = 4;

/// Bytes that every frame carries besides its packets: sequence number,
/// spacer and checksum. The capacity budget counts all of them, so that the
/// coded frame always fits in `FRAME_LEN`.
pub const FRAME_OVERHEAD: usize = 14;

/// Number of coded blocks that fit in a frame.
pub const BLOCKS_PER_FRAME: usize = 568;

/// `n / m`, rounded up.
pub open spec fn ceil_div(n: nat, m: nat) -> nat
    recommends
        m > 0,
{
    if n % m == 0 {
        n / m
    } else {
        n / m + 1
    }
}

/// Size after Reed-Solomon coding of `n` bytes of data.
pub open spec fn coded_size(n: nat) -> nat {
    ceil_div(n, REED_SOLOMON_BLOCK_LEN as nat) * CODED_BLOCK_LEN as nat
}

/// The model of a queue of packets.
pub open spec fn packets_of(q: Seq<Vec<u8>>) -> Seq<Seq<u8>> {
    q.map_values(|p: Vec<u8>| p@)
}

/// One packet as a record: its length, then its bytes.
pub open spec fn record(p: Seq<u8>) -> Seq<u8> {
    be16_bytes(p.len() as u16) + p
}

/// The records of a sequence of packets, one after another.
pub open spec fn records(ps: Seq<Seq<u8>>) -> Seq<u8>
    decreases ps.len(),
{
    if ps.len() == 0 {
        Seq::empty()
    } else {
        records(ps.drop_last()) + record(ps.last())
    }
}

/// The frame's bytes before the checksum: sequence number, records, spacer.
pub open spec fn frame_body(seqno: u64, ps: Seq<Seq<u8>>) -> Seq<u8> {
    be64_bytes(seqno) + records(ps) + seq![0u8, 0u8]
}

/// The frame's data before coding: its body followed by the body's checksum.
pub open spec fn frame_data(seqno: u64, ps: Seq<Seq<u8>>) -> Seq<u8> {
    frame_body(seqno, ps) + be32_bytes(crc32_ieee(frame_body(seqno, ps)))
}

/// `s` followed by zeros up to a whole number of blocks.
pub open spec fn padded(s: Seq<u8>) -> Seq<u8> {
    s + Seq::new(
        (ceil_div(s.len(), REED_SOLOMON_BLOCK_LEN as nat) * REED_SOLOMON_BLOCK_LEN as nat - s.len()) as nat,
        |i: int| 0u8,
    )
}

/// The number of packets at the head of `q` that a frame takes, when `used`
/// bytes of it are taken already: each is taken while the coded size stays
/// below `FRAME_LEN`.
pub open spec fn batch_len(q: Seq<Seq<u8>>, used: nat) -> nat
    decreases q.len(),
{
    if q.len() == 0 {
        0
    } else if coded_size((used + q[0].len() + PACKET_LEN_PREFIX) as nat) < FRAME_LEN {
        1 + batch_len(q.drop_first(), (used + q[0].len() + PACKET_LEN_PREFIX) as nat)
    } else {
        0
    }
}

/// Data block `b` of `data`.
pub open spec fn data_block(data: Seq<u8>, b: int) -> Seq<u8> {
    data.subrange(REED_SOLOMON_BLOCK_LEN * b, REED_SOLOMON_BLOCK_LEN * b + REED_SOLOMON_BLOCK_LEN)
}

/// Coded block `b` of a frame.
pub open spec fn coded_block(f: Seq<u8>, b: int) -> Seq<u8> {
    f.subrange(CODED_BLOCK_LEN * b, CODED_BLOCK_LEN * b + CODED_BLOCK_LEN)
}

/// `f` is the frame that codes `data` (a whole number of blocks): each block
/// followed by its parity, then zeros.
pub open spec fn frame_codes(f: Seq<u8>, data: Seq<u8>) -> bool {
    &&& f.len() == FRAME_LEN
    &&& data.len() % REED_SOLOMON_BLOCK_LEN as nat == 0
    &&& data.len() / REED_SOLOMON_BLOCK_LEN as nat <= BLOCKS_PER_FRAME
    &&& forall|b: int|
        0 <= b < data.len() / REED_SOLOMON_BLOCK_LEN as nat ==> #[trigger] coded_block(f, b)
            == data_block(data, b) + rs_parity(data_block(data, b))
    &&& forall|j: int|
        data.len() / REED_SOLOMON_BLOCK_LEN as nat * CODED_BLOCK_LEN as nat <= j < FRAME_LEN
            ==> f[j] == 0
}

/// Every byte of `s` is zero.
pub open spec fn all_zero(s: Seq<u8>) -> bool {
    forall|i: int| 0 <= i < s.len() ==> s[i] == 0
}

/// Bounds on coded sizes that fit in a frame.
pub proof fn lemma_coded_size(n: nat)
    ensures
        n <= coded_size(n),
        ceil_div(n, REED_SOLOMON_BLOCK_LEN as nat) * REED_SOLOMON_BLOCK_LEN as nat >= n,
        ceil_div(n, REED_SOLOMON_BLOCK_LEN as nat) * (REED_SOLOMON_BLOCK_LEN as nat) < n + 10,
        coded_size(n) < FRAME_LEN ==> n <= 5680 && ceil_div(n, REED_SOLOMON_BLOCK_LEN as nat)
            <= BLOCKS_PER_FRAME,
{
    let c = ceil_div(n, 10);
    assert(n == (n / 10) * 10 + n % 10) by (nonlinear_arith);
    assert(c * 10 >= n && c * 10 < n + 10);
    assert(n <= c * 18) by (nonlinear_arith)
        requires
            c * 10 >= n,
    ;
    if coded_size(n) < FRAME_LEN {
        assert(c <= 568) by (nonlinear_arith)
            requires
                c * 18 < 10240,
        ;
        assert(n <= 5680) by (nonlinear_arith)
            requires
                c <= 568,
                c * 10 >= n,
        ;
    }
}

/// The first coded block at or after `b` that is all zero, or
/// `BLOCKS_PER_FRAME` where there is none: the blocks before it carry data.
pub open spec fn live_blocks(f: Seq<u8>, b: nat) -> nat
    decreases BLOCKS_PER_FRAME - b,
{
    if b >= BLOCKS_PER_FRAME || all_zero(coded_block(f, b as int)) {
        b
    } else {
        live_blocks(f, b + 1)
    }
}

/// The corrected data of the first `k` coded blocks of `f`, one after
/// another, or `None` where any of them cannot be corrected.
pub open spec fn corrected_blocks(f: Seq<u8>, k: nat) -> Option<Seq<u8>>
    decreases k,
{
    if k == 0 {
        Some(Seq::empty())
    } else {
        match corrected_blocks(f, (k - 1) as nat) {
            None => None,
            Some(s) => match rs_corrected(coded_block(f, k - 1)) {
                None => None,
                Some(d) => Some(s + d),
            },
        }
    }
}

/// One past the last non-zero byte among the first `k` bytes of `s`, or 0.
pub open spec fn data_end(s: Seq<u8>, k: nat) -> nat
    decreases k,
{
    if k == 0 {
        0
    } else if s[k - 1] != 0 {
        k
    } else {
        data_end(s, (k - 1) as nat)
    }
}

/// The packets of the records that start at `off`. Parsing stops where
/// fewer than three bytes are left before `end`, or at a record of length
/// zero; it fails where a record runs past the data.
pub open spec fn parse_records(raw: Seq<u8>, end: nat, off: nat) -> Option<Seq<Seq<u8>>>
    decreases raw.len() - off,
{
    if off + 2 >= end || off + 2 > raw.len() {
        Some(Seq::empty())
    } else {
        let len = be16_value(raw[off as int], raw[off + 1int]) as nat;
        if len == 0 {
            Some(Seq::empty())
        } else if off + 2 + len > raw.len() {
            None
        } else {
            match parse_records(raw, end, off + 2 + len) {
                None => None,
                Some(rest) => Some(seq![raw.subrange(off + 2int, off + 2int + len)] + rest),
            }
        }
    }
}

/// The sequence number and packets of corrected frame data.
pub open spec fn parse_frame(raw: Seq<u8>) -> Option<(u64, Seq<Seq<u8>>)> {
    if raw.len() < SEQNO_LEN {
        None
    } else {
        match parse_records(raw, data_end(raw, raw.len()), SEQNO_LEN as nat) {
            None => None,
            Some(ps) => Some((be64_value(raw, 0), ps)),
        }
    }
}

/// Whether the four bytes before the end of corrected frame data are the
/// CRC-32 of the bytes before them.
pub open spec fn crc_matches(raw: Seq<u8>) -> bool {
    let e = data_end(raw, raw.len());
    e >= CRC_LEN && be32_value(raw, e - CRC_LEN) == crc32_ieee(raw.take(e - CRC_LEN))
}

/// What a frame decodes to: its blocks up to the first all-zero one are
/// corrected and parsed.
pub open spec fn decode(f: Seq<u8>) -> Option<(u64, Seq<Seq<u8>>)> {
    match corrected_blocks(f, live_blocks(f, 0)) {
        None => None,
        Some(raw) => parse_frame(raw),
    }
}

/// No data block of `data` is all zero.
pub open spec fn no_zero_block(data: Seq<u8>) -> bool {
    forall|b: int|
        0 <= b < data.len() / REED_SOLOMON_BLOCK_LEN as nat ==> !all_zero(
            #[trigger] data_block(data, b),
        )
}

/// A frame of these packets can be told apart from its zero padding: no
/// packet is empty, no block of its data is all zero, and a non-zero byte
/// follows the length of the last packet.
pub open spec fn unambiguous(seqno: u64, ps: Seq<Seq<u8>>) -> bool {
    let data = padded(frame_data(seqno, ps));
    &&& forall|i: int| 0 <= i < ps.len() ==> #[trigger] ps[i].len() > 0
    &&& no_zero_block(data)
    &&& ps.len() > 0 ==> data_end(data, data.len()) > SEQNO_LEN + records(ps).len()
        - ps.last().len()
}

/// `f` is within error-correction reach of the frame that codes `data`:
/// each coded block of the data is not all zero and differs from the block
/// followed by its parity in at most `ECC_LEN / 2` bytes, and the rest of the
/// frame is zero.
pub open spec fn frame_near(f: Seq<u8>, data: Seq<u8>) -> bool {
    &&& f.len() == FRAME_LEN
    &&& data.len() % REED_SOLOMON_BLOCK_LEN as nat == 0
    &&& data.len() / REED_SOLOMON_BLOCK_LEN as nat <= BLOCKS_PER_FRAME
    &&& forall|b: int|
        0 <= b < data.len() / REED_SOLOMON_BLOCK_LEN as nat ==> !all_zero(
            #[trigger] coded_block(f, b),
        ) && differing(coded_block(f, b), data_block(data, b) + rs_parity(data_block(data, b)))
            <= ECC_LEN / 2
    &&& forall|j: int|
        data.len() / REED_SOLOMON_BLOCK_LEN as nat * CODED_BLOCK_LEN as nat <= j < FRAME_LEN
            ==> f[j] == 0
}

} // verus!
