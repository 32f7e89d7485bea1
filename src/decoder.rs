//! Recovering packets from coded frames.
use vstd::prelude::*;
use vstd::slice::slice_subrange;
use crate::bytes::{read_be16, read_be32, read_be64};
use crate::fec::{
    crc32_checksum, differing, lemma_differing_self, rs_correct_block, rs_parity, CODED_BLOCK_LEN,
    ECC_LEN,
};
use crate::wire::{
    all_zero, coded_block, coded_size, frame_data, padded, unambiguous, data_block, frame_codes, frame_near, no_zero_block, corrected_blocks, crc_matches, data_end, decode, live_blocks,
    packets_of, parse_frame, parse_records, BLOCKS_PER_FRAME, CRC_LEN, SEQNO_LEN,
};
use crate::laws::lemma_frame_data_round_trip;
use crate::FRAME_LEN;

verus! {

/// Whether coded block `b` of the frame is all zero.
fn is_zero_block(f: &Vec<u8>, b: usize) -> (r: bool)
    requires
        b < BLOCKS_PER_FRAME,
        f@.len() == FRAME_LEN,
    ensures
        r == all_zero(coded_block(f@, b as int)),
{
    let start = b * CODED_BLOCK_LEN;
    let mut k: usize = 0;
    while k < CODED_BLOCK_LEN
        invariant
            start == 18 * b,
            f@.len() == FRAME_LEN,
            start + 18 <= f@.len(),
            k <= 18,
            forall|i: int| 0 <= i < k ==> coded_block(f@, b as int)[i] == 0,
        decreases 18 - k,
    {
        if f[start + k] != 0 {
            assert(coded_block(f@, b as int)[k as int] != 0);
            return false;
        }
        k += 1;
    }
    true
}

/// A block that cannot be corrected leaves every longer run of blocks
/// without corrected data.
proof fn lemma_corrected_none(f: Seq<u8>, j: nat, k: nat)
    requires
        j <= k,
        corrected_blocks(f, j) is None,
    ensures
        corrected_blocks(f, k) is None,
    decreases k - j,
{
    if j < k {
        lemma_corrected_none(f, j, (k - 1) as nat);
    }
}

/// The first all-zero block at or after `b` is not before `b`.
proof fn lemma_live_blocks_from(f: Seq<u8>, b: nat)
    ensures
        live_blocks(f, b) >= b,
    decreases BLOCKS_PER_FRAME - b,
{
    if b < BLOCKS_PER_FRAME && !all_zero(coded_block(f, b as int)) {
        lemma_live_blocks_from(f, b + 1);
    }
}

/// A frame that codes `data` without all-zero blocks is within reach of
/// it.
proof fn lemma_clean_is_near(f: Seq<u8>, data: Seq<u8>)
    requires
        frame_codes(f, data),
        no_zero_block(data),
    ensures
        frame_near(f, data),
{
    assert forall|b: int| 0 <= b < data.len() / 10 implies !all_zero(
        #[trigger] coded_block(f, b),
    ) && differing(coded_block(f, b), data_block(data, b) + rs_parity(data_block(data, b)))
        <= ECC_LEN / 2 by {
        let d = data_block(data, b);
        assert(coded_block(f, b) == d + rs_parity(d));
        assert(!all_zero(d));
        let i = choose|i: int| 0 <= i < d.len() && d[i] != 0;
        assert(coded_block(f, b)[i] == d[i]);
        lemma_differing_self(coded_block(f, b));
    }
}

/// Corrupting one coded block of a frame in at most `ECC_LEN / 2` bytes,
/// without leaving it all zero, keeps the frame within reach of its data: by
/// `decode_frame`, it still decodes to what the clean frame decodes to.
pub proof fn lemma_corrupted_block_in_reach(f: Seq<u8>, g: Seq<u8>, data: Seq<u8>, b: int)
    requires
        frame_codes(f, data),
        no_zero_block(data),
        0 <= b < data.len() / 10,
        g.len() == FRAME_LEN,
        forall|j: int| 0 <= j < FRAME_LEN && !(18 * b <= j < 18 * b + 18) ==> g[j] == f[j],
        differing(coded_block(g, b), coded_block(f, b)) <= ECC_LEN / 2,
        !all_zero(coded_block(g, b)),
    ensures
        frame_near(g, data),
{
    lemma_clean_is_near(f, data);
    assert forall|c: int| 0 <= c < data.len() / 10 implies !all_zero(#[trigger] coded_block(g, c))
        && differing(coded_block(g, c), data_block(data, c) + rs_parity(data_block(data, c)))
        <= ECC_LEN / 2 by {
        assert(coded_block(f, c) == data_block(data, c) + rs_parity(data_block(data, c)));
        if c != b {
            assert(coded_block(g, c) =~= coded_block(f, c));
            assert(!all_zero(coded_block(f, c)));
        }
    }
    assert forall|j: int| data.len() / 10 * 18 <= j < FRAME_LEN implies g[j] == 0 by {
        assert(g[j] == f[j]);
    }
}

/// In a frame within reach of `data`, block `b` is all zero exactly when it
/// comes after the data.
proof fn lemma_near_block(f: Seq<u8>, data: Seq<u8>, b: int)
    requires
        frame_near(f, data),
        0 <= b < BLOCKS_PER_FRAME,
    ensures
        all_zero(coded_block(f, b)) == (b >= data.len() / 10),
{
    let nb = data.len() / 10;
    if b < nb {
        assert(!all_zero(coded_block(f, b)));
    } else {
        assert forall|i: int| 0 <= i < coded_block(f, b).len() implies coded_block(f, b)[i] == 0 by {
            assert(f[18 * b + i] == 0);
        }
    }
}

/// Corrects the coded blocks of a frame up to the first all-zero block and
/// joins their data.
fn correct_blocks(f: &Vec<u8>) -> (r: Option<Vec<u8>>)
    requires
        f@.len() == FRAME_LEN,
    ensures
        r is Some == corrected_blocks(f@, live_blocks(f@, 0)) is Some,
        r is Some ==> r->0@ == corrected_blocks(f@, live_blocks(f@, 0))->0,
        forall|data: Seq<u8>|
            #[trigger] frame_near(f@, data) ==> r is Some && r->0@ == data,
{
    let mut raw: Vec<u8> = Vec::new();
    let mut b: usize = 0;
    while b < BLOCKS_PER_FRAME && !is_zero_block(f, b)
        invariant
            f@.len() == FRAME_LEN,
            b <= BLOCKS_PER_FRAME,
            live_blocks(f@, 0) == live_blocks(f@, b as nat),
            corrected_blocks(f@, b as nat) == Some(raw@),
            forall|data: Seq<u8>|
                #[trigger] frame_near(f@, data) ==> b <= data.len() / 10
                    && raw@ == data.take(10 * b),
        decreases BLOCKS_PER_FRAME - b,
    {
        let block = slice_subrange(f.as_slice(), b * CODED_BLOCK_LEN, b * CODED_BLOCK_LEN + CODED_BLOCK_LEN);
        assert(block@ == coded_block(f@, b as int));
        let corrected = rs_correct_block(block);
        assert forall|data: Seq<u8>| #[trigger]
            frame_near(f@, data) implies b < data.len() / 10 && corrected is Some
                && corrected->0@ == data_block(data, b as int) by {
            lemma_near_block(f@, data, b as int);
            assert(!all_zero(coded_block(f@, b as int)));
            assert(data_block(data, b as int).len() == 10);
            assert(differing(coded_block(f@, b as int), data_block(data, b as int) + rs_parity(
                data_block(data, b as int),
            )) <= ECC_LEN / 2);
        }
        match corrected {
            None => {
                proof {
                    lemma_live_blocks_from(f@, (b + 1) as nat);
                    lemma_corrected_none(f@, (b + 1) as nat, live_blocks(f@, 0));
                }
                return None;
            },
            Some(d) => {
                let mut k: usize = 0;
                let ghost start = raw@;
                while k < d.len()
                    invariant
                        k <= d@.len(),
                        raw@ == start + d@.take(k as int),
                    decreases d@.len() - k,
                {
                    raw.push(d[k]);
                    k += 1;
                    assert(raw@ =~= start + d@.take(k as int));
                }
                assert(d@.take(d@.len() as int) =~= d@);
                assert forall|data: Seq<u8>| #[trigger]
                    frame_near(f@, data) implies raw@ == data.take(
                        10 * (b + 1),
                    ) by {
                    assert(data.take(10 * (b + 1)) =~= data.take(10 * b) + data_block(data, b as int));
                }
            },
        }
        b += 1;
    }
    assert forall|data: Seq<u8>| #[trigger]
        frame_near(f@, data) implies raw@ == data by {
        if b < data.len() / 10 {
            lemma_near_block(f@, data, b as int);
        }
        assert(data.take(10 * b) =~= data);
    }
    Some(raw)
}

/// A copy of `raw[from..to]`.
fn copy_range(raw: &Vec<u8>, from: usize, to: usize) -> (r: Vec<u8>)
    requires
        from <= to <= raw@.len(),
    ensures
        r@ == raw@.subrange(from as int, to as int),
{
    let mut out: Vec<u8> = Vec::new();
    let mut i: usize = from;
    while i < to
        invariant
            from <= i <= to <= raw@.len(),
            out@ == raw@.subrange(from as int, i as int),
        decreases to - i,
    {
        out.push(raw[i]);
        i += 1;
        assert(out@ =~= raw@.subrange(from as int, i as int));
    }
    out
}

/// One past the last non-zero byte of `raw`, or 0 where all are zero.
fn find_data_end(raw: &Vec<u8>) -> (r: usize)
    ensures
        r == data_end(raw@, raw@.len()),
        r <= raw@.len(),
{
    let mut end = raw.len();
    while end > 0 && raw[end - 1] == 0
        invariant
            end <= raw@.len(),
            data_end(raw@, raw@.len()) == data_end(raw@, end as nat),
        decreases end,
    {
        end -= 1;
    }
    end
}

/// Parses corrected frame data into its sequence number and packets.
pub fn parse_frame_data(raw: &Vec<u8>) -> (r: Option<(u64, Vec<Vec<u8>>)>)
    ensures
        r is Some == parse_frame(raw@) is Some,
        r is Some ==> (r->0).0 == (parse_frame(raw@)->0).0 && packets_of((r->0).1@)
            == (parse_frame(raw@)->0).1,
{
    if raw.len() < SEQNO_LEN {
        return None;
    }
    let end = find_data_end(raw);
    let seqno = read_be64(raw.as_slice(), 0);
    let mut packets: Vec<Vec<u8>> = Vec::new();
    let mut off: usize = SEQNO_LEN;
    let ghost all = parse_records(raw@, end as nat, SEQNO_LEN as nat);
    assert(packets_of(packets@) =~= Seq::<Seq<u8>>::empty());
    loop
        invariant
            end <= raw@.len(),
            end == data_end(raw@, raw@.len()),
            seqno == crate::bytes::be64_value(raw@, 0),
            raw@.len() >= SEQNO_LEN,
            SEQNO_LEN <= off <= raw@.len(),
            all == parse_records(raw@, end as nat, SEQNO_LEN as nat),
            all == match parse_records(raw@, end as nat, off as nat) {
                None => None,
                Some(rest) => Some(packets_of(packets@) + rest),
            },
        decreases raw@.len() - off,
    {
        if off >= end || end - off <= 2 || raw.len() - off < 2 {
            assert(packets_of(packets@) + Seq::<Seq<u8>>::empty() =~= packets_of(packets@));
            return Some((seqno, packets));
        }
        let len = read_be16(raw.as_slice(), off) as usize;
        if len == 0 {
            assert(packets_of(packets@) + Seq::<Seq<u8>>::empty() =~= packets_of(packets@));
            return Some((seqno, packets));
        }
        if len > raw.len() - off - 2 {
            return None;
        }
        let packet = copy_range(raw, off + 2, off + 2 + len);
        let ghost before = packets_of(packets@);
        packets.push(packet);
        assert(packets_of(packets@) =~= before.push(raw@.subrange(off + 2, off + 2 + len)));
        proof {
            match parse_records(raw@, end as nat, (off + 2 + len) as nat) {
                None => {},
                Some(rest) => {
                    assert(before + (seq![raw@.subrange(off + 2, off + 2 + len)] + rest)
                        =~= packets_of(packets@) + rest);
                },
            }
        }
        off = off + 2 + len;
    }
}

/// Decodes a frame into its sequence number, its packets, and whether its
/// checksum matches. A mismatch is reported but does not reject the frame.
pub fn decode_frame_checked(f: &Vec<u8>) -> (r: Option<(u64, Vec<Vec<u8>>, bool)>)
    requires
        f@.len() == FRAME_LEN,
    ensures
        r is Some == decode(f@) is Some,
        r is Some ==> (r->0).0 == (decode(f@)->0).0 && packets_of((r->0).1@) == (decode(f@)->0).1
            && (r->0).2 == crc_matches(corrected_blocks(f@, live_blocks(f@, 0))->0),
        forall|s: u64, ps: Seq<Seq<u8>>|
            #[trigger] frame_codes(f@, padded(frame_data(s, ps))) && coded_size(
                frame_data(s, ps).len(),
            ) < FRAME_LEN && unambiguous(s, ps) ==> decode(f@) == Some((s, ps)),
        forall|s: u64, ps: Seq<Seq<u8>>|
            #[trigger] frame_near(f@, padded(frame_data(s, ps))) && coded_size(
                frame_data(s, ps).len(),
            ) < FRAME_LEN && unambiguous(s, ps) ==> decode(f@) == Some((s, ps)),
{
    let opt = correct_blocks(f);
    assert forall|s: u64, ps: Seq<Seq<u8>>|
        #[trigger] frame_near(f@, padded(frame_data(s, ps))) && coded_size(
            frame_data(s, ps).len(),
        ) < FRAME_LEN && unambiguous(s, ps) implies decode(f@) == Some((s, ps)) by {
        lemma_frame_data_round_trip(s, ps);
        assert(frame_near(f@, padded(frame_data(s, ps))));
    }
    assert forall|s: u64, ps: Seq<Seq<u8>>|
        #[trigger] frame_codes(f@, padded(frame_data(s, ps))) && coded_size(
            frame_data(s, ps).len(),
        ) < FRAME_LEN && unambiguous(s, ps) implies decode(f@) == Some((s, ps)) by {
        lemma_frame_data_round_trip(s, ps);
        lemma_clean_is_near(f@, padded(frame_data(s, ps)));
        assert(frame_near(f@, padded(frame_data(s, ps))));
    }
    let raw = match opt {
        None => {
            return None;
        },
        Some(raw) => raw,
    };
    match parse_frame_data(&raw) {
        None => None,
        Some((seqno, packets)) => {
            let end = find_data_end(&raw);
            let crc_ok = if end >= CRC_LEN {
                let read = read_be32(raw.as_slice(), end - CRC_LEN);
                let computed = crc32_checksum(slice_subrange(raw.as_slice(), 0, end - CRC_LEN));
                read == computed
            } else {
                false
            };
            Some((seqno, packets, crc_ok))
        },
    }
}

/// Decodes a frame into its sequence number and packets, or `None` where a
/// block cannot be corrected or a record runs past the data.
pub fn decode_frame(f: Vec<u8>) -> (r: Option<(u64, Vec<Vec<u8>>)>)
    requires
        f@.len() == FRAME_LEN,
    ensures
        r is Some == decode(f@) is Some,
        r is Some ==> (r->0).0 == (decode(f@)->0).0 && packets_of((r->0).1@) == (decode(f@)->0).1,
        forall|s: u64, ps: Seq<Seq<u8>>|
            #[trigger] frame_codes(f@, padded(frame_data(s, ps))) && coded_size(
                frame_data(s, ps).len(),
            ) < FRAME_LEN && unambiguous(s, ps) ==> decode(f@) == Some((s, ps)),
        forall|s: u64, ps: Seq<Seq<u8>>|
            #[trigger] frame_near(f@, padded(frame_data(s, ps))) && coded_size(
                frame_data(s, ps).len(),
            ) < FRAME_LEN && unambiguous(s, ps) ==> decode(f@) == Some((s, ps)),
{
    match decode_frame_checked(&f) {
        None => None,
        Some((seqno, packets, _)) => Some((seqno, packets)),
    }
}

/// The floor after a frame numbered `seqno` is accepted: the number after
/// it, or `u64::MAX` where there is none.
pub open spec fn floor_after(seqno: u64) -> u64 {
    if seqno == u64::MAX {
        u64::MAX
    } else {
        (seqno + 1) as u64
    }
}

/// Whether a decoder whose floor is `floor` accepts a frame that decodes to
/// `d`: it decodes, and its sequence number is not below the floor.
pub open spec fn accepts(floor: u64, d: Option<(u64, Seq<Seq<u8>>)>) -> bool {
    d is Some && (d->0).0 >= floor
}

/// Reads frames from one encoder, dropping stale and repeated ones.
pub struct FrameDecoder {
    next_seqno: u64,
}

impl FrameDecoder {
    /// The lowest sequence number still accepted.
    pub closed spec fn floor(&self) -> u64 {
        self.next_seqno
    }

    /// A decoder that accepts every sequence number.
    pub fn new() -> (r: Self)
        ensures
            r.floor() == 0,
    {
        FrameDecoder { next_seqno: 0 }
    }

    /// The lowest sequence number still accepted.
    pub fn next_seqno(&self) -> (r: u64)
        ensures
            r == self.floor(),
    {
        self.next_seqno
    }

    /// Decodes a frame and returns its packets where its sequence number is
    /// not below the floor; the floor then moves past it. A frame that does
    /// not decode, or that is stale, gives `None` and leaves the floor.
    pub fn read_frame(&mut self, f: Vec<u8>) -> (r: Option<Vec<Vec<u8>>>)
        requires
            f@.len() == FRAME_LEN,
        ensures
            final(self).floor() >= old(self).floor(),
            accepts(old(self).floor(), decode(f@)) ==> r is Some && packets_of(r->0@) == (decode(
                f@,
            )->0).1 && final(self).floor() == floor_after((decode(f@)->0).0),
            !accepts(old(self).floor(), decode(f@)) ==> r is None && final(self).floor() == old(
                self,
            ).floor(),
        forall|s: u64, ps: Seq<Seq<u8>>|
            #[trigger] frame_codes(f@, padded(frame_data(s, ps))) && coded_size(
                frame_data(s, ps).len(),
            ) < FRAME_LEN && unambiguous(s, ps) ==> decode(f@) == Some((s, ps)),
        forall|s: u64, ps: Seq<Seq<u8>>|
            #[trigger] frame_near(f@, padded(frame_data(s, ps))) && coded_size(
                frame_data(s, ps).len(),
            ) < FRAME_LEN && unambiguous(s, ps) ==> decode(f@) == Some((s, ps)),
    {
        match decode_frame(f) {
            Some((seqno, packets)) => self.accept_decoded(seqno, packets),
            None => None,
        }
    }

    /// Takes a decoded frame numbered `seqno`: returns its packets where
    /// `seqno` is not below the floor, and moves the floor past it; returns
    /// `None` for a stale frame and leaves the floor.
    pub fn accept_decoded(&mut self, seqno: u64, packets: Vec<Vec<u8>>) -> (r: Option<
        Vec<Vec<u8>>,
    >)
        ensures
            final(self).floor() >= old(self).floor(),
            seqno >= old(self).floor() ==> r == Some(packets) && final(self).floor()
                == floor_after(seqno),
            seqno < old(self).floor() ==> r is None && final(self).floor() == old(self).floor(),
    {
        if seqno >= self.next_seqno {
            self.next_seqno = if seqno == u64::MAX {
                u64::MAX
            } else {
                seqno + 1
            };
            Some(packets)
        } else {
            None
        }
    }
}

/// A frame holding the bytes of `v`, zero after them.
pub fn vec_to_frame(v: Vec<u8>) -> (r: Vec<u8>)
    requires
        v@.len() <= FRAME_LEN,
    ensures
        r@.len() == FRAME_LEN,
        r@.take(v@.len() as int) == v@,
        forall|i: int| v@.len() <= i < FRAME_LEN ==> r@[i] == 0,
{
    let mut f: Vec<u8> = vec![0u8; FRAME_LEN];
    let mut i: usize = 0;
    while i < v.len()
        invariant
            i <= v@.len() <= FRAME_LEN,
            f@.len() == FRAME_LEN,
            forall|j: int| 0 <= j < i ==> f@[j] == v@[j],
            forall|j: int| v@.len() <= j < FRAME_LEN ==> f@[j] == 0,
        decreases v@.len() - i,
    {
        f.set(i, v[i]);
        i += 1;
    }
    assert(f@.take(v@.len() as int) =~= v@);
    f
}

} // verus!
