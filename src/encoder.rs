//! Packing queued packets into coded frames.
use vstd::prelude::*;
use vstd::slice::slice_subrange;
use std::collections::VecDeque;
use crate::bytes::{push_be16, push_be32, push_be64};
use crate::fec::{crc32_checksum, rs_encode_block, rs_parity, CODED_BLOCK_LEN, ECC_LEN, REED_SOLOMON_BLOCK_LEN};
use crate::wire::{
    ceil_div, coded_size, packets_of, records, record, frame_body, frame_data, padded, batch_len,
    data_block, coded_block, frame_codes, lemma_coded_size, FRAME_OVERHEAD, PACKET_LEN_PREFIX,
};
use crate::FRAME_LEN;

verus! {

/// `n / m`, rounded up.
pub fn divide_round_up(n: usize, m: usize) -> (r: usize)
    requires
        m > 0,
    ensures
        r == ceil_div(n as nat, m as nat),
{
    if n % m == 0 {
        n / m
    } else {
        assert(n / m < n) by (nonlinear_arith)
            requires
                m > 1 || n % m == 0,
                n % m != 0,
                m > 0,
        ;
        n / m + 1
    }
}

/// The size that `num_bytes` bytes of data take after Reed-Solomon coding:
/// whole blocks, each with its parity.
pub fn predict_rs_size(num_bytes: usize) -> (r: usize)
    requires
        coded_size(num_bytes as nat) <= usize::MAX,
    ensures
        r == coded_size(num_bytes as nat),
{
    let num_blocks = divide_round_up(num_bytes, REED_SOLOMON_BLOCK_LEN);
    num_blocks * (REED_SOLOMON_BLOCK_LEN + ECC_LEN)
}

/// Appends the bytes of `src` to `out`.
fn append_bytes(out: &mut Vec<u8>, src: &Vec<u8>)
    ensures
        final(out)@ == old(out)@ + src@,
{
    let mut i: usize = 0;
    while i < src.len()
        invariant
            i <= src@.len(),
            out@ == old(out)@ + src@.take(i as int),
        decreases src@.len() - i,
    {
        out.push(src[i]);
        i += 1;
        assert(out@ =~= old(out)@ + src@.take(i as int));
    }
    assert(src@.take(src@.len() as int) =~= src@);
}

/// Turns a queue of packets into a stream of frames.
///
/// Packets wait in a queue, oldest first. Each frame takes as many packets
/// from the head of the queue as fit, and carries the encoder's sequence
/// number, which goes up by one with every frame.
pub struct FrameEncoder {
    packets: VecDeque<Vec<u8>>,
    seqno: u64,
}

impl FrameEncoder {
    /// The packets waiting, oldest first.
    pub closed spec fn queue(&self) -> Seq<Seq<u8>> {
        packets_of(self.packets@)
    }

    /// The sequence number of the next frame.
    pub closed spec fn seqno_spec(&self) -> u64 {
        self.seqno
    }

    /// No packet waiting is longer than a frame.
    pub open spec fn wf(&self) -> bool {
        forall|i: int| 0 <= i < self.queue().len() ==> #[trigger] self.queue()[i].len() <= FRAME_LEN
    }

    /// An encoder with no packets whose first frame is numbered 0.
    pub fn new() -> (r: Self)
        ensures
            r.wf(),
            r.queue() == Seq::<Seq<u8>>::empty(),
            r.seqno_spec() == 0,
    {
        let r = FrameEncoder { packets: VecDeque::new(), seqno: 0 };
        assert(r.queue() =~= Seq::<Seq<u8>>::empty());
        r
    }

    /// The sequence number of the next frame.
    pub fn seqno(&self) -> (r: u64)
        ensures
            r == self.seqno_spec(),
    {
        self.seqno
    }

    /// Queues `packet` behind the packets already waiting.
    pub fn add_packet(&mut self, packet: Vec<u8>)
        requires
            old(self).wf(),
            packet@.len() <= FRAME_LEN,
        ensures
            final(self).wf(),
            final(self).queue() == old(self).queue().push(packet@),
            final(self).seqno_spec() == old(self).seqno_spec(),
    {
        let ghost p = packet@;
        self.packets.push_back(packet);
        assert(self.queue() =~= old(self).queue().push(p));
    }
}

/// The data of a frame before coding: sequence number, a record for each
/// packet, a zero spacer and the CRC-32 of all of that, padded with zeros to
/// whole blocks.
pub fn serialize_frame(seqno: u64, batch: &Vec<Vec<u8>>) -> (r: Vec<u8>)
    requires
        coded_size((FRAME_OVERHEAD + records(packets_of(batch@)).len()) as nat) < FRAME_LEN,
    ensures
        r@ == padded(frame_data(seqno, packets_of(batch@))),
        r@.len() % REED_SOLOMON_BLOCK_LEN as nat == 0,
        r@.len() <= 5680,
{
    let ghost ps = packets_of(batch@);
    proof {
        lemma_coded_size((FRAME_OVERHEAD + records(ps).len()) as nat);
    }
    let mut body: Vec<u8> = Vec::new();
    push_be64(&mut body, seqno);
    let mut i: usize = 0;
    while i < batch.len()
        invariant
            i <= batch@.len(),
            ps == packets_of(batch@),
            records(ps).len() <= 5680,
            body@ == crate::bytes::be64_bytes(seqno) + records(ps.take(i as int)),
        decreases batch@.len() - i,
    {
        proof {
            lemma_records_prefix(ps, i as int + 1);
        }
        assert(ps.take(i + 1).drop_last() =~= ps.take(i as int));
        assert(batch@[i as int]@.len() < 65536);
        push_be16(&mut body, batch[i].len() as u16);
        append_bytes(&mut body, &batch[i]);
        i += 1;
        assert(body@ =~= crate::bytes::be64_bytes(seqno) + records(ps.take(i as int)));
    }
    assert(ps.take(i as int) =~= ps);
    body.push(0);
    body.push(0);
    assert(body@ =~= frame_body(seqno, ps));
    let crc = crc32_checksum(body.as_slice());
    push_be32(&mut body, crc);
    assert(body@ =~= frame_data(seqno, ps));
    let ghost fd = body@;
    let target = divide_round_up(body.len(), REED_SOLOMON_BLOCK_LEN) * REED_SOLOMON_BLOCK_LEN;
    proof {
        lemma_coded_size(fd.len());
    }
    while body.len() < target
        invariant
            fd.len() <= body@.len() <= target,
            target == ceil_div(fd.len(), 10) * 10,
            body@ == fd + Seq::new((body@.len() - fd.len()) as nat, |k: int| 0u8),
        decreases target - body@.len(),
    {
        body.push(0);
        assert(body@ =~= fd + Seq::new((body@.len() - fd.len()) as nat, |k: int| 0u8));
    }
    assert(body@ =~= padded(fd));
    assert(target % 10 == 0) by (nonlinear_arith)
        requires
            target == ceil_div(fd.len(), 10) * 10,
    ;
    body
}

/// The records of the first `k` packets are the records of the first `k - 1`
/// followed by the record of packet `k - 1`, and a prefix of the records of all.
pub proof fn lemma_records_prefix(ps: Seq<Seq<u8>>, k: int)
    requires
        0 < k <= ps.len(),
    ensures
        records(ps.take(k)) == records(ps.take(k - 1)) + record(ps[k - 1]),
        records(ps.take(k)).len() <= records(ps).len(),
    decreases ps.len() - k,
{
    assert(ps.take(k).drop_last() =~= ps.take(k - 1));
    if k < ps.len() {
        lemma_records_prefix(ps, k + 1);
    } else {
        assert(ps.take(k) =~= ps);
    }
}

/// Codes whole blocks of data into a frame: each block followed by its
/// Reed-Solomon parity, the rest of the frame zero.
pub fn code_frame(data: &Vec<u8>) -> (r: Vec<u8>)
    requires
        data@.len() % REED_SOLOMON_BLOCK_LEN as nat == 0,
        data@.len() <= 5680,
    ensures
        frame_codes(r@, data@),
{
    let nb = data.len() / REED_SOLOMON_BLOCK_LEN;
    let mut frame: Vec<u8> = vec![0u8; FRAME_LEN];
    let mut b: usize = 0;
    while b < nb
        invariant
            nb == data@.len() / 10,
            nb * 10 == data@.len(),
            nb <= 568,
            b <= nb,
            frame@.len() == FRAME_LEN,
            forall|c: int|
                0 <= c < b ==> #[trigger] coded_block(frame@, c) == data_block(data@, c)
                    + rs_parity(data_block(data@, c)),
            forall|j: int| 18 * b <= j < FRAME_LEN ==> frame@[j] == 0,
        decreases nb - b,
    {
        let block = slice_subrange(data.as_slice(), 10 * b, 10 * b + 10);
        let coded = rs_encode_block(block);
        let ghost before = frame@;
        let mut k: usize = 0;
        while k < CODED_BLOCK_LEN
            invariant
                b < nb <= 568,
                k <= 18,
                coded@.len() == 18,
                frame@.len() == FRAME_LEN,
                before.len() == FRAME_LEN,
                forall|j: int| 18 * b <= j < FRAME_LEN ==> before[j] == 0,
                forall|j: int| 0 <= j < 18 * b ==> frame@[j] == before[j],
                forall|j: int| 18 * b + 18 <= j < FRAME_LEN ==> frame@[j] == before[j],
                forall|j: int| 0 <= j < k ==> frame@[18 * b + j] == coded@[j],
            decreases 18 - k,
        {
            frame.set(18 * b + k, coded[k]);
            k += 1;
        }
        assert(coded_block(frame@, b as int) =~= coded@);
        assert forall|c: int|
            0 <= c < b + 1 implies #[trigger] coded_block(frame@, c) == data_block(data@, c)
                + rs_parity(data_block(data@, c)) by {
            if c < b {
                assert(coded_block(frame@, c) =~= coded_block(before, c));
            }
        }
        assert forall|j: int| 18 * (b + 1) <= j < FRAME_LEN implies frame@[j] == 0 by {
            assert(frame@[j] == before[j]);
        }
        b += 1;
    }
    frame
}

impl FrameEncoder {
    /// Takes from the head of the queue the packets that the next frame
    /// carries.
    fn take_batch(&mut self) -> (r: Vec<Vec<u8>>)
        requires
            old(self).wf(),
        ensures
            final(self).wf(),
            final(self).seqno_spec() == old(self).seqno_spec(),
            packets_of(r@) == old(self).queue().take(batch_len(old(self).queue(), FRAME_OVERHEAD as nat) as int),
            final(self).queue() == old(self).queue().skip(batch_len(old(self).queue(), FRAME_OVERHEAD as nat) as int),
            coded_size((FRAME_OVERHEAD + records(packets_of(r@)).len()) as nat) < FRAME_LEN,
    {
        let ghost q = self.queue();
        let mut used: usize = FRAME_OVERHEAD;
        let mut batch: Vec<Vec<u8>> = Vec::new();
        let mut done = false;
        proof {
            assert(q.take(0) =~= Seq::<Seq<u8>>::empty());
            assert(packets_of(batch@) =~= Seq::<Seq<u8>>::empty());
            assert(q.skip(0) =~= q);
        }
        while !done && self.packets.len() > 0
            invariant
                self.wf(),
                self.seqno == old(self).seqno,
                batch@.len() <= q.len(),
                packets_of(batch@) == q.take(batch@.len() as int),
                self.queue() == q.skip(batch@.len() as int),
                used == FRAME_OVERHEAD + records(packets_of(batch@)).len(),
                coded_size(used as nat) < FRAME_LEN,
                batch_len(q, FRAME_OVERHEAD as nat) == batch@.len() + batch_len(self.queue(), used as nat),
                done ==> batch_len(self.queue(), used as nat) == 0,
            decreases self.packets@.len() + (if done { 0int } else { 1int }),
        {
            let ghost cur = self.queue();
            let packet = self.packets.pop_front().unwrap();
            assert(packet@ == cur[0]);
            assert(self.queue() =~= cur.drop_first());
            proof {
                lemma_coded_size(used as nat);
            }
            let packet_bytes = packet.len() + PACKET_LEN_PREFIX;
            if predict_rs_size(used + packet_bytes) < FRAME_LEN {
                let ghost old_batch = packets_of(batch@);
                batch.push(packet);
                used += packet_bytes;
                assert(packets_of(batch@) =~= old_batch.push(cur[0]));
                assert(packets_of(batch@).drop_last() =~= old_batch);
                assert(q.take(batch@.len() as int) =~= q.take(batch@.len() - 1).push(cur[0]));
                assert(self.queue() =~= q.skip(batch@.len() as int));
            } else {
                self.packets.push_front(packet);
                assert(self.queue() =~= cur);
                done = true;
            }
        }
        batch
    }

    /// Produces the next frame: takes packets from the head of the queue
    /// while the frame's coded size stays below `FRAME_LEN`, leaves the rest
    /// queued, numbers the frame and moves the sequence number on by one.
    /// A frame without packets is produced as well.
    pub fn get_next_frame(&mut self) -> (r: Vec<u8>)
        requires
            old(self).wf(),
            old(self).seqno_spec() < u64::MAX,
        ensures
            ({
                let q = old(self).queue();
                let k = batch_len(q, FRAME_OVERHEAD as nat) as int;
                &&& final(self).wf()
                &&& final(self).queue() == q.skip(k)
                &&& final(self).seqno_spec() == old(self).seqno_spec() + 1
                &&& frame_codes(r@, padded(frame_data(old(self).seqno_spec(), q.take(k))))
                &&& coded_size(frame_data(old(self).seqno_spec(), q.take(k)).len()) < FRAME_LEN
            }),
    {
        let batch = self.take_batch();
        let data = serialize_frame(self.seqno, &batch);
        let frame = code_frame(&data);
        self.seqno = self.seqno + 1;
        frame
    }

    /// Queues `packet`, where there is one, then produces the next frame as
    /// `get_next_frame` does.
    pub fn add_and_frame(&mut self, packet: Option<Vec<u8>>) -> (r: Vec<u8>)
        requires
            old(self).wf(),
            old(self).seqno_spec() < u64::MAX,
            packet matches Some(p) ==> p@.len() <= FRAME_LEN,
        ensures
            ({
                let q = match packet {
                    Some(p) => old(self).queue().push(p@),
                    None => old(self).queue(),
                };
                let k = batch_len(q, FRAME_OVERHEAD as nat) as int;
                &&& final(self).wf()
                &&& final(self).queue() == q.skip(k)
                &&& final(self).seqno_spec() == old(self).seqno_spec() + 1
                &&& frame_codes(r@, padded(frame_data(old(self).seqno_spec(), q.take(k))))
                &&& coded_size(frame_data(old(self).seqno_spec(), q.take(k)).len()) < FRAME_LEN
            }),
    {
        if let Some(p) = packet {
            self.add_packet(p);
        }
        self.get_next_frame()
    }
}

} // verus!
