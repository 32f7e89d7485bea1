//! Laws that relate encoding and decoding.
use vstd::prelude::*;
use crate::bytes::{
    be16_bytes, be16_value, be32_bytes, be64_bytes, be64_value, lemma_be16_round_trip,
    lemma_be64_round_trip,
};
use crate::wire::{
    batch_len, coded_size, data_end, FRAME_OVERHEAD, PACKET_LEN_PREFIX, frame_body, frame_data, lemma_coded_size, padded, parse_frame,
    parse_records, record, records, unambiguous, SEQNO_LEN,
};
use crate::encoder::lemma_records_prefix;
use crate::decoder::{accepts, floor_after};
use crate::FRAME_LEN;

verus! {

/// The records of the first `j` packets begin the records of all of them.
pub proof fn lemma_records_is_prefix(ps: Seq<Seq<u8>>, j: int)
    requires
        0 <= j <= ps.len(),
    ensures
        records(ps.take(j)).len() <= records(ps).len(),
        records(ps).take(records(ps.take(j)).len() as int) == records(ps.take(j)),
    decreases ps.len() - j,
{
    if j == ps.len() {
        assert(ps.take(j) =~= ps);
        assert(records(ps).take(records(ps).len() as int) =~= records(ps));
    } else {
        lemma_records_is_prefix(ps, j + 1);
        lemma_records_prefix(ps, j + 1);
        let a = records(ps.take(j));
        let b = records(ps.take(j + 1));
        assert(records(ps).take(a.len() as int) =~= b.take(a.len() as int));
        assert(b.take(a.len() as int) =~= a);
    }
}

/// One past the last non-zero byte is at most the length looked at.
pub proof fn lemma_data_end_bound(s: Seq<u8>, k: nat)
    ensures
        data_end(s, k) <= k,
    decreases k,
{
    if k > 0 {
        lemma_data_end_bound(s, (k - 1) as nat);
    }
}

/// The records from packet `i` on parse back into those packets.
#[verifier::rlimit(50)]
proof fn lemma_parse_from(data: Seq<u8>, ps: Seq<Seq<u8>>, end: nat, i: int)
    requires
        0 <= i <= ps.len(),
        forall|j: int| 0 <= j < ps.len() ==> #[trigger] ps[j].len() > 0,
        forall|j: int| 0 <= j < ps.len() ==> #[trigger] ps[j].len() < 65536,
        data.len() >= SEQNO_LEN + records(ps).len() + 2,
        data.subrange(SEQNO_LEN as int, SEQNO_LEN + records(ps).len()) == records(ps),
        data[SEQNO_LEN + records(ps).len()] == 0,
        data[SEQNO_LEN + records(ps).len() + 1] == 0,
        end <= data.len(),
        ps.len() > 0 ==> end > SEQNO_LEN + records(ps).len() - ps.last().len(),
    ensures
        parse_records(data, end, (SEQNO_LEN + records(ps.take(i)).len()) as nat) == Some(ps.skip(i)),
    decreases ps.len() - i,
{
    let off = SEQNO_LEN + records(ps.take(i)).len();
    lemma_records_is_prefix(ps, i);
    if i == ps.len() {
        assert(ps.take(i) =~= ps);
        assert(ps.skip(i) =~= Seq::<Seq<u8>>::empty());
        lemma_be16_zero_bytes();
    } else {
        lemma_records_prefix(ps, i + 1);
        lemma_records_is_prefix(ps, i + 1);
        lemma_records_prefix(ps, ps.len() as int);
        assert(ps.take(ps.len() as int) =~= ps);
        assert(ps.take(ps.len() - 1) == ps.drop_last());
        lemma_records_is_prefix(ps.drop_last(), i);
        assert(ps.drop_last().take(i) =~= ps.take(i));
        let r = records(ps.take(i + 1));
        let p = ps[i];
        assert(r == records(ps.take(i)) + be16_bytes(p.len() as u16) + p);
        assert(records(ps).take(r.len() as int) == r);
        assert(data[off] == r[records(ps.take(i)).len() as int]);
        assert(data[off + 1] == r[records(ps.take(i)).len() + 1int]);
        lemma_be16_round_trip(p.len() as u16);
        assert(data.subrange(off + 2, off + 2 + p.len()) =~= p) by {
            assert forall|x: int| 0 <= x < p.len() implies data[off + 2 + x] == p[x] by {
                assert(data[off + 2 + x] == records(ps)[records(ps.take(i)).len() + 2int + x]);
                assert(r[records(ps.take(i)).len() + 2int + x] == p[x]);
            }
        }
        lemma_parse_from(data, ps, end, i + 1);
        assert(seq![p] + ps.skip(i + 1) =~= ps.skip(i));
    }
}

/// The two zero bytes read as the value zero.
proof fn lemma_be16_zero_bytes()
    ensures
        be16_value(0u8, 0u8) == 0,
{
    assert(((0u8 as u16) << 8u16) | (0u8 as u16) == 0) by (bit_vector);
}

/// Frame data, padded, parses back into its sequence number and packets.
pub proof fn lemma_frame_data_round_trip(seqno: u64, ps: Seq<Seq<u8>>)
    requires
        coded_size(frame_data(seqno, ps).len()) < FRAME_LEN,
        unambiguous(seqno, ps),
    ensures
        parse_frame(padded(frame_data(seqno, ps))) == Some((seqno, ps)),
{
    let body = frame_body(seqno, ps);
    let fd = frame_data(seqno, ps);
    let data = padded(fd);
    let n = records(ps).len();
    lemma_coded_size(fd.len());
    assert(data.take(fd.len() as int) =~= fd);
    assert(data.subrange(0, 8) =~= be64_bytes(seqno));
    lemma_be64_round_trip(seqno, data, 0);
    assert(data.subrange(SEQNO_LEN as int, SEQNO_LEN + n) =~= records(ps));
    assert(data[SEQNO_LEN + n] == body[SEQNO_LEN + n]);
    assert(data[SEQNO_LEN + n + 1] == body[SEQNO_LEN + n + 1]);
    assert forall|j: int| 0 <= j < ps.len() implies #[trigger] ps[j].len() < 65536 by {
        lemma_records_prefix(ps, j + 1);
        lemma_records_is_prefix(ps, j + 1);
    }
    lemma_data_end_bound(data, data.len());
    lemma_parse_from(data, ps, data_end(data, data.len()), 0);
    assert(ps.take(0) =~= Seq::<Seq<u8>>::empty());
    assert(ps.skip(0) =~= ps);
}

/// The packets that successive frames take from the queue `q`, one batch
/// per frame, until the queue is empty or its head never fits.
pub open spec fn batches(q: Seq<Seq<u8>>) -> Seq<Seq<Seq<u8>>>
    decreases q.len(),
{
    let k = batch_len(q, FRAME_OVERHEAD as nat);
    if q.len() == 0 || k == 0 || k > q.len() {
        Seq::empty()
    } else {
        seq![q.take(k as int)] + batches(q.skip(k as int))
    }
}

/// A packet fits in a frame on its own.
pub open spec fn fits_alone(p: Seq<u8>) -> bool {
    coded_size((FRAME_OVERHEAD + PACKET_LEN_PREFIX + p.len()) as nat) < FRAME_LEN
}

/// A frame takes at most the whole queue.
pub proof fn lemma_batch_len_bound(q: Seq<Seq<u8>>, used: nat)
    ensures
        batch_len(q, used) <= q.len(),
    decreases q.len(),
{
    if q.len() > 0 {
        lemma_batch_len_bound(q.drop_first(), (used + q[0].len() + PACKET_LEN_PREFIX) as nat);
    }
}

/// Where every packet fits in a frame on its own, the frames that the
/// encoder produces one after another carry every queued packet, each once
/// and in the order of the queue.
pub proof fn lemma_batches_cover(q: Seq<Seq<u8>>)
    requires
        forall|i: int| 0 <= i < q.len() ==> fits_alone(#[trigger] q[i]),
    ensures
        batches(q).flatten() == q,
        forall|j: int| 0 <= j < batches(q).len() ==> #[trigger] batches(q)[j].len() > 0,
    decreases q.len(),
{
    if q.len() > 0 {
        let k = batch_len(q, FRAME_OVERHEAD as nat);
        assert(fits_alone(q[0]));
        assert(k >= 1);
        lemma_batch_len_bound(q, FRAME_OVERHEAD as nat);
        let rest = q.skip(k as int);
        assert forall|i: int| 0 <= i < rest.len() implies fits_alone(#[trigger] rest[i]) by {
            assert(rest[i] == q[i + k]);
        }
        lemma_batches_cover(rest);
        let bs = batches(q);
        assert(bs == seq![q.take(k as int)] + batches(rest));
        assert(bs.drop_first() =~= batches(rest));
        assert(bs.flatten() == bs[0] + bs.drop_first().flatten());
        assert(q.take(k as int) + rest =~= q);
        assert forall|j: int| 0 <= j < bs.len() implies #[trigger] bs[j].len() > 0 by {
            if j > 0 {
                assert(bs[j] == batches(rest)[j - 1]);
            }
        }
    } else {
        assert(batches(q).flatten() =~= q);
    }
}

/// A decoder with floor `floor` fed decoded frames `ds` in order: its final
/// floor and the packets of each frame it accepts.
pub open spec fn feed(floor: u64, ds: Seq<Option<(u64, Seq<Seq<u8>>)>>) -> (u64, Seq<Seq<Seq<u8>>>)
    decreases ds.len(),
{
    if ds.len() == 0 {
        (floor, Seq::empty())
    } else if accepts(floor, ds[0]) {
        let (f, out) = feed(floor_after((ds[0]->0).0), ds.drop_first());
        (f, seq![(ds[0]->0).1] + out)
    } else {
        feed(floor, ds.drop_first())
    }
}

/// After a decoder accepts the frame numbered `s`, frames numbered `s` or
/// lower, and frames that do not decode, are all dropped: no packets come
/// out and the floor stays where it is.
pub proof fn lemma_stale_frames_dropped(s: u64, ds: Seq<Option<(u64, Seq<Seq<u8>>)>>)
    requires
        s < u64::MAX,
        forall|i: int| 0 <= i < ds.len() && (#[trigger] ds[i]) is Some ==> (ds[i]->0).0 <= s,
    ensures
        feed(floor_after(s), ds) == (floor_after(s), Seq::<Seq<Seq<u8>>>::empty()),
    decreases ds.len(),
{
    if ds.len() > 0 {
        assert(!accepts(floor_after(s), ds[0]));
        let rest = ds.drop_first();
        assert forall|i: int| 0 <= i < rest.len() && (#[trigger] rest[i]) is Some implies (
        rest[i]->0).0 <= s by {
            assert(rest[i] == ds[i + 1]);
        }
        lemma_stale_frames_dropped(s, rest);
    }
}

/// After a decoder accepts the frame numbered `s`, stale frames numbered `s`
/// or lower are dropped, and the next frame numbered above `s` is accepted:
/// its packets are all that comes out, and the floor moves past it.
pub proof fn lemma_stale_then_fresh(
    s: u64,
    ds: Seq<Option<(u64, Seq<Seq<u8>>)>>,
    t: u64,
    ps: Seq<Seq<u8>>,
)
    requires
        s < t,
        forall|i: int| 0 <= i < ds.len() && (#[trigger] ds[i]) is Some ==> (ds[i]->0).0 <= s,
    ensures
        feed(floor_after(s), ds.push(Some((t, ps)))) == (floor_after(t), seq![ps]),
    decreases ds.len(),
{
    let all = ds.push(Some((t, ps)));
    if ds.len() == 0 {
        assert(all.drop_first() =~= Seq::<Option<(u64, Seq<Seq<u8>>)>>::empty());
        assert(all[0] == Some((t, ps)));
        assert(accepts(floor_after(s), all[0]));
        assert(feed(floor_after(t), all.drop_first()) == (
        floor_after(t),
        Seq::<Seq<Seq<u8>>>::empty(),
        ));
        assert(seq![ps] + Seq::<Seq<Seq<u8>>>::empty() =~= seq![ps]);
    } else {
        assert(!accepts(floor_after(s), ds[0]));
        let rest = ds.drop_first();
        assert(all.drop_first() =~= rest.push(Some((t, ps))));
        assert forall|i: int| 0 <= i < rest.len() && (#[trigger] rest[i]) is Some implies (
        rest[i]->0).0 <= s by {
            assert(rest[i] == ds[i + 1]);
        }
        lemma_stale_then_fresh(s, rest, t, ps);
    }
}

/// What the frames numbered `s`, `s + 1`, ... carrying the batches `bs`
/// decode to, one after another.
pub open spec fn numbered(bs: Seq<Seq<Seq<u8>>>, s: u64) -> Seq<Option<(u64, Seq<Seq<u8>>)>> {
    Seq::new(bs.len(), |i: int| Some(((s + i) as u64, bs[i])))
}

/// A decoder whose floor is at most `s`, fed frames numbered `s`, `s + 1`,
/// ... in order, accepts every one of them and hands out their batches.
pub proof fn lemma_numbered_frames_accepted(floor: u64, bs: Seq<Seq<Seq<u8>>>, s: u64)
    requires
        floor <= s,
        s + bs.len() < u64::MAX,
    ensures
        feed(floor, numbered(bs, s)).1 == bs,
    decreases bs.len(),
{
    let ds = numbered(bs, s);
    if bs.len() == 0 {
        assert(feed(floor, ds).1 =~= bs);
    } else {
        assert(accepts(floor, ds[0]));
        assert(floor_after(s) == s + 1);
        assert(ds.drop_first() =~= numbered(bs.drop_first(), (s + 1) as u64));
        lemma_numbered_frames_accepted((s + 1) as u64, bs.drop_first(), (s + 1) as u64);
        assert(seq![bs[0]] + bs.drop_first() =~= bs);
    }
}

/// Round trip over a stream of frames. An encoder whose next number is `s`
/// frames the queue `q` (every packet fitting in a frame on its own) until it
/// is empty: by `get_next_frame`, frame `i` is numbered `s + i` and codes
/// batch `i` of `batches(q)`, and by `decode_frame` each such frame that can
/// be told apart from its padding decodes to that. A decoder whose floor is
/// at most `s` fed those frames in order hands back every queued packet,
/// once each and in the order of the queue.
pub proof fn lemma_stream_round_trip(q: Seq<Seq<u8>>, s: u64, floor: u64)
    requires
        forall|i: int| 0 <= i < q.len() ==> fits_alone(#[trigger] q[i]),
        floor <= s,
        s + batches(q).len() < u64::MAX,
    ensures
        feed(floor, numbered(batches(q), s)).1.flatten() == q,
{
    lemma_batches_cover(q);
    lemma_numbered_frames_accepted(floor, batches(q), s);
}

} // verus!
