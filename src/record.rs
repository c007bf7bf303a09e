use crate::score::{
    empty_view, hour_not_after, hour_ordered, hour_within, lemma_trailing_hour, step, Score,
    ScoreView,
};
use vstd::prelude::*;

verus! {

/// Size in bytes of one record of the log: a big-endian `u32` time slice, then the count.
pub const RECORD_BYTES: usize = 5;

/// A record of the log: `(time_slice, keypresses)`.
pub type Record = (u32, u8);

/// The five bytes that hold the record `r`.
pub open spec fn record_bytes(r: Record) -> Seq<u8> {
    seq![
        (r.0 / 16777216) as u8,
        ((r.0 / 65536) % 256) as u8,
        ((r.0 / 256) % 256) as u8,
        (r.0 % 256) as u8,
        r.1,
    ]
}

/// The record stored at offset `at` of `b`.
pub open spec fn record_at(b: Seq<u8>, at: int) -> Record {
    (
        (b[at] * 16777216 + b[at + 1] * 65536 + b[at + 2] * 256 + b[at + 3]) as u32,
        b[at + 4],
    )
}

/// Number of bytes, of a log `len` bytes long, that complete records take.
pub open spec fn complete_len(len: nat) -> nat {
    len / 5 * 5
}

/// The complete records of a log, in order; trailing bytes that make no record are ignored.
pub open spec fn decode_log(b: Seq<u8>) -> Seq<Record> {
    Seq::new(b.len() / 5, |i: int| record_at(b, 5 * i))
}

/// The bytes of a log that holds the records `rs`, in order.
pub open spec fn encode_log(rs: Seq<Record>) -> Seq<u8>
    decreases rs.len(),
{
    if rs.len() == 0 {
        Seq::empty()
    } else {
        encode_log(rs.drop_last()) + record_bytes(rs.last())
    }
}

/// The statistics after the records `rs`, in order, the `i`-th on local calendar day `days[i]`.
pub open spec fn replay_view(s: ScoreView, rs: Seq<Record>, days: Seq<i32>) -> ScoreView
    decreases rs.len(),
{
    if rs.len() == 0 || days.len() != rs.len() {
        s
    } else {
        step(
            replay_view(s, rs.drop_last(), days.drop_last()),
            rs.last().0,
            rs.last().1,
            days.last(),
        )
    }
}

/// The five bytes of the record `(time_slice, keypresses)`.
pub fn encode_record(time_slice: u32, keypresses: u8) -> (r: Vec<u8>)
    ensures
        r@ == record_bytes((time_slice, keypresses)),
{
    let mut r: Vec<u8> = Vec::new();
    r.push((time_slice / 16777216) as u8);
    r.push(((time_slice / 65536) % 256) as u8);
    r.push(((time_slice / 256) % 256) as u8);
    r.push((time_slice % 256) as u8);
    r.push(keypresses);
    assert(r@ =~= record_bytes((time_slice, keypresses)));
    r
}

/// The record stored at offset `at` of `bytes`.
pub fn decode_record(bytes: &[u8], at: usize) -> (r: Record)
    requires
        at + RECORD_BYTES <= bytes@.len(),
    ensures
        r == record_at(bytes@, at as int),
{
    let time_slice: u32 = bytes[at] as u32 * 16777216 + bytes[at + 1] as u32 * 65536 + bytes[at + 2]
        as u32 * 256 + bytes[at + 3] as u32;
    (time_slice, bytes[at + 4])
}

proof fn lemma_record_round_trip(r: Record)
    ensures
        record_at(record_bytes(r), 0) == r,
{
    let t = r.0;
    assert((t / 16777216) * 16777216 + ((t / 65536) % 256) * 65536 + ((t / 256) % 256) * 256 + t
        % 256 == t) by (bit_vector);
}

proof fn lemma_encode_log(rs: Seq<Record>)
    ensures
        encode_log(rs).len() == 5 * rs.len(),
        forall|i: int|
            0 <= i < rs.len() ==> #[trigger] record_at(encode_log(rs), 5 * i) == rs[i],
    decreases rs.len(),
{
    if rs.len() > 0 {
        let p = rs.drop_last();
        lemma_encode_log(p);
        let e = encode_log(rs);
        let last = record_bytes(rs.last());
        assert(e == encode_log(p) + last);
        assert forall|i: int| 0 <= i < rs.len() implies #[trigger] record_at(e, 5 * i) == rs[i] by {
            if i < p.len() {
                assert(record_at(encode_log(p), 5 * i) == p[i]);
                assert(record_at(e, 5 * i) == record_at(encode_log(p), 5 * i));
            } else {
                lemma_record_round_trip(rs.last());
                assert(record_at(e, 5 * i) == record_at(last, 0));
            }
        }
    }
}

/// Replay reproduces the records: the log written for any sequence of records reads back
/// as that sequence, all of its bytes in complete records, so replaying it yields the
/// statistics that appending the records directly yields.
pub proof fn lemma_replay_matches_direct(s: ScoreView, rs: Seq<Record>, days: Seq<i32>)
    ensures
        decode_log(encode_log(rs)) == rs,
        complete_len(encode_log(rs).len()) == encode_log(rs).len(),
        replay_view(s, decode_log(encode_log(rs)), days) == replay_view(s, rs, days),
{
    lemma_encode_log(rs);
    let b = encode_log(rs);
    assert(decode_log(b).len() == rs.len());
    assert forall|i: int| 0 <= i < rs.len() implies decode_log(b)[i] == rs[i] by {
        assert(record_at(b, 5 * i) == rs[i]);
    }
    assert(decode_log(b) =~= rs);
}

/// Torn-write recovery: a log of complete records followed by one to four stray bytes
/// reads back as those records alone, the complete part ends where the stray bytes begin,
/// and one record written there makes the log of the records followed by it, five bytes
/// longer than the complete part.
pub proof fn lemma_torn_write(rs: Seq<Record>, stray: Seq<u8>, r: Record)
    requires
        1 <= stray.len() <= 4,
    ensures
        complete_len((encode_log(rs) + stray).len()) == 5 * rs.len(),
        decode_log(encode_log(rs) + stray) == rs,
        (encode_log(rs) + stray).subrange(0, 5 * rs.len() as int) + record_bytes(r) == encode_log(
            rs.push(r),
        ),
        encode_log(rs.push(r)).len() == 5 * rs.len() + 5,
{
    lemma_encode_log(rs);
    lemma_encode_log(rs.push(r));
    let e = encode_log(rs);
    let f = e + stray;
    assert(f.len() / 5 == rs.len());
    assert forall|i: int| 0 <= i < rs.len() implies decode_log(f)[i] == rs[i] by {
        assert(record_at(e, 5 * i) == rs[i]);
        assert(record_at(f, 5 * i) == record_at(e, 5 * i));
    }
    assert(decode_log(f) =~= rs);
    assert(f.subrange(0, 5 * rs.len() as int) =~= e);
    assert(rs.push(r).drop_last() =~= rs);
}

/// Trailing-hour pruning over a run: after records in time order, each with keypresses,
/// from a score with no record, the trailing-hour queue is in time order, holds nothing
/// after the last record and nothing more than an hour older than it.
pub proof fn lemma_trailing_hour_run(rs: Seq<Record>, days: Seq<i32>)
    requires
        rs.len() >= 1,
        days.len() == rs.len(),
        forall|i: int| 0 <= i < rs.len() ==> #[trigger] rs[i].1 >= 1,
        forall|i: int, j: int| 0 <= i < j < rs.len() ==> rs[i].0 <= rs[j].0,
    ensures
        hour_ordered(replay_view(empty_view(), rs, days).last_hour),
        hour_not_after(replay_view(empty_view(), rs, days).last_hour, rs.last().0),
        hour_within(replay_view(empty_view(), rs, days).last_hour, rs.last().0),
    decreases rs.len(),
{
    let p = rs.drop_last();
    let pd = days.drop_last();
    let t = rs.last().0;
    assert(rs.last().1 >= 1);
    if p.len() == 0 {
        lemma_trailing_hour(empty_view(), t, rs.last().1, days.last());
    } else {
        assert forall|i: int| 0 <= i < p.len() implies #[trigger] p[i].1 >= 1 by {
            assert(p[i] == rs[i]);
        }
        assert forall|i: int, j: int| 0 <= i < j < p.len() implies p[i].0 <= p[j].0 by {
            assert(p[i] == rs[i] && p[j] == rs[j]);
        }
        lemma_trailing_hour_run(p, pd);
        let s = replay_view(empty_view(), p, pd);
        assert(p.last() == rs[rs.len() - 2]);
        assert(p.last().0 <= t);
        lemma_trailing_hour(s, t, rs.last().1, days.last());
    }
}

/// Replays the log `bytes` into `score`: every complete record, in order, goes through
/// `Score::append`, and stray bytes after the last complete record are ignored. Returns
/// the length of the complete part, where the next record is to be written.
pub fn replay_log(score: &mut Score, bytes: &[u8]) -> (valid_len: usize)
    requires
        old(score).wf(),
    ensures
        final(score).wf(),
        valid_len == complete_len(bytes@.len()),
        exists|days: Seq<i32>|
            days.len() == decode_log(bytes@).len() && final(score)@ == replay_view(
                old(score)@,
                decode_log(bytes@),
                days,
            ),
{
    let ghost recs = decode_log(bytes@);
    let ghost mut days: Seq<i32> = Seq::empty();
    let mut pos: usize = 0;
    while RECORD_BYTES <= bytes.len() - pos
        invariant
            score.wf(),
            pos % 5 == 0,
            pos <= bytes@.len(),
            pos / 5 <= recs.len(),
            recs == decode_log(bytes@),
            days.len() == pos / 5,
            score@ == replay_view(old(score)@, recs.take((pos / 5) as int), days),
        decreases bytes@.len() - pos,
    {
        let (time_slice, keypresses) = decode_record(bytes, pos);
        let ghost before = score@;
        score.append(time_slice, keypresses);
        proof {
            let d = choose|d: i32| score@ == step(before, time_slice, keypresses, d);
            let n = (pos / 5) as int;
            let prev_days = days;
            days = days.push(d);
            let taken = recs.take(n + 1);
            assert(taken.last() == (time_slice, keypresses));
            assert(taken.drop_last() =~= recs.take(n));
            assert(days.drop_last() =~= prev_days);
            assert(score@ == replay_view(old(score)@, taken, days));
        }
        pos = pos + RECORD_BYTES;
    }
    proof {
        assert(recs.take((pos / 5) as int) =~= recs);
    }
    pos
}

} // verus!
