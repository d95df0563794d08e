//! Time-range queries over the chunk index, as mathematics.
//!
//! A chunk starts at the timestamp of its first record. In a file in time
//! order the records between two timestamps lie in the chunks from the last
//! one that starts before the range up to the last one that starts within
//! it, and only these chunks are read.

use crate::layout::{
    body_start, chunk_records, chunk_valid, chunks_valid, entry_in_place, file_records,
    file_valid, header_index, lemma_delta_roundtrip, record_at, record_pos, records_of,
};
use crate::record::{chronological, BatchIndexEntry, Update};
use vstd::prelude::*;

verus! {

/// The records of `rs` whose timestamp lies in `[lo, hi]`, in their order.
pub open spec fn within(rs: Seq<Update>, lo: u64, hi: u64) -> Seq<Update>
    decreases rs.len(),
{
    if rs.len() == 0 {
        rs
    } else if lo <= rs.last().timestamp <= hi {
        within(rs.drop_last(), lo, hi).push(rs.last())
    } else {
        within(rs.drop_last(), lo, hi)
    }
}

/// The chunks of `idx` start in time order.
pub open spec fn index_ordered(idx: Seq<BatchIndexEntry>) -> bool {
    forall|i: int, j: int|
        0 <= i <= j < idx.len() ==> (#[trigger] idx[i]).chunk_start_timestamp <= (
        #[trigger] idx[j]).chunk_start_timestamp
}

/// The number of chunks of `idx` that start at `t` or before.
pub open spec fn starts_upto(idx: Seq<BatchIndexEntry>, t: u64) -> int
    decreases idx.len(),
{
    if idx.len() == 0 {
        0
    } else {
        starts_upto(idx.drop_last(), t) + if idx.last().chunk_start_timestamp <= t {
            1int
        } else {
            0int
        }
    }
}

/// The chunks that a query for `[lo, hi]` reads, as a range of positions in
/// `idx`: none for an empty range; all where the index is not in time
/// order; else from the last chunk that starts before `lo` (the first
/// chunk, if none does) up to the last chunk that starts at `hi` or before.
pub open spec fn window(idx: Seq<BatchIndexEntry>, lo: u64, hi: u64) -> (int, int) {
    if lo > hi {
        (0, 0)
    } else if !index_ordered(idx) {
        (0, idx.len() as int)
    } else if lo == 0 || starts_upto(idx, (lo - 1) as u64) == 0 {
        (0, starts_upto(idx, hi))
    } else {
        (starts_upto(idx, (lo - 1) as u64) - 1, starts_upto(idx, hi))
    }
}

/// In an index in time order the chunks that start at `t` or before are
/// exactly the first `starts_upto` ones.
pub proof fn lemma_starts_upto(idx: Seq<BatchIndexEntry>, t: u64)
    requires
        index_ordered(idx),
    ensures
        0 <= starts_upto(idx, t) <= idx.len(),
        forall|k: int|
            0 <= k < idx.len() ==> (k < starts_upto(idx, t) <==> (
            #[trigger] idx[k]).chunk_start_timestamp <= t),
    decreases idx.len(),
{
    if idx.len() > 0 {
        let front = idx.drop_last();
        assert forall|i: int, j: int| 0 <= i <= j < front.len() implies (
        #[trigger] front[i]).chunk_start_timestamp <= (#[trigger] front[j]).chunk_start_timestamp by {
            assert(front[i] == idx[i] && front[j] == idx[j]);
        }
        lemma_starts_upto(front, t);
        assert forall|k: int| 0 <= k < idx.len() implies (k < starts_upto(idx, t) <==> (
        #[trigger] idx[k]).chunk_start_timestamp <= t) by {
            if k < front.len() {
                assert(front[k] == idx[k]);
                assert(idx[k].chunk_start_timestamp <= idx[idx.len() - 1].chunk_start_timestamp);
            }
        }
    }
}

/// The count of early starts grows with the bound.
pub proof fn lemma_starts_upto_grows(idx: Seq<BatchIndexEntry>, s: u64, t: u64)
    requires
        s <= t,
    ensures
        0 <= starts_upto(idx, s) <= starts_upto(idx, t) <= idx.len(),
    decreases idx.len(),
{
    if idx.len() > 0 {
        lemma_starts_upto_grows(idx.drop_last(), s, t);
    }
}

/// The window of a query is a range of positions of the index.
pub proof fn lemma_window_in_index(idx: Seq<BatchIndexEntry>, lo: u64, hi: u64)
    ensures
        0 <= window(idx, lo, hi).0 <= window(idx, lo, hi).1 <= idx.len(),
{
    if lo <= hi {
        lemma_starts_upto_grows(idx, hi, hi);
        if lo > 0 {
            lemma_starts_upto_grows(idx, (lo - 1) as u64, hi);
        }
    }
}

/// The records in range of two streams one after the other are those of
/// the one followed by those of the other.
pub proof fn lemma_within_concat(a: Seq<Update>, b: Seq<Update>, lo: u64, hi: u64)
    ensures
        within(a + b, lo, hi) == within(a, lo, hi) + within(b, lo, hi),
    decreases b.len(),
{
    if b.len() == 0 {
        assert(a + b =~= a);
        assert(within(a, lo, hi) + within(b, lo, hi) =~= within(a, lo, hi));
    } else {
        lemma_within_concat(a, b.drop_last(), lo, hi);
        assert((a + b).drop_last() =~= a + b.drop_last());
        assert((a + b).last() == b.last());
        assert(within(a + b, lo, hi) =~= within(a, lo, hi) + within(b, lo, hi));
    }
}

/// A stream with no record in range has no record in range.
pub proof fn lemma_within_none(rs: Seq<Update>, lo: u64, hi: u64)
    requires
        forall|i: int| 0 <= i < rs.len() ==> !(lo <= (#[trigger] rs[i]).timestamp <= hi),
    ensures
        within(rs, lo, hi) == Seq::<Update>::empty(),
    decreases rs.len(),
{
    if rs.len() > 0 {
        let front = rs.drop_last();
        assert forall|i: int| 0 <= i < front.len() implies !(lo <= (
        #[trigger] front[i]).timestamp <= hi) by {
            assert(front[i] == rs[i]);
        }
        lemma_within_none(front, lo, hi);
        assert(rs.last() == rs[rs.len() - 1]);
    }
}

/// The records of chunks one after the other are the records of the first
/// chunks followed by those of the rest.
pub proof fn lemma_records_of_concat(b: Seq<u8>, x: Seq<BatchIndexEntry>, y: Seq<BatchIndexEntry>)
    ensures
        records_of(b, x + y) == records_of(b, x) + records_of(b, y),
    decreases y.len(),
{
    if y.len() == 0 {
        assert(x + y =~= x);
        assert(records_of(b, x) + records_of(b, y) =~= records_of(b, x));
    } else {
        lemma_records_of_concat(b, x, y.drop_last());
        assert((x + y).drop_last() =~= x + y.drop_last());
        assert((x + y).last() == y.last());
        assert(records_of(b, x + y) =~= records_of(b, x) + records_of(b, y));
    }
}

/// The records of well-formed, non-empty chunks begin with a record at the
/// start of the first chunk.
pub proof fn lemma_records_of_first(b: Seq<u8>, idx: Seq<BatchIndexEntry>)
    requires
        idx.len() > 0,
        chunk_valid(b, idx[0]),
        idx[0].record_count_in_chunk >= 1,
    ensures
        records_of(b, idx).len() > 0,
        records_of(b, idx)[0].timestamp == idx[0].chunk_start_timestamp,
{
    let head = seq![idx[0]];
    let rest = idx.skip(1);
    assert(head + rest =~= idx);
    lemma_records_of_concat(b, head, rest);
    assert(head.drop_last() =~= Seq::<BatchIndexEntry>::empty());
    assert(records_of(b, Seq::<BatchIndexEntry>::empty()) =~= Seq::<Update>::empty());
    assert(head.last() == idx[0]);
    assert(records_of(b, head) =~= chunk_records(b, idx[0]));
    let first = chunk_records(b, idx[0])[0];
    assert(first == record_at(
        b,
        record_pos(idx[0].byte_offset as int, 0),
        idx[0].chunk_start_timestamp,
    ));
    lemma_delta_roundtrip(idx[0].chunk_start_timestamp, idx[0].chunk_start_timestamp);
    assert(records_of(b, idx)[0] == first);
}

/// The chunks of `idx` are well formed, none is empty, and their records
/// one after the other are in time order.
pub open spec fn sound(b: Seq<u8>, idx: Seq<BatchIndexEntry>) -> bool {
    &&& chunks_valid(b, idx)
    &&& forall|k: int| 0 <= k < idx.len() ==> (#[trigger] idx[k]).record_count_in_chunk >= 1
    &&& chronological(records_of(b, idx))
}

/// Part of a sound run of chunks is sound, and no record of an earlier part
/// is later than a record of a later part.
pub proof fn lemma_sound_split(b: Seq<u8>, idx: Seq<BatchIndexEntry>, k: int)
    requires
        sound(b, idx),
        0 <= k <= idx.len(),
    ensures
        sound(b, idx.take(k)),
        sound(b, idx.skip(k)),
        records_of(b, idx) == records_of(b, idx.take(k)) + records_of(b, idx.skip(k)),
        forall|i: int, j: int|
            0 <= i < records_of(b, idx.take(k)).len() && 0 <= j < records_of(
                b,
                idx.skip(k),
            ).len() ==> (#[trigger] records_of(b, idx.take(k))[i]).timestamp <= (
            #[trigger] records_of(b, idx.skip(k))[j]).timestamp,
{
    let x = idx.take(k);
    let y = idx.skip(k);
    let all = records_of(b, idx);
    let rx = records_of(b, x);
    let ry = records_of(b, y);
    assert(x + y =~= idx);
    lemma_records_of_concat(b, x, y);
    assert forall|i: int| 0 <= i < x.len() implies chunk_valid(b, #[trigger] x[i])
        && x[i].record_count_in_chunk >= 1 by {
        assert(x[i] == idx[i]);
    }
    assert forall|i: int| 0 <= i < y.len() implies chunk_valid(b, #[trigger] y[i])
        && y[i].record_count_in_chunk >= 1 by {
        assert(y[i] == idx[i + k]);
    }
    assert forall|i: int, j: int| 0 <= i <= j < rx.len() implies rx[i].timestamp
        <= rx[j].timestamp by {
        assert(rx[i] == all[i] && rx[j] == all[j]);
    }
    assert forall|i: int, j: int| 0 <= i <= j < ry.len() implies ry[i].timestamp
        <= ry[j].timestamp by {
        assert(ry[i] == all[i + rx.len()] && ry[j] == all[j + rx.len()]);
    }
    assert forall|i: int, j: int| 0 <= i < rx.len() && 0 <= j < ry.len() implies (
    #[trigger] rx[i]).timestamp <= (#[trigger] ry[j]).timestamp by {
        assert(rx[i] == all[i] && ry[j] == all[j + rx.len()]);
    }
}

/// The chunks of a sound run start in time order.
pub proof fn lemma_sound_ordered(b: Seq<u8>, idx: Seq<BatchIndexEntry>)
    requires
        sound(b, idx),
    ensures
        index_ordered(idx),
{
    assert forall|i: int, j: int| 0 <= i <= j < idx.len() implies (
    #[trigger] idx[i]).chunk_start_timestamp <= (#[trigger] idx[j]).chunk_start_timestamp by {
        if i < j {
            lemma_sound_split(b, idx, j);
            let x = idx.take(j);
            let y = idx.skip(j);
            lemma_sound_split(b, x, i);
            let m = x.skip(i);
            assert(m[0] == idx[i] && y[0] == idx[j]);
            lemma_records_of_first(b, m);
            lemma_records_of_first(b, y);
            let rx = records_of(b, x);
            let rm = records_of(b, m);
            let ry = records_of(b, y);
            let off = records_of(b, x.take(i)).len() as int;
            assert(rx[off] == rm[0]);
            assert(rx[off].timestamp <= ry[0].timestamp);
        }
    }
}

/// A query on a sound file in time order misses nothing: the records in
/// range of the chunks it reads are the records in range of the whole file.
pub proof fn lemma_window_complete(b: Seq<u8>, idx: Seq<BatchIndexEntry>, lo: u64, hi: u64)
    requires
        sound(b, idx),
    ensures
        0 <= window(idx, lo, hi).0 <= window(idx, lo, hi).1 <= idx.len(),
        chunks_valid(b, idx.subrange(window(idx, lo, hi).0, window(idx, lo, hi).1)),
        within(
            records_of(b, idx.subrange(window(idx, lo, hi).0, window(idx, lo, hi).1)),
            lo,
            hi,
        ) == within(records_of(b, idx), lo, hi),
{
    let (from, to) = window(idx, lo, hi);
    let all = records_of(b, idx);
    lemma_window_in_index(idx, lo, hi);
    lemma_sound_ordered(b, idx);
    let part = idx.subrange(from, to);
    assert forall|k: int| 0 <= k < part.len() implies chunk_valid(b, #[trigger] part[k]) by {
        assert(part[k] == idx[k + from]);
    }
    if lo > hi {
        assert(part =~= Seq::<BatchIndexEntry>::empty());
        assert forall|i: int| 0 <= i < all.len() implies !(lo <= (#[trigger] all[i]).timestamp
            <= hi) by {}
        lemma_within_none(all, lo, hi);
        assert(records_of(b, part) =~= Seq::<Update>::empty());
    } else {
        // the chunks after the window start after the range
        lemma_starts_upto(idx, hi);
        lemma_sound_split(b, idx, to);
        let upto = idx.take(to);
        let after = idx.skip(to);
        let r_after = records_of(b, after);
        if after.len() > 0 {
            assert(after[0] == idx[to]);
            lemma_records_of_first(b, after);
            assert forall|i: int| 0 <= i < r_after.len() implies !(lo <= (
            #[trigger] r_after[i]).timestamp <= hi) by {
                assert(r_after[0].timestamp <= r_after[i].timestamp);
            }
        }
        lemma_within_none(r_after, lo, hi);
        lemma_within_concat(records_of(b, upto), r_after, lo, hi);
        assert(within(all, lo, hi) =~= within(records_of(b, upto), lo, hi));
        // the chunks before the window end before the range
        lemma_sound_split(b, upto, from);
        let before = upto.take(from);
        let r_before = records_of(b, before);
        assert(upto.skip(from) =~= part);
        if from > 0 {
            lemma_starts_upto(idx, (lo - 1) as u64);
            assert(part.len() > 0);
            assert(part[0] == idx[from]);
            lemma_records_of_first(b, part);
            let r_part = records_of(b, part);
            assert forall|i: int| 0 <= i < r_before.len() implies !(lo <= (
            #[trigger] r_before[i]).timestamp <= hi) by {
                assert(r_before[i].timestamp <= r_part[0].timestamp);
            }
        } else {
            assert(before =~= Seq::<BatchIndexEntry>::empty());
        }
        lemma_within_none(r_before, lo, hi);
        lemma_within_concat(r_before, records_of(b, part), lo, hi);
        assert(within(records_of(b, upto), lo, hi) =~= within(records_of(b, part), lo, hi));
    }
}

/// The chunks of a well-formed file in time order are sound.
pub proof fn lemma_file_sound(b: Seq<u8>)
    requires
        file_valid(b),
        chronological(file_records(b)),
    ensures
        sound(b, header_index(b)),
{
    let idx = header_index(b);
    assert forall|k: int| 0 <= k < idx.len() implies (#[trigger] idx[k]).record_count_in_chunk
        >= 1 by {
        assert(entry_in_place(body_start(b), idx, k));
    }
}

} // verus!
