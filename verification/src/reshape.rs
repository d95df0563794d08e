//! Splitting one file into many and merging files into one.

use crate::codec::{decode, encode};
use crate::error::DtfError;
use crate::layout::{
    chunks, concat_all, encoding, file_records, file_valid, header_meta, lemma_chunk_sizes,
    lemma_chunks, FORMAT_VERSION,
};
use crate::roundtrip::{lemma_body_step, lemma_encoding_grows, lemma_encoding_roundtrip};
use crate::record::{
    chronological, earlier, later, lemma_concat_bounds, lemma_same_records_same_bounds,
    max_timestamp, min_timestamp, FileMetadata, Update,
};
use vstd::prelude::*;

verus! {

/// The merge of two streams by timestamp: always the earlier of the two
/// heads next, and the head of `a` where both are equally early.
pub open spec fn merged(a: Seq<Update>, b: Seq<Update>) -> Seq<Update>
    decreases a.len() + b.len(),
{
    if a.len() == 0 {
        b
    } else if b.len() == 0 {
        a
    } else if a[0].timestamp <= b[0].timestamp {
        seq![a[0]] + merged(a.skip(1), b)
    } else {
        seq![b[0]] + merged(a, b.skip(1))
    }
}

/// The merge of any number of streams, taken from first to last.
pub open spec fn merged_all(parts: Seq<Seq<Update>>) -> Seq<Update>
    decreases parts.len(),
{
    if parts.len() == 0 {
        Seq::empty()
    } else {
        merged(merged_all(parts.drop_last()), parts.last())
    }
}

/// The file that merging the files `first` and `second` gives.
pub open spec fn concatenated(first: Seq<u8>, second: Seq<u8>, chunk_size: nat) -> Seq<u8> {
    encoding(
        header_meta(first).symbol,
        merged(file_records(first), file_records(second)),
        chunk_size,
    )
}

/// One file for each of `parts`, all under `symbol`.
pub open spec fn encoded_parts(symbol: Seq<char>, parts: Seq<Seq<Update>>, chunk_size: nat) -> Seq<
    Seq<u8>,
> {
    Seq::new(parts.len(), |k: int| encoding(symbol, parts[k], chunk_size))
}

/// The files that splitting the file `b` into batches of `batch_size` gives.
pub open spec fn split_files(b: Seq<u8>, batch_size: nat, chunk_size: nat) -> Seq<Seq<u8>> {
    encoded_parts(header_meta(b).symbol, chunks(file_records(b), batch_size), chunk_size)
}

/// The file that merging `files` one after the other into an empty file
/// under `symbol` gives.
pub open spec fn concatenated_all(symbol: Seq<char>, files: Seq<Seq<u8>>, chunk_size: nat) -> Seq<
    u8,
>
    decreases files.len(),
{
    if files.len() == 0 {
        encoding(symbol, Seq::empty(), chunk_size)
    } else {
        concatenated(
            concatenated_all(symbol, files.drop_last(), chunk_size),
            files.last(),
            chunk_size,
        )
    }
}

/// No record of `rs` is earlier than `t`.
pub open spec fn not_before(rs: Seq<Update>, t: u64) -> bool {
    forall|i: int| 0 <= i < rs.len() ==> t <= (#[trigger] rs[i]).timestamp
}

/// A merge holds as many records as its two inputs together.
pub proof fn lemma_merged_len(a: Seq<Update>, b: Seq<Update>)
    ensures
        merged(a, b).len() == a.len() + b.len(),
    decreases a.len() + b.len(),
{
    if a.len() > 0 && b.len() > 0 {
        if a[0].timestamp <= b[0].timestamp {
            lemma_merged_len(a.skip(1), b);
        } else {
            lemma_merged_len(a, b.skip(1));
        }
    }
}

/// A merge of streams that start no earlier than `t` starts no earlier than `t`.
pub proof fn lemma_merged_not_before(a: Seq<Update>, b: Seq<Update>, t: u64)
    requires
        not_before(a, t),
        not_before(b, t),
    ensures
        not_before(merged(a, b), t),
    decreases a.len() + b.len(),
{
    if a.len() > 0 && b.len() > 0 {
        if a[0].timestamp <= b[0].timestamp {
            let rest = a.skip(1);
            assert forall|i: int| 0 <= i < rest.len() implies t <= (
            #[trigger] rest[i]).timestamp by {
                assert(rest[i] == a[i + 1]);
            }
            lemma_merged_not_before(rest, b, t);
        } else {
            let rest = b.skip(1);
            assert forall|i: int| 0 <= i < rest.len() implies t <= (
            #[trigger] rest[i]).timestamp by {
                assert(rest[i] == b[i + 1]);
            }
            lemma_merged_not_before(a, rest, t);
        }
    }
}

/// What is left of a stream in time order after its head is in time order
/// and starts no earlier than the head.
pub proof fn lemma_tail_chronological(a: Seq<Update>)
    requires
        chronological(a),
        a.len() > 0,
    ensures
        chronological(a.skip(1)),
        not_before(a.skip(1), a[0].timestamp),
        not_before(a, a[0].timestamp),
{
    let rest = a.skip(1);
    assert forall|i: int, j: int| 0 <= i <= j < rest.len() implies rest[i].timestamp
        <= rest[j].timestamp by {
        assert(rest[i] == a[i + 1] && rest[j] == a[j + 1]);
    }
    assert forall|i: int| 0 <= i < rest.len() implies a[0].timestamp <= (
    #[trigger] rest[i]).timestamp by {
        assert(rest[i] == a[i + 1]);
    }
}

/// The merge of two streams in time order is in time order.
pub proof fn lemma_merged_chronological(a: Seq<Update>, b: Seq<Update>)
    requires
        chronological(a),
        chronological(b),
    ensures
        chronological(merged(a, b)),
    decreases a.len() + b.len(),
{
    if a.len() > 0 && b.len() > 0 {
        lemma_tail_chronological(a);
        lemma_tail_chronological(b);
        if a[0].timestamp <= b[0].timestamp {
            let rest = merged(a.skip(1), b);
            lemma_merged_chronological(a.skip(1), b);
            assert forall|i: int| 0 <= i < b.len() implies a[0].timestamp <= (
            #[trigger] b[i]).timestamp by {
                assert(b[0].timestamp <= b[i].timestamp);
            }
            lemma_merged_not_before(a.skip(1), b, a[0].timestamp);
            lemma_head_chronological(a[0], rest);
        } else {
            let rest = merged(a, b.skip(1));
            lemma_merged_chronological(a, b.skip(1));
            assert forall|i: int| 0 <= i < a.len() implies b[0].timestamp <= (
            #[trigger] a[i]).timestamp by {
                assert(a[0].timestamp <= a[i].timestamp);
            }
            lemma_merged_not_before(a, b.skip(1), b[0].timestamp);
            lemma_head_chronological(b[0], rest);
        }
    }
}

/// A record in front of a stream in time order that starts no earlier keeps
/// the time order.
pub proof fn lemma_head_chronological(head: Update, rest: Seq<Update>)
    requires
        chronological(rest),
        not_before(rest, head.timestamp),
    ensures
        chronological(seq![head] + rest),
{
    let all = seq![head] + rest;
    assert forall|i: int, j: int| 0 <= i <= j < all.len() implies all[i].timestamp
        <= all[j].timestamp by {
        if i > 0 {
            assert(all[i] == rest[i - 1] && all[j] == rest[j - 1]);
        } else if j > 0 {
            assert(all[j] == rest[j - 1]);
        }
    }
}

/// A merge holds the records of its two inputs, each as often as they do.
pub proof fn lemma_merged_multiset(a: Seq<Update>, b: Seq<Update>)
    ensures
        merged(a, b).to_multiset() == a.to_multiset().add(b.to_multiset()),
    decreases a.len() + b.len(),
{
    broadcast use vstd::seq_lib::group_to_multiset_ensures;

    if a.len() == 0 {
        assert(a.to_multiset() =~= vstd::multiset::Multiset::<Update>::empty());
        assert(merged(a, b).to_multiset() =~= a.to_multiset().add(b.to_multiset()));
    } else if b.len() == 0 {
        assert(b.to_multiset() =~= vstd::multiset::Multiset::<Update>::empty());
        assert(merged(a, b).to_multiset() =~= a.to_multiset().add(b.to_multiset()));
    } else if a[0].timestamp <= b[0].timestamp {
        let rest = a.skip(1);
        lemma_merged_multiset(rest, b);
        vstd::seq_lib::lemma_multiset_commutative(seq![a[0]], merged(rest, b));
        vstd::seq_lib::lemma_multiset_commutative(seq![a[0]], rest);
        assert(seq![a[0]] + rest =~= a);
        assert(merged(a, b).to_multiset() =~= a.to_multiset().add(b.to_multiset()));
    } else {
        let rest = b.skip(1);
        lemma_merged_multiset(a, rest);
        vstd::seq_lib::lemma_multiset_commutative(seq![b[0]], merged(a, rest));
        vstd::seq_lib::lemma_multiset_commutative(seq![b[0]], rest);
        assert(seq![b[0]] + rest =~= b);
        assert(merged(a, b).to_multiset() =~= a.to_multiset().add(b.to_multiset()));
    }
}

/// The bounds of a merge are the bounds of its two inputs together.
pub proof fn lemma_merged_bounds(a: Seq<Update>, b: Seq<Update>)
    requires
        a.len() > 0,
        b.len() > 0,
    ensures
        min_timestamp(merged(a, b)) == earlier(min_timestamp(a), min_timestamp(b)),
        max_timestamp(merged(a, b)) == later(max_timestamp(a), max_timestamp(b)),
{
    lemma_merged_multiset(a, b);
    vstd::seq_lib::lemma_multiset_commutative(a, b);
    lemma_same_records_same_bounds(merged(a, b), a + b);
    lemma_concat_bounds(a, b);
}

/// Where one stream followed by another is in time order, their merge is
/// the one followed by the other.
pub proof fn lemma_merged_in_order(a: Seq<Update>, b: Seq<Update>)
    requires
        chronological(a + b),
    ensures
        merged(a, b) == a + b,
    decreases a.len(),
{
    let all = a + b;
    if a.len() == 0 {
        assert(all =~= b);
    } else if b.len() == 0 {
        assert(all =~= a);
    } else {
        assert(all[0] == a[0] && all[a.len() as int] == b[0]);
        let rest = a.skip(1);
        assert forall|i: int, j: int| 0 <= i <= j < (rest + b).len() implies (rest
            + b)[i].timestamp <= (rest + b)[j].timestamp by {
            assert((rest + b)[i] == all[i + 1] && (rest + b)[j] == all[j + 1]);
        }
        lemma_merged_in_order(rest, b);
        assert(seq![a[0]] + (rest + b) =~= all);
    }
}

/// Where the parts one after the other are in time order, merging them all
/// gives the parts one after the other.
pub proof fn lemma_merged_all_in_order(parts: Seq<Seq<Update>>)
    requires
        chronological(concat_all(parts)),
    ensures
        merged_all(parts) == concat_all(parts),
    decreases parts.len(),
{
    if parts.len() > 0 {
        let front = concat_all(parts.drop_last());
        let all = concat_all(parts);
        assert(all == front + parts.last());
        assert forall|i: int, j: int| 0 <= i <= j < front.len() implies front[i].timestamp
            <= front[j].timestamp by {
            assert(front[i] == all[i] && front[j] == all[j]);
        }
        lemma_merged_all_in_order(parts.drop_last());
        lemma_merged_in_order(front, parts.last());
    }
}

/// Merging all parts keeps every record of every part, each as often as the
/// parts hold it.
pub proof fn lemma_merged_all_multiset(parts: Seq<Seq<Update>>)
    ensures
        merged_all(parts).to_multiset() == concat_all(parts).to_multiset(),
    decreases parts.len(),
{
    if parts.len() > 0 {
        lemma_merged_all_multiset(parts.drop_last());
        lemma_merged_multiset(merged_all(parts.drop_last()), parts.last());
        vstd::seq_lib::lemma_multiset_commutative(concat_all(parts.drop_last()), parts.last());
    }
}

/// Splitting and merging back restores the records: the same records as
/// often, hence as many and between the same bounds, and, where the stream
/// was in time order, the very same stream.
pub proof fn lemma_split_then_merge(rs: Seq<Update>, batch_size: nat)
    requires
        batch_size > 0,
    ensures
        merged_all(chunks(rs, batch_size)).to_multiset() == rs.to_multiset(),
        merged_all(chunks(rs, batch_size)).len() == rs.len(),
        min_timestamp(merged_all(chunks(rs, batch_size))) == min_timestamp(rs),
        max_timestamp(merged_all(chunks(rs, batch_size))) == max_timestamp(rs),
        chronological(rs) ==> merged_all(chunks(rs, batch_size)) == rs,
{
    lemma_chunks(rs, batch_size);
    lemma_merged_all_multiset(chunks(rs, batch_size));
    lemma_same_records_same_bounds(merged_all(chunks(rs, batch_size)), rs);
    if chronological(rs) {
        lemma_merged_all_in_order(chunks(rs, batch_size));
    }
}

/// Merging all parts gives as many records as the parts hold.
pub proof fn lemma_merged_all_len(parts: Seq<Seq<Update>>)
    ensures
        merged_all(parts).len() == concat_all(parts).len(),
    decreases parts.len(),
{
    if parts.len() > 0 {
        lemma_merged_all_len(parts.drop_last());
        lemma_merged_len(merged_all(parts.drop_last()), parts.last());
    }
}

/// The first parts hold no more records than all parts.
pub proof fn lemma_prefix_len(parts: Seq<Seq<Update>>, k: int)
    requires
        0 <= k <= parts.len(),
    ensures
        concat_all(parts.take(k)).len() <= concat_all(parts).len(),
    decreases parts.len() - k,
{
    if k == parts.len() {
        assert(parts.take(k) =~= parts);
    } else {
        lemma_prefix_len(parts, k + 1);
        lemma_body_step(parts, k);
    }
}

/// Merging the files of the first `k` parts into an empty file gives the
/// file of the merge of those parts.
pub proof fn lemma_concatenated_prefix(
    symbol: Seq<char>,
    parts: Seq<Seq<Update>>,
    chunk_size: nat,
    k: int,
)
    requires
        chunk_size > 0,
        0 <= k <= parts.len(),
        encoding(symbol, concat_all(parts), chunk_size).len() <= u64::MAX,
    ensures
        concatenated_all(symbol, encoded_parts(symbol, parts, chunk_size).take(k), chunk_size)
            == encoding(symbol, merged_all(parts.take(k)), chunk_size),
        merged_all(parts.take(k)).len() <= concat_all(parts).len(),
    decreases k,
{
    let files = encoded_parts(symbol, parts, chunk_size);
    let all = concat_all(parts);
    lemma_merged_all_len(parts.take(k));
    lemma_prefix_len(parts, k);
    if k == 0 {
        assert(files.take(0) =~= Seq::<Seq<u8>>::empty());
        assert(parts.take(0) =~= Seq::<Seq<Update>>::empty());
    } else {
        lemma_concatenated_prefix(symbol, parts, chunk_size, k - 1);
        let before = merged_all(parts.take(k - 1));
        let part = parts[k - 1];
        assert(files.take(k).drop_last() =~= files.take(k - 1));
        assert(files.take(k).last() == encoding(symbol, part, chunk_size));
        assert(parts.take(k).drop_last() =~= parts.take(k - 1));
        assert(parts.take(k).last() == part);
        lemma_body_step(parts, k - 1);
        lemma_encoding_grows(symbol, before, all, chunk_size);
        lemma_encoding_roundtrip(symbol, before, chunk_size);
        lemma_encoding_grows(symbol, part, all, chunk_size);
        lemma_encoding_roundtrip(symbol, part, chunk_size);
    }
}

/// Splitting a file and merging the parts back restores it: the result is a
/// well-formed file with the same records as often, under a header that
/// describes them as the header of a fresh copy would; and where the file
/// was in time order, the result is that fresh copy, record for record.
pub proof fn lemma_split_then_concat(b: Seq<u8>, batch_size: nat, chunk_size: nat)
    requires
        batch_size > 0,
        chunk_size > 0,
        encoding(header_meta(b).symbol, file_records(b), chunk_size).len() <= u64::MAX,
    ensures
        file_valid(
            concatenated_all(
                header_meta(b).symbol,
                split_files(b, batch_size, chunk_size),
                chunk_size,
            ),
        ),
        file_records(
            concatenated_all(
                header_meta(b).symbol,
                split_files(b, batch_size, chunk_size),
                chunk_size,
            ),
        ).to_multiset() == file_records(b).to_multiset(),
        header_meta(
            concatenated_all(
                header_meta(b).symbol,
                split_files(b, batch_size, chunk_size),
                chunk_size,
            ),
        ) == FileMetadata::describing(header_meta(b).symbol, FORMAT_VERSION, file_records(b)),
        chronological(file_records(b)) ==> concatenated_all(
            header_meta(b).symbol,
            split_files(b, batch_size, chunk_size),
            chunk_size,
        ) == encoding(header_meta(b).symbol, file_records(b), chunk_size),
{
    let symbol = header_meta(b).symbol;
    let rs = file_records(b);
    let parts = chunks(rs, batch_size);
    let files = split_files(b, batch_size, chunk_size);
    let joined = concatenated_all(symbol, files, chunk_size);
    lemma_chunks(rs, batch_size);
    lemma_concatenated_prefix(symbol, parts, chunk_size, parts.len() as int);
    assert(parts.take(parts.len() as int) =~= parts);
    assert(files.take(parts.len() as int) =~= files);
    lemma_split_then_merge(rs, batch_size);
    lemma_encoding_grows(symbol, merged_all(parts), rs, chunk_size);
    lemma_encoding_roundtrip(symbol, merged_all(parts), chunk_size);
}

/// Merges two streams by timestamp. Each input keeps its own order, and
/// where both are in time order so is the result.
pub fn merge_records(a: &Vec<Update>, b: &Vec<Update>) -> (out: Vec<Update>)
    ensures
        out@ == merged(a@, b@),
        out@.len() == a@.len() + b@.len(),
        out@.to_multiset() == a@.to_multiset().add(b@.to_multiset()),
        chronological(a@) && chronological(b@) ==> chronological(out@),
{
    let na = a.len();
    let nb = b.len();
    let mut out: Vec<Update> = Vec::new();
    let mut i: usize = 0;
    let mut j: usize = 0;
    proof {
        assert(a@.skip(0) =~= a@);
        assert(b@.skip(0) =~= b@);
        assert(out@ + merged(a@, b@) =~= merged(a@, b@));
    }
    while i < na || j < nb
        invariant
            i <= na,
            j <= nb,
            na == a.len(),
            nb == b.len(),
            out@ + merged(a@.skip(i as int), b@.skip(j as int)) == merged(a@, b@),
        decreases (na - i) + (nb - j),
    {
        let ghost ra = a@.skip(i as int);
        let ghost rb = b@.skip(j as int);
        let ghost before = out@;
        let from_a = if i >= na {
            false
        } else if j >= nb {
            true
        } else {
            a[i].timestamp <= b[j].timestamp
        };
        if from_a {
            out.push(a[i]);
            proof {
                assert(ra.skip(1) =~= a@.skip(i + 1));
                assert(ra[0] == a@[i as int]);
                if j >= nb {
                    assert(ra =~= seq![ra[0]] + ra.skip(1));
                    assert(rb.len() == 0);
                    assert(merged(ra.skip(1), rb) =~= ra.skip(1)) by {
                        if ra.skip(1).len() == 0 {
                            assert(ra.skip(1) =~= rb);
                        }
                    }
                }
                assert(merged(ra, rb) =~= seq![ra[0]] + merged(a@.skip(i + 1), rb));
                assert(out@ + merged(a@.skip(i + 1), rb) =~= before + merged(ra, rb));
            }
            i = i + 1;
        } else {
            out.push(b[j]);
            proof {
                assert(rb.skip(1) =~= b@.skip(j + 1));
                assert(rb[0] == b@[j as int]);
                if i >= na {
                    assert(rb =~= seq![rb[0]] + rb.skip(1));
                    assert(ra.len() == 0);
                }
                assert(merged(ra, rb) =~= seq![rb[0]] + merged(ra, b@.skip(j + 1)));
                assert(out@ + merged(ra, b@.skip(j + 1)) =~= before + merged(ra, rb));
            }
            j = j + 1;
        }
    }
    proof {
        assert(a@.skip(na as int) =~= Seq::<Update>::empty());
        assert(out@ =~= out@ + merged(a@.skip(na as int), b@.skip(nb as int)));
        lemma_merged_multiset(a@, b@);
        lemma_merged_len(a@, b@);
        if chronological(a@) && chronological(b@) {
            lemma_merged_chronological(a@, b@);
        }
    }
    out
}

/// Cuts `records` into batches of `batch_size`: every batch holds exactly
/// that many records, but the last, which holds what is left and is never
/// empty.
pub fn split_records(records: &Vec<Update>, batch_size: usize) -> (parts: Vec<Vec<Update>>)
    requires
        batch_size > 0,
    ensures
        parts.len() == chunks(records@, batch_size as nat).len(),
        forall|k: int|
            0 <= k < parts.len() ==> (#[trigger] parts@[k])@ == chunks(
                records@,
                batch_size as nat,
            )[k],
        forall|k: int| 0 <= k < parts.len() - 1 ==> (#[trigger] parts@[k])@.len() == batch_size,
        forall|k: int| 0 <= k < parts.len() ==> 1 <= (#[trigger] parts@[k])@.len() <= batch_size,
{
    let n = records.len();
    let ghost all = chunks(records@, batch_size as nat);
    let ghost done: Seq<Seq<Update>> = Seq::empty();
    let mut parts: Vec<Vec<Update>> = Vec::new();
    let mut i: usize = 0;
    proof {
        assert(records@.skip(0) =~= records@);
        assert(all =~= done + chunks(records@.skip(0), batch_size as nat));
    }
    while i < n
        invariant
            i <= n,
            n == records.len(),
            batch_size > 0,
            all == done + chunks(records@.skip(i as int), batch_size as nat),
            parts.len() == done.len(),
            forall|k: int| 0 <= k < parts.len() ==> (#[trigger] parts@[k])@ == done[k],
        decreases n - i,
    {
        let end = if n - i <= batch_size {
            n
        } else {
            i + batch_size
        };
        let ghost ch = records@.subrange(i as int, end as int);
        let ghost rest = records@.skip(i as int);
        let ghost before = done;
        let mut part: Vec<Update> = Vec::new();
        let mut j: usize = i;
        assert(part@ =~= records@.subrange(i as int, j as int));
        while j < end
            invariant
                i <= j <= end <= records.len(),
                part@ == records@.subrange(i as int, j as int),
            decreases end - j,
        {
            part.push(records[j]);
            j = j + 1;
            assert(part@ =~= records@.subrange(i as int, j as int));
        }
        parts.push(part);
        proof {
            done = before.push(ch);
            if end == n {
                assert(ch =~= rest);
                assert(records@.skip(end as int) =~= Seq::<Update>::empty());
                assert(chunks(rest, batch_size as nat) =~= seq![ch]);
            } else {
                assert(ch =~= rest.take(batch_size as int));
                assert(rest.skip(batch_size as int) =~= records@.skip(end as int));
            }
            assert(all =~= done + chunks(records@.skip(end as int), batch_size as nat));
        }
        i = end;
    }
    proof {
        assert(records@.skip(n as int) =~= Seq::<Update>::empty());
        assert(all =~= done);
        lemma_chunks(records@, batch_size as nat);
        lemma_chunk_sizes(records@, batch_size as nat);
    }
    parts
}

/// Splits a file into files of `batch_size` records each, the last holding
/// what is left and never nothing. Every output is a well-formed file under
/// the same symbol whose header describes its own records.
pub fn split(bytes: &[u8], batch_size: usize, chunk_size: usize) -> (res: Result<
    Vec<Vec<u8>>,
    DtfError,
>)
    requires
        batch_size > 0,
        chunk_size > 0,
    ensures
        res is Ok <==> file_valid(bytes@),
        match res {
            Ok(files) => {
                &&& files.len() == split_files(bytes@, batch_size as nat, chunk_size as nat).len()
                &&& forall|k: int|
                    0 <= k < files.len() ==> {
                        &&& (#[trigger] files@[k])@ == split_files(
                            bytes@,
                            batch_size as nat,
                            chunk_size as nat,
                        )[k]
                        &&& file_valid(files@[k]@)
                        &&& file_records(files@[k]@) == chunks(
                            file_records(bytes@),
                            batch_size as nat,
                        )[k]
                        &&& header_meta(files@[k]@) == FileMetadata::describing(
                            header_meta(bytes@).symbol,
                            FORMAT_VERSION,
                            file_records(files@[k]@),
                        )
                        &&& 1 <= file_records(files@[k]@).len() <= batch_size
                        &&& k < files.len() - 1 ==> file_records(files@[k]@).len() == batch_size
                    }
            },
            Err(e) => e == DtfError::CorruptFormat,
        },
{
    let (meta, records) = match decode(bytes) {
        Ok(parts) => parts,
        Err(e) => {
            return Err(e);
        },
    };
    let parts = split_records(&records, batch_size);
    let ghost all = chunks(records@, batch_size as nat);
    let mut files: Vec<Vec<u8>> = Vec::new();
    let mut k: usize = 0;
    while k < parts.len()
        invariant
            k <= parts.len(),
            chunk_size > 0,
            parts.len() == all.len(),
            forall|i: int| 0 <= i < parts.len() ==> (#[trigger] parts@[i])@ == all[i],
            forall|i: int| 0 <= i < parts.len() ==> 1 <= (#[trigger] parts@[i])@.len() <= batch_size,
            forall|i: int| 0 <= i < parts.len() - 1 ==> (#[trigger] parts@[i])@.len() == batch_size,
            files.len() == k,
            forall|i: int|
                0 <= i < k ==> {
                    &&& (#[trigger] files@[i])@ == encoding(meta@.symbol, all[i], chunk_size as nat)
                    &&& file_valid(files@[i]@)
                    &&& file_records(files@[i]@) == all[i]
                    &&& header_meta(files@[i]@) == FileMetadata::describing(
                        meta@.symbol,
                        FORMAT_VERSION,
                        all[i],
                    )
                },
        decreases parts.len() - k,
    {
        let file = encode(meta.symbol.as_str(), &parts[k], chunk_size);
        files.push(file);
        k = k + 1;
    }
    proof {
        assert forall|i: int| 0 <= i < files.len() implies 1 <= file_records(
            (#[trigger] files@[i])@,
        ).len() <= batch_size && (i < files.len() - 1 ==> file_records(files@[i]@).len()
            == batch_size) by {
            assert(parts@[i]@ == all[i]);
        }
    }
    Ok(files)
}

/// Merges two files of one symbol into one file, by timestamp.
///
/// It fails with `CorruptFormat` exactly when one of the files is not well
/// formed, and with `SymbolMismatch` exactly when both are but they name
/// different symbols.
pub fn concat(first: &[u8], second: &[u8], chunk_size: usize) -> (res: Result<Vec<u8>, DtfError>)
    requires
        chunk_size > 0,
    ensures
        res is Ok <==> file_valid(first@) && file_valid(second@) && header_meta(first@).symbol
            == header_meta(second@).symbol,
        match res {
            Ok(out) => {
                &&& out@ == concatenated(first@, second@, chunk_size as nat)
                &&& file_valid(out@)
                &&& file_records(out@) == merged(file_records(first@), file_records(second@))
                &&& header_meta(out@) == FileMetadata::describing(
                    header_meta(first@).symbol,
                    FORMAT_VERSION,
                    file_records(out@),
                )
                &&& header_meta(out@).record_count == file_records(first@).len() + file_records(
                    second@,
                ).len()
                &&& file_records(first@).len() > 0 && file_records(second@).len() > 0 ==> {
                    &&& header_meta(out@).min_timestamp == earlier(
                        min_timestamp(file_records(first@)),
                        min_timestamp(file_records(second@)),
                    )
                    &&& header_meta(out@).max_timestamp == later(
                        max_timestamp(file_records(first@)),
                        max_timestamp(file_records(second@)),
                    )
                }
                &&& chronological(file_records(first@)) && chronological(file_records(second@))
                    ==> chronological(file_records(out@))
            },
            Err(e) => if file_valid(first@) && file_valid(second@) {
                e == DtfError::SymbolMismatch
            } else {
                e == DtfError::CorruptFormat
            },
        },
{
    let (meta_a, records_a) = match decode(first) {
        Ok(parts) => parts,
        Err(e) => {
            return Err(e);
        },
    };
    let (meta_b, records_b) = match decode(second) {
        Ok(parts) => parts,
        Err(e) => {
            return Err(e);
        },
    };
    if meta_a.symbol != meta_b.symbol {
        return Err(DtfError::SymbolMismatch);
    }
    let records = merge_records(&records_a, &records_b);
    proof {
        if records_a@.len() > 0 && records_b@.len() > 0 {
            lemma_merged_bounds(records_a@, records_b@);
        }
    }
    assert(records@.len() == records.len());
    Ok(encode(meta_a.symbol.as_str(), &records, chunk_size))
}

} // verus!
