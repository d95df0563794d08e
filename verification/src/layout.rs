//! The byte layout of a DTF file, stated as mathematics.
//!
//! A file is a header, the chunks back to back, the chunk index, and the
//! number of chunks in its last eight bytes. Every number is a big-endian
//! `u64`. The header holds a magic number, the format version, the symbol
//! (its length in bytes, then its UTF-8 bytes), the record count and the
//! smallest and largest timestamp. A chunk holds its record count, the
//! timestamp of its first record, and its records at 33 bytes each: the
//! timestamp as a wrapping difference from the chunk's first, the sequence
//! number, the price, the size, and one byte of flags.

use crate::record::{BatchIndexEntry, FileMetadata, MetadataView, Update};
use crate::wire::{be_bytes, lemma_be_roundtrip, lemma_u64_at_written, u64_at};
use vstd::prelude::*;
use vstd::utf8::{decode_utf8, encode_utf8, valid_utf8};

verus! {

/// The first eight bytes of every file.
pub const MAGIC: u64 = 0x4454_465F_7469_636B;

/// The version that the encoder writes.
pub const FORMAT_VERSION: u64 = 1;

/// The oldest version that the decoder accepts.
pub const MIN_VERSION: u64 = 1;

/// The newest version that the decoder accepts.
pub const MAX_VERSION: u64 = 1;

/// Bytes of one stored record.
pub const RECORD_LEN: usize = 33;

/// Bytes of a chunk before its first record.
pub const CHUNK_HEADER_LEN: usize = 16;

/// Bytes of one index entry.
pub const ENTRY_LEN: usize = 24;

/// Bytes of a file with an empty symbol and no chunk.
pub const MIN_FILE_LEN: usize = 56;

/// The stored form of a timestamp: its distance from `base`, modulo 2^64.
pub open spec fn delta_of(base: u64, ts: u64) -> u64 {
    if ts >= base {
        (ts - base) as u64
    } else {
        (ts + 0x1_0000_0000_0000_0000 - base) as u64
    }
}

/// The timestamp that lies `delta` after `base`, modulo 2^64.
pub open spec fn apply_delta(base: u64, delta: u64) -> u64 {
    if base + delta <= u64::MAX {
        (base + delta) as u64
    } else {
        (base + delta - 0x1_0000_0000_0000_0000) as u64
    }
}

/// The flags byte: bit 0 marks a trade, bit 1 the bid side.
pub open spec fn flags_of(u: Update) -> u8 {
    if u.is_trade {
        if u.is_bid {
            3
        } else {
            1
        }
    } else {
        if u.is_bid {
            2
        } else {
            0
        }
    }
}

/// The 33 bytes of one record in a chunk whose first timestamp is `base`.
pub open spec fn record_bytes(base: u64, u: Update) -> Seq<u8> {
    be_bytes(delta_of(base, u.timestamp)) + be_bytes(u.sequence) + be_bytes(u.price) + be_bytes(
        u.size,
    ) + seq![flags_of(u)]
}

/// The record stored at `pos` in a chunk whose first timestamp is `base`.
pub open spec fn record_at(b: Seq<u8>, pos: int, base: u64) -> Update {
    Update {
        timestamp: apply_delta(base, u64_at(b, pos)),
        sequence: u64_at(b, pos + 8),
        is_trade: b[pos + 32] == 1 || b[pos + 32] == 3,
        is_bid: b[pos + 32] >= 2,
        price: u64_at(b, pos + 16),
        size: u64_at(b, pos + 24),
    }
}

/// The records of a chunk, one after the other.
pub open spec fn records_bytes(base: u64, rs: Seq<Update>) -> Seq<u8>
    decreases rs.len(),
{
    if rs.len() == 0 {
        Seq::empty()
    } else {
        records_bytes(base, rs.drop_last()) + record_bytes(base, rs.last())
    }
}

/// One chunk: its record count, its first timestamp, its records.
pub open spec fn chunk_bytes(rs: Seq<Update>) -> Seq<u8> {
    be_bytes(rs.len() as u64) + be_bytes(rs[0].timestamp) + records_bytes(rs[0].timestamp, rs)
}

/// Bytes of a chunk of `count` records.
pub open spec fn chunk_len(count: int) -> int {
    CHUNK_HEADER_LEN + RECORD_LEN * count
}

/// Where record `j` of the chunk at `offset` starts.
pub open spec fn record_pos(offset: int, j: int) -> int {
    offset + CHUNK_HEADER_LEN + RECORD_LEN * j
}

/// The flags byte of record `j` of the chunk at `offset` is one the encoder writes.
pub open spec fn flags_valid(b: Seq<u8>, offset: int, j: int) -> bool {
    b[record_pos(offset, j) + 32] <= 3
}

/// The chunk that `e` points at lies within `b`, repeats the count and the
/// first timestamp of `e`, starts with a record at distance zero, and holds
/// nothing but well-formed records.
pub open spec fn chunk_valid(b: Seq<u8>, e: BatchIndexEntry) -> bool {
    &&& e.byte_offset + chunk_len(e.record_count_in_chunk as int) <= b.len()
    &&& u64_at(b, e.byte_offset as int) == e.record_count_in_chunk
    &&& u64_at(b, e.byte_offset + 8) == e.chunk_start_timestamp
    &&& e.record_count_in_chunk >= 1 ==> u64_at(b, e.byte_offset + 16) == 0
    &&& forall|j: int|
        0 <= j < e.record_count_in_chunk ==> #[trigger] flags_valid(b, e.byte_offset as int, j)
}

/// The records of the chunk that `e` points at.
pub open spec fn chunk_records(b: Seq<u8>, e: BatchIndexEntry) -> Seq<Update> {
    Seq::new(
        e.record_count_in_chunk as nat,
        |j: int| record_at(b, record_pos(e.byte_offset as int, j), e.chunk_start_timestamp),
    )
}

/// The index entry of a chunk that holds `rs` and lies at `offset`.
pub open spec fn entry_for(rs: Seq<Update>, offset: int) -> BatchIndexEntry {
    BatchIndexEntry {
        chunk_start_timestamp: rs[0].timestamp,
        byte_offset: offset as u64,
        record_count_in_chunk: rs.len() as u64,
    }
}

/// A part of a part of `b` is a part of `b`.
pub proof fn lemma_piece(b: Seq<u8>, at: int, whole: Seq<u8>, off: int, len: int)
    requires
        0 <= at,
        at + whole.len() <= b.len(),
        b.subrange(at, at + whole.len()) == whole,
        0 <= off,
        0 <= len,
        off + len <= whole.len(),
    ensures
        b.subrange(at + off, at + off + len) == whole.subrange(off, off + len),
{
    let part = b.subrange(at + off, at + off + len);
    assert forall|i: int| 0 <= i < len implies part[i] == whole[off + i] by {
        assert(b.subrange(at, at + whole.len())[off + i] == b[at + off + i]);
    }
    assert(part =~= whole.subrange(off, off + len));
}

/// A stored timestamp is read back unchanged.
pub proof fn lemma_delta_roundtrip(base: u64, ts: u64)
    ensures
        apply_delta(base, delta_of(base, ts)) == ts,
        delta_of(base, base) == 0,
{
}

/// A record is read back from where its bytes lie.
pub proof fn lemma_record_read(b: Seq<u8>, pos: int, base: u64, u: Update)
    requires
        0 <= pos,
        pos + 33 <= b.len(),
        b.subrange(pos, pos + 33) == record_bytes(base, u),
    ensures
        record_at(b, pos, base) == u,
        u64_at(b, pos) == delta_of(base, u.timestamp),
        b[pos + 32] <= 3,
{
    let r = record_bytes(base, u);
    lemma_be_roundtrip(delta_of(base, u.timestamp));
    lemma_be_roundtrip(u.sequence);
    lemma_be_roundtrip(u.price);
    lemma_be_roundtrip(u.size);
    assert(r.len() == 33);
    lemma_piece(b, pos, r, 0, 8);
    assert(r.subrange(0, 8) =~= be_bytes(delta_of(base, u.timestamp)));
    lemma_u64_at_written(b, pos, delta_of(base, u.timestamp));
    lemma_piece(b, pos, r, 8, 8);
    assert(r.subrange(8, 16) =~= be_bytes(u.sequence));
    lemma_u64_at_written(b, pos + 8, u.sequence);
    lemma_piece(b, pos, r, 16, 8);
    assert(r.subrange(16, 24) =~= be_bytes(u.price));
    lemma_u64_at_written(b, pos + 16, u.price);
    lemma_piece(b, pos, r, 24, 8);
    assert(r.subrange(24, 32) =~= be_bytes(u.size));
    lemma_u64_at_written(b, pos + 24, u.size);
    assert(b.subrange(pos, pos + 33)[32] == b[pos + 32]);
    assert(r[32] == flags_of(u));
    lemma_delta_roundtrip(base, u.timestamp);
}

/// The records of a chunk take 33 bytes each.
pub proof fn lemma_records_len(base: u64, rs: Seq<Update>)
    ensures
        records_bytes(base, rs).len() == 33 * rs.len(),
    decreases rs.len(),
{
    if rs.len() > 0 {
        lemma_records_len(base, rs.drop_last());
        lemma_be_roundtrip(delta_of(base, rs.last().timestamp));
        lemma_be_roundtrip(rs.last().sequence);
        lemma_be_roundtrip(rs.last().price);
        lemma_be_roundtrip(rs.last().size);
    }
}

/// Record `j` of a chunk lies at 33 times `j` among the chunk's records.
pub proof fn lemma_records_piece(base: u64, rs: Seq<Update>, j: int)
    requires
        0 <= j < rs.len(),
    ensures
        records_bytes(base, rs).len() == 33 * rs.len(),
        records_bytes(base, rs).subrange(33 * j, 33 * j + 33) == record_bytes(base, rs[j]),
    decreases rs.len(),
{
    let all = records_bytes(base, rs);
    let front = records_bytes(base, rs.drop_last());
    let rec = record_bytes(base, rs.last());
    lemma_records_len(base, rs);
    lemma_records_len(base, rs.drop_last());
    assert(all == front + rec);
    if j == rs.len() - 1 {
        assert(all.subrange(33 * j, 33 * j + 33) =~= rec);
    } else {
        lemma_records_piece(base, rs.drop_last(), j);
        assert(rs.drop_last()[j] == rs[j]);
        assert(all.subrange(33 * j, 33 * j + 33) =~= front.subrange(33 * j, 33 * j + 33));
    }
}

/// Record `j` of a chunk is read back from where the chunk's bytes lie.
pub proof fn lemma_chunk_record_read(b: Seq<u8>, offset: int, rs: Seq<Update>, j: int)
    requires
        0 <= j < rs.len(),
        0 <= offset,
        offset + chunk_len(rs.len() as int) <= b.len(),
        b.subrange(offset, offset + chunk_len(rs.len() as int)) == chunk_bytes(rs),
    ensures
        flags_valid(b, offset, j),
        record_at(b, record_pos(offset, j), rs[0].timestamp) == rs[j],
        u64_at(b, record_pos(offset, j)) == delta_of(rs[0].timestamp, rs[j].timestamp),
{
    let base = rs[0].timestamp;
    let c = chunk_bytes(rs);
    let body = records_bytes(base, rs);
    lemma_records_piece(base, rs, j);
    lemma_be_roundtrip(rs.len() as u64);
    lemma_be_roundtrip(base);
    assert(c.len() == chunk_len(rs.len() as int));
    lemma_piece(b, offset, c, 16 + 33 * j, 33);
    assert(c.subrange(16 + 33 * j, 16 + 33 * j + 33) =~= body.subrange(33 * j, 33 * j + 33));
    lemma_record_read(b, record_pos(offset, j), base, rs[j]);
}

/// A chunk is read back from where its bytes lie.
pub proof fn lemma_chunk_read(b: Seq<u8>, offset: int, rs: Seq<Update>)
    requires
        1 <= rs.len() <= u64::MAX,
        0 <= offset <= u64::MAX,
        offset + chunk_len(rs.len() as int) <= b.len(),
        b.subrange(offset, offset + chunk_len(rs.len() as int)) == chunk_bytes(rs),
    ensures
        chunk_valid(b, entry_for(rs, offset)),
        chunk_records(b, entry_for(rs, offset)) == rs,
{
    let base = rs[0].timestamp;
    let e = entry_for(rs, offset);
    let c = chunk_bytes(rs);
    lemma_records_len(base, rs);
    lemma_be_roundtrip(rs.len() as u64);
    lemma_be_roundtrip(base);
    assert(c.len() == chunk_len(rs.len() as int));
    lemma_piece(b, offset, c, 0, 8);
    assert(c.subrange(0, 8) =~= be_bytes(rs.len() as u64));
    lemma_u64_at_written(b, offset, rs.len() as u64);
    lemma_piece(b, offset, c, 8, 8);
    assert(c.subrange(8, 16) =~= be_bytes(base));
    lemma_u64_at_written(b, offset + 8, base);
    assert forall|j: int| 0 <= j < rs.len() implies #[trigger] flags_valid(b, offset, j)
        && record_at(b, record_pos(offset, j), base) == rs[j] by {
        lemma_chunk_record_read(b, offset, rs, j);
    }
    lemma_chunk_record_read(b, offset, rs, 0);
    lemma_delta_roundtrip(base, base);
    assert forall|j: int| 0 <= j < rs.len() implies #[trigger] chunk_records(b, e)[j] == rs[j] by {
        lemma_chunk_record_read(b, offset, rs, j);
    }
    assert(chunk_records(b, e) =~= rs);
}

/// All the records of a sequence of chunks, in order.
pub open spec fn concat_all(chs: Seq<Seq<Update>>) -> Seq<Update>
    decreases chs.len(),
{
    if chs.len() == 0 {
        Seq::empty()
    } else {
        concat_all(chs.drop_last()) + chs.last()
    }
}

/// `rs` cut into chunks of `size` records; the last chunk holds what is left.
pub open spec fn chunks(rs: Seq<Update>, size: nat) -> Seq<Seq<Update>>
    decreases rs.len(),
{
    if size == 0 || rs.len() == 0 {
        Seq::empty()
    } else if rs.len() <= size {
        seq![rs]
    } else {
        seq![rs.take(size as int)] + chunks(rs.skip(size as int), size)
    }
}

/// The number of chunks that `n` records make at `size` records to a chunk.
pub open spec fn chunk_number(n: nat, size: nat) -> nat
    decreases n,
{
    if size == 0 || n == 0 {
        0
    } else if n <= size {
        1
    } else {
        1 + chunk_number((n - size) as nat, size)
    }
}

/// The chunks of a file back to back.
pub open spec fn body_bytes(chs: Seq<Seq<Update>>) -> Seq<u8>
    decreases chs.len(),
{
    if chs.len() == 0 {
        Seq::empty()
    } else {
        body_bytes(chs.drop_last()) + chunk_bytes(chs.last())
    }
}

/// The header of a file described by `m`.
pub open spec fn header_bytes(m: MetadataView) -> Seq<u8> {
    be_bytes(MAGIC) + be_bytes(m.format_version) + be_bytes(encode_utf8(m.symbol).len() as u64)
        + encode_utf8(m.symbol) + be_bytes(m.record_count) + be_bytes(m.min_timestamp) + be_bytes(
        m.max_timestamp,
    )
}

/// The index of chunks `chs` stored back to back from offset `base` on.
pub open spec fn index_of(chs: Seq<Seq<Update>>, base: int) -> Seq<BatchIndexEntry> {
    Seq::new(chs.len(), |k: int| entry_for(chs[k], base + body_bytes(chs.take(k)).len()))
}

/// The 24 bytes of one index entry.
pub open spec fn entry_bytes(e: BatchIndexEntry) -> Seq<u8> {
    be_bytes(e.chunk_start_timestamp) + be_bytes(e.byte_offset) + be_bytes(e.record_count_in_chunk)
}

/// The index entries one after the other.
pub open spec fn index_bytes(idx: Seq<BatchIndexEntry>) -> Seq<u8>
    decreases idx.len(),
{
    if idx.len() == 0 {
        Seq::empty()
    } else {
        index_bytes(idx.drop_last()) + entry_bytes(idx.last())
    }
}

/// The file that holds the chunks `chs` under `symbol`.
pub open spec fn file_bytes(symbol: Seq<char>, chs: Seq<Seq<Update>>) -> Seq<u8> {
    let head = header_bytes(FileMetadata::describing(symbol, FORMAT_VERSION, concat_all(chs)));
    head + body_bytes(chs) + index_bytes(index_of(chs, head.len() as int)) + be_bytes(
        chs.len() as u64,
    )
}

/// The file that holds `rs` under `symbol` in chunks of `chunk_size` records.
pub open spec fn encoding(symbol: Seq<char>, rs: Seq<Update>, chunk_size: nat) -> Seq<u8> {
    file_bytes(symbol, chunks(rs, chunk_size))
}

/// Length in bytes of the symbol that the header of `b` declares.
pub open spec fn symbol_len(b: Seq<u8>) -> int {
    u64_at(b, 16) as int
}

/// Where the symbol of `b` ends and the record count begins.
pub open spec fn symbol_end(b: Seq<u8>) -> int {
    24 + symbol_len(b)
}

/// Where the header of `b` ends and the first chunk begins.
pub open spec fn body_start(b: Seq<u8>) -> int {
    symbol_end(b) + 24
}

/// The number of chunks that the last eight bytes of `b` declare.
pub open spec fn chunk_count(b: Seq<u8>) -> int {
    u64_at(b, b.len() - 8) as int
}

/// Where the index of `b` begins.
pub open spec fn index_start(b: Seq<u8>) -> int {
    b.len() - 8 - ENTRY_LEN * chunk_count(b)
}

/// The index entry stored at `pos`.
pub open spec fn entry_at(b: Seq<u8>, pos: int) -> BatchIndexEntry {
    BatchIndexEntry {
        chunk_start_timestamp: u64_at(b, pos),
        byte_offset: u64_at(b, pos + 8),
        record_count_in_chunk: u64_at(b, pos + 16),
    }
}

/// The index that `b` holds.
pub open spec fn header_index(b: Seq<u8>) -> Seq<BatchIndexEntry> {
    Seq::new(chunk_count(b) as nat, |k: int| entry_at(b, index_start(b) + ENTRY_LEN * k))
}

/// Where the chunks of `idx` end if they lie back to back from `base` on.
pub open spec fn chunks_end(base: int, idx: Seq<BatchIndexEntry>) -> int
    decreases idx.len(),
{
    if idx.len() == 0 {
        base
    } else {
        chunks_end(base, idx.drop_last()) + chunk_len(idx.last().record_count_in_chunk as int)
    }
}

/// The number of records that the entries of `idx` count together.
pub open spec fn index_total(idx: Seq<BatchIndexEntry>) -> int
    decreases idx.len(),
{
    if idx.len() == 0 {
        0
    } else {
        index_total(idx.drop_last()) + idx.last().record_count_in_chunk
    }
}

/// Entry `k` counts at least one record and points to where the chunks
/// before it end.
pub open spec fn entry_in_place(base: int, idx: Seq<BatchIndexEntry>, k: int) -> bool {
    &&& idx[k].record_count_in_chunk >= 1
    &&& idx[k].byte_offset == chunks_end(base, idx.take(k))
}

/// The header, the index and the chunk count of `b` are well formed: the
/// magic number and an accepted version, a symbol in UTF-8 that fits, an
/// index that fits, chunks that lie back to back between header and index,
/// and a record count that is the sum of the chunks' counts.
pub open spec fn header_valid(b: Seq<u8>) -> bool {
    &&& b.len() >= MIN_FILE_LEN
    &&& u64_at(b, 0) == MAGIC
    &&& MIN_VERSION <= u64_at(b, 8) <= MAX_VERSION
    &&& symbol_len(b) <= b.len() - MIN_FILE_LEN
    &&& valid_utf8(b.subrange(24, symbol_end(b)))
    &&& ENTRY_LEN * chunk_count(b) <= b.len() - 8 - body_start(b)
    &&& forall|k: int|
        0 <= k < chunk_count(b) ==> #[trigger] entry_in_place(body_start(b), header_index(b), k)
    &&& chunks_end(body_start(b), header_index(b)) == index_start(b)
    &&& index_total(header_index(b)) == u64_at(b, symbol_end(b))
}

/// What the header of `b` says of the file.
pub open spec fn header_meta(b: Seq<u8>) -> MetadataView {
    MetadataView {
        symbol: decode_utf8(b.subrange(24, symbol_end(b))),
        record_count: u64_at(b, symbol_end(b)),
        min_timestamp: u64_at(b, symbol_end(b) + 8),
        max_timestamp: u64_at(b, symbol_end(b) + 16),
        format_version: u64_at(b, 8),
    }
}

/// Every chunk that `idx` points at is well formed.
pub open spec fn chunks_valid(b: Seq<u8>, idx: Seq<BatchIndexEntry>) -> bool {
    forall|k: int| 0 <= k < idx.len() ==> chunk_valid(b, #[trigger] idx[k])
}

/// The records of the chunks that `idx` points at, in the order of `idx`.
pub open spec fn records_of(b: Seq<u8>, idx: Seq<BatchIndexEntry>) -> Seq<Update>
    decreases idx.len(),
{
    if idx.len() == 0 {
        Seq::empty()
    } else {
        records_of(b, idx.drop_last()) + chunk_records(b, idx.last())
    }
}

/// `b` is a well-formed file, header and chunks.
pub open spec fn file_valid(b: Seq<u8>) -> bool {
    header_valid(b) && chunks_valid(b, header_index(b))
}

/// The records of the file `b`.
pub open spec fn file_records(b: Seq<u8>) -> Seq<Update> {
    records_of(b, header_index(b))
}

/// Chunks joined after a first chunk are that chunk followed by the rest.
pub proof fn lemma_concat_all_prepend(first: Seq<Update>, rest: Seq<Seq<Update>>)
    ensures
        concat_all(seq![first] + rest) == first + concat_all(rest),
    decreases rest.len(),
{
    let all = seq![first] + rest;
    if rest.len() == 0 {
        assert(all.drop_last() =~= Seq::<Seq<Update>>::empty());
        assert(rest =~= Seq::<Seq<Update>>::empty());
        assert(concat_all(Seq::<Seq<Update>>::empty()) =~= Seq::<Update>::empty());
        assert(all.last() == first);
        assert(concat_all(all) =~= first + concat_all(rest));
    } else {
        lemma_concat_all_prepend(first, rest.drop_last());
        assert(all.drop_last() =~= seq![first] + rest.drop_last());
        assert(all.last() == rest.last());
        assert(concat_all(all) =~= first + concat_all(rest));
    }
}

/// Cutting into chunks loses nothing: the chunks joined are the records, no
/// chunk is empty and none holds more than `size` records.
pub proof fn lemma_chunks(rs: Seq<Update>, size: nat)
    requires
        size > 0,
    ensures
        concat_all(chunks(rs, size)) == rs,
        forall|k: int|
            0 <= k < chunks(rs, size).len() ==> 1 <= (#[trigger] chunks(rs, size)[k]).len()
                <= size,
        chunks(rs, size).len() <= rs.len(),
    decreases rs.len(),
{
    if rs.len() == 0 {
        assert(concat_all(chunks(rs, size)) =~= rs);
    } else if rs.len() <= size {
        assert(seq![rs].drop_last() =~= Seq::<Seq<Update>>::empty());
        assert(concat_all(Seq::<Seq<Update>>::empty()) =~= Seq::<Update>::empty());
        assert(seq![rs].last() == rs);
        assert(concat_all(seq![rs]) =~= rs);
    } else {
        let first = rs.take(size as int);
        let rest = chunks(rs.skip(size as int), size);
        lemma_chunks(rs.skip(size as int), size);
        lemma_concat_all_prepend(first, rest);
        assert(first + rs.skip(size as int) =~= rs);
        assert forall|k: int| 0 <= k < chunks(rs, size).len() implies 1 <= (
        #[trigger] chunks(rs, size)[k]).len() <= size by {
            if k > 0 {
                assert(chunks(rs, size)[k] == rest[k - 1]);
            }
        }
    }
}

/// Chunks that lie back to back end no earlier than any part of them does.
pub proof fn lemma_chunks_end_grows(base: int, idx: Seq<BatchIndexEntry>, k: int)
    requires
        0 <= k <= idx.len(),
    ensures
        chunks_end(base, idx.take(k)) <= chunks_end(base, idx),
    decreases idx.len() - k,
{
    if k == idx.len() {
        assert(idx.take(k) =~= idx);
    } else {
        lemma_chunks_end_grows(base, idx, k + 1);
        assert(idx.take(k + 1).drop_last() =~= idx.take(k));
    }
}

/// Every chunk but the last holds exactly `size` records.
pub proof fn lemma_chunk_sizes(rs: Seq<Update>, size: nat)
    requires
        size > 0,
    ensures
        forall|k: int|
            0 <= k < chunks(rs, size).len() - 1 ==> (#[trigger] chunks(rs, size)[k]).len()
                == size,
    decreases rs.len(),
{
    if rs.len() > size {
        let rest = chunks(rs.skip(size as int), size);
        lemma_chunk_sizes(rs.skip(size as int), size);
        assert forall|k: int| 0 <= k < chunks(rs, size).len() - 1 implies (#[trigger] chunks(
            rs,
            size,
        )[k]).len() == size by {
            if k > 0 {
                assert(chunks(rs, size)[k] == rest[k - 1]);
            }
        }
    }
}

/// The number of chunks depends on the number of records alone.
pub proof fn lemma_chunks_len(rs: Seq<Update>, size: nat)
    ensures
        chunks(rs, size).len() == chunk_number(rs.len(), size),
    decreases rs.len(),
{
    if size > 0 && rs.len() > size {
        lemma_chunks_len(rs.skip(size as int), size);
    }
}

/// More records never make fewer chunks.
pub proof fn lemma_chunk_number_grows(m: nat, n: nat, size: nat)
    requires
        m <= n,
    ensures
        chunk_number(m, size) <= chunk_number(n, size),
    decreases n,
{
    if size > 0 && m > size {
        lemma_chunk_number_grows((m - size) as nat, (n - size) as nat, size);
    }
}

} // verus!
