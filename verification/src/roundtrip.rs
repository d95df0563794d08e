//! Proof that a file reads back as it was written.

use crate::layout::{
    body_bytes, body_start, chunk_bytes, chunk_count, chunk_len, chunk_number, chunk_records,
    chunk_valid, lemma_chunk_number_grows, lemma_chunks_len,
    chunks, chunks_end, chunks_valid, concat_all, encoding, entry_at, entry_bytes,
    entry_in_place, file_bytes, file_records, file_valid, header_bytes, header_index,
    header_meta, header_valid, index_bytes, index_of, index_start, index_total, lemma_chunk_read,
    lemma_chunks, lemma_piece, lemma_records_len, records_of, symbol_end, symbol_len,
    FORMAT_VERSION, MAGIC,
};
use crate::record::{BatchIndexEntry, FileMetadata, MetadataView, Update};
use crate::wire::{be_bytes, lemma_be_roundtrip, lemma_u64_at_written, u64_at};
use vstd::prelude::*;
use vstd::utf8::{encode_utf8, encode_utf8_decode_utf8, encode_utf8_valid_utf8};

verus! {

/// A chunk of `rs` takes 16 bytes and 33 for each record.
pub proof fn lemma_chunk_bytes_len(rs: Seq<Update>)
    ensures
        chunk_bytes(rs).len() == chunk_len(rs.len() as int),
{
    lemma_records_len(rs[0].timestamp, rs);
    lemma_be_roundtrip(rs.len() as u64);
    lemma_be_roundtrip(rs[0].timestamp);
}

/// The first `k + 1` chunks are the first `k` followed by chunk `k`.
pub proof fn lemma_body_step(chs: Seq<Seq<Update>>, k: int)
    requires
        0 <= k < chs.len(),
    ensures
        body_bytes(chs.take(k + 1)) == body_bytes(chs.take(k)) + chunk_bytes(chs[k]),
        concat_all(chs.take(k + 1)) == concat_all(chs.take(k)) + chs[k],
{
    let t = chs.take(k + 1);
    assert(t.drop_last() =~= chs.take(k));
    assert(t.last() == chs[k]);
}

/// The bytes of the first `k` chunks open the bytes of all chunks.
pub proof fn lemma_body_prefix(chs: Seq<Seq<Update>>, k: int)
    requires
        0 <= k <= chs.len(),
    ensures
        body_bytes(chs.take(k)).len() <= body_bytes(chs).len(),
        body_bytes(chs).subrange(0, body_bytes(chs.take(k)).len() as int) == body_bytes(
            chs.take(k),
        ),
    decreases chs.len() - k,
{
    if k == chs.len() {
        assert(chs.take(k) =~= chs);
        assert(body_bytes(chs).subrange(0, body_bytes(chs).len() as int) =~= body_bytes(chs));
    } else {
        lemma_body_prefix(chs, k + 1);
        lemma_body_step(chs, k);
        let longer = body_bytes(chs.take(k + 1));
        let shorter = body_bytes(chs.take(k));
        lemma_piece(body_bytes(chs), 0, longer, 0, shorter.len() as int);
        assert(longer.subrange(0, shorter.len() as int) =~= shorter);
    }
}

/// Chunk `k` lies among the bytes of all chunks right after the first `k`.
pub proof fn lemma_body_piece(chs: Seq<Seq<Update>>, k: int)
    requires
        0 <= k < chs.len(),
    ensures
        body_bytes(chs.take(k)).len() + chunk_len(chs[k].len() as int) <= body_bytes(chs).len(),
        body_bytes(chs).subrange(
            body_bytes(chs.take(k)).len() as int,
            body_bytes(chs.take(k)).len() + chunk_len(chs[k].len() as int),
        ) == chunk_bytes(chs[k]),
{
    lemma_body_prefix(chs, k + 1);
    lemma_body_step(chs, k);
    lemma_chunk_bytes_len(chs[k]);
    let longer = body_bytes(chs.take(k + 1));
    let shorter = body_bytes(chs.take(k));
    let c = chunk_bytes(chs[k]);
    lemma_piece(body_bytes(chs), 0, longer, shorter.len() as int, c.len() as int);
    assert(longer.subrange(shorter.len() as int, (shorter.len() + c.len()) as int) =~= c);
}

/// An index takes 24 bytes for each entry.
pub proof fn lemma_index_len(idx: Seq<BatchIndexEntry>)
    ensures
        index_bytes(idx).len() == 24 * idx.len(),
    decreases idx.len(),
{
    if idx.len() > 0 {
        lemma_index_len(idx.drop_last());
        lemma_be_roundtrip(idx.last().chunk_start_timestamp);
        lemma_be_roundtrip(idx.last().byte_offset);
        lemma_be_roundtrip(idx.last().record_count_in_chunk);
    }
}

/// Entry `k` lies at 24 times `k` in the bytes of an index.
pub proof fn lemma_index_piece(idx: Seq<BatchIndexEntry>, k: int)
    requires
        0 <= k < idx.len(),
    ensures
        index_bytes(idx).len() == 24 * idx.len(),
        index_bytes(idx).subrange(24 * k, 24 * k + 24) == entry_bytes(idx[k]),
    decreases idx.len(),
{
    let all = index_bytes(idx);
    let front = index_bytes(idx.drop_last());
    let last = entry_bytes(idx.last());
    lemma_index_len(idx);
    lemma_index_len(idx.drop_last());
    assert(all == front + last);
    if k == idx.len() - 1 {
        assert(all.subrange(24 * k, 24 * k + 24) =~= last);
    } else {
        lemma_index_piece(idx.drop_last(), k);
        assert(idx.drop_last()[k] == idx[k]);
        assert(all.subrange(24 * k, 24 * k + 24) =~= front.subrange(24 * k, 24 * k + 24));
    }
}

/// An index entry is read back from where its bytes lie.
pub proof fn lemma_entry_read(b: Seq<u8>, pos: int, e: BatchIndexEntry)
    requires
        0 <= pos,
        pos + 24 <= b.len(),
        b.subrange(pos, pos + 24) == entry_bytes(e),
    ensures
        entry_at(b, pos) == e,
{
    let w = entry_bytes(e);
    lemma_be_roundtrip(e.chunk_start_timestamp);
    lemma_be_roundtrip(e.byte_offset);
    lemma_be_roundtrip(e.record_count_in_chunk);
    lemma_piece(b, pos, w, 0, 8);
    assert(w.subrange(0, 8) =~= be_bytes(e.chunk_start_timestamp));
    lemma_u64_at_written(b, pos, e.chunk_start_timestamp);
    lemma_piece(b, pos, w, 8, 8);
    assert(w.subrange(8, 16) =~= be_bytes(e.byte_offset));
    lemma_u64_at_written(b, pos + 8, e.byte_offset);
    lemma_piece(b, pos, w, 16, 8);
    assert(w.subrange(16, 24) =~= be_bytes(e.record_count_in_chunk));
    lemma_u64_at_written(b, pos + 16, e.record_count_in_chunk);
}

/// An index is read back, entry by entry, from where its bytes lie.
pub proof fn lemma_written_index(b: Seq<u8>, at: int, idx: Seq<BatchIndexEntry>)
    requires
        0 <= at,
        at + 24 * idx.len() <= b.len(),
        b.subrange(at, at + 24 * idx.len()) == index_bytes(idx),
    ensures
        forall|k: int| 0 <= k < idx.len() ==> entry_at(b, at + 24 * k) == #[trigger] idx[k],
{
    lemma_index_len(idx);
    assert forall|k: int| 0 <= k < idx.len() implies entry_at(b, at + 24 * k) == #[trigger] idx[k] by {
        lemma_index_piece(idx, k);
        lemma_piece(b, at, index_bytes(idx), 24 * k, 24);
        lemma_entry_read(b, at + 24 * k, idx[k]);
    }
}

/// Chunk `k` of chunks written from `base` on is read back through its
/// index entry.
pub proof fn lemma_written_chunk(b: Seq<u8>, base: int, chs: Seq<Seq<Update>>, k: int)
    requires
        0 <= base,
        base + body_bytes(chs).len() <= b.len() <= u64::MAX,
        b.subrange(base, base + body_bytes(chs).len()) == body_bytes(chs),
        0 <= k < chs.len(),
        chs[k].len() >= 1,
    ensures
        chunk_valid(b, index_of(chs, base)[k]),
        chunk_records(b, index_of(chs, base)[k]) == chs[k],
        index_of(chs, base)[k].byte_offset == base + body_bytes(chs.take(k)).len(),
        index_of(chs, base)[k].record_count_in_chunk == chs[k].len(),
        index_of(chs, base)[k].chunk_start_timestamp == chs[k][0].timestamp,
{
    let off = body_bytes(chs.take(k)).len() as int;
    let clen = chunk_len(chs[k].len() as int);
    lemma_body_piece(chs, k);
    lemma_piece(b, base, body_bytes(chs), off, clen);
    lemma_chunk_read(b, base + off, chs[k]);
}

/// The first `k` chunks written from `base` on end where their index says,
/// count what their index says and are read back through it.
pub proof fn lemma_written_prefix(b: Seq<u8>, base: int, chs: Seq<Seq<Update>>, k: int)
    requires
        0 <= base,
        base + body_bytes(chs).len() <= b.len() <= u64::MAX,
        b.subrange(base, base + body_bytes(chs).len()) == body_bytes(chs),
        0 <= k <= chs.len(),
        forall|i: int| 0 <= i < chs.len() ==> (#[trigger] chs[i]).len() >= 1,
    ensures
        chunks_end(base, index_of(chs, base).take(k)) == base + body_bytes(chs.take(k)).len(),
        index_total(index_of(chs, base).take(k)) == concat_all(chs.take(k)).len(),
        records_of(b, index_of(chs, base).take(k)) == concat_all(chs.take(k)),
        concat_all(chs.take(k)).len() <= body_bytes(chs.take(k)).len(),
    decreases k,
{
    let idx = index_of(chs, base);
    if k == 0 {
        assert(idx.take(0) =~= Seq::<BatchIndexEntry>::empty());
        assert(chs.take(0) =~= Seq::<Seq<Update>>::empty());
        assert(records_of(b, idx.take(0)) =~= concat_all(chs.take(0)));
    } else {
        lemma_written_prefix(b, base, chs, k - 1);
        lemma_written_chunk(b, base, chs, k - 1);
        lemma_body_step(chs, k - 1);
        lemma_chunk_bytes_len(chs[k - 1]);
        assert(idx.take(k).drop_last() =~= idx.take(k - 1));
        assert(idx.take(k).last() == idx[k - 1]);
        assert(records_of(b, idx.take(k)) =~= concat_all(chs.take(k)));
    }
}

/// The header fields are read back from the start of a file.
pub proof fn lemma_written_header(b: Seq<u8>, m: MetadataView)
    requires
        header_bytes(m).len() <= b.len(),
        b.subrange(0, header_bytes(m).len() as int) == header_bytes(m),
        encode_utf8(m.symbol).len() <= u64::MAX,
    ensures
        header_bytes(m).len() == 48 + encode_utf8(m.symbol).len(),
        u64_at(b, 0) == MAGIC,
        u64_at(b, 8) == m.format_version,
        symbol_len(b) == encode_utf8(m.symbol).len(),
        b.subrange(24, symbol_end(b)) == encode_utf8(m.symbol),
        header_meta(b) == m,
{
    let h = header_bytes(m);
    let sym = encode_utf8(m.symbol);
    let n = sym.len() as int;
    lemma_be_roundtrip(MAGIC);
    lemma_be_roundtrip(m.format_version);
    lemma_be_roundtrip(n as u64);
    lemma_be_roundtrip(m.record_count);
    lemma_be_roundtrip(m.min_timestamp);
    lemma_be_roundtrip(m.max_timestamp);
    assert(h.len() == 48 + n);
    lemma_piece(b, 0, h, 0, 8);
    assert(h.subrange(0, 8) =~= be_bytes(MAGIC));
    lemma_u64_at_written(b, 0, MAGIC);
    lemma_piece(b, 0, h, 8, 8);
    assert(h.subrange(8, 16) =~= be_bytes(m.format_version));
    lemma_u64_at_written(b, 8, m.format_version);
    lemma_piece(b, 0, h, 16, 8);
    assert(h.subrange(16, 24) =~= be_bytes(n as u64));
    lemma_u64_at_written(b, 16, n as u64);
    lemma_piece(b, 0, h, 24, n);
    assert(h.subrange(24, 24 + n) =~= sym);
    lemma_piece(b, 0, h, 24 + n, 8);
    assert(h.subrange(24 + n, 32 + n) =~= be_bytes(m.record_count));
    lemma_u64_at_written(b, 24 + n, m.record_count);
    lemma_piece(b, 0, h, 32 + n, 8);
    assert(h.subrange(32 + n, 40 + n) =~= be_bytes(m.min_timestamp));
    lemma_u64_at_written(b, 32 + n, m.min_timestamp);
    lemma_piece(b, 0, h, 40 + n, 8);
    assert(h.subrange(40 + n, 48 + n) =~= be_bytes(m.max_timestamp));
    lemma_u64_at_written(b, 40 + n, m.max_timestamp);
    encode_utf8_decode_utf8(m.symbol);
}

/// A file of non-empty chunks is well formed and reads back as the symbol,
/// the index and the records that went into it.
pub proof fn lemma_file_roundtrip(symbol: Seq<char>, chs: Seq<Seq<Update>>)
    requires
        forall|i: int| 0 <= i < chs.len() ==> (#[trigger] chs[i]).len() >= 1,
        file_bytes(symbol, chs).len() <= u64::MAX,
    ensures
        file_valid(file_bytes(symbol, chs)),
        header_meta(file_bytes(symbol, chs)) == FileMetadata::describing(
            symbol,
            FORMAT_VERSION,
            concat_all(chs),
        ),
        header_index(file_bytes(symbol, chs)) == index_of(
            chs,
            (48 + encode_utf8(symbol).len()) as int,
        ),
        file_records(file_bytes(symbol, chs)) == concat_all(chs),
{
    let m = FileMetadata::describing(symbol, FORMAT_VERSION, concat_all(chs));
    let head = header_bytes(m);
    let body = body_bytes(chs);
    let base = head.len() as int;
    let idx = index_of(chs, base);
    let ib = index_bytes(idx);
    let n = chs.len() as int;
    let tail = be_bytes(n as u64);
    let b = file_bytes(symbol, chs);
    lemma_index_len(idx);
    lemma_be_roundtrip(n as u64);
    assert(b == head + body + ib + tail);
    assert(b.len() == head.len() + body.len() + ib.len() + 8);
    assert(b.subrange(0, base) =~= head);
    assert(b.subrange(base, base + body.len()) =~= body);
    assert(b.subrange(base + body.len(), base + body.len() + 24 * n) =~= ib);
    assert(b.subrange(b.len() - 8, b.len() as int) =~= tail);
    lemma_written_header(b, m);
    lemma_written_prefix(b, base, chs, n);
    assert(chs.take(n) =~= chs);
    assert(idx.take(n) =~= idx);
    lemma_written_index(b, base + body.len(), idx);
    lemma_u64_at_written(b, b.len() - 8, n as u64);
    assert(chunk_count(b) == n);
    assert(index_start(b) == base + body.len());
    assert(body_start(b) == base);
    assert(header_index(b) =~= idx);
    encode_utf8_valid_utf8(symbol);
    assert forall|k: int| 0 <= k < n implies #[trigger] entry_in_place(base, idx, k) && chunk_valid(
        b,
        idx[k],
    ) by {
        lemma_written_chunk(b, base, chs, k);
        lemma_written_prefix(b, base, chs, k);
    }
    assert forall|k: int| 0 <= k < idx.len() implies chunk_valid(b, #[trigger] idx[k]) by {
        lemma_written_chunk(b, base, chs, k);
    }
    assert(chunks_valid(b, idx));
    assert(header_valid(b));
}

/// Decoding undoes encoding: the file written for `rs` is well formed, its
/// records are `rs` in the same order, and its header describes them.
pub proof fn lemma_encoding_roundtrip(symbol: Seq<char>, rs: Seq<Update>, chunk_size: nat)
    requires
        chunk_size > 0,
        encoding(symbol, rs, chunk_size).len() <= u64::MAX,
    ensures
        file_valid(encoding(symbol, rs, chunk_size)),
        file_records(encoding(symbol, rs, chunk_size)) == rs,
        header_meta(encoding(symbol, rs, chunk_size)) == FileMetadata::describing(
            symbol,
            FORMAT_VERSION,
            rs,
        ),
{
    lemma_chunks(rs, chunk_size);
    lemma_file_roundtrip(symbol, chunks(rs, chunk_size));
}

/// Chunks take 16 bytes each and 33 for each record.
pub proof fn lemma_body_len(chs: Seq<Seq<Update>>)
    ensures
        body_bytes(chs).len() == 16 * chs.len() + 33 * concat_all(chs).len(),
    decreases chs.len(),
{
    if chs.len() > 0 {
        lemma_body_len(chs.drop_last());
        lemma_chunk_bytes_len(chs.last());
    }
}

/// The length of a file: 56 bytes, the symbol, 33 bytes for each record and
/// 40 for each chunk.
pub proof fn lemma_encoding_len(symbol: Seq<char>, rs: Seq<Update>, chunk_size: nat)
    requires
        chunk_size > 0,
    ensures
        encoding(symbol, rs, chunk_size).len() == 56 + encode_utf8(symbol).len() + 33 * rs.len()
            + 40 * chunk_number(rs.len(), chunk_size),
{
    let chs = chunks(rs, chunk_size);
    let m = FileMetadata::describing(symbol, FORMAT_VERSION, concat_all(chs));
    let head = header_bytes(m);
    lemma_chunks(rs, chunk_size);
    lemma_chunks_len(rs, chunk_size);
    lemma_body_len(chs);
    lemma_index_len(index_of(chs, head.len() as int));
    lemma_be_roundtrip(MAGIC);
    lemma_be_roundtrip(m.format_version);
    lemma_be_roundtrip(encode_utf8(symbol).len() as u64);
    lemma_be_roundtrip(m.record_count);
    lemma_be_roundtrip(m.min_timestamp);
    lemma_be_roundtrip(m.max_timestamp);
    lemma_be_roundtrip(chs.len() as u64);
    assert(head.len() == 48 + encode_utf8(symbol).len());
}

/// A file of fewer records under the same symbol is no longer.
pub proof fn lemma_encoding_grows(
    symbol: Seq<char>,
    fewer: Seq<Update>,
    more: Seq<Update>,
    chunk_size: nat,
)
    requires
        chunk_size > 0,
        fewer.len() <= more.len(),
    ensures
        encoding(symbol, fewer, chunk_size).len() <= encoding(symbol, more, chunk_size).len(),
{
    lemma_encoding_len(symbol, fewer, chunk_size);
    lemma_encoding_len(symbol, more, chunk_size);
    lemma_chunk_number_grows(fewer.len(), more.len(), chunk_size);
}

} // verus!
