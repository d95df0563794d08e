//! The codec: records to bytes and back.

use crate::error::DtfError;
use crate::layout::{
    body_bytes, body_start, chunk_bytes, chunk_count, chunk_records, chunk_valid, chunks,
    chunks_end, chunks_valid, delta_of, encoding, entry_bytes, entry_in_place, file_bytes,
    file_records, file_valid, flags_valid, header_bytes, header_index, header_meta,
    header_valid, index_bytes, index_of, index_start, index_total, lemma_chunks,
    lemma_chunks_end_grows, record_at, record_bytes, record_pos, records_bytes, records_of,
    CHUNK_HEADER_LEN, ENTRY_LEN, FORMAT_VERSION, MAGIC, MAX_VERSION, MIN_FILE_LEN, MIN_VERSION,
    RECORD_LEN,
};
use crate::record::{max_timestamp, min_timestamp, BatchIndexEntry, FileMetadata, Update};
use crate::roundtrip::lemma_encoding_roundtrip;
use crate::wire::{get_u64, put_u64};
use vstd::prelude::*;
use vstd::slice::{slice_subrange, slice_to_vec};
use vstd::utf8::{encode_utf8, encode_utf8_decode_utf8, valid_utf8};

verus! {

/// Records to a chunk where the caller has no reason to choose.
pub const DEFAULT_CHUNK_SIZE: usize = 4096;

/// The smallest and the largest timestamp of `records`; both 0 for none.
pub fn timestamp_bounds(records: &Vec<Update>) -> (bounds: (u64, u64))
    ensures
        bounds.0 == min_timestamp(records@),
        bounds.1 == max_timestamp(records@),
{
    let n = records.len();
    if n == 0 {
        return (0, 0);
    }
    let mut lo = records[0].timestamp;
    let mut hi = records[0].timestamp;
    let mut i: usize = 1;
    assert(records@.take(1).len() == 1);
    while i < n
        invariant
            1 <= i <= n,
            n == records.len(),
            lo == min_timestamp(records@.take(i as int)),
            hi == max_timestamp(records@.take(i as int)),
        decreases n - i,
    {
        let t = records[i].timestamp;
        proof {
            let next = records@.take(i + 1);
            assert(next.drop_last() =~= records@.take(i as int));
            assert(next.last() == records@[i as int]);
        }
        if t < lo {
            lo = t;
        }
        if t > hi {
            hi = t;
        }
        i = i + 1;
    }
    assert(records@.take(n as int) =~= records@);
    (lo, hi)
}

impl FileMetadata {
    /// The description of a file of the current version that holds `records`
    /// under `symbol`: their number and the exact bounds of their timestamps.
    pub fn describe(symbol: &str, records: &Vec<Update>) -> (m: FileMetadata)
        ensures
            m@ == FileMetadata::describing(symbol@, FORMAT_VERSION, records@),
    {
        let (lo, hi) = timestamp_bounds(records);
        FileMetadata {
            symbol: symbol.to_owned(),
            record_count: records.len() as u64,
            min_timestamp: lo,
            max_timestamp: hi,
            format_version: FORMAT_VERSION,
        }
    }
}

/// Appends `src`.
fn put_bytes(out: &mut Vec<u8>, src: &[u8])
    ensures
        final(out)@ == old(out)@ + src@,
{
    let n = src.len();
    let mut i: usize = 0;
    assert(src@.take(0) =~= Seq::<u8>::empty());
    assert(out@ =~= old(out)@ + src@.take(0));
    while i < n
        invariant
            i <= n,
            n == src@.len(),
            out@ == old(out)@ + src@.take(i as int),
        decreases n - i,
    {
        out.push(src[i]);
        i = i + 1;
        assert(out@ =~= old(out)@ + src@.take(i as int));
    }
    assert(src@.take(n as int) =~= src@);
}

/// Appends the stored form of `u` for a chunk whose first timestamp is `base`.
fn put_record(out: &mut Vec<u8>, base: u64, u: &Update)
    ensures
        final(out)@ == old(out)@ + record_bytes(base, *u),
{
    let delta = if u.timestamp >= base {
        u.timestamp - base
    } else {
        u64::MAX - (base - u.timestamp) + 1
    };
    let flags: u8 = if u.is_trade {
        if u.is_bid {
            3
        } else {
            1
        }
    } else {
        if u.is_bid {
            2
        } else {
            0
        }
    };
    assert(delta == delta_of(base, u.timestamp));
    put_u64(out, delta);
    put_u64(out, u.sequence);
    put_u64(out, u.price);
    put_u64(out, u.size);
    out.push(flags);
    assert(out@ =~= old(out)@ + record_bytes(base, *u));
}

/// Appends the chunk that holds `records[from..to]`.
fn put_chunk(out: &mut Vec<u8>, records: &Vec<Update>, from: usize, to: usize)
    requires
        from < to <= records.len(),
    ensures
        final(out)@ == old(out)@ + chunk_bytes(records@.subrange(from as int, to as int)),
{
    let ghost ch = records@.subrange(from as int, to as int);
    let base = records[from].timestamp;
    put_u64(out, (to - from) as u64);
    put_u64(out, base);
    let ghost start = out@;
    let mut j: usize = from;
    assert(records@.subrange(from as int, from as int) =~= Seq::<Update>::empty());
    assert(out@ =~= start + records_bytes(base, records@.subrange(from as int, j as int)));
    while j < to
        invariant
            from <= j <= to <= records.len(),
            out@ == start + records_bytes(base, records@.subrange(from as int, j as int)),
        decreases to - j,
    {
        put_record(out, base, &records[j]);
        proof {
            let next = records@.subrange(from as int, j + 1);
            assert(next.drop_last() =~= records@.subrange(from as int, j as int));
            assert(next.last() == records@[j as int]);
            assert(out@ =~= start + records_bytes(base, next));
        }
        j = j + 1;
    }
    assert(ch[0] == records@[from as int]);
    assert(out@ =~= old(out)@ + chunk_bytes(ch));
}

/// Appends the entries of `index`.
fn put_index(out: &mut Vec<u8>, index: &Vec<BatchIndexEntry>)
    ensures
        final(out)@ == old(out)@ + index_bytes(index@),
{
    let n = index.len();
    let mut k: usize = 0;
    assert(index@.take(0) =~= Seq::<BatchIndexEntry>::empty());
    assert(out@ =~= old(out)@ + index_bytes(index@.take(0)));
    while k < n
        invariant
            k <= n,
            n == index.len(),
            out@ == old(out)@ + index_bytes(index@.take(k as int)),
        decreases n - k,
    {
        let ghost before = out@;
        let e = index[k];
        put_u64(out, e.chunk_start_timestamp);
        put_u64(out, e.byte_offset);
        put_u64(out, e.record_count_in_chunk);
        proof {
            let next = index@.take(k + 1);
            assert(next.drop_last() =~= index@.take(k as int));
            assert(next.last() == e);
            assert(out@ =~= before + entry_bytes(e));
            assert(out@ =~= old(out)@ + index_bytes(next));
        }
        k = k + 1;
    }
    assert(index@.take(n as int) =~= index@);
}

/// Writes `records` as a file under `symbol`, `chunk_size` records to a
/// chunk. The file is well formed and reads back as the same records in the
/// same order, under a header that describes them.
pub fn encode(symbol: &str, records: &Vec<Update>, chunk_size: usize) -> (out: Vec<u8>)
    requires
        chunk_size > 0,
    ensures
        out@ == encoding(symbol@, records@, chunk_size as nat),
        file_valid(out@),
        file_records(out@) == records@,
        header_meta(out@) == FileMetadata::describing(symbol@, FORMAT_VERSION, records@),
{
    let n = records.len();
    let (lo, hi) = timestamp_bounds(records);
    let ghost m = FileMetadata::describing(symbol@, FORMAT_VERSION, records@);
    let ghost all = chunks(records@, chunk_size as nat);
    let mut out: Vec<u8> = Vec::new();
    let name = symbol.as_bytes();
    put_u64(&mut out, MAGIC);
    put_u64(&mut out, FORMAT_VERSION);
    put_u64(&mut out, name.len() as u64);
    put_bytes(&mut out, name);
    put_u64(&mut out, n as u64);
    put_u64(&mut out, lo);
    put_u64(&mut out, hi);
    let ghost head = out@;
    assert(head =~= header_bytes(m));
    let mut index: Vec<BatchIndexEntry> = Vec::new();
    let ghost done: Seq<Seq<Update>> = Seq::empty();
    let mut i: usize = 0;
    proof {
        assert(records@.skip(0) =~= records@);
        assert(all =~= done + chunks(records@.skip(0), chunk_size as nat));
        assert(out@ =~= head + body_bytes(done));
        assert(index@ =~= index_of(done, head.len() as int));
    }
    while i < n
        invariant
            i <= n,
            n == records.len(),
            chunk_size > 0,
            all == done + chunks(records@.skip(i as int), chunk_size as nat),
            out@ == head + body_bytes(done),
            index@ == index_of(done, head.len() as int),
        decreases n - i,
    {
        let end = if n - i <= chunk_size {
            n
        } else {
            i + chunk_size
        };
        let ghost ch = records@.subrange(i as int, end as int);
        let ghost rest = records@.skip(i as int);
        let ghost before = done;
        let offset = out.len();
        index.push(
            BatchIndexEntry {
                chunk_start_timestamp: records[i].timestamp,
                byte_offset: offset as u64,
                record_count_in_chunk: (end - i) as u64,
            },
        );
        put_chunk(&mut out, records, i, end);
        proof {
            done = before.push(ch);
            if end == n {
                assert(ch =~= rest);
                assert(records@.skip(end as int) =~= Seq::<Update>::empty());
                assert(chunks(rest, chunk_size as nat) =~= seq![ch]);
            } else {
                assert(ch =~= rest.take(chunk_size as int));
                assert(rest.skip(chunk_size as int) =~= records@.skip(end as int));
            }
            assert(all =~= done + chunks(records@.skip(end as int), chunk_size as nat));
            assert(done.drop_last() =~= before);
            assert(done.last() == ch);
            assert(out@ =~= head + body_bytes(done));
            assert(done.take(before.len() as int) =~= before);
            assert forall|k: int| 0 <= k < before.len() implies #[trigger] index_of(
                done,
                head.len() as int,
            )[k] == index_of(before, head.len() as int)[k] by {
                assert(done.take(k) =~= before.take(k));
            }
            assert(ch[0] == records@[i as int]);
            assert(index@ =~= index_of(done, head.len() as int));
        }
        i = end;
    }
    proof {
        assert(records@.skip(n as int) =~= Seq::<Update>::empty());
        assert(all =~= done);
        lemma_chunks(records@, chunk_size as nat);
    }
    put_index(&mut out, &index);
    let count = index.len();
    put_u64(&mut out, count as u64);
    proof {
        assert(out@ =~= file_bytes(symbol@, all));
        assert(encoding(symbol@, records@, chunk_size as nat).len() == out.len());
        lemma_encoding_roundtrip(symbol@, records@, chunk_size as nat);
    }
    out
}

/// `String::from_utf8`: the text whose UTF-8 form is `bytes`, and nothing
/// when `bytes` are not UTF-8.
#[verifier::external_body]
fn text_of(bytes: Vec<u8>) -> (res: Option<String>)
    ensures
        res is Some <==> valid_utf8(bytes@),
        res matches Some(s) ==> encode_utf8(s@) == bytes@,
{
    match String::from_utf8(bytes) {
        Ok(s) => Some(s),
        Err(_) => None,
    }
}

/// Reads the header and the index of a file, in time proportional to the
/// number of chunks. It fails exactly when they are not well formed.
pub fn decode_header(bytes: &[u8]) -> (res: Result<(FileMetadata, Vec<BatchIndexEntry>), DtfError>)
    ensures
        res is Ok <==> header_valid(bytes@),
        match res {
            Ok((meta, index)) => meta@ == header_meta(bytes@) && index@ == header_index(bytes@),
            Err(e) => e == DtfError::CorruptFormat,
        },
{
    let ghost b = bytes@;
    let len = bytes.len();
    if len < MIN_FILE_LEN {
        return Err(DtfError::CorruptFormat);
    }
    let magic = get_u64(bytes, 0);
    if magic != MAGIC {
        return Err(DtfError::CorruptFormat);
    }
    let version = get_u64(bytes, 8);
    if version < MIN_VERSION || version > MAX_VERSION {
        return Err(DtfError::CorruptFormat);
    }
    let declared = get_u64(bytes, 16);
    if declared > (len - MIN_FILE_LEN) as u64 {
        return Err(DtfError::CorruptFormat);
    }
    let name_end = 24 + declared as usize;
    let name = slice_to_vec(slice_subrange(bytes, 24, name_end));
    let symbol = match text_of(name) {
        Some(s) => s,
        None => {
            return Err(DtfError::CorruptFormat);
        },
    };
    proof {
        encode_utf8_decode_utf8(symbol@);
    }
    let record_count = get_u64(bytes, name_end);
    let min_timestamp = get_u64(bytes, name_end + 8);
    let max_timestamp = get_u64(bytes, name_end + 16);
    let first_chunk = name_end + 24;
    let declared_chunks = get_u64(bytes, len - 8);
    if declared_chunks > ((len - 8 - first_chunk) / ENTRY_LEN) as u64 {
        return Err(DtfError::CorruptFormat);
    }
    let n = declared_chunks as usize;
    let table = len - 8 - ENTRY_LEN * n;
    let ghost idx = header_index(b);
    let mut index: Vec<BatchIndexEntry> = Vec::new();
    let mut expected: usize = first_chunk;
    let mut total: u64 = 0;
    let mut k: usize = 0;
    assert(index@ =~= idx.take(0));
    while k < n
        invariant
            k <= n,
            b == bytes@,
            len == b.len(),
            n == chunk_count(b),
            table == index_start(b),
            first_chunk == body_start(b),
            first_chunk <= table,
            table + 24 * n + 8 == len,
            idx == header_index(b),
            index@ == idx.take(k as int),
            expected == chunks_end(first_chunk as int, index@),
            total == index_total(index@),
            first_chunk <= expected <= table,
            total <= expected,
            forall|j: int| 0 <= j < k ==> #[trigger] entry_in_place(first_chunk as int, idx, j),
        decreases n - k,
    {
        let pos = table + ENTRY_LEN * k;
        let e = BatchIndexEntry {
            chunk_start_timestamp: get_u64(bytes, pos),
            byte_offset: get_u64(bytes, pos + 8),
            record_count_in_chunk: get_u64(bytes, pos + 16),
        };
        assert(e == idx[k as int]);
        if e.record_count_in_chunk < 1 || e.byte_offset != expected as u64 {
            assert(!entry_in_place(first_chunk as int, idx, k as int));
            return Err(DtfError::CorruptFormat);
        }
        proof {
            assert(idx.take(k + 1).drop_last() =~= idx.take(k as int));
            assert(idx.take(k + 1).last() == e);
            lemma_chunks_end_grows(first_chunk as int, idx, k + 1);
        }
        if table - expected < CHUNK_HEADER_LEN || e.record_count_in_chunk > ((table - expected
            - CHUNK_HEADER_LEN) / RECORD_LEN) as u64 {
            assert(chunks_end(first_chunk as int, idx) > table);
            return Err(DtfError::CorruptFormat);
        }
        expected = expected + CHUNK_HEADER_LEN + RECORD_LEN * (e.record_count_in_chunk as usize);
        total = total + e.record_count_in_chunk;
        index.push(e);
        k = k + 1;
        assert(index@ =~= idx.take(k as int));
    }
    assert(idx.take(n as int) =~= idx);
    if expected != table || total != record_count {
        return Err(DtfError::CorruptFormat);
    }
    Ok(
        (
            FileMetadata {
                symbol,
                record_count,
                min_timestamp,
                max_timestamp,
                format_version: version,
            },
            index,
        ),
    )
}

/// Reads the chunk that `entry` points at. It fails exactly when that chunk
/// is not well formed: when it does not fit in `bytes`, when its own count
/// or first timestamp differ from the entry's, or when a record is malformed.
pub fn decode_chunk(bytes: &[u8], entry: &BatchIndexEntry) -> (res: Result<Vec<Update>, DtfError>)
    ensures
        res is Ok <==> chunk_valid(bytes@, *entry),
        match res {
            Ok(records) => records@ == chunk_records(bytes@, *entry),
            Err(e) => e == DtfError::CorruptFormat,
        },
{
    let ghost b = bytes@;
    let len = bytes.len();
    let count = entry.record_count_in_chunk;
    if entry.byte_offset > len as u64 {
        return Err(DtfError::CorruptFormat);
    }
    let offset = entry.byte_offset as usize;
    if len - offset < CHUNK_HEADER_LEN || count > ((len - offset - CHUNK_HEADER_LEN)
        / RECORD_LEN) as u64 {
        return Err(DtfError::CorruptFormat);
    }
    if get_u64(bytes, offset) != count || get_u64(bytes, offset + 8)
        != entry.chunk_start_timestamp {
        return Err(DtfError::CorruptFormat);
    }
    let n = count as usize;
    if n >= 1 {
        if get_u64(bytes, offset + 16) != 0 {
            return Err(DtfError::CorruptFormat);
        }
    }
    let base = entry.chunk_start_timestamp;
    let mut records: Vec<Update> = Vec::new();
    let mut j: usize = 0;
    assert(records@ =~= chunk_records(b, *entry).take(0));
    while j < n
        invariant
            j <= n,
            b == bytes@,
            len == b.len(),
            n == entry.record_count_in_chunk,
            offset == entry.byte_offset,
            base == entry.chunk_start_timestamp,
            offset + 16 + 33 * n <= len,
            records@ == chunk_records(b, *entry).take(j as int),
            forall|i: int| 0 <= i < j ==> #[trigger] flags_valid(b, offset as int, i),
        decreases n - j,
    {
        let pos = offset + CHUNK_HEADER_LEN + RECORD_LEN * j;
        let flags = bytes[pos + 32];
        if flags > 3 {
            assert(!flags_valid(b, offset as int, j as int));
            return Err(DtfError::CorruptFormat);
        }
        let delta = get_u64(bytes, pos);
        let timestamp = if delta <= u64::MAX - base {
            base + delta
        } else {
            delta - (u64::MAX - base) - 1
        };
        let u = Update {
            timestamp,
            sequence: get_u64(bytes, pos + 8),
            is_trade: flags == 1 || flags == 3,
            is_bid: flags >= 2,
            price: get_u64(bytes, pos + 16),
            size: get_u64(bytes, pos + 24),
        };
        assert(pos == record_pos(offset as int, j as int));
        assert(u == record_at(b, pos as int, base));
        records.push(u);
        j = j + 1;
        assert(records@ =~= chunk_records(b, *entry).take(j as int));
    }
    assert(chunk_records(b, *entry).take(n as int) =~= chunk_records(b, *entry));
    Ok(records)
}

/// Reads the chunks that `index[from..to]` points at, in that order. It
/// fails exactly when one of them is not well formed.
pub fn decode_chunks(bytes: &[u8], index: &Vec<BatchIndexEntry>, from: usize, to: usize) -> (res:
    Result<Vec<Update>, DtfError>)
    requires
        from <= to <= index.len(),
    ensures
        res is Ok <==> chunks_valid(bytes@, index@.subrange(from as int, to as int)),
        match res {
            Ok(records) => records@ == records_of(
                bytes@,
                index@.subrange(from as int, to as int),
            ),
            Err(e) => e == DtfError::CorruptFormat,
        },
{
    let ghost b = bytes@;
    let ghost part = index@.subrange(from as int, to as int);
    let mut records: Vec<Update> = Vec::new();
    let mut k: usize = from;
    assert(part.take(0) =~= Seq::<BatchIndexEntry>::empty());
    assert(records@ =~= records_of(b, part.take(0)));
    while k < to
        invariant
            from <= k <= to <= index.len(),
            b == bytes@,
            part == index@.subrange(from as int, to as int),
            records@ == records_of(b, part.take(k - from)),
            forall|i: int| 0 <= i < k - from ==> chunk_valid(b, #[trigger] part[i]),
        decreases to - k,
    {
        assert(part[k - from] == index@[k as int]);
        let mut chunk = match decode_chunk(bytes, &index[k]) {
            Ok(chunk) => chunk,
            Err(e) => {
                return Err(e);
            },
        };
        proof {
            let next = part.take(k - from + 1);
            assert(next.drop_last() =~= part.take(k - from));
            assert(next.last() == index@[k as int]);
        }
        records.append(&mut chunk);
        k = k + 1;
    }
    assert(part.take(to - from) =~= part);
    Ok(records)
}

/// Reads a whole file: its description and its records in stored order. It
/// fails exactly when the file is not well formed.
pub fn decode(bytes: &[u8]) -> (res: Result<(FileMetadata, Vec<Update>), DtfError>)
    ensures
        res is Ok <==> file_valid(bytes@),
        match res {
            Ok((meta, records)) => meta@ == header_meta(bytes@) && records@ == file_records(
                bytes@,
            ),
            Err(e) => e == DtfError::CorruptFormat,
        },
{
    let (meta, index) = match decode_header(bytes) {
        Ok(parts) => parts,
        Err(e) => {
            return Err(e);
        },
    };
    assert(index@.subrange(0, index@.len() as int) =~= index@);
    match decode_chunks(bytes, &index, 0, index.len()) {
        Ok(records) => Ok((meta, records)),
        Err(e) => Err(e),
    }
}

} // verus!
