//! The reader: a file held in memory with its header and index parsed, and
//! its records read chunk by chunk on demand: all at once, by time range, or
//! one by one through a cursor.

use crate::codec::{decode_chunk, decode_chunks, decode_header};
use crate::error::DtfError;
use crate::layout::{
    body_start, chunk_records, chunk_valid, chunks_valid, entry_in_place, file_records,
    file_valid, header_index, header_meta, header_valid, records_of, MAGIC,
};
use crate::range::{
    index_ordered, lemma_file_sound, lemma_records_of_concat, lemma_starts_upto,
    lemma_window_complete, lemma_window_in_index, starts_upto, window, within,
};
use crate::record::{chronological, BatchIndexEntry, FileMetadata, Update};
use crate::wire::{get_u64, u64_at};
use vstd::prelude::*;

verus! {

/// `b` starts with the magic number of DTF files.
pub open spec fn recognized(b: Seq<u8>) -> bool {
    b.len() >= 8 && u64_at(b, 0) == MAGIC
}

/// An open file. Its view is the bytes of the file.
pub struct Reader {
    bytes: Vec<u8>,
    meta: FileMetadata,
    index: Vec<BatchIndexEntry>,
    ordered: bool,
}

impl View for Reader {
    type V = Seq<u8>;

    closed spec fn view(&self) -> Seq<u8> {
        self.bytes@
    }
}

/// A place in the record stream of an open file: the records before it have
/// been given, the one at it comes next. It holds one decoded chunk.
pub struct Cursor {
    next_chunk: usize,
    buffer: Vec<Update>,
    position: usize,
    given: Ghost<int>,
}

impl Cursor {
    /// The number of records given so far.
    pub closed spec fn consumed(&self) -> int {
        self.given@
    }

    /// The cursor walks the file `b`: it holds the last chunk that it read,
    /// every chunk up to that one was well formed, and it has given the
    /// records of those chunks up to its position in the last.
    pub closed spec fn follows(&self, b: Seq<u8>) -> bool {
        let idx = header_index(b);
        &&& self.next_chunk <= idx.len()
        &&& self.position <= self.buffer@.len()
        &&& chunks_valid(b, idx.take(self.next_chunk as int))
        &&& if self.next_chunk == 0 {
            self.buffer@.len() == 0
        } else {
            self.buffer@ == chunk_records(b, idx[self.next_chunk - 1])
        }
        &&& self.given@ == records_of(b, idx.take(self.next_chunk as int)).len() - (
        self.buffer@.len() - self.position)
    }
}

/// Record `p` of chunk `c` stands in the stream after all the records of
/// the chunks before `c` and `p` records of its own.
pub proof fn lemma_record_position(b: Seq<u8>, idx: Seq<BatchIndexEntry>, c: int, p: int)
    requires
        0 <= c < idx.len(),
        0 <= p < chunk_records(b, idx[c]).len(),
    ensures
        records_of(b, idx.take(c + 1)).len() == records_of(b, idx.take(c)).len() + chunk_records(
            b,
            idx[c],
        ).len(),
        records_of(b, idx.take(c)).len() + p < records_of(b, idx).len(),
        records_of(b, idx)[records_of(b, idx.take(c)).len() + p] == chunk_records(b, idx[c])[p],
{
    let upto = idx.take(c + 1);
    assert(upto + idx.skip(c + 1) =~= idx);
    lemma_records_of_concat(b, upto, idx.skip(c + 1));
    assert(upto.drop_last() =~= idx.take(c));
    assert(upto.last() == idx[c]);
}

/// Whether the chunks of `index` start in time order.
fn starts_in_order(index: &Vec<BatchIndexEntry>) -> (ordered: bool)
    ensures
        ordered == index_ordered(index@),
{
    let n = index.len();
    if n == 0 {
        return true;
    }
    let mut k: usize = 1;
    while k < n
        invariant
            1 <= k <= n,
            n == index.len(),
            forall|i: int, j: int|
                0 <= i <= j < k ==> (#[trigger] index@[i]).chunk_start_timestamp <= (
                #[trigger] index@[j]).chunk_start_timestamp,
        decreases n - k,
    {
        if index[k - 1].chunk_start_timestamp > index[k].chunk_start_timestamp {
            return false;
        }
        assert forall|i: int, j: int| 0 <= i <= j < k + 1 implies (
        #[trigger] index@[i]).chunk_start_timestamp <= (
        #[trigger] index@[j]).chunk_start_timestamp by {
            if j == k && i < k {
                assert(index@[i].chunk_start_timestamp <= index@[k - 1].chunk_start_timestamp);
            }
        }
        k = k + 1;
    }
    true
}

/// The number of chunks that start at `t` or before, by binary search.
fn count_upto(index: &Vec<BatchIndexEntry>, t: u64) -> (count: usize)
    requires
        index_ordered(index@),
    ensures
        count == starts_upto(index@, t),
{
    let n = index.len();
    let mut lo: usize = 0;
    let mut hi: usize = n;
    while lo < hi
        invariant
            lo <= hi <= n,
            n == index.len(),
            index_ordered(index@),
            forall|k: int| 0 <= k < lo ==> (#[trigger] index@[k]).chunk_start_timestamp <= t,
            forall|k: int| hi <= k < n ==> (#[trigger] index@[k]).chunk_start_timestamp > t,
        decreases hi - lo,
    {
        let mid = lo + (hi - lo) / 2;
        if index[mid].chunk_start_timestamp <= t {
            assert forall|k: int| 0 <= k < mid + 1 implies (
            #[trigger] index@[k]).chunk_start_timestamp <= t by {
                assert(index@[k].chunk_start_timestamp <= index@[mid as int].chunk_start_timestamp);
            }
            lo = mid + 1;
        } else {
            assert forall|k: int| mid <= k < n implies (
            #[trigger] index@[k]).chunk_start_timestamp > t by {
                assert(index@[mid as int].chunk_start_timestamp <= index@[k].chunk_start_timestamp);
            }
            hi = mid;
        }
    }
    proof {
        lemma_starts_upto(index@, t);
        let c = starts_upto(index@, t);
        if lo < c {
            assert(index@[lo as int].chunk_start_timestamp <= t);
        }
        if c < lo {
            assert(index@[c].chunk_start_timestamp <= t);
        }
    }
    lo
}

impl Reader {
    #[verifier::type_invariant]
    spec fn well_formed(self) -> bool {
        &&& header_valid(self.bytes@)
        &&& self.meta@ == header_meta(self.bytes@)
        &&& self.index@ == header_index(self.bytes@)
        &&& self.ordered == index_ordered(self.index@)
    }

    /// Opens a file from its bytes: parses header and index, and reads no
    /// record. It fails with `NotFound` where the bytes are not a DTF file
    /// at all, and with `CorruptFormat` where they are one whose header or
    /// index is not well formed.
    pub fn open(bytes: Vec<u8>) -> (res: Result<Reader, DtfError>)
        ensures
            res is Ok <==> header_valid(bytes@),
            match res {
                Ok(reader) => reader@ == bytes@,
                Err(e) => if recognized(bytes@) {
                    e == DtfError::CorruptFormat
                } else {
                    e == DtfError::NotFound
                },
            },
    {
        if bytes.len() < 8 {
            return Err(DtfError::NotFound);
        }
        if get_u64(bytes.as_slice(), 0) != MAGIC {
            return Err(DtfError::NotFound);
        }
        let (meta, index) = match decode_header(bytes.as_slice()) {
            Ok(parts) => parts,
            Err(e) => {
                return Err(e);
            },
        };
        let ordered = starts_in_order(&index);
        Ok(Reader { bytes, meta, index, ordered })
    }

    /// What the file says of itself.
    pub fn metadata(&self) -> (meta: &FileMetadata)
        ensures
            meta@ == header_meta(self@),
            header_valid(self@),
    {
        proof {
            use_type_invariant(self);
        }
        &self.meta
    }

    /// The chunk index of the file.
    pub fn index(&self) -> (index: &Vec<BatchIndexEntry>)
        ensures
            index@ == header_index(self@),
            header_valid(self@),
    {
        proof {
            use_type_invariant(self);
        }
        &self.index
    }

    /// The records of chunk `k` alone; nothing where the file has no chunk `k`.
    pub fn read_chunk(&self, k: usize) -> (res: Option<Result<Vec<Update>, DtfError>>)
        ensures
            res is Some <==> k < header_index(self@).len(),
            match res {
                Some(Ok(records)) => chunk_valid(self@, header_index(self@)[k as int]) && records@
                    == chunk_records(self@, header_index(self@)[k as int]),
                Some(Err(e)) => !chunk_valid(self@, header_index(self@)[k as int]) && e
                    == DtfError::CorruptFormat,
                None => true,
            },
    {
        proof {
            use_type_invariant(self);
        }
        if k >= self.index.len() {
            return None;
        }
        Some(decode_chunk(self.bytes.as_slice(), &self.index[k]))
    }

    /// The first record of the file. It fails with `EmptyInput` on a file
    /// without records, and with `CorruptFormat` where the first chunk is
    /// not well formed.
    pub fn first_record(&self) -> (res: Result<Update, DtfError>)
        ensures
            match res {
                Ok(u) => header_index(self@).len() > 0 && chunk_valid(
                    self@,
                    header_index(self@)[0],
                ) && u == chunk_records(self@, header_index(self@)[0])[0],
                Err(e) => if header_index(self@).len() == 0 {
                    e == DtfError::EmptyInput
                } else {
                    e == DtfError::CorruptFormat && !chunk_valid(self@, header_index(self@)[0])
                },
            },
    {
        proof {
            use_type_invariant(self);
        }
        if self.index.len() == 0 {
            return Err(DtfError::EmptyInput);
        }
        assert(entry_in_place(body_start(self@), header_index(self@), 0));
        match decode_chunk(self.bytes.as_slice(), &self.index[0]) {
            Ok(records) => Ok(records[0]),
            Err(e) => Err(e),
        }
    }

    /// A cursor before the first record. Every call gives a fresh one, so a
    /// stream can be walked again from its start.
    pub fn cursor(&self) -> (cursor: Cursor)
        ensures
            cursor.follows(self@),
            cursor.consumed() == 0,
    {
        let ghost idx = header_index(self@);
        assert(idx.take(0) =~= Seq::<BatchIndexEntry>::empty());
        Cursor { next_chunk: 0, buffer: Vec::new(), position: 0, given: Ghost(0) }
    }

    /// The next record of the stream, or nothing at its end. A chunk is
    /// read when its first record is asked for, and no earlier. The call
    /// fails, and leaves the cursor where it was, exactly where the next
    /// record is the first of a chunk that is not well formed.
    pub fn next(&self, cursor: &mut Cursor) -> (res: Result<Option<Update>, DtfError>)
        requires
            old(cursor).follows(self@),
        ensures
            final(cursor).follows(self@),
            match res {
                Ok(Some(u)) => {
                    &&& 0 <= old(cursor).consumed() < file_records(self@).len()
                    &&& u == file_records(self@)[old(cursor).consumed()]
                    &&& final(cursor).consumed() == old(cursor).consumed() + 1
                },
                Ok(None) => {
                    &&& file_valid(self@)
                    &&& old(cursor).consumed() == file_records(self@).len()
                    &&& final(cursor).consumed() == old(cursor).consumed()
                },
                Err(e) => {
                    &&& e == DtfError::CorruptFormat
                    &&& !file_valid(self@)
                    &&& final(cursor).consumed() == old(cursor).consumed()
                    &&& exists|c: int|
                        0 <= c < header_index(self@).len() && !chunk_valid(
                            self@,
                            #[trigger] header_index(self@)[c],
                        ) && chunks_valid(self@, header_index(self@).take(c)) && old(
                            cursor,
                        ).consumed() == records_of(self@, header_index(self@).take(c)).len()
                },
            },
    {
        proof {
            use_type_invariant(self);
        }
        let ghost b = self@;
        let ghost idx = header_index(b);
        if cursor.position < cursor.buffer.len() {
            let u = cursor.buffer[cursor.position];
            proof {
                lemma_record_position(b, idx, cursor.next_chunk - 1, cursor.position as int);
            }
            cursor.position = cursor.position + 1;
            cursor.given = Ghost(cursor.given@ + 1);
            return Ok(Some(u));
        }
        if cursor.next_chunk >= self.index.len() {
            assert(idx.take(cursor.next_chunk as int) =~= idx);
            return Ok(None);
        }
        let k = cursor.next_chunk;
        assert(entry_in_place(body_start(b), idx, k as int));
        let chunk = match decode_chunk(self.bytes.as_slice(), &self.index[k]) {
            Ok(chunk) => chunk,
            Err(e) => {
                assert(!chunk_valid(b, idx[k as int]));
                return Err(e);
            },
        };
        proof {
            lemma_record_position(b, idx, k as int, 0);
            assert forall|i: int| 0 <= i < idx.take(k + 1).len() implies chunk_valid(
                b,
                #[trigger] idx.take(k + 1)[i],
            ) by {
                if i < k {
                    assert(idx.take(k as int)[i] == idx.take(k + 1)[i]);
                }
            }
        }
        let u = chunk[0];
        cursor.buffer = chunk;
        cursor.position = 1;
        cursor.next_chunk = k + 1;
        cursor.given = Ghost(cursor.given@ + 1);
        Ok(Some(u))
    }

    /// All the records of the file in stored order. It fails exactly when a
    /// chunk is not well formed.
    pub fn iter_all(&self) -> (res: Result<Vec<Update>, DtfError>)
        ensures
            res is Ok <==> file_valid(self@),
            match res {
                Ok(records) => records@ == file_records(self@),
                Err(e) => e == DtfError::CorruptFormat,
            },
    {
        proof {
            use_type_invariant(self);
            assert(self.index@.subrange(0, self.index@.len() as int) =~= self.index@);
        }
        decode_chunks(self.bytes.as_slice(), &self.index, 0, self.index.len())
    }

    /// All the records of the file where it holds `symbol`; none where it
    /// holds another symbol.
    pub fn iter_filtered(&self, symbol: &str) -> (res: Result<Vec<Update>, DtfError>)
        ensures
            match res {
                Ok(records) => if symbol@ == header_meta(self@).symbol {
                    file_valid(self@) && records@ == file_records(self@)
                } else {
                    records@ == Seq::<Update>::empty()
                },
                Err(e) => symbol@ == header_meta(self@).symbol && !file_valid(self@) && e
                    == DtfError::CorruptFormat,
            },
    {
        proof {
            use_type_invariant(self);
        }
        let wanted = symbol.to_owned();
        if wanted == self.meta.symbol {
            self.iter_all()
        } else {
            Ok(Vec::new())
        }
    }

    /// The positions in the index of the chunks that a query for
    /// `[min_ts, max_ts]` reads.
    fn chunk_window(&self, min_ts: u64, max_ts: u64) -> (w: (usize, usize))
        ensures
            w.0 == window(header_index(self@), min_ts, max_ts).0,
            w.1 == window(header_index(self@), min_ts, max_ts).1,
            w.0 <= w.1 <= header_index(self@).len(),
    {
        proof {
            use_type_invariant(self);
            lemma_window_in_index(self.index@, min_ts, max_ts);
        }
        if min_ts > max_ts {
            (0, 0)
        } else if !self.ordered {
            (0, self.index.len())
        } else {
            let to = count_upto(&self.index, max_ts);
            if min_ts == 0 {
                (0, to)
            } else {
                let before = count_upto(&self.index, min_ts - 1);
                if before == 0 {
                    (0, to)
                } else {
                    (before - 1, to)
                }
            }
        }
    }

    /// The records with a timestamp in `[min_ts, max_ts]`, in stored order,
    /// read from the chunks that the index picks for that range. An empty
    /// range gives no records and is no error.
    ///
    /// On a well-formed file in time order the result is exactly the records
    /// of the whole file that lie in the range.
    pub fn iter_range(&self, min_ts: u64, max_ts: u64) -> (res: Result<Vec<Update>, DtfError>)
        ensures
            res is Ok <==> chunks_valid(
                self@,
                header_index(self@).subrange(
                    window(header_index(self@), min_ts, max_ts).0,
                    window(header_index(self@), min_ts, max_ts).1,
                ),
            ),
            match res {
                Ok(records) => records@ == within(
                    records_of(
                        self@,
                        header_index(self@).subrange(
                            window(header_index(self@), min_ts, max_ts).0,
                            window(header_index(self@), min_ts, max_ts).1,
                        ),
                    ),
                    min_ts,
                    max_ts,
                ),
                Err(e) => e == DtfError::CorruptFormat,
            },
            file_valid(self@) && chronological(file_records(self@)) ==> (res matches Ok(records)
                && records@ == within(file_records(self@), min_ts, max_ts)),
    {
        proof {
            use_type_invariant(self);
            if file_valid(self@) && chronological(file_records(self@)) {
                lemma_file_sound(self@);
                lemma_window_complete(self@, header_index(self@), min_ts, max_ts);
            }
        }
        let (from, to) = self.chunk_window(min_ts, max_ts);
        let read = match decode_chunks(self.bytes.as_slice(), &self.index, from, to) {
            Ok(read) => read,
            Err(e) => {
                return Err(e);
            },
        };
        let n = read.len();
        let mut records: Vec<Update> = Vec::new();
        let mut i: usize = 0;
        assert(read@.take(0) =~= Seq::<Update>::empty());
        while i < n
            invariant
                i <= n,
                n == read.len(),
                records@ == within(read@.take(i as int), min_ts, max_ts),
            decreases n - i,
        {
            let u = read[i];
            proof {
                let next = read@.take(i + 1);
                assert(next.drop_last() =~= read@.take(i as int));
                assert(next.last() == u);
            }
            if min_ts <= u.timestamp && u.timestamp <= max_ts {
                records.push(u);
            }
            i = i + 1;
        }
        assert(read@.take(n as int) =~= read@);
        Ok(records)
    }
}

/// A range query on a well-formed file in time order gives exactly the
/// records of the whole file whose timestamp lies in the range, in the same
/// order.
pub proof fn lemma_range_is_filter(b: Seq<u8>, min_ts: u64, max_ts: u64)
    requires
        file_valid(b),
        chronological(file_records(b)),
    ensures
        chunks_valid(
            b,
            header_index(b).subrange(
                window(header_index(b), min_ts, max_ts).0,
                window(header_index(b), min_ts, max_ts).1,
            ),
        ),
        within(
            records_of(
                b,
                header_index(b).subrange(
                    window(header_index(b), min_ts, max_ts).0,
                    window(header_index(b), min_ts, max_ts).1,
                ),
            ),
            min_ts,
            max_ts,
        ) == within(file_records(b), min_ts, max_ts),
{
    lemma_file_sound(b);
    lemma_window_complete(b, header_index(b), min_ts, max_ts);
}

} // verus!
