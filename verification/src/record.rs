//! The record model: one market update, the description of a file, one entry
//! of the chunk index, one candle.

use vstd::prelude::*;

verus! {

/// One market event.
#[derive(Clone, Copy, Debug, PartialEq, Eq, Structural)]
pub struct Update {
    /// Milliseconds since the epoch.
    pub timestamp: u64,
    /// Counter assigned at ingestion.
    pub sequence: u64,
    /// A trade, as opposed to a change of the order book.
    pub is_trade: bool,
    /// The side of the book; it matters for quotes only.
    pub is_bid: bool,
    /// Price as a scaled integer.
    pub price: u64,
    /// Quantity as a scaled integer.
    pub size: u64,
}

/// What a file says of itself.
#[derive(Clone, Debug, PartialEq, Eq)]
pub struct FileMetadata {
    pub symbol: String,
    pub record_count: u64,
    pub min_timestamp: u64,
    pub max_timestamp: u64,
    pub format_version: u64,
}

/// The mathematical content of a [`FileMetadata`].
pub struct MetadataView {
    pub symbol: Seq<char>,
    pub record_count: u64,
    pub min_timestamp: u64,
    pub max_timestamp: u64,
    pub format_version: u64,
}

impl View for FileMetadata {
    type V = MetadataView;

    open spec fn view(&self) -> MetadataView {
        MetadataView {
            symbol: self.symbol@,
            record_count: self.record_count,
            min_timestamp: self.min_timestamp,
            max_timestamp: self.max_timestamp,
            format_version: self.format_version,
        }
    }
}

/// Where one chunk of records lies in a file.
#[derive(Clone, Copy, Debug, PartialEq, Eq, Structural)]
pub struct BatchIndexEntry {
    /// Timestamp of the chunk's first record.
    pub chunk_start_timestamp: u64,
    /// Offset of the chunk from the start of the file.
    pub byte_offset: u64,
    pub record_count_in_chunk: u64,
}

/// Open, high, low, close and volume over one time bucket.
#[derive(Clone, Copy, Debug, PartialEq, Eq, Structural)]
pub struct Candle {
    pub bucket_start_timestamp: u64,
    pub open: u64,
    pub high: u64,
    pub low: u64,
    pub close: u64,
    pub volume: u128,
    pub trade_count: u64,
}

/// The smaller of two timestamps.
pub open spec fn earlier(s: u64, t: u64) -> u64 {
    if s <= t {
        s
    } else {
        t
    }
}

/// The larger of two timestamps.
pub open spec fn later(s: u64, t: u64) -> u64 {
    if s >= t {
        s
    } else {
        t
    }
}

/// Timestamps never decrease along `rs`.
pub open spec fn chronological(rs: Seq<Update>) -> bool {
    forall|i: int, j: int| 0 <= i <= j < rs.len() ==> rs[i].timestamp <= rs[j].timestamp
}

/// The smallest timestamp in `rs`; 0 for no records.
pub open spec fn min_timestamp(rs: Seq<Update>) -> u64
    decreases rs.len(),
{
    if rs.len() == 0 {
        0
    } else if rs.len() == 1 {
        rs[0].timestamp
    } else {
        let rest = min_timestamp(rs.drop_last());
        if rs.last().timestamp < rest {
            rs.last().timestamp
        } else {
            rest
        }
    }
}

/// The largest timestamp in `rs`; 0 for no records.
pub open spec fn max_timestamp(rs: Seq<Update>) -> u64
    decreases rs.len(),
{
    if rs.len() == 0 {
        0
    } else if rs.len() == 1 {
        rs[0].timestamp
    } else {
        let rest = max_timestamp(rs.drop_last());
        if rs.last().timestamp > rest {
            rs.last().timestamp
        } else {
            rest
        }
    }
}

/// The two bounds are exact: every record lies between them and each is the
/// timestamp of some record.
pub proof fn lemma_bounds_exact(rs: Seq<Update>)
    requires
        rs.len() > 0,
    ensures
        forall|i: int|
            0 <= i < rs.len() ==> min_timestamp(rs) <= (#[trigger] rs[i]).timestamp
                <= max_timestamp(rs),
        exists|i: int| 0 <= i < rs.len() && min_timestamp(rs) == rs[i].timestamp,
        exists|i: int| 0 <= i < rs.len() && max_timestamp(rs) == rs[i].timestamp,
        min_timestamp(rs) <= max_timestamp(rs),
    decreases rs.len(),
{
    if rs.len() == 1 {
        assert(min_timestamp(rs) == rs[0].timestamp);
        assert(max_timestamp(rs) == rs[0].timestamp);
    } else {
        let front = rs.drop_last();
        lemma_bounds_exact(front);
        let lo = choose|i: int| 0 <= i < front.len() && min_timestamp(front) == front[i].timestamp;
        let hi = choose|i: int| 0 <= i < front.len() && max_timestamp(front) == front[i].timestamp;
        let last = rs.len() - 1;
        assert(front[lo] == rs[lo] && front[hi] == rs[hi]);
        assert forall|i: int| 0 <= i < rs.len() implies min_timestamp(rs) <= (
        #[trigger] rs[i]).timestamp <= max_timestamp(rs) by {
            if i < last {
                assert(front[i] == rs[i]);
            }
        }
        if rs.last().timestamp < min_timestamp(front) {
            assert(min_timestamp(rs) == rs[last].timestamp);
        } else {
            assert(min_timestamp(rs) == rs[lo].timestamp);
        }
        if rs.last().timestamp > max_timestamp(front) {
            assert(max_timestamp(rs) == rs[last].timestamp);
        } else {
            assert(max_timestamp(rs) == rs[hi].timestamp);
        }
    }
}

/// Bounds that every record respects and that some record attains are the
/// smallest and the largest timestamp.
pub proof fn lemma_bounds_unique(rs: Seq<Update>, lo: u64, hi: u64)
    requires
        forall|i: int| 0 <= i < rs.len() ==> lo <= (#[trigger] rs[i]).timestamp <= hi,
        exists|i: int| 0 <= i < rs.len() && (#[trigger] rs[i]).timestamp == lo,
        exists|i: int| 0 <= i < rs.len() && (#[trigger] rs[i]).timestamp == hi,
    ensures
        min_timestamp(rs) == lo,
        max_timestamp(rs) == hi,
{
    lemma_bounds_exact(rs);
    let at_lo = choose|i: int| 0 <= i < rs.len() && (#[trigger] rs[i]).timestamp == lo;
    let at_hi = choose|i: int| 0 <= i < rs.len() && (#[trigger] rs[i]).timestamp == hi;
    let at_min = choose|i: int| 0 <= i < rs.len() && min_timestamp(rs) == rs[i].timestamp;
    let at_max = choose|i: int| 0 <= i < rs.len() && max_timestamp(rs) == rs[i].timestamp;
    assert(min_timestamp(rs) <= rs[at_lo].timestamp);
    assert(lo <= rs[at_min].timestamp);
    assert(rs[at_hi].timestamp <= max_timestamp(rs));
    assert(rs[at_max].timestamp <= hi);
}

/// Streams that hold the same records equally often are equally long and
/// have the same bounds.
pub proof fn lemma_same_records_same_bounds(a: Seq<Update>, b: Seq<Update>)
    requires
        a.to_multiset() == b.to_multiset(),
    ensures
        a.len() == b.len(),
        min_timestamp(a) == min_timestamp(b),
        max_timestamp(a) == max_timestamp(b),
{
    a.to_multiset_ensures();
    b.to_multiset_ensures();
    if a.len() > 0 {
        lemma_bounds_exact(a);
        lemma_bounds_exact(b);
        let lo = choose|i: int| 0 <= i < a.len() && min_timestamp(a) == a[i].timestamp;
        let hi = choose|i: int| 0 <= i < a.len() && max_timestamp(a) == a[i].timestamp;
        assert(a.contains(a[lo]) && a.contains(a[hi]));
        assert(a.to_multiset().count(a[lo]) > 0 && a.to_multiset().count(a[hi]) > 0);
        assert(b.to_multiset().count(a[lo]) > 0 && b.to_multiset().count(a[hi]) > 0);
        assert(b.contains(a[lo]) && b.contains(a[hi]));
        let lo_b = choose|j: int| 0 <= j < b.len() && b[j] == a[lo];
        let hi_b = choose|j: int| 0 <= j < b.len() && b[j] == a[hi];
        assert forall|j: int| 0 <= j < b.len() implies min_timestamp(a) <= (
        #[trigger] b[j]).timestamp <= max_timestamp(a) by {
            assert(b.contains(b[j]));
            assert(b.to_multiset().count(b[j]) > 0);
            assert(a.to_multiset().count(b[j]) > 0);
            assert(a.contains(b[j]));
            let i = choose|i: int| 0 <= i < a.len() && a[i] == b[j];
            assert(min_timestamp(a) <= a[i].timestamp <= max_timestamp(a));
        }
        assert(b[lo_b].timestamp == min_timestamp(a));
        assert(b[hi_b].timestamp == max_timestamp(a));
        lemma_bounds_unique(b, min_timestamp(a), max_timestamp(a));
    }
}

/// The bounds of one stream followed by another are the bounds of both.
pub proof fn lemma_concat_bounds(a: Seq<Update>, b: Seq<Update>)
    requires
        a.len() > 0,
        b.len() > 0,
    ensures
        min_timestamp(a + b) == earlier(min_timestamp(a), min_timestamp(b)),
        max_timestamp(a + b) == later(max_timestamp(a), max_timestamp(b)),
{
    let all = a + b;
    let lo = earlier(min_timestamp(a), min_timestamp(b));
    let hi = later(max_timestamp(a), max_timestamp(b));
    lemma_bounds_exact(a);
    lemma_bounds_exact(b);
    assert forall|i: int| 0 <= i < all.len() implies lo <= (#[trigger] all[i]).timestamp <= hi by {
        if i < a.len() {
            assert(all[i] == a[i]);
        } else {
            assert(all[i] == b[i - a.len()]);
        }
    }
    let lo_a = choose|i: int| 0 <= i < a.len() && min_timestamp(a) == a[i].timestamp;
    let hi_a = choose|i: int| 0 <= i < a.len() && max_timestamp(a) == a[i].timestamp;
    let lo_b = choose|i: int| 0 <= i < b.len() && min_timestamp(b) == b[i].timestamp;
    let hi_b = choose|i: int| 0 <= i < b.len() && max_timestamp(b) == b[i].timestamp;
    assert(all[lo_a] == a[lo_a] && all[hi_a] == a[hi_a]);
    assert(all[a.len() + lo_b] == b[lo_b] && all[a.len() + hi_b] == b[hi_b]);
    lemma_bounds_unique(all, lo, hi);
}

impl FileMetadata {
    /// The description of a file of version `version` that holds `rs`
    /// under `symbol`.
    pub open spec fn describing(symbol: Seq<char>, version: u64, rs: Seq<Update>) -> MetadataView {
        MetadataView {
            symbol,
            record_count: rs.len() as u64,
            min_timestamp: min_timestamp(rs),
            max_timestamp: max_timestamp(rs),
            format_version: version,
        }
    }
}

} // verus!
