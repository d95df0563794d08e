//! Aggregation of a record stream into candles over fixed time buckets.
//!
//! Buckets are half-open windows of equal width that start at the grid's
//! origin: the epoch for an aligned grid, the first record's timestamp
//! otherwise. The aggregator holds one open bucket. A record of a later
//! bucket closes it; a record of an earlier bucket comes too late, is
//! dropped and is counted. Prices come from trades alone, and a bucket
//! without a trade gives no candle.

use crate::record::{Candle, Update};
use vstd::arithmetic::div_mod::{lemma_mod_decreases, lemma_mod_pos_bound, lemma_small_mod};
use vstd::prelude::*;

verus! {

/// Milliseconds in a minute.
pub const MINUTE_MS: u64 = 60_000;

/// The candles of a stream and the number of records that came too late.
#[derive(Clone, Debug, PartialEq, Eq)]
pub struct Aggregation {
    pub candles: Vec<Candle>,
    pub late_arrivals: usize,
}

/// The buckets of an aggregation and what counts toward volume.
pub struct Grid {
    /// Where the first bucket starts.
    pub origin: u64,
    /// Width of a bucket in milliseconds.
    pub width: nat,
    /// Whether volume counts trades only.
    pub trades_only: bool,
}

/// The grid of an aggregation of `rs`.
pub open spec fn grid_for(
    rs: Seq<Update>,
    granularity_minutes: u64,
    aligned: bool,
    trades_only: bool,
) -> Grid {
    Grid {
        origin: if aligned || rs.len() == 0 {
            0
        } else {
            rs[0].timestamp
        },
        width: (granularity_minutes * 60_000) as nat,
        trades_only,
    }
}

/// The start of the bucket that holds `ts`; -1 for a timestamp before the
/// first bucket.
pub open spec fn bucket_of(g: Grid, ts: u64) -> int {
    if ts < g.origin {
        -1
    } else {
        ts - (ts - g.origin) % (g.width as int)
    }
}

/// The start of the bucket of record `i`.
pub open spec fn bucket_at(rs: Seq<Update>, g: Grid, i: int) -> int {
    bucket_of(g, rs[i].timestamp)
}

/// Record `i` is in time: no record before it belongs to a later bucket.
pub open spec fn on_time(rs: Seq<Update>, g: Grid, i: int) -> bool {
    forall|j: int| 0 <= j < i ==> #[trigger] bucket_at(rs, g, j) <= bucket_at(rs, g, i)
}

/// Record `i` is in time and belongs to the bucket that starts at `start`.
pub open spec fn contributes(rs: Seq<Update>, g: Grid, i: int, start: int) -> bool {
    on_time(rs, g, i) && bucket_at(rs, g, i) == start
}

/// What `u` adds to the volume of its bucket.
pub open spec fn counted_size(trades_only: bool, u: Update) -> int {
    if u.is_trade || !trades_only {
        u.size as int
    } else {
        0
    }
}

/// The sum of the sizes that the first `n` records add to the bucket at `start`.
pub open spec fn volume_of(rs: Seq<Update>, g: Grid, n: int, start: int) -> int
    decreases n,
{
    if n <= 0 {
        0
    } else {
        volume_of(rs, g, n - 1, start) + if contributes(rs, g, n - 1, start) {
            counted_size(g.trades_only, rs[n - 1])
        } else {
            0
        }
    }
}

/// The number of trades among the first `n` records that belong to the
/// bucket at `start`.
pub open spec fn trades_of(rs: Seq<Update>, g: Grid, n: int, start: int) -> int
    decreases n,
{
    if n <= 0 {
        0
    } else {
        trades_of(rs, g, n - 1, start) + if contributes(rs, g, n - 1, start) && rs[n
            - 1].is_trade {
            1int
        } else {
            0int
        }
    }
}

/// The number of records among the first `n` that came too late.
pub open spec fn late_of(rs: Seq<Update>, g: Grid, n: int) -> int
    decreases n,
{
    if n <= 0 {
        0
    } else {
        late_of(rs, g, n - 1) + if on_time(rs, g, n - 1) {
            0int
        } else {
            1int
        }
    }
}

/// The bucket at `start` after its first record `u`.
pub open spec fn fresh(trades_only: bool, start: int, u: Update) -> Candle {
    if u.is_trade {
        Candle {
            bucket_start_timestamp: start as u64,
            open: u.price,
            high: u.price,
            low: u.price,
            close: u.price,
            volume: u.size as u128,
            trade_count: 1,
        }
    } else {
        Candle {
            bucket_start_timestamp: start as u64,
            open: 0,
            high: 0,
            low: 0,
            close: 0,
            volume: counted_size(trades_only, u) as u128,
            trade_count: 0,
        }
    }
}

/// The bucket `o` after one more record `u`.
pub open spec fn absorb(trades_only: bool, o: Candle, u: Update) -> Candle {
    if !u.is_trade {
        Candle {
            bucket_start_timestamp: o.bucket_start_timestamp,
            open: o.open,
            high: o.high,
            low: o.low,
            close: o.close,
            volume: (o.volume + counted_size(trades_only, u)) as u128,
            trade_count: o.trade_count,
        }
    } else if o.trade_count == 0 {
        Candle {
            bucket_start_timestamp: o.bucket_start_timestamp,
            open: u.price,
            high: u.price,
            low: u.price,
            close: u.price,
            volume: (o.volume + u.size) as u128,
            trade_count: 1,
        }
    } else {
        Candle {
            bucket_start_timestamp: o.bucket_start_timestamp,
            open: o.open,
            high: if u.price > o.high {
                u.price
            } else {
                o.high
            },
            low: if u.price < o.low {
                u.price
            } else {
                o.low
            },
            close: u.price,
            volume: (o.volume + u.size) as u128,
            trade_count: (o.trade_count + 1) as u64,
        }
    }
}

/// The state of an aggregation: the candles emitted, the open bucket, and
/// the number of late records.
pub struct Tally {
    pub closed: Seq<Candle>,
    pub open: Option<Candle>,
    pub late: int,
}

/// The candle of a bucket that closes: none where it saw no trade.
pub open spec fn emitted(open: Option<Candle>) -> Seq<Candle> {
    match open {
        Some(o) => if o.trade_count > 0 {
            seq![o]
        } else {
            Seq::empty()
        },
        None => Seq::empty(),
    }
}

/// The state after one more record.
pub open spec fn step(g: Grid, t: Tally, u: Update) -> Tally {
    let b = bucket_of(g, u.timestamp);
    match t.open {
        None => Tally { closed: t.closed, open: Some(fresh(g.trades_only, b, u)), late: t.late },
        Some(o) => if b < o.bucket_start_timestamp {
            Tally { closed: t.closed, open: t.open, late: t.late + 1 }
        } else if b == o.bucket_start_timestamp {
            Tally { closed: t.closed, open: Some(absorb(g.trades_only, o, u)), late: t.late }
        } else {
            Tally {
                closed: t.closed + emitted(t.open),
                open: Some(fresh(g.trades_only, b, u)),
                late: t.late,
            }
        },
    }
}

/// The state after the first `n` records.
pub open spec fn tally(rs: Seq<Update>, g: Grid, n: int) -> Tally
    decreases n,
{
    if n <= 0 {
        Tally { closed: Seq::empty(), open: None, late: 0 }
    } else {
        step(g, tally(rs, g, n - 1), rs[n - 1])
    }
}

/// The candles of `rs` on the grid `g`.
pub open spec fn candles_of(rs: Seq<Update>, g: Grid) -> Seq<Candle> {
    tally(rs, g, rs.len() as int).closed + emitted(tally(rs, g, rs.len() as int).open)
}

/// A candle saw a trade, and its low and high enclose its open and close.
pub open spec fn well_shaped(c: Candle) -> bool {
    &&& c.trade_count >= 1
    &&& c.low <= c.open <= c.high
    &&& c.low <= c.close <= c.high
}

/// The volume of `c` is the sum of the sizes, and its trade count the
/// number of trades, that the first `n` records add to its bucket.
pub open spec fn accounts_for(rs: Seq<Update>, g: Grid, n: int, c: Candle) -> bool {
    &&& c.volume == volume_of(rs, g, n, c.bucket_start_timestamp as int)
    &&& c.trade_count == trades_of(rs, g, n, c.bucket_start_timestamp as int)
}

/// The bucket starts of `cs` increase strictly.
pub open spec fn increasing(cs: Seq<Candle>) -> bool {
    forall|i: int, j: int|
        0 <= i < j < cs.len() ==> (#[trigger] cs[i]).bucket_start_timestamp < (
        #[trigger] cs[j]).bucket_start_timestamp
}

/// What holds of the state after the first `n` records.
pub open spec fn tally_sound(rs: Seq<Update>, g: Grid, n: int) -> bool {
    let t = tally(rs, g, n);
    &&& t.late == late_of(rs, g, n)
    &&& n >= 1 ==> t.open is Some
    &&& t.open is None ==> t.closed.len() == 0
    &&& t.open matches Some(o) ==> {
        &&& forall|j: int| 0 <= j < n ==> #[trigger] bucket_at(rs, g, j) <= o.bucket_start_timestamp
        &&& exists|j: int| 0 <= j < n && #[trigger] bucket_at(rs, g, j) == o.bucket_start_timestamp
        &&& accounts_for(rs, g, n, o)
        &&& o.trade_count >= 1 ==> well_shaped(o)
        &&& forall|k: int|
            0 <= k < t.closed.len() ==> (#[trigger] t.closed[k]).bucket_start_timestamp
                < o.bucket_start_timestamp
    }
    &&& forall|k: int|
        0 <= k < t.closed.len() ==> well_shaped(#[trigger] t.closed[k]) && accounts_for(
            rs,
            g,
            n,
            t.closed[k],
        )
    &&& increasing(t.closed)
}

/// A timestamp on the grid lies in a bucket that starts no later than it
/// and no earlier than the grid.
pub proof fn lemma_bucket_range(g: Grid, ts: u64)
    requires
        g.width > 0,
    ensures
        ts >= g.origin ==> g.origin <= bucket_of(g, ts) <= ts,
        ts < g.origin ==> bucket_of(g, ts) == -1,
{
    if ts >= g.origin {
        lemma_mod_pos_bound(ts - g.origin, g.width as int);
        lemma_mod_decreases((ts - g.origin) as nat, g.width as nat);
    }
}

/// No bucket can hold more than every record at the largest size.
pub proof fn lemma_totals_bounded(rs: Seq<Update>, g: Grid, n: int, start: int)
    requires
        0 <= n,
    ensures
        0 <= volume_of(rs, g, n, start) <= n * 0xFFFF_FFFF_FFFF_FFFF,
        0 <= trades_of(rs, g, n, start) <= n,
        0 <= late_of(rs, g, n) <= n,
    decreases n,
{
    if n > 0 {
        lemma_totals_bounded(rs, g, n - 1, start);
    }
}

/// A bucket later than every record so far holds nothing yet.
pub proof fn lemma_nothing_yet(rs: Seq<Update>, g: Grid, n: int, start: int)
    requires
        forall|j: int| 0 <= j < n ==> #[trigger] bucket_at(rs, g, j) < start,
    ensures
        volume_of(rs, g, n, start) == 0,
        trades_of(rs, g, n, start) == 0,
    decreases n,
{
    if n > 0 {
        lemma_nothing_yet(rs, g, n - 1, start);
        assert(bucket_at(rs, g, n - 1) < start);
    }
}

/// The state of an aggregation is sound after any number of records.
pub proof fn lemma_tally_sound(rs: Seq<Update>, g: Grid, n: int)
    requires
        0 <= n <= rs.len() <= u64::MAX,
        g.width > 0,
        rs.len() > 0 ==> g.origin <= rs[0].timestamp,
    ensures
        tally_sound(rs, g, n),
    decreases n,
{
    if n > 0 {
        lemma_tally_sound(rs, g, n - 1);
        let p = tally(rs, g, n - 1);
        let t = tally(rs, g, n);
        let u = rs[n - 1];
        let b = bucket_at(rs, g, n - 1);
        lemma_bucket_range(g, u.timestamp);
        match p.open {
            None => {
                assert(n == 1);
                assert(on_time(rs, g, 0));
                lemma_nothing_yet(rs, g, 0, b);
                assert(bucket_at(rs, g, 0) == b);
                assert(tally_sound(rs, g, n));
            },
            Some(o) => {
                let s = o.bucket_start_timestamp as int;
                lemma_totals_bounded(rs, g, n - 1, s);
                if b < s {
                    let w = choose|j: int| 0 <= j < n - 1 && #[trigger] bucket_at(rs, g, j) == s;
                    assert(bucket_at(rs, g, w) > bucket_at(rs, g, n - 1));
                    assert(!on_time(rs, g, n - 1));
                    assert(bucket_at(rs, g, w) == s);
                    assert(tally_sound(rs, g, n));
                } else if b == s {
                    assert(on_time(rs, g, n - 1));
                    assert(bucket_at(rs, g, n - 1) == s);
                    assert forall|k: int| 0 <= k < t.closed.len() implies well_shaped(
                        #[trigger] t.closed[k],
                    ) && accounts_for(rs, g, n, t.closed[k]) by {
                        assert(p.closed[k].bucket_start_timestamp < s);
                    }
                    assert(tally_sound(rs, g, n));
                } else {
                    assert(on_time(rs, g, n - 1));
                    lemma_nothing_yet(rs, g, n - 1, b);
                    assert(bucket_at(rs, g, n - 1) == b);
                    let f = fresh(g.trades_only, b, u);
                    assert(f.bucket_start_timestamp == b);
                    assert(accounts_for(rs, g, n, f));
                    assert forall|k: int| 0 <= k < t.closed.len() implies well_shaped(
                        #[trigger] t.closed[k],
                    ) && accounts_for(rs, g, n, t.closed[k]) && t.closed[k].bucket_start_timestamp
                        < b by {
                        if k < p.closed.len() {
                            assert(t.closed[k] == p.closed[k]);
                            assert(p.closed[k].bucket_start_timestamp < s);
                        } else {
                            assert(t.closed[k] == o);
                        }
                    }
                    assert forall|i: int, j: int| 0 <= i < j < t.closed.len() implies (
                    #[trigger] t.closed[i]).bucket_start_timestamp < (
                    #[trigger] t.closed[j]).bucket_start_timestamp by {
                        if j < p.closed.len() {
                            assert(t.closed[i] == p.closed[i] && t.closed[j] == p.closed[j]);
                        } else {
                            assert(t.closed[j] == o);
                            assert(t.closed[i] == p.closed[i]);
                        }
                    }
                    assert(tally_sound(rs, g, n));
                }
            },
        }
    }
}

/// Every candle of an aggregation saw a trade, has a low and a high that
/// enclose its open and close, and a volume that is the sum of the sizes of
/// the records that went into its bucket; and the candles come in strictly
/// increasing order of their bucket starts.
pub proof fn lemma_candles_sound(rs: Seq<Update>, g: Grid)
    requires
        rs.len() <= u64::MAX,
        g.width > 0,
        rs.len() > 0 ==> g.origin <= rs[0].timestamp,
    ensures
        forall|k: int|
            0 <= k < candles_of(rs, g).len() ==> well_shaped(#[trigger] candles_of(rs, g)[k])
                && accounts_for(rs, g, rs.len() as int, candles_of(rs, g)[k]),
        increasing(candles_of(rs, g)),
{
    let n = rs.len() as int;
    let t = tally(rs, g, n);
    let cs = candles_of(rs, g);
    lemma_tally_sound(rs, g, n);
    assert forall|k: int| 0 <= k < cs.len() implies well_shaped(#[trigger] cs[k]) && accounts_for(
        rs,
        g,
        n,
        cs[k],
    ) by {
        if k < t.closed.len() {
            assert(cs[k] == t.closed[k]);
        }
    }
    assert forall|i: int, j: int| 0 <= i < j < cs.len() implies (
    #[trigger] cs[i]).bucket_start_timestamp < (#[trigger] cs[j]).bucket_start_timestamp by {
        assert(cs[i] == t.closed[i]);
        if j < t.closed.len() {
            assert(cs[j] == t.closed[j]);
        }
    }
}

/// The bucket at `start` after its first record.
fn fresh_candle(trades_only: bool, start: u64, u: &Update) -> (c: Candle)
    ensures
        c == fresh(trades_only, start as int, *u),
{
    if u.is_trade {
        Candle {
            bucket_start_timestamp: start,
            open: u.price,
            high: u.price,
            low: u.price,
            close: u.price,
            volume: u.size as u128,
            trade_count: 1,
        }
    } else {
        Candle {
            bucket_start_timestamp: start,
            open: 0,
            high: 0,
            low: 0,
            close: 0,
            volume: if trades_only {
                0
            } else {
                u.size as u128
            },
            trade_count: 0,
        }
    }
}

/// The bucket `o` after one more record.
fn absorbed(trades_only: bool, o: &Candle, u: &Update) -> (c: Candle)
    requires
        o.volume + u.size <= u128::MAX,
        o.trade_count < u64::MAX,
    ensures
        c == absorb(trades_only, *o, *u),
{
    if !u.is_trade {
        Candle {
            bucket_start_timestamp: o.bucket_start_timestamp,
            open: o.open,
            high: o.high,
            low: o.low,
            close: o.close,
            volume: if trades_only {
                o.volume
            } else {
                o.volume + u.size as u128
            },
            trade_count: o.trade_count,
        }
    } else if o.trade_count == 0 {
        Candle {
            bucket_start_timestamp: o.bucket_start_timestamp,
            open: u.price,
            high: u.price,
            low: u.price,
            close: u.price,
            volume: o.volume + u.size as u128,
            trade_count: 1,
        }
    } else {
        Candle {
            bucket_start_timestamp: o.bucket_start_timestamp,
            open: o.open,
            high: if u.price > o.high {
                u.price
            } else {
                o.high
            },
            low: if u.price < o.low {
                u.price
            } else {
                o.low
            },
            close: u.price,
            volume: o.volume + u.size as u128,
            trade_count: o.trade_count + 1,
        }
    }
}

/// The start of the bucket that holds `ts`, where `width` is the width of a
/// bucket if it fits in 64 bits.
fn bucket_start(origin: u64, width: Option<u64>, ts: u64, Ghost(g): Ghost<Grid>) -> (start: u64)
    requires
        g.origin == origin,
        g.width > 0,
        match width {
            Some(w) => g.width == w,
            None => g.width > u64::MAX,
        },
        origin <= ts,
    ensures
        start == bucket_of(g, ts),
{
    proof {
        lemma_bucket_range(g, ts);
    }
    match width {
        Some(w) => ts - (ts - origin) % w,
        None => {
            proof {
                lemma_small_mod((ts - origin) as nat, g.width);
            }
            origin
        },
    }
}

/// An aggregation in progress. Records go in one by one; a candle comes
/// out as soon as a record of a later bucket closes its bucket, and the
/// last one when the stream ends. Only the open bucket is held.
pub struct Aggregator {
    granularity_minutes: u64,
    aligned: bool,
    trades_only: bool,
    width: Option<u64>,
    origin: u64,
    open: Option<Candle>,
    late: usize,
    seen: Ghost<Seq<Update>>,
}

/// The candle that a step gave, if any, as a sequence.
pub open spec fn given(candle: Option<Candle>) -> Seq<Candle> {
    match candle {
        Some(c) => seq![c],
        None => Seq::empty(),
    }
}

/// The candles of the buckets of `rs` that are closed for good.
pub open spec fn closed_candles(rs: Seq<Update>, g: Grid) -> Seq<Candle> {
    tally(rs, g, rs.len() as int).closed
}

/// The state after `n` records depends on these records alone.
pub proof fn lemma_tally_prefix(a: Seq<Update>, b: Seq<Update>, g: Grid, n: int)
    requires
        n <= a.len(),
        n <= b.len(),
        forall|i: int| 0 <= i < n ==> a[i] == b[i],
    ensures
        tally(a, g, n) == tally(b, g, n),
    decreases n,
{
    if n > 0 {
        lemma_tally_prefix(a, b, g, n - 1);
    }
}

impl Aggregator {
    /// The records that went in so far.
    pub closed spec fn seen(&self) -> Seq<Update> {
        self.seen@
    }

    /// The width of a bucket in minutes.
    pub closed spec fn granularity(&self) -> u64 {
        self.granularity_minutes
    }

    /// Whether the buckets lie on the grid of the clock.
    pub closed spec fn is_aligned(&self) -> bool {
        self.aligned
    }

    /// Whether volume counts trades only.
    pub closed spec fn counts_trades_only(&self) -> bool {
        self.trades_only
    }

    /// The grid of this aggregation.
    pub open spec fn grid(&self) -> Grid {
        grid_for(self.seen(), self.granularity(), self.is_aligned(), self.counts_trades_only())
    }

    /// The state held is the state that the records seen lead to.
    pub closed spec fn well_formed(&self) -> bool {
        &&& self.granularity_minutes > 0
        &&& match self.width {
            Some(w) => w == self.granularity_minutes * 60_000,
            None => self.granularity_minutes * 60_000 > u64::MAX,
        }
        &&& self.seen@.len() <= usize::MAX
        &&& self.seen@.len() > 0 ==> self.origin == self.grid().origin
        &&& self.open == tally(self.seen@, self.grid(), self.seen@.len() as int).open
        &&& self.late == tally(self.seen@, self.grid(), self.seen@.len() as int).late
    }

    /// An aggregation that has seen no record yet.
    pub fn new(granularity_minutes: u64, aligned: bool, trades_only: bool) -> (fresh: Aggregator)
        requires
            granularity_minutes > 0,
        ensures
            fresh.well_formed(),
            fresh.seen() == Seq::<Update>::empty(),
            fresh.granularity() == granularity_minutes,
            fresh.is_aligned() == aligned,
            fresh.counts_trades_only() == trades_only,
    {
        Aggregator {
            granularity_minutes,
            aligned,
            trades_only,
            width: granularity_minutes.checked_mul(MINUTE_MS),
            origin: 0,
            open: None,
            late: 0,
            seen: Ghost(Seq::empty()),
        }
    }

    /// Takes one more record and gives the candle that it closes, if it
    /// closes a bucket that saw a trade.
    pub fn push(&mut self, u: Update) -> (closed: Option<Candle>)
        requires
            old(self).well_formed(),
            old(self).seen().len() < usize::MAX,
        ensures
            final(self).well_formed(),
            final(self).seen() == old(self).seen().push(u),
            final(self).granularity() == old(self).granularity(),
            final(self).is_aligned() == old(self).is_aligned(),
            final(self).counts_trades_only() == old(self).counts_trades_only(),
            closed_candles(final(self).seen(), final(self).grid()) == closed_candles(
                old(self).seen(),
                old(self).grid(),
            ) + given(closed),
            closed matches Some(c) ==> well_shaped(c) && accounts_for(
                final(self).seen(),
                final(self).grid(),
                final(self).seen().len() as int,
                c,
            ),
    {
        let ghost before = self.seen@;
        let ghost after = before.push(u);
        let ghost g = grid_for(after, self.granularity_minutes, self.aligned, self.trades_only);
        let ghost n = before.len() as int;
        let origin = match self.open {
            None => if self.aligned {
                0
            } else {
                u.timestamp
            },
            Some(_) => self.origin,
        };
        proof {
            lemma_tally_sound(before, self.grid(), n);
            if n > 0 {
                assert(after[0] == before[0]);
                assert(g == self.grid());
            }
            assert forall|i: int| 0 <= i < n implies before[i] == after[i] by {}
            lemma_tally_prefix(before, after, g, n);
            lemma_tally_sound(after, g, n);
            lemma_tally_sound(after, g, n + 1);
            lemma_bucket_range(g, u.timestamp);
            lemma_totals_bounded(after, g, n, 0);
            lemma_totals_bounded(after, g, n + 1, 0);
            match self.open {
                Some(o) => {
                    lemma_totals_bounded(after, g, n, o.bucket_start_timestamp as int);
                },
                None => {},
            }
            assert(after[n] == u);
        }
        let mut closed: Option<Candle> = None;
        let mut open = self.open;
        let mut late = self.late;
        match self.open {
            None => {
                let start = bucket_start(origin, self.width, u.timestamp, Ghost(g));
                open = Some(fresh_candle(self.trades_only, start, &u));
            },
            Some(o) => {
                if u.timestamp < origin {
                    late = late + 1;
                } else {
                    let start = bucket_start(origin, self.width, u.timestamp, Ghost(g));
                    if start < o.bucket_start_timestamp {
                        late = late + 1;
                    } else if start == o.bucket_start_timestamp {
                        open = Some(absorbed(self.trades_only, &o, &u));
                    } else {
                        if o.trade_count > 0 {
                            closed = Some(o);
                        }
                        open = Some(fresh_candle(self.trades_only, start, &u));
                    }
                }
            },
        }
        self.origin = origin;
        self.open = open;
        self.late = late;
        self.seen = Ghost(after);
        proof {
            assert(self.grid() == g);
            assert(closed_candles(after, g) =~= closed_candles(before, old(self).grid()) + given(
                closed,
            ));
            match closed {
                Some(c) => {
                    let cs = closed_candles(after, g);
                    assert(cs[cs.len() - 1] == c);
                },
                None => {},
            }
        }
        closed
    }

    /// The candle of the bucket that is still open when the stream ends, if
    /// that bucket saw a trade. With it the candles given so far are all
    /// the candles of the stream.
    pub fn finish(&self) -> (last: Option<Candle>)
        requires
            self.well_formed(),
        ensures
            candles_of(self.seen(), self.grid()) == closed_candles(self.seen(), self.grid())
                + given(last),
            last matches Some(c) ==> well_shaped(c) && accounts_for(
                self.seen(),
                self.grid(),
                self.seen().len() as int,
                c,
            ),
    {
        proof {
            lemma_tally_sound(self.seen@, self.grid(), self.seen@.len() as int);
        }
        match self.open {
            Some(o) => if o.trade_count > 0 {
                Some(o)
            } else {
                None
            },
            None => None,
        }
    }

    /// The number of records so far that came too late for their bucket.
    pub fn late_arrivals(&self) -> (late: usize)
        requires
            self.well_formed(),
        ensures
            late == late_of(self.seen(), self.grid(), self.seen().len() as int),
    {
        proof {
            lemma_tally_sound(self.seen@, self.grid(), self.seen@.len() as int);
        }
        self.late
    }
}

/// Aggregates `records` into candles of `granularity_minutes` each.
///
/// With `aligned` the buckets lie on the grid of the clock; without it the
/// first bucket starts at the first record. With `trades_only` volume counts
/// trades alone; without it quotes count too. Prices always come from trades.
/// Every candle has seen a trade, encloses its open and close between its
/// low and high, and has as volume the sum of the sizes of the records that
/// went into its bucket; candles come in increasing order of bucket start.
pub fn aggregate(
    records: &Vec<Update>,
    granularity_minutes: u64,
    aligned: bool,
    trades_only: bool,
) -> (res: Aggregation)
    requires
        granularity_minutes > 0,
    ensures
        res.candles@ == candles_of(
            records@,
            grid_for(records@, granularity_minutes, aligned, trades_only),
        ),
        res.late_arrivals == late_of(
            records@,
            grid_for(records@, granularity_minutes, aligned, trades_only),
            records@.len() as int,
        ),
        forall|k: int|
            0 <= k < res.candles@.len() ==> well_shaped(#[trigger] res.candles@[k])
                && accounts_for(
                records@,
                grid_for(records@, granularity_minutes, aligned, trades_only),
                records@.len() as int,
                res.candles@[k],
            ),
        increasing(res.candles@),
{
    let n = records.len();
    let mut running = Aggregator::new(granularity_minutes, aligned, trades_only);
    let mut candles: Vec<Candle> = Vec::new();
    let mut i: usize = 0;
    assert(records@.take(0) =~= Seq::<Update>::empty());
    while i < n
        invariant
            i <= n,
            n == records.len(),
            running.well_formed(),
            running.seen() == records@.take(i as int),
            running.granularity() == granularity_minutes,
            running.is_aligned() == aligned,
            running.counts_trades_only() == trades_only,
            candles@ == closed_candles(running.seen(), running.grid()),
        decreases n - i,
    {
        match running.push(records[i]) {
            Some(c) => {
                candles.push(c);
            },
            None => {},
        }
        i = i + 1;
        assert(records@.take(i as int) =~= records@.take(i - 1).push(records@[i - 1]));
    }
    assert(records@.take(n as int) =~= records@);
    match running.finish() {
        Some(c) => {
            candles.push(c);
        },
        None => {},
    }
    let late = running.late_arrivals();
    proof {
        let g = grid_for(records@, granularity_minutes, aligned, trades_only);
        assert(running.grid() == g);
        lemma_candles_sound(records@, g);
        assert(candles@ =~= candles_of(records@, g));
        assert forall|k: int| 0 <= k < candles@.len() implies well_shaped(#[trigger] candles@[k])
            && accounts_for(records@, g, records@.len() as int, candles@[k]) by {
            assert(candles@[k] == candles_of(records@, g)[k]);
        }
    }
    Aggregation { candles, late_arrivals: late }
}

} // verus!
