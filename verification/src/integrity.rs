//! Integrity analysis: a census of the places where a record stream breaks
//! the order or the continuity that a sound stream has.

use crate::record::{chronological, Update};
use vstd::prelude::*;

verus! {

/// The gap, in seconds, above which two neighbours count as apart where the
/// caller names no threshold.
pub const DEFAULT_GAP_THRESHOLD_SECONDS: u64 = 60;

/// What can be wrong between one record and the next.
#[derive(Clone, Copy, Debug, PartialEq, Eq, Structural)]
pub enum DefectKind {
    /// The timestamps lie further apart than the threshold allows.
    TimeGap,
    /// The timestamp goes back.
    TimeRegression,
    /// The sequence number skips at least one value.
    SequenceGap,
    /// The sequence number goes back.
    SequenceRegression,
    /// The sequence number repeats.
    DuplicateSequence,
}

/// One defect: its kind, the position of the record at which it shows, and
/// the two neighbours involved.
#[derive(Clone, Copy, Debug, PartialEq, Eq, Structural)]
pub struct Defect {
    pub kind: DefectKind,
    /// Position of `current` in the stream.
    pub index: usize,
    pub previous: Update,
    pub current: Update,
}

/// The defect, if any, between the timestamps of two neighbours.
pub open spec fn time_defect(prev: Update, cur: Update, gap_threshold_seconds: u64) -> Option<
    DefectKind,
> {
    if cur.timestamp < prev.timestamp {
        Some(DefectKind::TimeRegression)
    } else if cur.timestamp - prev.timestamp > gap_threshold_seconds * 1000 {
        Some(DefectKind::TimeGap)
    } else {
        None
    }
}

/// The defect, if any, between the sequence numbers of two neighbours.
pub open spec fn sequence_defect(prev: Update, cur: Update) -> Option<DefectKind> {
    if cur.sequence == prev.sequence {
        Some(DefectKind::DuplicateSequence)
    } else if cur.sequence < prev.sequence {
        Some(DefectKind::SequenceRegression)
    } else if cur.sequence > prev.sequence + 1 {
        Some(DefectKind::SequenceGap)
    } else {
        None
    }
}

/// The defect of kind `kind` reported at position `i` of `rs`.
pub open spec fn defect_at(rs: Seq<Update>, i: int, kind: DefectKind) -> Defect {
    Defect { kind, index: i as usize, previous: rs[i - 1], current: rs[i] }
}

/// No defect, or the one of the given kind at position `i`.
pub open spec fn reported(rs: Seq<Update>, i: int, kind: Option<DefectKind>) -> Seq<Defect> {
    match kind {
        Some(k) => seq![defect_at(rs, i, k)],
        None => Seq::empty(),
    }
}

/// The defects between record `i - 1` and record `i`: that of the
/// timestamps first, then that of the sequence numbers.
pub open spec fn defects_at(rs: Seq<Update>, i: int, gap_threshold_seconds: u64) -> Seq<Defect> {
    reported(rs, i, time_defect(rs[i - 1], rs[i], gap_threshold_seconds)) + reported(
        rs,
        i,
        sequence_defect(rs[i - 1], rs[i]),
    )
}

/// The defects among the first `n` records of `rs`, in stream order.
pub open spec fn defects_upto(rs: Seq<Update>, n: int, gap_threshold_seconds: u64) -> Seq<Defect>
    decreases n,
{
    if n <= 1 {
        Seq::empty()
    } else {
        defects_upto(rs, n - 1, gap_threshold_seconds) + defects_at(
            rs,
            n - 1,
            gap_threshold_seconds,
        )
    }
}

/// All the defects of `rs`, in stream order.
pub open spec fn defects(rs: Seq<Update>, gap_threshold_seconds: u64) -> Seq<Defect> {
    defects_upto(rs, rs.len() as int, gap_threshold_seconds)
}

/// `d` is what the analysis says of one pair of neighbours of `rs`.
pub open spec fn genuine(rs: Seq<Update>, gap_threshold_seconds: u64, d: Defect) -> bool {
    &&& 1 <= d.index < rs.len()
    &&& d.previous == rs[d.index - 1]
    &&& d.current == rs[d.index as int]
    &&& (time_defect(d.previous, d.current, gap_threshold_seconds) == Some(d.kind)
        || sequence_defect(d.previous, d.current) == Some(d.kind))
}

/// Every defect reported among the first `n` records is genuine and lies
/// among them.
pub proof fn lemma_defects_sound(rs: Seq<Update>, n: int, gap_threshold_seconds: u64)
    requires
        n <= rs.len() <= usize::MAX,
    ensures
        forall|k: int|
            0 <= k < defects_upto(rs, n, gap_threshold_seconds).len() ==> genuine(
                rs,
                gap_threshold_seconds,
                #[trigger] defects_upto(rs, n, gap_threshold_seconds)[k],
            ) && defects_upto(rs, n, gap_threshold_seconds)[k].index < n,
    decreases n,
{
    if n > 1 {
        lemma_defects_sound(rs, n - 1, gap_threshold_seconds);
    }
}

/// Every defect between neighbours is reported.
pub proof fn lemma_defects_complete(
    rs: Seq<Update>,
    n: int,
    gap_threshold_seconds: u64,
    i: int,
    kind: DefectKind,
)
    requires
        1 <= i < n <= rs.len(),
        time_defect(rs[i - 1], rs[i], gap_threshold_seconds) == Some(kind) || sequence_defect(
            rs[i - 1],
            rs[i],
        ) == Some(kind),
    ensures
        defects_upto(rs, n, gap_threshold_seconds).contains(defect_at(rs, i, kind)),
    decreases n,
{
    let all = defects_upto(rs, n, gap_threshold_seconds);
    let front = defects_upto(rs, n - 1, gap_threshold_seconds);
    let here = defects_at(rs, n - 1, gap_threshold_seconds);
    let d = defect_at(rs, i, kind);
    if i == n - 1 {
        let t = reported(rs, i, time_defect(rs[i - 1], rs[i], gap_threshold_seconds));
        let s = reported(rs, i, sequence_defect(rs[i - 1], rs[i]));
        if time_defect(rs[i - 1], rs[i], gap_threshold_seconds) == Some(kind) {
            assert(here[0] == d);
            assert(all[front.len() as int] == d);
        } else {
            assert(here[t.len() as int] == d);
            assert(all[(front.len() + t.len()) as int] == d);
        }
    } else {
        lemma_defects_complete(rs, n - 1, gap_threshold_seconds, i, kind);
        let k = choose|k: int| 0 <= k < front.len() && front[k] == d;
        assert(all[k] == d);
    }
}

/// A stream whose timestamps never decrease has no time regression.
pub proof fn lemma_chronological_has_no_regression(rs: Seq<Update>, gap_threshold_seconds: u64)
    requires
        chronological(rs),
        rs.len() <= usize::MAX,
    ensures
        forall|k: int|
            0 <= k < defects(rs, gap_threshold_seconds).len() ==> (#[trigger] defects(
                rs,
                gap_threshold_seconds,
            )[k]).kind != DefectKind::TimeRegression,
{
    lemma_defects_sound(rs, rs.len() as int, gap_threshold_seconds);
    assert forall|k: int| 0 <= k < defects(rs, gap_threshold_seconds).len() implies (
    #[trigger] defects(rs, gap_threshold_seconds)[k]).kind != DefectKind::TimeRegression by {
        let d = defects(rs, gap_threshold_seconds)[k];
        assert(genuine(rs, gap_threshold_seconds, d));
    }
}

/// Lists the defects of `records` against a gap threshold in seconds. The
/// analysis never stops at a defect: it reports it and goes on. Every
/// defect between two neighbours is in the report, and nothing else is.
pub fn check(records: &Vec<Update>, gap_threshold_seconds: u64) -> (report: Vec<Defect>)
    ensures
        report@ == defects(records@, gap_threshold_seconds),
        forall|k: int|
            0 <= k < report@.len() ==> genuine(records@, gap_threshold_seconds, #[trigger] report@[k]),
        forall|i: int, kind: DefectKind|
            1 <= i < records@.len() && (time_defect(
                records@[i - 1],
                records@[i],
                gap_threshold_seconds,
            ) == Some(kind) || sequence_defect(records@[i - 1], records@[i]) == Some(kind))
                ==> report@.contains(#[trigger] defect_at(records@, i, kind)),
{
    let n = records.len();
    let mut report: Vec<Defect> = Vec::new();
    proof {
        lemma_defects_sound(records@, n as int, gap_threshold_seconds);
        assert forall|i: int, kind: DefectKind|
            1 <= i < records@.len() && (time_defect(
                records@[i - 1],
                records@[i],
                gap_threshold_seconds,
            ) == Some(kind) || sequence_defect(records@[i - 1], records@[i]) == Some(
                kind,
            )) implies defects(records@, gap_threshold_seconds).contains(
            #[trigger] defect_at(records@, i, kind),
        ) by {
            lemma_defects_complete(records@, n as int, gap_threshold_seconds, i, kind);
        }
    }
    if n == 0 {
        return report;
    }
    let mut i: usize = 1;
    while i < n
        invariant
            1 <= i <= n,
            n == records.len(),
            report@ == defects_upto(records@, i as int, gap_threshold_seconds),
        decreases n - i,
    {
        let prev = records[i - 1];
        let cur = records[i];
        let ghost before = report@;
        if cur.timestamp < prev.timestamp {
            report.push(
                Defect { kind: DefectKind::TimeRegression, index: i, previous: prev, current: cur },
            );
        } else if (cur.timestamp - prev.timestamp) as u128 > gap_threshold_seconds as u128 * 1000 {
            report.push(
                Defect { kind: DefectKind::TimeGap, index: i, previous: prev, current: cur },
            );
        }
        let ghost middle = report@;
        assert(middle =~= before + reported(
            records@,
            i as int,
            time_defect(prev, cur, gap_threshold_seconds),
        ));
        if cur.sequence == prev.sequence {
            report.push(
                Defect {
                    kind: DefectKind::DuplicateSequence,
                    index: i,
                    previous: prev,
                    current: cur,
                },
            );
        } else if cur.sequence < prev.sequence {
            report.push(
                Defect {
                    kind: DefectKind::SequenceRegression,
                    index: i,
                    previous: prev,
                    current: cur,
                },
            );
        } else if cur.sequence - prev.sequence > 1 {
            report.push(
                Defect { kind: DefectKind::SequenceGap, index: i, previous: prev, current: cur },
            );
        }
        assert(report@ =~= middle + reported(records@, i as int, sequence_defect(prev, cur)));
        assert(report@ =~= before + defects_at(records@, i as int, gap_threshold_seconds));
        i = i + 1;
    }
    report
}

} // verus!
