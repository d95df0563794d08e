//! Repair: cleaning a record stream of what corruption adds to it, without
//! ever inventing or rewriting a record.
//!
//! Records whose timestamp lies before the largest one seen so far are
//! dropped, then records that repeat the sequence number and the timestamp
//! of a record already kept. Gaps stay: they are missing data, and the
//! report lists them.

use crate::codec::{decode, encode};
use crate::error::DtfError;
use crate::integrity::{
    check, defects, lemma_chronological_has_no_regression, Defect, DefectKind,
};
use crate::layout::{encoding, file_records, file_valid, header_meta};
use crate::record::{chronological, lemma_bounds_exact, max_timestamp, Update};
use crate::roundtrip::lemma_encoding_roundtrip;
use vstd::prelude::*;

verus! {

/// What a repair did and what it left.
#[derive(Clone, Debug, PartialEq, Eq)]
pub struct RepairReport {
    /// Records dropped because their timestamp went back.
    pub dropped_regressions: usize,
    /// Records dropped because they repeated a kept record.
    pub dropped_duplicates: usize,
    /// The defects of the cleaned stream.
    pub remaining: Vec<Defect>,
}

/// `rs` without the records that lie before the largest timestamp of the
/// records in front of them.
pub open spec fn without_regressions(rs: Seq<Update>) -> Seq<Update>
    decreases rs.len(),
{
    if rs.len() == 0 {
        rs
    } else if rs.len() > 1 && rs.last().timestamp < max_timestamp(rs.drop_last()) {
        without_regressions(rs.drop_last())
    } else {
        without_regressions(rs.drop_last()).push(rs.last())
    }
}

/// `u` repeats the sequence number and the timestamp of a record of `kept`.
pub open spec fn is_duplicate(kept: Seq<Update>, u: Update) -> bool {
    exists|i: int|
        0 <= i < kept.len() && (#[trigger] kept[i]).sequence == u.sequence && kept[i].timestamp
            == u.timestamp
}

/// `rs` without the records that repeat an earlier record that stayed.
pub open spec fn without_duplicates(rs: Seq<Update>) -> Seq<Update>
    decreases rs.len(),
{
    if rs.len() == 0 {
        rs
    } else if is_duplicate(without_duplicates(rs.drop_last()), rs.last()) {
        without_duplicates(rs.drop_last())
    } else {
        without_duplicates(rs.drop_last()).push(rs.last())
    }
}

/// What repair keeps of `rs`.
pub open spec fn cleaned(rs: Seq<Update>) -> Seq<Update> {
    without_duplicates(without_regressions(rs))
}

/// No two records of `rs` share both sequence number and timestamp.
pub open spec fn distinct(rs: Seq<Update>) -> bool {
    forall|i: int, j: int|
        0 <= i < j < rs.len() ==> !((#[trigger] rs[i]).sequence == (#[trigger] rs[j]).sequence
            && rs[i].timestamp == rs[j].timestamp)
}

/// A report holds a defect that cleaning is meant to remove.
pub open spec fn blocked(ds: Seq<Defect>) -> bool {
    exists|k: int|
        0 <= k < ds.len() && ((#[trigger] ds[k]).kind == DefectKind::TimeRegression || ds[k].kind
            == DefectKind::DuplicateSequence)
}

/// The file that repair writes for the file `b`.
pub open spec fn repaired(b: Seq<u8>, chunk_size: nat) -> Seq<u8> {
    encoding(header_meta(b).symbol, cleaned(file_records(b)), chunk_size)
}

/// Dropping regressions leaves a stream whose timestamps never decrease,
/// that ends at the largest timestamp seen, and that is no longer than the
/// stream it came from.
pub proof fn lemma_without_regressions(rs: Seq<Update>)
    ensures
        chronological(without_regressions(rs)),
        without_regressions(rs).len() <= rs.len(),
        rs.len() > 0 ==> without_regressions(rs).len() > 0 && without_regressions(
            rs,
        ).last().timestamp == max_timestamp(rs),
    decreases rs.len(),
{
    if rs.len() > 0 {
        let front = rs.drop_last();
        lemma_without_regressions(front);
        if rs.len() == 1 {
            assert(without_regressions(front) =~= Seq::<Update>::empty());
        }
    }
}

/// Dropping regressions changes nothing in a stream that has none.
pub proof fn lemma_without_regressions_fixpoint(rs: Seq<Update>)
    requires
        chronological(rs),
    ensures
        without_regressions(rs) == rs,
    decreases rs.len(),
{
    if rs.len() > 0 {
        let front = rs.drop_last();
        assert forall|i: int, j: int| 0 <= i <= j < front.len() implies front[i].timestamp
            <= front[j].timestamp by {
            assert(front[i] == rs[i] && front[j] == rs[j]);
        }
        lemma_without_regressions_fixpoint(front);
        if rs.len() > 1 {
            lemma_bounds_exact(front);
            let hi = choose|i: int|
                0 <= i < front.len() && max_timestamp(front) == front[i].timestamp;
            assert(front[hi] == rs[hi]);
        }
        assert(front.push(rs.last()) =~= rs);
    }
}

/// Dropping duplicates keeps every timestamp under a bound that held before.
pub proof fn lemma_without_duplicates_bounded(rs: Seq<Update>, bound: u64)
    requires
        forall|i: int| 0 <= i < rs.len() ==> (#[trigger] rs[i]).timestamp <= bound,
    ensures
        forall|i: int|
            0 <= i < without_duplicates(rs).len() ==> (#[trigger] without_duplicates(
                rs,
            )[i]).timestamp <= bound,
        without_duplicates(rs).len() <= rs.len(),
    decreases rs.len(),
{
    if rs.len() > 0 {
        let front = rs.drop_last();
        assert forall|i: int| 0 <= i < front.len() implies (#[trigger] front[i]).timestamp
            <= bound by {
            assert(front[i] == rs[i]);
        }
        lemma_without_duplicates_bounded(front, bound);
    }
}

/// Dropping duplicates leaves no two records alike, and leaves a stream in
/// time order in time order.
pub proof fn lemma_without_duplicates(rs: Seq<Update>)
    ensures
        distinct(without_duplicates(rs)),
        chronological(rs) ==> chronological(without_duplicates(rs)),
    decreases rs.len(),
{
    if rs.len() > 0 {
        let front = rs.drop_last();
        let kept = without_duplicates(front);
        lemma_without_duplicates(front);
        if chronological(rs) {
            assert forall|i: int, j: int| 0 <= i <= j < front.len() implies front[i].timestamp
                <= front[j].timestamp by {
                assert(front[i] == rs[i] && front[j] == rs[j]);
            }
            assert forall|i: int| 0 <= i < front.len() implies (#[trigger] front[i]).timestamp
                <= rs.last().timestamp by {
                assert(front[i] == rs[i]);
            }
            lemma_without_duplicates_bounded(front, rs.last().timestamp);
        }
    }
}

/// Dropping duplicates changes nothing in a stream that has none.
pub proof fn lemma_without_duplicates_fixpoint(rs: Seq<Update>)
    requires
        distinct(rs),
    ensures
        without_duplicates(rs) == rs,
    decreases rs.len(),
{
    if rs.len() > 0 {
        let front = rs.drop_last();
        assert forall|i: int, j: int| 0 <= i < j < front.len() implies !((
        #[trigger] front[i]).sequence == (#[trigger] front[j]).sequence && front[i].timestamp
            == front[j].timestamp) by {
            assert(front[i] == rs[i] && front[j] == rs[j]);
        }
        lemma_without_duplicates_fixpoint(front);
        if is_duplicate(front, rs.last()) {
            let i = choose|i: int|
                0 <= i < front.len() && (#[trigger] front[i]).sequence == rs.last().sequence
                    && front[i].timestamp == rs.last().timestamp;
            assert(front[i] == rs[i]);
            assert(rs.last() == rs[rs.len() - 1]);
        }
        assert(front.push(rs.last()) =~= rs);
    }
}

/// Cleaning leaves a stream in time order without duplicates, and cleaning
/// it once more changes nothing.
pub proof fn lemma_cleaned(rs: Seq<Update>)
    ensures
        chronological(cleaned(rs)),
        distinct(cleaned(rs)),
        cleaned(rs).len() <= rs.len(),
        cleaned(cleaned(rs)) == cleaned(rs),
{
    let a = without_regressions(rs);
    lemma_without_regressions(rs);
    lemma_without_duplicates(a);
    lemma_without_duplicates_bounded(a, u64::MAX);
    lemma_without_regressions_fixpoint(cleaned(rs));
    lemma_without_duplicates_fixpoint(cleaned(rs));
}

/// Repairing a repaired file gives the same file again: the repaired file
/// is well formed, cleaning leaves its records as they are, and writing
/// them anew gives the same bytes.
pub proof fn lemma_repair_idempotent(b: Seq<u8>, chunk_size: nat)
    requires
        chunk_size > 0,
        repaired(b, chunk_size).len() <= u64::MAX,
    ensures
        file_valid(repaired(b, chunk_size)),
        file_records(repaired(b, chunk_size)) == cleaned(file_records(b)),
        cleaned(file_records(repaired(b, chunk_size))) == file_records(repaired(b, chunk_size)),
        repaired(repaired(b, chunk_size), chunk_size) == repaired(b, chunk_size),
{
    lemma_encoding_roundtrip(header_meta(b).symbol, cleaned(file_records(b)), chunk_size);
    lemma_cleaned(file_records(b));
}

/// Drops every record whose timestamp lies before the largest seen so far.
pub fn drop_regressions(records: &Vec<Update>) -> (kept: Vec<Update>)
    ensures
        kept@ == without_regressions(records@),
        chronological(kept@),
{
    let n = records.len();
    let mut kept: Vec<Update> = Vec::new();
    let mut newest: u64 = 0;
    let mut i: usize = 0;
    assert(records@.take(0) =~= Seq::<Update>::empty());
    while i < n
        invariant
            i <= n,
            n == records.len(),
            kept@ == without_regressions(records@.take(i as int)),
            i > 0 ==> newest == max_timestamp(records@.take(i as int)),
        decreases n - i,
    {
        let u = records[i];
        proof {
            let next = records@.take(i + 1);
            assert(next.drop_last() =~= records@.take(i as int));
            assert(next.last() == u);
        }
        if i > 0 && u.timestamp < newest {
        } else {
            kept.push(u);
            newest = u.timestamp;
        }
        i = i + 1;
    }
    proof {
        assert(records@.take(n as int) =~= records@);
        lemma_without_regressions(records@);
    }
    kept
}

/// Whether `u` repeats a record of `kept`, none of which is later than `u`.
fn repeats(kept: &Vec<Update>, u: &Update) -> (found: bool)
    requires
        chronological(kept@),
        forall|i: int| 0 <= i < kept.len() ==> (#[trigger] kept@[i]).timestamp <= u.timestamp,
    ensures
        found == is_duplicate(kept@, *u),
{
    let mut j: usize = kept.len();
    while j > 0
        invariant
            j <= kept.len(),
            chronological(kept@),
            forall|i: int| 0 <= i < kept.len() ==> (#[trigger] kept@[i]).timestamp <= u.timestamp,
            forall|k: int|
                j <= k < kept.len() ==> !((#[trigger] kept@[k]).sequence == u.sequence
                    && kept@[k].timestamp == u.timestamp),
        decreases j,
    {
        let c = kept[j - 1];
        if c.timestamp != u.timestamp {
            assert forall|k: int| 0 <= k < j implies !((#[trigger] kept@[k]).sequence
                == u.sequence && kept@[k].timestamp == u.timestamp) by {
                assert(kept@[k].timestamp <= kept@[j - 1].timestamp);
            }
            return false;
        }
        if c.sequence == u.sequence {
            return true;
        }
        j = j - 1;
    }
    false
}

/// Drops every record that repeats one already kept. The stream must be in
/// time order, so that a repeat can only hide among the latest kept records.
fn drop_duplicates(records: &Vec<Update>) -> (kept: Vec<Update>)
    requires
        chronological(records@),
    ensures
        kept@ == without_duplicates(records@),
{
    let n = records.len();
    let mut kept: Vec<Update> = Vec::new();
    let mut i: usize = 0;
    assert(records@.take(0) =~= Seq::<Update>::empty());
    while i < n
        invariant
            i <= n,
            n == records.len(),
            chronological(records@),
            kept@ == without_duplicates(records@.take(i as int)),
            chronological(kept@),
            forall|k: int|
                0 <= k < kept.len() ==> i > 0 && (#[trigger] kept@[k]).timestamp <= records@[i
                    - 1].timestamp,
        decreases n - i,
    {
        let u = records[i];
        proof {
            let next = records@.take(i + 1);
            assert(next.drop_last() =~= records@.take(i as int));
            assert(next.last() == u);
            assert forall|k: int| 0 <= k < kept.len() implies (#[trigger] kept@[k]).timestamp
                <= u.timestamp by {
                assert(records@[i - 1].timestamp <= records@[i as int].timestamp);
            }
        }
        if !repeats(&kept, &u) {
            kept.push(u);
        }
        i = i + 1;
    }
    assert(records@.take(n as int) =~= records@);
    kept
}

/// Whether a report holds a defect that cleaning is meant to remove.
fn holds_blocking(report: &Vec<Defect>) -> (found: bool)
    ensures
        found == blocked(report@),
{
    let mut k: usize = 0;
    while k < report.len()
        invariant
            k <= report.len(),
            forall|j: int|
                0 <= j < k ==> !((#[trigger] report@[j]).kind == DefectKind::TimeRegression
                    || report@[j].kind == DefectKind::DuplicateSequence),
        decreases report.len() - k,
    {
        match report[k].kind {
            DefectKind::TimeRegression => {
                return true;
            },
            DefectKind::DuplicateSequence => {
                return true;
            },
            _ => {},
        }
        k = k + 1;
    }
    false
}

/// Cleans `records` and analyses what is left against the gap threshold.
///
/// The cleaned stream is in time order and cleaning it again changes
/// nothing. The call fails with `Unrepairable` exactly when the cleaned
/// stream still shows a time regression or a repeated sequence number.
pub fn repair_records(records: &Vec<Update>, gap_threshold_seconds: u64) -> (res: Result<
    (Vec<Update>, RepairReport),
    DtfError,
>)
    ensures
        res is Err <==> blocked(defects(cleaned(records@), gap_threshold_seconds)),
        match res {
            Ok((kept, report)) => {
                &&& kept@ == cleaned(records@)
                &&& chronological(kept@)
                &&& cleaned(kept@) == kept@
                &&& report.dropped_regressions == records@.len() - without_regressions(
                    records@,
                ).len()
                &&& report.dropped_duplicates == without_regressions(records@).len()
                    - kept@.len()
                &&& report.remaining@ == defects(kept@, gap_threshold_seconds)
                &&& forall|k: int|
                    0 <= k < report.remaining@.len() ==> (#[trigger] report.remaining@[k]).kind
                        != DefectKind::TimeRegression && report.remaining@[k].kind
                        != DefectKind::DuplicateSequence
            },
            Err(e) => e == DtfError::Unrepairable,
        },
{
    let ordered = drop_regressions(records);
    let kept = drop_duplicates(&ordered);
    proof {
        lemma_cleaned(records@);
        lemma_without_regressions(records@);
        lemma_without_duplicates_bounded(ordered@, u64::MAX);
    }
    let remaining = check(&kept, gap_threshold_seconds);
    proof {
        assert(kept@.len() == kept.len());
        lemma_chronological_has_no_regression(kept@, gap_threshold_seconds);
    }
    if holds_blocking(&remaining) {
        return Err(DtfError::Unrepairable);
    }
    let report = RepairReport {
        dropped_regressions: records.len() - ordered.len(),
        dropped_duplicates: ordered.len() - kept.len(),
        remaining,
    };
    Ok((kept, report))
}

/// Repairs a file: reads it, cleans its records and writes them anew under
/// the same symbol, with count, bounds and index computed from scratch.
///
/// It fails with `CorruptFormat` exactly when the file is not well formed,
/// and with `Unrepairable` exactly when the cleaned records still show a
/// time regression or a repeated sequence number.
pub fn repair(bytes: &[u8], chunk_size: usize, gap_threshold_seconds: u64) -> (res: Result<
    (Vec<u8>, RepairReport),
    DtfError,
>)
    requires
        chunk_size > 0,
    ensures
        res is Ok <==> file_valid(bytes@) && !blocked(
            defects(cleaned(file_records(bytes@)), gap_threshold_seconds),
        ),
        match res {
            Ok((out, report)) => {
                &&& out@ == repaired(bytes@, chunk_size as nat)
                &&& file_valid(out@)
                &&& file_records(out@) == cleaned(file_records(bytes@))
                &&& report.remaining@ == defects(file_records(out@), gap_threshold_seconds)
                &&& report.dropped_regressions + report.dropped_duplicates == file_records(
                    bytes@,
                ).len() - file_records(out@).len()
            },
            Err(e) => if file_valid(bytes@) {
                e == DtfError::Unrepairable
            } else {
                e == DtfError::CorruptFormat
            },
        },
{
    let (meta, records) = match decode(bytes) {
        Ok(parts) => parts,
        Err(e) => {
            return Err(e);
        },
    };
    let (kept, report) = match repair_records(&records, gap_threshold_seconds) {
        Ok(parts) => parts,
        Err(e) => {
            return Err(e);
        },
    };
    let out = encode(meta.symbol.as_str(), &kept, chunk_size);
    Ok((out, report))
}

} // verus!
