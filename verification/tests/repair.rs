use tectonicdb::codec::{decode, encode};
use tectonicdb::error::DtfError;
use tectonicdb::integrity::DefectKind;
use tectonicdb::repair::{drop_regressions, repair, repair_records};
use tectonicdb::record::Update;

fn stamped(timestamp: u64, sequence: u64) -> Update {
    Update { timestamp, sequence, is_trade: true, is_bid: false, price: timestamp, size: sequence }
}

fn damaged_stream() -> Vec<Update> {
    vec![
        stamped(1_000, 1),
        stamped(2_000, 2),
        stamped(1_500, 3),
        stamped(2_000, 2),
        stamped(2_000, 4),
        stamped(500, 5),
        stamped(3_000, 6),
        stamped(3_000, 6),
        stamped(90_000, 9),
    ]
}

#[test]
fn repair_drops_regressions_and_duplicates_only() {
    let (kept, report) = repair_records(&damaged_stream(), 60).unwrap();
    assert_eq!(
        kept,
        vec![stamped(1_000, 1), stamped(2_000, 2), stamped(2_000, 4), stamped(3_000, 6), stamped(90_000, 9)]
    );
    assert_eq!(report.dropped_regressions, 2);
    assert_eq!(report.dropped_duplicates, 2);
    let kinds: Vec<(DefectKind, usize)> = report.remaining.iter().map(|d| (d.kind, d.index)).collect();
    assert_eq!(
        kinds,
        vec![(DefectKind::SequenceGap, 2), (DefectKind::SequenceGap, 3), (DefectKind::TimeGap, 4), (DefectKind::SequenceGap, 4)]
    );
}

#[test]
fn repair_twice_is_repair_once() {
    let (once, _) = repair_records(&damaged_stream(), 60).unwrap();
    let (twice, report) = repair_records(&once, 60).unwrap();
    assert_eq!(twice, once);
    assert_eq!((report.dropped_regressions, report.dropped_duplicates), (0, 0));
    let file = encode("sym", &damaged_stream(), 3);
    let (first, _) = repair(&file, 3, 60).unwrap();
    let (second, _) = repair(&first, 3, 60).unwrap();
    assert_eq!(second, first);
    assert_ne!(first, file);
}

#[test]
fn repaired_file_has_fresh_metadata_and_index() {
    let records = vec![stamped(5_000, 1), stamped(100, 2), stamped(6_000, 3), stamped(7_000, 4)];
    let file = encode("sym", &records, 2);
    let (out, report) = repair(&file, 2, 60).unwrap();
    let (meta, kept) = decode(&out).unwrap();
    assert_eq!(kept, vec![stamped(5_000, 1), stamped(6_000, 3), stamped(7_000, 4)]);
    assert_eq!(meta.symbol, "sym");
    assert_eq!(meta.record_count, 3);
    assert_eq!((meta.min_timestamp, meta.max_timestamp), (5_000, 7_000));
    assert_eq!(out, encode("sym", &kept, 2));
    assert_eq!(report.dropped_regressions, 1);
    assert_eq!(report.remaining.len(), 1);
    assert_eq!(report.remaining[0].kind, DefectKind::SequenceGap);
}

#[test]
fn repair_never_rewrites_a_record() {
    let records = damaged_stream();
    let (kept, _) = repair_records(&records, 60).unwrap();
    assert!(kept.iter().all(|u| records.contains(u)));
    assert!(kept.windows(2).all(|w| w[0].timestamp <= w[1].timestamp));
    let sound = vec![stamped(1, 1), stamped(2, 2), stamped(3, 3)];
    let (kept, report) = repair_records(&sound, 60).unwrap();
    assert_eq!(kept, sound);
    assert!(report.remaining.is_empty());
    let (kept, _) = repair_records(&Vec::new(), 60).unwrap();
    assert!(kept.is_empty());
}

#[test]
fn regression_is_measured_against_the_latest_timestamp_seen() {
    let records = vec![stamped(10, 1), stamped(5, 2), stamped(7, 3), stamped(10, 4), stamped(9, 5), stamped(11, 6)];
    assert_eq!(drop_regressions(&records), vec![stamped(10, 1), stamped(10, 4), stamped(11, 6)]);
}

#[test]
fn sequence_repeated_at_another_time_cannot_be_repaired() {
    let records = vec![stamped(1_000, 1), stamped(2_000, 1), stamped(3_000, 2)];
    assert_eq!(repair_records(&records, 60).unwrap_err(), DtfError::Unrepairable);
    let file = encode("sym", &records, 2);
    assert_eq!(repair(&file, 2, 60).unwrap_err(), DtfError::Unrepairable);
}

#[test]
fn repair_of_a_damaged_file_reports_the_format() {
    let mut file = encode("sym", &damaged_stream(), 3);
    let last = file.len() - 1;
    file[last] ^= 0x40;
    assert_eq!(repair(&file, 3, 60).unwrap_err(), DtfError::CorruptFormat);
}
