use tectonicdb::integrity::{check, Defect, DefectKind};
use tectonicdb::record::Update;

fn numbered(timestamp: u64, sequence: u64) -> Update {
    Update { timestamp, sequence, is_trade: true, is_bid: false, price: 1, size: 1 }
}

#[test]
fn one_sequence_gap_is_reported_once() {
    let records = vec![numbered(1_000, 1), numbered(2_000, 2), numbered(3_000, 4), numbered(4_000, 5)];
    let report = check(&records, 60);
    assert_eq!(
        report,
        vec![Defect {
            kind: DefectKind::SequenceGap,
            index: 2,
            previous: records[1],
            current: records[2],
        }]
    );
}

#[test]
fn sound_stream_has_no_defect() {
    let records: Vec<Update> = (0..100).map(|i| numbered(1_000 * i, i)).collect();
    assert!(check(&records, 1).is_empty());
    assert!(check(&Vec::new(), 0).is_empty());
    assert!(check(&vec![numbered(5, 5)], 0).is_empty());
}

#[test]
fn time_gap_is_measured_against_the_threshold_in_seconds() {
    let records = vec![numbered(0, 1), numbered(60_000, 2), numbered(120_001, 3)];
    let report = check(&records, 60);
    assert_eq!(report.len(), 1);
    assert_eq!(report[0].kind, DefectKind::TimeGap);
    assert_eq!(report[0].index, 2);
    assert_eq!((report[0].previous.timestamp, report[0].current.timestamp), (60_000, 120_001));
    assert_eq!(check(&records, 61).len(), 0);
    assert_eq!(check(&records, 59).len(), 2);
    // a threshold whose milliseconds do not fit in 64 bits
    let far = vec![numbered(0, 1), numbered(u64::MAX, 2)];
    assert!(check(&far, u64::MAX).is_empty());
    assert_eq!(check(&far, 0).len(), 1);
}

#[test]
fn every_kind_of_defect_is_told_apart() {
    let records = vec![
        numbered(10_000, 5),
        numbered(9_000, 6),
        numbered(9_500, 6),
        numbered(9_600, 3),
        numbered(99_600, 9),
    ];
    let report = check(&records, 60);
    let kinds: Vec<(DefectKind, usize)> = report.iter().map(|d| (d.kind, d.index)).collect();
    assert_eq!(
        kinds,
        vec![
            (DefectKind::TimeRegression, 1),
            (DefectKind::DuplicateSequence, 2),
            (DefectKind::SequenceRegression, 3),
            (DefectKind::TimeGap, 4),
            (DefectKind::SequenceGap, 4),
        ]
    );
    for d in &report {
        assert_eq!(d.previous, records[d.index - 1]);
        assert_eq!(d.current, records[d.index]);
    }
}

#[test]
fn analysis_goes_on_after_a_defect() {
    let records = vec![numbered(5, 1), numbered(4, 2), numbered(3, 3), numbered(2, 4)];
    let report = check(&records, 60);
    assert_eq!(report.len(), 3);
    assert!(report.iter().all(|d| d.kind == DefectKind::TimeRegression));
    assert_eq!(report.iter().map(|d| d.index).collect::<Vec<_>>(), vec![1, 2, 3]);
}
