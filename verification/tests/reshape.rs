use tectonicdb::codec::{decode, encode};
use tectonicdb::error::DtfError;
use tectonicdb::record::Update;
use tectonicdb::reshape;
use tectonicdb::reshape::{merge_records, split, split_records};

fn tick(timestamp: u64, sequence: u64) -> Update {
    Update { timestamp, sequence, is_trade: true, is_bid: true, price: 3, size: 4 }
}

fn ticks(stamps: &[u64]) -> Vec<Update> {
    stamps.iter().enumerate().map(|(i, t)| tick(*t, i as u64)).collect()
}

fn stamps_of(records: &[Update]) -> Vec<u64> {
    records.iter().map(|u| u.timestamp).collect()
}

#[test]
fn concat_merges_by_timestamp() {
    let a = encode("sym", &ticks(&[1, 3]), 8);
    let b = encode("sym", &ticks(&[2, 4]), 8);
    let out = reshape::concat(&a, &b, 8).unwrap();
    let (meta, records) = decode(&out).unwrap();
    assert_eq!(stamps_of(&records), vec![1, 2, 3, 4]);
    assert_eq!(meta.record_count, 4);
    assert_eq!((meta.min_timestamp, meta.max_timestamp), (1, 4));
    assert_eq!(meta.symbol, "sym");
}

#[test]
fn concat_of_different_symbols_fails() {
    let a = encode("bnc_zrx_btc", &ticks(&[1, 3]), 8);
    let b = encode("bnc_zrx_eth", &ticks(&[2, 4]), 8);
    assert_eq!(reshape::concat(&a, &b, 8).unwrap_err(), DtfError::SymbolMismatch);
    assert_eq!(reshape::concat(&a, &b[..20], 8).unwrap_err(), DtfError::CorruptFormat);
    assert_eq!(reshape::concat(&[], &b, 8).unwrap_err(), DtfError::CorruptFormat);
}

#[test]
fn merge_prefers_the_first_stream_on_equal_timestamps() {
    let a = vec![tick(5, 100), tick(5, 101), tick(9, 102)];
    let b = vec![tick(5, 200), tick(7, 201)];
    let merged = merge_records(&a, &b);
    let sequences: Vec<u64> = merged.iter().map(|u| u.sequence).collect();
    assert_eq!(sequences, vec![100, 101, 200, 201, 102]);
    assert_eq!(merge_records(&a, &Vec::new()), a);
    assert_eq!(merge_records(&Vec::new(), &b), b);
}

#[test]
fn split_gives_full_batches_and_a_remainder() {
    let records = ticks(&[1, 2, 3, 4, 5, 6, 7]);
    let parts = split_records(&records, 3);
    assert_eq!(parts.iter().map(|p| p.len()).collect::<Vec<_>>(), vec![3, 3, 1]);
    assert_eq!(parts.concat(), records);
    assert_eq!(split_records(&records, 7), vec![records.clone()]);
    assert_eq!(split_records(&records, 100), vec![records.clone()]);
    assert_eq!(split_records(&records[..6].to_vec(), 3).len(), 2);
    assert!(split_records(&Vec::new(), 3).is_empty());
}

#[test]
fn split_files_carry_their_own_metadata() {
    let records = ticks(&[10, 20, 30, 40, 50]);
    let file = encode("sym", &records, 4);
    let files = split(&file, 2, 4).unwrap();
    assert_eq!(files.len(), 3);
    let bounds: Vec<(u64, u64, u64)> = files
        .iter()
        .map(|f| {
            let (meta, _) = decode(f).unwrap();
            assert_eq!(meta.symbol, "sym");
            (meta.record_count, meta.min_timestamp, meta.max_timestamp)
        })
        .collect();
    assert_eq!(bounds, vec![(2, 10, 20), (2, 30, 40), (1, 50, 50)]);
    assert_eq!(split(&file[..30], 2, 4).unwrap_err(), DtfError::CorruptFormat);
}

#[test]
fn split_then_concat_restores_the_file() {
    let records = ticks(&[1, 1, 2, 3, 5, 8, 8, 8, 13, 21, 34]);
    let file = encode("sym", &records, 4);
    for batch in 1..13 {
        let files = split(&file, batch, 4).unwrap();
        let mut joined = encode("sym", &Vec::new(), 4);
        for f in &files {
            joined = reshape::concat(&joined, f, 4).unwrap();
        }
        assert_eq!(joined, file);
        assert_eq!(decode(&joined).unwrap().1, records);
    }
}

#[test]
fn split_then_concat_keeps_every_record_of_a_disordered_file() {
    let records = ticks(&[9, 1, 7, 3, 5, 5, 2]);
    let file = encode("sym", &records, 3);
    let files = split(&file, 2, 3).unwrap();
    let mut joined = encode("sym", &Vec::new(), 3);
    for f in &files {
        joined = reshape::concat(&joined, f, 3).unwrap();
    }
    let (meta, mut restored) = decode(&joined).unwrap();
    assert_eq!(meta.record_count, 7);
    assert_eq!((meta.min_timestamp, meta.max_timestamp), (1, 9));
    let mut expected = records.clone();
    expected.sort_by_key(|u| (u.timestamp, u.sequence));
    restored.sort_by_key(|u| (u.timestamp, u.sequence));
    assert_eq!(restored, expected);
}
