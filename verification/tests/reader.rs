use tectonicdb::codec::encode;
use tectonicdb::error::DtfError;
use tectonicdb::reader::Reader;
use tectonicdb::record::Update;

fn reader_update(timestamp: u64, sequence: u64) -> Update {
    Update { timestamp, sequence, is_trade: sequence % 2 == 0, is_bid: false, price: 10, size: 1 }
}

fn reader_sample() -> Vec<Update> {
    let stamps = [10u64, 20, 20, 30, 40, 40, 40, 50, 60, 70, 70];
    stamps.iter().enumerate().map(|(i, t)| reader_update(*t, i as u64)).collect()
}

fn reader_expected(records: &[Update], lo: u64, hi: u64) -> Vec<Update> {
    records.iter().filter(|u| lo <= u.timestamp && u.timestamp <= hi).cloned().collect()
}

#[test]
fn range_query_gives_the_records_in_range() {
    let records = reader_sample();
    for chunk_size in 1..13 {
        let reader = Reader::open(encode("sym", &records, chunk_size)).unwrap();
        assert_eq!(reader.iter_all().unwrap(), records);
        for lo in 0..81 {
            for hi in 0..81 {
                assert_eq!(
                    reader.iter_range(lo, hi).unwrap(),
                    reader_expected(&records, lo, hi),
                    "chunks of {}, range {}..={}",
                    chunk_size,
                    lo,
                    hi
                );
            }
        }
    }
}

#[test]
fn range_query_finds_equal_timestamps_across_chunks() {
    let records = reader_sample();
    let reader = Reader::open(encode("sym", &records, 2)).unwrap();
    let found = reader.iter_range(40, 40).unwrap();
    assert_eq!(found, records[4..7].to_vec());
    let found = reader.iter_range(20, 20).unwrap();
    assert_eq!(found, records[1..3].to_vec());
}

#[test]
fn empty_range_is_no_error() {
    let reader = Reader::open(encode("sym", &reader_sample(), 3)).unwrap();
    assert_eq!(reader.iter_range(50, 40).unwrap(), Vec::new());
    assert_eq!(reader.iter_range(41, 49).unwrap(), Vec::new());
    assert_eq!(reader.iter_range(71, u64::MAX).unwrap(), Vec::new());
    let empty = Reader::open(encode("sym", &Vec::new(), 3)).unwrap();
    assert_eq!(empty.iter_range(0, u64::MAX).unwrap(), Vec::new());
}

#[test]
fn range_query_reads_only_the_chunks_it_needs() {
    let records = reader_sample();
    let mut bytes = encode("sym", &records, 2);
    // damage the flags of the first record: 48 + 3 for the header, 16 for the chunk header
    bytes[51 + 16 + 32] = 200;
    let reader = Reader::open(bytes).unwrap();
    assert_eq!(reader.iter_all(), Err(DtfError::CorruptFormat));
    assert_eq!(reader.iter_range(10, 10), Err(DtfError::CorruptFormat));
    assert_eq!(reader.iter_range(45, 80).unwrap(), records[7..].to_vec());
}

#[test]
fn range_query_on_an_index_out_of_time_order_reads_every_chunk() {
    let records = vec![reader_update(50, 1), reader_update(60, 2), reader_update(10, 3), reader_update(55, 4)];
    let reader = Reader::open(encode("sym", &records, 2)).unwrap();
    assert_eq!(reader.iter_range(10, 55).unwrap(), vec![records[0], records[2], records[3]]);
}

#[test]
fn open_tells_a_foreign_file_from_a_damaged_one() {
    assert_eq!(Reader::open(Vec::new()).err(), Some(DtfError::NotFound));
    assert_eq!(Reader::open(b"not a tick file at all".to_vec()).err(), Some(DtfError::NotFound));
    let bytes = encode("sym", &reader_sample(), 4);
    let mut foreign = bytes.clone();
    foreign[3] = b'X';
    assert_eq!(Reader::open(foreign).err(), Some(DtfError::NotFound));
    let mut damaged = bytes.clone();
    damaged[15] = 7;
    assert_eq!(Reader::open(damaged).err(), Some(DtfError::CorruptFormat));
    assert_eq!(Reader::open(bytes[..8].to_vec()).err(), Some(DtfError::CorruptFormat));
    assert!(Reader::open(bytes).is_ok());
}

#[test]
fn reader_exposes_metadata_and_index() {
    let records = reader_sample();
    let reader = Reader::open(encode("sym", &records, 4)).unwrap();
    assert_eq!(reader.metadata().symbol, "sym");
    assert_eq!(reader.metadata().record_count, 11);
    assert_eq!(reader.metadata().min_timestamp, 10);
    assert_eq!(reader.metadata().max_timestamp, 70);
    let starts: Vec<u64> = reader.index().iter().map(|e| e.chunk_start_timestamp).collect();
    assert_eq!(starts, vec![10, 40, 60]);
    let counts: Vec<u64> = reader.index().iter().map(|e| e.record_count_in_chunk).collect();
    assert_eq!(counts, vec![4, 4, 3]);
    assert_eq!(reader.read_chunk(1), Some(Ok(records[4..8].to_vec())));
    assert_eq!(reader.read_chunk(2), Some(Ok(records[8..].to_vec())));
    assert_eq!(reader.read_chunk(3), None);
}

#[test]
fn filter_by_symbol_gives_all_or_nothing() {
    let records = reader_sample();
    let reader = Reader::open(encode("bnc_zrx_btc", &records, 4)).unwrap();
    assert_eq!(reader.iter_filtered("bnc_zrx_btc").unwrap(), records);
    assert_eq!(reader.iter_filtered("bnc_zrx_eth").unwrap(), Vec::new());
    assert_eq!(reader.iter_filtered("").unwrap(), Vec::new());
}

#[test]
fn first_record_of_an_empty_file_is_an_error() {
    let empty = Reader::open(encode("sym", &Vec::new(), 4)).unwrap();
    assert_eq!(empty.first_record(), Err(DtfError::EmptyInput));
    assert_eq!(empty.iter_all().unwrap(), Vec::new());
    let records = reader_sample();
    let reader = Reader::open(encode("sym", &records, 4)).unwrap();
    assert_eq!(reader.first_record(), Ok(records[0]));
    // restartable: a second pass gives the same records
    assert_eq!(reader.iter_all().unwrap(), reader.iter_all().unwrap());
}

#[test]
fn range_query_trusts_the_start_of_each_chunk() {
    // one chunk that starts at 100 and goes back to 50: the index says that
    // nothing before 100 lies in it
    let records = vec![reader_update(100, 1), reader_update(50, 2), reader_update(200, 3)];
    let reader = Reader::open(encode("sym", &records, 3)).unwrap();
    assert_eq!(reader.iter_range(40, 60).unwrap(), Vec::new());
    assert_eq!(reader.iter_range(40, 100).unwrap(), vec![records[0], records[1]]);
    assert_eq!(reader.iter_range(100, 300).unwrap(), vec![records[0], records[2]]);
}

#[test]
fn cursor_walks_the_stream_record_by_record() {
    let records = reader_sample();
    for chunk_size in [1, 4, 11, 20] {
        let reader = Reader::open(encode("sym", &records, chunk_size)).unwrap();
        let mut cursor = reader.cursor();
        let mut seen = Vec::new();
        while let Some(u) = reader.next(&mut cursor).unwrap() {
            seen.push(u);
        }
        assert_eq!(seen, records);
        assert_eq!(reader.next(&mut cursor), Ok(None));
        // a fresh cursor starts over
        let mut again = reader.cursor();
        assert_eq!(reader.next(&mut again), Ok(Some(records[0])));
    }
    let empty = Reader::open(encode("sym", &Vec::new(), 4)).unwrap();
    assert_eq!(empty.next(&mut empty.cursor()), Ok(None));
}

#[test]
fn cursor_stops_at_a_damaged_chunk() {
    let records = reader_sample();
    let mut bytes = encode("sym", &records, 4);
    // the second chunk follows the header of 51 bytes and a chunk of 16 + 4 * 33
    let second = 51 + 16 + 4 * 33;
    bytes[second + 16 + 32] = 77;
    let reader = Reader::open(bytes).unwrap();
    let mut cursor = reader.cursor();
    for expected in &records[..4] {
        assert_eq!(reader.next(&mut cursor), Ok(Some(*expected)));
    }
    assert_eq!(reader.next(&mut cursor), Err(DtfError::CorruptFormat));
    assert_eq!(reader.next(&mut cursor), Err(DtfError::CorruptFormat));
}
