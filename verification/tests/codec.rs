use tectonicdb::codec::{decode, decode_chunk, decode_header, encode, timestamp_bounds};
use tectonicdb::error::DtfError;
use tectonicdb::record::{BatchIndexEntry, FileMetadata, Update};

fn codec_update(timestamp: u64, sequence: u64, is_trade: bool, is_bid: bool) -> Update {
    Update { timestamp, sequence, is_trade, is_bid, price: 100 + sequence, size: 7 * sequence + 1 }
}

fn codec_sample() -> Vec<Update> {
    vec![
        codec_update(1_000, 1, true, false),
        codec_update(1_500, 2, false, true),
        codec_update(1_500, 3, true, true),
        codec_update(9_000, 4, false, false),
        codec_update(70_000, 5, true, false),
    ]
}

#[test]
fn round_trip_keeps_records_and_order() {
    let records = codec_sample();
    for chunk_size in 1..8 {
        let bytes = encode("bnc_zrx_btc", &records, chunk_size);
        let (meta, decoded) = decode(&bytes).unwrap();
        assert_eq!(decoded, records);
        assert_eq!(meta.symbol, "bnc_zrx_btc");
        assert_eq!(meta.record_count, 5);
        assert_eq!(meta.min_timestamp, 1_000);
        assert_eq!(meta.max_timestamp, 70_000);
        assert_eq!(meta.format_version, 1);
    }
}

#[test]
fn round_trip_of_an_empty_file() {
    let bytes = encode("", &Vec::new(), 3);
    assert_eq!(bytes.len(), 56);
    let (meta, decoded) = decode(&bytes).unwrap();
    assert!(decoded.is_empty());
    assert_eq!(
        meta,
        FileMetadata {
            symbol: String::new(),
            record_count: 0,
            min_timestamp: 0,
            max_timestamp: 0,
            format_version: 1,
        }
    );
}

#[test]
fn round_trip_of_records_out_of_time_order() {
    let records = vec![
        codec_update(5_000, 9, true, false),
        codec_update(10, 3, false, false),
        codec_update(u64::MAX, 3, true, true),
        codec_update(0, u64::MAX, false, true),
    ];
    let bytes = encode("x", &records, 4);
    let (meta, decoded) = decode(&bytes).unwrap();
    assert_eq!(decoded, records);
    assert_eq!(meta.min_timestamp, 0);
    assert_eq!(meta.max_timestamp, u64::MAX);
}

#[test]
fn round_trip_of_a_symbol_outside_ascii() {
    let records = codec_sample();
    let bytes = encode("börse/日経", &records, 2);
    let (meta, decoded) = decode(&bytes).unwrap();
    assert_eq!(meta.symbol, "börse/日経");
    assert_eq!(decoded, records);
}

#[test]
fn encoded_length_follows_the_layout() {
    let records = codec_sample();
    // header 48 + symbol 3; chunks of 2, 2 and 1 records; three index entries; the chunk count
    let bytes = encode("abc", &records, 2);
    assert_eq!(bytes.len(), 48 + 3 + (16 + 66) + (16 + 66) + (16 + 33) + 3 * 24 + 8);
}

#[test]
fn numbers_are_stored_most_significant_byte_first() {
    let records = vec![Update {
        timestamp: 0x0102_0304_0506_0708,
        sequence: 0x1122_3344_5566_7788,
        is_trade: true,
        is_bid: true,
        price: 0x0A0B_0C0D_0E0F_1011,
        size: 2,
    }];
    let bytes = encode("s", &records, 1);
    assert_eq!(&bytes[0..8], &[0x44, 0x54, 0x46, 0x5F, 0x74, 0x69, 0x63, 0x6B]);
    assert_eq!(&bytes[8..16], &[0, 0, 0, 0, 0, 0, 0, 1]);
    assert_eq!(&bytes[16..24], &[0, 0, 0, 0, 0, 0, 0, 1]);
    assert_eq!(bytes[24], b's');
    // record count, then both bounds
    assert_eq!(&bytes[25..33], &[0, 0, 0, 0, 0, 0, 0, 1]);
    assert_eq!(&bytes[33..41], &[1, 2, 3, 4, 5, 6, 7, 8]);
    assert_eq!(&bytes[41..49], &[1, 2, 3, 4, 5, 6, 7, 8]);
    // the chunk: count, first timestamp, then the record
    assert_eq!(&bytes[49..57], &[0, 0, 0, 0, 0, 0, 0, 1]);
    assert_eq!(&bytes[57..65], &[1, 2, 3, 4, 5, 6, 7, 8]);
    assert_eq!(&bytes[65..73], &[0; 8]);
    assert_eq!(&bytes[73..81], &[0x11, 0x22, 0x33, 0x44, 0x55, 0x66, 0x77, 0x88]);
    assert_eq!(&bytes[81..89], &[0x0A, 0x0B, 0x0C, 0x0D, 0x0E, 0x0F, 0x10, 0x11]);
    assert_eq!(&bytes[89..97], &[0, 0, 0, 0, 0, 0, 0, 2]);
    assert_eq!(bytes[97], 3);
    // the index entry: start, offset 49, count
    assert_eq!(&bytes[98..106], &[1, 2, 3, 4, 5, 6, 7, 8]);
    assert_eq!(&bytes[106..114], &[0, 0, 0, 0, 0, 0, 0, 49]);
    assert_eq!(&bytes[114..122], &[0, 0, 0, 0, 0, 0, 0, 1]);
    assert_eq!(&bytes[122..130], &[0, 0, 0, 0, 0, 0, 0, 1]);
    assert_eq!(bytes.len(), 130);
}

#[test]
fn timestamps_are_stored_as_distance_from_the_chunk_start() {
    let records = vec![
        codec_update(1_000, 1, true, false),
        codec_update(1_003, 2, true, false),
        codec_update(998, 3, true, false),
    ];
    let bytes = encode("", &records, 3);
    let first = 48 + 16;
    assert_eq!(&bytes[first..first + 8], &[0; 8]);
    assert_eq!(&bytes[first + 33..first + 41], &[0, 0, 0, 0, 0, 0, 0, 3]);
    // two before the chunk start wraps around
    assert_eq!(&bytes[first + 66..first + 74], &[0xFF, 0xFF, 0xFF, 0xFF, 0xFF, 0xFF, 0xFF, 0xFE]);
    assert_eq!(decode(&bytes).unwrap().1, records);
}

#[test]
fn header_gives_metadata_and_index_without_reading_records() {
    let records = codec_sample();
    let bytes = encode("abc", &records, 2);
    let (meta, index) = decode_header(&bytes).unwrap();
    assert_eq!(meta.record_count, 5);
    assert_eq!(
        index,
        vec![
            BatchIndexEntry { chunk_start_timestamp: 1_000, byte_offset: 51, record_count_in_chunk: 2 },
            BatchIndexEntry { chunk_start_timestamp: 1_500, byte_offset: 133, record_count_in_chunk: 2 },
            BatchIndexEntry { chunk_start_timestamp: 70_000, byte_offset: 215, record_count_in_chunk: 1 },
        ]
    );
    assert_eq!(decode_chunk(&bytes, &index[1]).unwrap(), records[2..4].to_vec());
    // the records can be damaged without the header noticing
    let mut damaged = bytes.clone();
    damaged[51 + 16 + 32] = 9;
    assert!(decode_header(&damaged).is_ok());
    assert_eq!(decode(&damaged), Err(DtfError::CorruptFormat));
}

#[test]
fn version_outside_the_accepted_range_is_corrupt() {
    let mut bytes = encode("abc", &codec_sample(), 2);
    bytes[15] = 2;
    assert_eq!(decode_header(&bytes).unwrap_err(), DtfError::CorruptFormat);
    bytes[15] = 0;
    assert_eq!(decode(&bytes).unwrap_err(), DtfError::CorruptFormat);
}

#[test]
fn record_count_that_disagrees_with_the_chunks_is_corrupt() {
    let mut bytes = encode("abc", &codec_sample(), 2);
    assert_eq!(bytes[34], 5);
    bytes[34] = 6;
    assert_eq!(decode_header(&bytes).unwrap_err(), DtfError::CorruptFormat);
}

#[test]
fn chunk_count_that_disagrees_with_its_bytes_is_corrupt() {
    let records = codec_sample();
    let bytes = encode("abc", &records, 2);
    let (_, index) = decode_header(&bytes).unwrap();
    // the chunk says three records where the index says two
    let mut damaged = bytes.clone();
    damaged[51 + 7] = 3;
    assert_eq!(decode_chunk(&damaged, &index[0]), Err(DtfError::CorruptFormat));
    assert_eq!(decode(&damaged), Err(DtfError::CorruptFormat));
    // an entry that counts more records than the chunk holds
    let wrong = BatchIndexEntry { record_count_in_chunk: 3, ..index[0] };
    assert_eq!(decode_chunk(&bytes, &wrong), Err(DtfError::CorruptFormat));
    // an entry that points past the end of the file
    let beyond = BatchIndexEntry { byte_offset: bytes.len() as u64, ..index[0] };
    assert_eq!(decode_chunk(&bytes, &beyond), Err(DtfError::CorruptFormat));
    // a first timestamp that differs from the index
    let mut shifted = bytes.clone();
    shifted[51 + 15] ^= 1;
    assert_eq!(decode_chunk(&shifted, &index[0]), Err(DtfError::CorruptFormat));
}

#[test]
fn damaged_structure_is_corrupt() {
    let bytes = encode("abc", &codec_sample(), 2);
    assert_eq!(decode(&bytes[..bytes.len() - 1]).unwrap_err(), DtfError::CorruptFormat);
    assert_eq!(decode(&bytes[..40]).unwrap_err(), DtfError::CorruptFormat);
    assert_eq!(decode(&[]).unwrap_err(), DtfError::CorruptFormat);
    let mut magic = bytes.clone();
    magic[0] = 0;
    assert_eq!(decode(&magic).unwrap_err(), DtfError::CorruptFormat);
    let mut offset = bytes.clone();
    let entry = bytes.len() - 8 - 3 * 24;
    offset[entry + 15] += 1;
    assert_eq!(decode_header(&offset).unwrap_err(), DtfError::CorruptFormat);
    let mut chunks = bytes.clone();
    let last = bytes.len() - 1;
    chunks[last] = 2;
    assert_eq!(decode_header(&chunks).unwrap_err(), DtfError::CorruptFormat);
    let mut symbol = bytes.clone();
    symbol[24] = 0xFF;
    assert_eq!(decode_header(&symbol).unwrap_err(), DtfError::CorruptFormat);
    let mut long = bytes.clone();
    long[16] = 0xFF;
    assert_eq!(decode_header(&long).unwrap_err(), DtfError::CorruptFormat);
}

#[test]
fn bounds_are_exact() {
    assert_eq!(timestamp_bounds(&Vec::new()), (0, 0));
    assert_eq!(timestamp_bounds(&codec_sample()), (1_000, 70_000));
    let one = vec![codec_update(42, 1, true, true)];
    assert_eq!(timestamp_bounds(&one), (42, 42));
    let described = FileMetadata::describe("sym", &codec_sample());
    assert_eq!(described.record_count, 5);
    assert_eq!(described.symbol, "sym");
    assert_eq!((described.min_timestamp, described.max_timestamp), (1_000, 70_000));
}
