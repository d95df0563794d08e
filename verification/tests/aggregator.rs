use tectonicdb::aggregator::{aggregate, Aggregation, Aggregator};
use tectonicdb::record::{Candle, Update};

fn trade_at(timestamp: u64, price: u64, size: u64) -> Update {
    Update { timestamp, sequence: timestamp, is_trade: true, is_bid: false, price, size }
}

fn quote_at(timestamp: u64, price: u64, size: u64) -> Update {
    Update { timestamp, sequence: timestamp, is_trade: false, is_bid: true, price, size }
}

fn bucket_starts(aggregation: &Aggregation) -> Vec<u64> {
    aggregation.candles.iter().map(|c| c.bucket_start_timestamp).collect()
}

#[test]
fn aligned_buckets_lie_on_the_minute() {
    let records = vec![trade_at(90_000, 5, 1), trade_at(150_000, 6, 1), trade_at(210_000, 7, 1)];
    let aligned = aggregate(&records, 1, true, false);
    assert_eq!(bucket_starts(&aligned), vec![60_000, 120_000, 180_000]);
    assert_eq!(aligned.late_arrivals, 0);
}

#[test]
fn unaligned_buckets_start_at_the_first_record() {
    let records = vec![trade_at(90_000, 5, 1), trade_at(150_000, 6, 1), trade_at(210_000, 7, 1)];
    let unaligned = aggregate(&records, 1, false, false);
    assert_eq!(bucket_starts(&unaligned), vec![90_000, 150_000, 210_000]);
    let records = vec![trade_at(90_000, 5, 1), trade_at(149_999, 6, 2), trade_at(150_000, 7, 4)];
    let unaligned = aggregate(&records, 1, false, false);
    assert_eq!(bucket_starts(&unaligned), vec![90_000, 150_000]);
    assert_eq!(unaligned.candles[0].volume, 3);
    // aligned, the second record falls into the next minute
    let aligned = aggregate(&records, 1, true, false);
    assert_eq!(bucket_starts(&aligned), vec![60_000, 120_000]);
    assert_eq!(aligned.candles[0].volume, 1);
    assert_eq!(aligned.candles[1].volume, 6);
}

#[test]
fn candle_holds_open_high_low_close_and_volume() {
    let records = vec![
        trade_at(60_000, 50, 2),
        trade_at(70_000, 80, 3),
        trade_at(80_000, 20, 4),
        trade_at(119_999, 40, 5),
        trade_at(120_000, 41, 6),
    ];
    let res = aggregate(&records, 1, true, false);
    assert_eq!(
        res.candles,
        vec![
            Candle {
                bucket_start_timestamp: 60_000,
                open: 50,
                high: 80,
                low: 20,
                close: 40,
                volume: 14,
                trade_count: 4,
            },
            Candle {
                bucket_start_timestamp: 120_000,
                open: 41,
                high: 41,
                low: 41,
                close: 41,
                volume: 6,
                trade_count: 1,
            },
        ]
    );
}

#[test]
fn every_candle_encloses_its_open_and_close() {
    let mut records = Vec::new();
    let mut price = 1000u64;
    for i in 0..500u64 {
        price = (price * 31 + 17 * i) % 997 + 1;
        let record = if i % 3 == 0 { quote_at(i * 7_000, price, i) } else { trade_at(i * 7_000, price, i) };
        records.push(record);
    }
    for (minutes, aligned, trades_only) in [(1, true, false), (1, false, true), (5, true, true), (7, false, false)] {
        let res = aggregate(&records, minutes, aligned, trades_only);
        let width = minutes * 60_000;
        let origin = if aligned { 0 } else { records[0].timestamp };
        let mut total = 0u128;
        for c in &res.candles {
            assert!(c.low <= c.open && c.open <= c.high);
            assert!(c.low <= c.close && c.close <= c.high);
            assert!(c.trade_count >= 1);
            let members: Vec<&Update> = records
                .iter()
                .filter(|u| u.timestamp - (u.timestamp - origin) % width == c.bucket_start_timestamp)
                .filter(|u| u.is_trade || !trades_only)
                .collect();
            let volume: u128 = members.iter().map(|u| u.size as u128).sum();
            assert_eq!(c.volume, volume);
            total += c.volume;
        }
        assert!(res.candles.windows(2).all(|w| w[0].bucket_start_timestamp < w[1].bucket_start_timestamp));
        assert_eq!(res.late_arrivals, 0);
        assert!(total > 0);
    }
}

#[test]
fn quotes_count_toward_volume_but_never_toward_prices() {
    let records = vec![
        quote_at(1_000, 999, 10),
        trade_at(2_000, 50, 1),
        quote_at(3_000, 1, 20),
        trade_at(4_000, 60, 2),
        quote_at(5_000, 70, 30),
    ];
    let all = aggregate(&records, 1, true, false);
    assert_eq!(
        all.candles,
        vec![Candle {
            bucket_start_timestamp: 0,
            open: 50,
            high: 60,
            low: 50,
            close: 60,
            volume: 63,
            trade_count: 2,
        }]
    );
    let trades = aggregate(&records, 1, true, true);
    assert_eq!(trades.candles[0].volume, 3);
    assert_eq!(trades.candles[0].trade_count, 2);
    assert_eq!((trades.candles[0].open, trades.candles[0].close), (50, 60));
}

#[test]
fn bucket_without_a_trade_gives_no_candle() {
    let records = vec![
        trade_at(10_000, 5, 1),
        quote_at(70_000, 6, 1),
        quote_at(80_000, 7, 1),
        trade_at(130_000, 8, 1),
    ];
    let res = aggregate(&records, 1, true, false);
    assert_eq!(bucket_starts(&res), vec![0, 120_000]);
    let quotes = vec![quote_at(10_000, 5, 1), quote_at(70_000, 6, 1)];
    assert!(aggregate(&quotes, 1, true, false).candles.is_empty());
}

#[test]
fn empty_stream_gives_no_candles() {
    let res = aggregate(&Vec::new(), 1, true, false);
    assert_eq!(res, Aggregation { candles: Vec::new(), late_arrivals: 0 });
    let res = aggregate(&Vec::new(), 60, false, true);
    assert!(res.candles.is_empty());
}

#[test]
fn record_of_a_closed_bucket_is_dropped_and_counted() {
    let records = vec![
        trade_at(60_000, 10, 1),
        trade_at(125_000, 20, 2),
        trade_at(119_000, 999, 100),
        trade_at(121_000, 5, 3),
        trade_at(30_000, 999, 100),
        trade_at(185_000, 30, 4),
    ];
    let res = aggregate(&records, 1, true, false);
    assert_eq!(res.late_arrivals, 2);
    assert_eq!(bucket_starts(&res), vec![60_000, 120_000, 180_000]);
    assert_eq!(res.candles[0].volume, 1);
    assert_eq!(res.candles[1].volume, 5);
    assert_eq!((res.candles[1].high, res.candles[1].low, res.candles[1].close), (20, 5, 5));
    // local disorder inside the open bucket is merged in arrival order
    let unaligned = aggregate(&records, 1, false, false);
    assert_eq!(unaligned.late_arrivals, 2);
    assert_eq!(bucket_starts(&unaligned), vec![60_000, 120_000, 180_000]);
}

#[test]
fn record_before_the_first_bucket_is_late() {
    let records = vec![trade_at(100_000, 10, 1), trade_at(99_999, 20, 2), trade_at(100_001, 30, 4)];
    let res = aggregate(&records, 1, false, false);
    assert_eq!(res.late_arrivals, 1);
    assert_eq!(bucket_starts(&res), vec![100_000]);
    assert_eq!(res.candles[0].volume, 5);
    // on the grid of the clock all three share a minute
    let res = aggregate(&records, 1, true, false);
    assert_eq!(res.late_arrivals, 0);
    assert_eq!(res.candles[0].volume, 7);
}

#[test]
fn hour_candles_and_the_widest_bucket() {
    let records = vec![trade_at(3_599_999, 1, 1), trade_at(3_600_000, 2, 1), trade_at(7_300_000, 3, 1)];
    let res = aggregate(&records, 60, true, false);
    assert_eq!(bucket_starts(&res), vec![0, 3_600_000, 7_200_000]);
    // the widest bucket whose width in milliseconds fits in 64 bits, and wider ones
    for minutes in [307_445_734_561_825, 307_445_734_561_826, u64::MAX] {
        let wide = aggregate(&records, minutes, true, false);
        assert_eq!(bucket_starts(&wide), vec![0]);
        assert_eq!(wide.candles[0].volume, 3);
        let wide = aggregate(&records, minutes, false, false);
        assert_eq!(bucket_starts(&wide), vec![3_599_999]);
    }
    let edge = vec![trade_at(0, 1, 1), trade_at(u64::MAX, 2, 1)];
    let res = aggregate(&edge, 307_445_734_561_825, true, false);
    assert_eq!(bucket_starts(&res), vec![0, 18_446_744_073_709_500_000]);
    let res = aggregate(&edge, 307_445_734_561_826, true, false);
    assert_eq!(bucket_starts(&res), vec![0]);
    let far = vec![trade_at(u64::MAX, 1, u64::MAX), trade_at(u64::MAX, 2, u64::MAX)];
    let res = aggregate(&far, 1, true, false);
    assert_eq!(res.candles[0].bucket_start_timestamp, u64::MAX - u64::MAX % 60_000);
    assert_eq!(res.candles[0].volume, 2 * (u64::MAX as u128));
}

#[test]
fn candles_come_out_as_their_buckets_close() {
    let mut running = Aggregator::new(1, true, false);
    assert_eq!(running.finish(), None);
    assert_eq!(running.push(trade_at(60_000, 10, 1)), None);
    assert_eq!(running.push(trade_at(61_000, 12, 2)), None);
    assert_eq!(
        running.push(trade_at(120_000, 20, 3)),
        Some(Candle {
            bucket_start_timestamp: 60_000,
            open: 10,
            high: 12,
            low: 10,
            close: 12,
            volume: 3,
            trade_count: 2,
        })
    );
    assert_eq!(
        running.push(quote_at(180_000, 99, 5)),
        Some(Candle {
            bucket_start_timestamp: 120_000,
            open: 20,
            high: 20,
            low: 20,
            close: 20,
            volume: 3,
            trade_count: 1,
        })
    );
    assert_eq!(running.push(trade_at(100_000, 1, 1)), None);
    assert_eq!(running.late_arrivals(), 1);
    // the open bucket holds a quote only
    assert_eq!(running.finish(), None);
    assert_eq!(running.push(trade_at(181_000, 7, 1)), None);
    assert_eq!(running.finish().map(|c| (c.bucket_start_timestamp, c.volume, c.open)), Some((180_000, 6, 7)));
}

#[test]
fn streaming_gives_the_candles_of_the_whole_stream() {
    let mut records = Vec::new();
    let mut x = 12345u64;
    for i in 0..400u64 {
        x = x.wrapping_mul(6364136223846793005).wrapping_add(1442695040888963407);
        let jitter = (x >> 33) % 90_000;
        let timestamp = 1_000_000 + i * 20_000 + jitter;
        let record = if x % 4 == 0 { quote_at(timestamp, x % 1000, i) } else { trade_at(timestamp, x % 1000, i) };
        records.push(record);
    }
    for (minutes, aligned, trades_only) in [(1, true, false), (2, false, false), (3, true, true), (1, false, true)] {
        let whole = aggregate(&records, minutes, aligned, trades_only);
        let mut running = Aggregator::new(minutes, aligned, trades_only);
        let mut candles = Vec::new();
        for u in &records {
            candles.extend(running.push(*u));
        }
        candles.extend(running.finish());
        assert_eq!(candles, whole.candles);
        assert_eq!(running.late_arrivals(), whole.late_arrivals);
        assert!(whole.late_arrivals > 0);
    }
}
