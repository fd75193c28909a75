use calculation_engine::cache_optimized::{
    CacheAlignedCounters, CacheOptimizedMarketData, CacheOptimizedMovingAverage,
    CacheOptimizedPriceArray,
};
use calculation_engine::EngineError;

#[test]
fn test_price_array_vectorization() {
    let mut array = CacheOptimizedPriceArray::new(10000);

    // Prices are integers in hundredths: 150.0 + i becomes 15000 + 100 i.
    for i in 0..1000u64 {
        let data = CacheOptimizedMarketData::new(b"AAPL", 15000 + i * 100, 1000);
        array.push(&data).unwrap();
    }

    let start = std::time::Instant::now();
    let avg = array.calculate_avg_price_vectorized(0, 1000).unwrap();
    let duration = start.elapsed();
    println!("average over 1000 prices: {:?}", duration);
    assert!(duration.as_nanos() < 10_000);
    assert!(avg > 15000);
    // The mean of 15000, 15100, ..., 114900 is exact.
    assert_eq!(avg, (15000 + 114900) / 2);

    let max = array.find_max_price_vectorized(0, 1000).unwrap();
    assert_eq!(max, 15000 + 999 * 100);
    assert_eq!(array.len(), 1000);
    assert_eq!(array.capacity(), 10000);
}

#[test]
fn price_array_update_and_slice() {
    let mut array = CacheOptimizedPriceArray::new(4);
    for p in [10u64, 20, 30] {
        array.push(&CacheOptimizedMarketData::new(b"X", p, 1)).unwrap();
    }
    array.update_prices_vectorized(1, &[21, 31]).unwrap();
    assert_eq!(array.get_prices_slice(0, 3).unwrap(), vec![10, 21, 31]);
    assert_eq!(array.get_prices_slice(1, 2).unwrap(), vec![21, 31]);

    assert_eq!(
        array.update_prices_vectorized(2, &[1, 2]).unwrap_err(),
        EngineError::OutOfBounds
    );
    assert_eq!(array.get_prices_slice(2, 2).unwrap_err(), EngineError::OutOfBounds);
    assert_eq!(
        array.calculate_avg_price_vectorized(0, 0).unwrap_err(),
        EngineError::OutOfBounds
    );
    assert_eq!(
        array.find_max_price_vectorized(3, 1).unwrap_err(),
        EngineError::OutOfBounds
    );

    array.push(&CacheOptimizedMarketData::new(b"X", 40, 1)).unwrap();
    assert_eq!(
        array.push(&CacheOptimizedMarketData::new(b"X", 50, 1)).unwrap_err(),
        EngineError::CapacityExceeded
    );
}

#[test]
fn market_data_record_fields() {
    let data = CacheOptimizedMarketData::new(b"AAPL", 15000, 777);
    assert_eq!(data.symbol, *b"AAPL\0\0\0\0");
    assert_eq!(data.symbol_bytes(), b"AAPL".to_vec());
    assert_eq!(data.price, 15000);
    assert_eq!(data.volume, 777);
    assert_eq!(data.bid, 14999);
    assert_eq!(data.ask, 15001);
    assert_eq!(data.high, 15000);
    assert_eq!(data.low, 15000);
    assert_eq!(data.sequence, 0);

    let with_seq = data.with_sequence(42);
    assert_eq!(with_seq.sequence, 42);
    assert_eq!(with_seq.price, 15000);

    // Longer symbols are truncated to the 8-byte field.
    let long = CacheOptimizedMarketData::new(b"LONGSYMBOL", 1, 1);
    assert_eq!(long.symbol, *b"LONGSYMB");
}

#[test]
fn test_moving_average_window() {
    // Period 3; inputs 10, 20, 30, 40 give averages 10, 15, 20, 30.
    let mut ma = CacheOptimizedMovingAverage::new(3).unwrap();
    let mut outputs: Vec<f64> = Vec::new();
    for x in [10i64, 20, 30, 40] {
        let (sum, count) = ma.add(x);
        outputs.push(sum as f64 / count as f64);
    }
    assert_eq!(outputs, vec![10.0, 15.0, 20.0, 30.0]);

    let (sum, count) = ma.current_average();
    assert_eq!((sum, count), (90, 3));
}

#[test]
fn moving_average_exact_sums() {
    let mut ma = CacheOptimizedMovingAverage::new(2).unwrap();
    assert_eq!(ma.current_average(), (0, 0));
    assert_eq!(ma.add(-5), (-5, 1));
    assert_eq!(ma.add(7), (2, 2));
    assert_eq!(ma.add(9), (16, 2));
    assert_eq!(ma.add(-1), (8, 2));

    assert_eq!(
        CacheOptimizedMovingAverage::new(0).err().unwrap(),
        EngineError::InvalidArgument
    );
}

#[test]
fn counters_accumulate_and_wrap_like_fetch_add() {
    let mut counters = CacheAlignedCounters::new();
    counters.update_trade(100, 5);
    counters.update_trade(250, 6);
    counters.update_price(7);
    let stats = counters.get_stats();
    assert_eq!(stats.trades_count, 2);
    assert_eq!(stats.volume_total, 350);
    assert_eq!(stats.price_updates, 1);
    assert_eq!(stats.last_timestamp, 7);

    let mut near_max = CacheAlignedCounters::new();
    near_max.update_trade(u64::MAX, 1);
    near_max.update_trade(3, 2);
    assert_eq!(near_max.get_stats().volume_total, 2);
}

#[test]
fn test_moving_average_performance() {
    let mut ma = CacheOptimizedMovingAverage::new(100).unwrap();
    let iterations: u32 = 100_000;

    let start = std::time::Instant::now();
    for i in 0..iterations {
        ma.add(10000 + i as i64);
    }
    let duration = start.elapsed();

    let avg_latency_ns = duration.as_nanos() / iterations as u128;
    println!("Moving average per operation: {} ns", avg_latency_ns);
    assert!(avg_latency_ns < 100);
}

#[test]
fn market_data_layout_is_one_cache_line() {
    assert_eq!(std::mem::size_of::<CacheOptimizedMarketData>(), 64);
}
