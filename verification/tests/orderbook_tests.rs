// Prices and quantities are integers in fixed units; these tests use a unit
// of one hundredth, so a price of 150.00 is written 15000.

use calculation_engine::orderbook::{Order, OrderBook, OrderBookManager, PriceLevel, Side};
use calculation_engine::EngineError;

fn order(id: &str, side: Side, price: u64, quantity: u64) -> Order {
    Order { order_id: id.to_string(), side, price, quantity, timestamp: 1 }
}

#[test]
fn test_order_book_basic_operations() {
    let mut book = OrderBook::new("AAPL".to_string());

    book.add_order(order("buy1", Side::Buy, 15000, 100)).unwrap();
    book.add_order(order("sell1", Side::Sell, 15005, 200)).unwrap();

    let bbo = book.get_best_bid_offer();
    assert_eq!(bbo.bid_price, Some(15000));
    assert_eq!(bbo.ask_price, Some(15005));
    assert_eq!(bbo.bid_size, Some(100));
    assert_eq!(bbo.ask_size, Some(200));
    assert_eq!(bbo.spread, Some(5));

    // The midpoint is carried doubled so the half-unit value 150.025 is
    // exact: 15000 + 15005 = 30005 half-units.
    assert_eq!(bbo.mid_price_x2, Some(30005));
    assert_eq!(bbo.mid_price_x2.unwrap() as f64 / 2.0 / 100.0, 150.025);
    assert_eq!(bbo.spread.unwrap() as f64 / 100.0, 0.05);
    assert_eq!(bbo.symbol, "AAPL");
}

#[test]
fn test_order_book_performance() {
    let mut book = OrderBook::new("AAPL".to_string());
    let num_orders = 10_000u64;

    let start = std::time::Instant::now();
    for i in 0..num_orders {
        book.add_order(order(&format!("buy_{}", i), Side::Buy, 15000 - i, 100)).unwrap();
        book.add_order(order(&format!("sell_{}", i), Side::Sell, 15005 + i, 100)).unwrap();
    }
    let duration = start.elapsed();
    let ops_per_sec = (num_orders * 2) as f64 / duration.as_secs_f64();
    println!("Order book throughput: {:.0} orders/sec", ops_per_sec);
    assert!(ops_per_sec > 100_000.0);

    let start = std::time::Instant::now();
    let snapshot = book.get_level2_snapshot(10);
    let snapshot_duration = start.elapsed();
    println!("Level 2 snapshot: {:?}", snapshot_duration);
    assert!(snapshot_duration.as_micros() < 100);
    assert_eq!(snapshot.bids.len(), 10);
    assert_eq!(snapshot.bids[0].price, 15000);
    assert_eq!(snapshot.asks[0].price, 15005);
}

#[test]
fn test_order_book_spread_calculation() {
    let mut book = OrderBook::new("AAPL".to_string());

    book.add_order(order("buy1", Side::Buy, 10000, 100)).unwrap();
    book.add_order(order("sell1", Side::Sell, 10010, 100)).unwrap();

    let stats = book.get_statistics();
    assert!(stats.spread_milli_bps.is_some());

    // A spread of 0.10 on a 100.05 midpoint is 9.995 basis points; the book
    // reports thousandths of a basis point, rounded toward zero.
    let spread_milli_bps = stats.spread_milli_bps.unwrap();
    assert_eq!(spread_milli_bps, 9995);
    assert!((spread_milli_bps as f64 / 1000.0 - 10.0).abs() < 1.0);
}

#[test]
fn book_vwap_over_top_depth() {
    let mut book = OrderBook::new("AAPL".to_string());
    book.add_order(order("b1", Side::Buy, 100, 5)).unwrap();
    book.add_order(order("b2", Side::Buy, 99, 5)).unwrap();
    book.add_order(order("b3", Side::Buy, 98, 10)).unwrap();

    let (weighted, volume) = book.calculate_vwap(Side::Buy, 3).unwrap();
    assert_eq!(weighted, 100 * 5 + 99 * 5 + 98 * 10);
    assert_eq!(volume, 20);
    assert_eq!(weighted as f64 / volume as f64, 98.75);

    // A single level's weighted average is its own price.
    let (w1, v1) = book.calculate_vwap(Side::Buy, 1).unwrap();
    assert_eq!(w1 as f64 / v1 as f64, 100.0);

    assert!(book.calculate_vwap(Side::Sell, 3).is_none());
    assert!(book.calculate_vwap(Side::Buy, 0).is_none());
}

#[test]
fn sequence_strictly_increases_per_mutation() {
    let mut book = OrderBook::new("X".to_string());
    assert_eq!(book.sequence(), 0);
    book.add_order(order("a", Side::Buy, 10, 1)).unwrap();
    assert_eq!(book.sequence(), 1);
    book.add_order(order("b", Side::Sell, 12, 2)).unwrap();
    assert_eq!(book.sequence(), 2);
    book.remove_quantity(Side::Buy, 10, 1).unwrap();
    assert_eq!(book.sequence(), 3);
    book.clear();
    assert_eq!(book.sequence(), 4);
}

#[test]
fn clear_yields_null_quotes_and_zero_volumes() {
    let mut book = OrderBook::new("X".to_string());
    book.add_order(order("a", Side::Buy, 10, 5)).unwrap();
    book.add_order(order("b", Side::Sell, 12, 7)).unwrap();
    book.clear();

    let bbo = book.get_best_bid_offer();
    assert_eq!(bbo.bid_price, None);
    assert_eq!(bbo.ask_price, None);
    assert_eq!(bbo.bid_size, None);
    assert_eq!(bbo.ask_size, None);
    assert_eq!(bbo.spread, None);
    assert_eq!(bbo.mid_price_x2, None);

    let stats = book.get_statistics();
    assert_eq!(stats.total_bid_volume, 0);
    assert_eq!(stats.total_ask_volume, 0);
    assert_eq!(stats.bid_levels, 0);
    assert_eq!(stats.ask_levels, 0);
    assert_eq!(stats.spread_milli_bps, None);
}

#[test]
fn best_quotes_track_ladder_extremes() {
    let mut book = OrderBook::new("X".to_string());
    book.add_order(order("a", Side::Buy, 10, 1)).unwrap();
    book.add_order(order("b", Side::Buy, 14, 2)).unwrap();
    book.add_order(order("c", Side::Buy, 12, 3)).unwrap();
    book.add_order(order("d", Side::Sell, 20, 4)).unwrap();
    book.add_order(order("e", Side::Sell, 17, 5)).unwrap();
    book.add_order(order("f", Side::Sell, 19, 6)).unwrap();

    let bbo = book.get_best_bid_offer();
    assert_eq!(bbo.bid_price, Some(14));
    assert_eq!(bbo.ask_price, Some(17));
    assert_eq!(bbo.bid_size, Some(2));
    assert_eq!(bbo.ask_size, Some(5));

    // Draining the best level uncovers the next-best price.
    book.remove_quantity(Side::Buy, 14, 2).unwrap();
    book.remove_quantity(Side::Sell, 17, 5).unwrap();
    let bbo = book.get_best_bid_offer();
    assert_eq!(bbo.bid_price, Some(12));
    assert_eq!(bbo.ask_price, Some(19));

    // Removing part of a level keeps the level with reduced size.
    book.remove_quantity(Side::Buy, 12, 1).unwrap();
    let bbo = book.get_best_bid_offer();
    assert_eq!(bbo.bid_price, Some(12));
    assert_eq!(bbo.bid_size, Some(2));
}

#[test]
fn order_book_error_cases() {
    let mut book = OrderBook::new("X".to_string());
    assert_eq!(
        book.add_order(order("a", Side::Buy, 0, 5)).unwrap_err(),
        EngineError::InvalidArgument
    );
    assert_eq!(
        book.add_order(order("a", Side::Buy, 10, 0)).unwrap_err(),
        EngineError::InvalidArgument
    );
    assert_eq!(
        book.remove_quantity(Side::Buy, 10, 1).unwrap_err(),
        EngineError::NotFound
    );
    book.add_order(order("a", Side::Buy, 10, 5)).unwrap();
    assert_eq!(
        book.remove_quantity(Side::Buy, 10, 6).unwrap_err(),
        EngineError::InsufficientSize
    );
    assert_eq!(
        book.remove_quantity(Side::Sell, 10, 1).unwrap_err(),
        EngineError::NotFound
    );
}

#[test]
fn aggregated_levels_merge_orders_at_one_price() {
    let mut book = OrderBook::new("X".to_string());
    book.add_order(order("a", Side::Buy, 10, 5)).unwrap();
    book.add_order(order("b", Side::Buy, 10, 7)).unwrap();
    let snapshot = book.get_level2_snapshot(5);
    assert_eq!(snapshot.bids.len(), 1);
    assert_eq!(snapshot.bids[0].size, 12);
    assert_eq!(snapshot.bids[0].order_count, 2);
    let stats = book.get_statistics();
    assert_eq!(stats.total_bid_volume, 12);
}

#[test]
fn manager_creates_books_lazily_and_routes_orders() {
    let mut mgr = OrderBookManager::new();
    let i = mgr.get_or_create_book("AAPL");
    let j = mgr.get_or_create_book("MSFT");
    let again = mgr.get_or_create_book("AAPL");
    assert_eq!(i, again);
    assert_ne!(i, j);

    mgr.add_order("AAPL", order("a", Side::Buy, 15000, 10)).unwrap();
    mgr.add_order("GOOG", order("b", Side::Sell, 9000, 3)).unwrap();

    let symbols = mgr.get_symbols();
    assert_eq!(symbols, vec!["AAPL".to_string(), "MSFT".to_string(), "GOOG".to_string()]);

    let aapl = mgr.get_book("AAPL").unwrap();
    assert_eq!(aapl.get_best_bid_offer().bid_price, Some(15000));
    assert!(mgr.get_book("TSLA").is_none());
}

#[test]
fn manager_touches_only_the_symbols_book() {
    // Mutations through the manager leave every other symbol's book as it
    // was, and failed orders leave even the target book untouched.
    let mut mgr = OrderBookManager::new();
    mgr.add_order("AAPL", order("a", Side::Buy, 15000, 10)).unwrap();
    mgr.add_order("MSFT", order("b", Side::Buy, 40000, 7)).unwrap();

    mgr.add_order("MSFT", order("c", Side::Sell, 40010, 3)).unwrap();
    mgr.process_market_data(
        "GOOG",
        vec![PriceLevel { price: 9000, size: 2, order_count: 1, timestamp: 4 }],
        Vec::new(),
    );

    let aapl = mgr.get_book("AAPL").unwrap();
    assert_eq!(aapl.sequence(), 1);
    assert_eq!(aapl.get_best_bid_offer().bid_price, Some(15000));
    assert_eq!(aapl.get_statistics().total_bid_volume, 10);

    assert_eq!(
        mgr.add_order("MSFT", order("d", Side::Buy, 0, 5)).unwrap_err(),
        EngineError::InvalidArgument
    );
    let msft = mgr.get_book("MSFT").unwrap();
    assert_eq!(msft.sequence(), 2);
    assert_eq!(msft.get_statistics().total_bid_volume, 7);
    assert_eq!(msft.get_statistics().total_ask_volume, 3);

    // A rejected order on a new symbol still creates its empty book.
    assert_eq!(
        mgr.add_order("TSLA", order("e", Side::Buy, 10, 0)).unwrap_err(),
        EngineError::InvalidArgument
    );
    let tsla = mgr.get_book("TSLA").unwrap();
    assert_eq!(tsla.sequence(), 0);
    assert_eq!(tsla.get_level2_snapshot(5).bids.len(), 0);
}

#[test]
fn manager_rebuilds_book_from_market_data() {
    let mut mgr = OrderBookManager::new();
    mgr.add_order("AAPL", order("old", Side::Buy, 1, 1)).unwrap();

    let bids = vec![
        PriceLevel { price: 100, size: 5, order_count: 1, timestamp: 9 },
        PriceLevel { price: 99, size: 5, order_count: 1, timestamp: 9 },
    ];
    let asks = vec![PriceLevel { price: 101, size: 4, order_count: 1, timestamp: 9 }];
    mgr.process_market_data("AAPL", bids, asks);

    let book = mgr.get_book("AAPL").unwrap();
    let bbo = book.get_best_bid_offer();
    assert_eq!(bbo.bid_price, Some(100));
    assert_eq!(bbo.ask_price, Some(101));
    let stats = book.get_statistics();
    assert_eq!(stats.total_bid_volume, 10);
    assert_eq!(stats.total_ask_volume, 4);
    assert_eq!(stats.bid_levels, 2);
    assert_eq!(stats.ask_levels, 1);
}
