use order_matching_engine::engine::MatchEngine;
use order_matching_engine::order::{BidOrAsk, Order};
use order_matching_engine::pair::TradingPair;
use order_matching_engine::tick::{price_to_tick, Price, Tick};

fn cq(x: f64) -> u64 {
    (x * 100_000_000.0).round() as u64
}

fn cp(mantissa: i128, scale: u32) -> Price {
    Price::new(mantissa, scale).unwrap()
}

#[test]
fn test_market_order_matching_scenario() {
    let mut engine = MatchEngine::new();
    let btc_usd = TradingPair::new("btc".to_string(), "usd".to_string());
    engine.add_new_market(btc_usd.clone());

    let ask_11_3 = Order::new(cq(40.0), BidOrAsk::Ask);
    let _ = engine.place_limit_order(&btc_usd, cp(113, 1), ask_11_3);

    let ask_12_0 = Order::new(cq(50.0), BidOrAsk::Ask);
    let _ = engine.place_limit_order(&btc_usd, cp(120, 1), ask_12_0);

    let ask_11_0 = Order::new(cq(1.0), BidOrAsk::Ask);
    let _ = engine.place_limit_order(&btc_usd, cp(110, 1), ask_11_0);

    let bid_10_0 = Order::new(cq(100.0), BidOrAsk::Bid);
    let _ = engine.place_limit_order(&btc_usd, cp(100, 1), bid_10_0);

    let mut market_buy = Order::new(cq(5.0), BidOrAsk::Bid);
    let _ = engine.fill_market_order(&btc_usd, &mut market_buy);

    assert!(market_buy.is_filled(), "Market order should be fully filled");
    assert_eq!(market_buy.size(), 0, "Market order size should be 0 after filling");

    let orderbook = engine.get_limits_for_a_pair(&btc_usd).unwrap();

    let ask_limits = orderbook.ask_limits();

    assert_eq!(ask_limits.len(), 2, "Should have 2 ask levels remaining");

    let mut ask_11_3_found = false;
    let mut ask_12_0_found = false;

    for limit in ask_limits {
        if limit.price() == price_to_tick(cp(113, 1)) {
            ask_11_3_found = true;
            assert_eq!(limit.total_volume(), cq(36.0), "11.3 ask should have 36.0 remaining (40 - 4)");
        }
        if limit.price() == price_to_tick(cp(120, 1)) {
            ask_12_0_found = true;
            assert_eq!(limit.total_volume(), cq(50.0), "12.0 ask should have 50.0 remaining");
        }
    }

    assert!(ask_11_3_found, "Should find 11.3 ask level");
    assert!(ask_12_0_found, "Should find 12.0 ask level");

    let bid_limits = orderbook.bid_limits();
    assert_eq!(bid_limits.len(), 1, "Should have 1 bid level");
    assert_eq!(bid_limits[0].price(), price_to_tick(cp(100, 1)), "Bid should be at 10.0");
    assert_eq!(bid_limits[0].total_volume(), cq(100.0), "Bid should still have 100.0");
}

#[test]
fn test_asks_sorted_ascending() {
    let mut engine = MatchEngine::new();
    let btc_usd = TradingPair::new("btc".to_string(), "usd".to_string());
    engine.add_new_market(btc_usd.clone());

    let prices = vec![cp(1050, 1), cp(1000, 1), cp(1020, 1), cp(1010, 1), cp(1040, 1)];

    for price in prices {
        let order = Order::new(cq(10.0), BidOrAsk::Ask);
        let _ = engine.place_limit_order(&btc_usd, price, order);
    }

    let orderbook = engine.get_limits_for_a_pair(&btc_usd).unwrap();
    let asks = orderbook.ask_limits();

    let mut last_price = Tick::MIN;
    for ask in asks {
        assert!(ask.price() >= last_price, "Asks should be sorted in ascending order");
        last_price = ask.price();
    }
}

#[test]
fn test_bids_sorted_descending() {
    let mut engine = MatchEngine::new();
    let btc_usd = TradingPair::new("btc".to_string(), "usd".to_string());
    engine.add_new_market(btc_usd.clone());

    let prices = vec![cp(950, 1), cp(1000, 1), cp(980, 1), cp(990, 1), cp(960, 1)];

    for price in prices {
        let order = Order::new(cq(10.0), BidOrAsk::Bid);
        let _ = engine.place_limit_order(&btc_usd, price, order);
    }

    let orderbook = engine.get_limits_for_a_pair(&btc_usd).unwrap();
    let bids = orderbook.bid_limits();

    let mut last_price = Tick::MAX;
    for bid in bids {
        assert!(bid.price() <= last_price, "Bids should be sorted in descending order");
        last_price = bid.price();
    }
}

#[test]
fn test_partial_fill_at_multiple_levels() {
    let mut engine = MatchEngine::new();
    let btc_usd = TradingPair::new("btc".to_string(), "usd".to_string());
    engine.add_new_market(btc_usd.clone());

    for price in 10..=13 {
        let order = Order::new(cq(100.0), BidOrAsk::Ask);
        let _ = engine.place_limit_order(&btc_usd, Price::from_units(price), order);
    }

    let mut market_buy = Order::new(cq(250.0), BidOrAsk::Bid);
    let _ = engine.fill_market_order(&btc_usd, &mut market_buy);

    assert!(market_buy.is_filled(), "Market order should be fully filled");

    let orderbook = engine.get_limits_for_a_pair(&btc_usd).unwrap();
    let asks = orderbook.ask_limits();

    assert_eq!(asks.len(), 2, "Should have 2 ask levels remaining");

    let mut ask_12_found = false;
    let mut ask_13_found = false;

    for ask in asks {
        if ask.price() == price_to_tick(Price::from_units(12)) {
            ask_12_found = true;
            assert_eq!(ask.total_volume(), cq(50.0), "Ask at 12 should have 50.0 left");
        }
        if ask.price() == price_to_tick(Price::from_units(13)) {
            ask_13_found = true;
            assert_eq!(ask.total_volume(), cq(100.0), "Ask at 13 should have 100.0 left");
        }
    }

    assert!(ask_12_found && ask_13_found, "Should have correct remaining asks");
}

#[test]
fn test_insufficient_liquidity() {
    let mut engine = MatchEngine::new();
    let btc_usd = TradingPair::new("btc".to_string(), "usd".to_string());
    engine.add_new_market(btc_usd.clone());

    let order = Order::new(cq(100.0), BidOrAsk::Ask);
    let _ = engine.place_limit_order(&btc_usd, cp(100, 1), order);

    let mut market_buy = Order::new(cq(200.0), BidOrAsk::Bid);
    let result = engine.fill_market_order(&btc_usd, &mut market_buy);

    match result {
        Ok(response) => {
            assert!(response.message.contains("Not enough"), "Should mention insufficient liquidity");
        }
        Err(msg) => {
            assert!(msg.contains("Not enough"), "Should mention insufficient liquidity");
        }
    }
}
