use order_matching_engine::engine::{EngineError, MatchEngine};
use order_matching_engine::order::{BidOrAsk, Order};
use order_matching_engine::orderbook::OrderBook;
use order_matching_engine::pair::TradingPair;
use order_matching_engine::snapshot::{EngineStats, OrderSnapshot, OrderStatus, OrderType};
use order_matching_engine::tick::{price_to_tick, Price};

fn eq(x: f64) -> u64 {
    (x * 100_000_000.0).round() as u64
}

fn ep(mantissa: i128, scale: u32) -> Price {
    Price::new(mantissa, scale).unwrap()
}

fn pair(base: &str, quote: &str) -> TradingPair {
    TradingPair::new(base.to_string(), quote.to_string())
}

fn engine_with(p: &TradingPair) -> MatchEngine {
    let mut engine = MatchEngine::new();
    engine.add_new_market(p.clone());
    engine
}

fn levels(levels: &Vec<order_matching_engine::limit::Limit>) -> Vec<(i64, u64)> {
    levels.iter().map(|l| (l.price(), l.total_volume())).collect()
}

fn all_snapshots(engine: &MatchEngine, up_to: u64) -> Vec<OrderSnapshot> {
    (1..=up_to).filter_map(|id| engine.get_order(id).cloned()).collect()
}

fn check_engine_laws(engine: &MatchEngine, book: &OrderBook, ids: u64) {
    let asks = book.ask_limits();
    let bids = book.bid_limits();
    assert_eq!(book.ask_capacity(), asks.iter().map(|l| l.total_volume()).sum::<u64>());
    assert_eq!(book.bid_capacity(), bids.iter().map(|l| l.total_volume()).sum::<u64>());
    assert!(asks.iter().chain(bids.iter()).all(|l| l.total_volume() > 0));
    if let (Some(a), Some(b)) = (book.best_ask(), book.best_bid()) {
        assert!(a > b);
    }
    let snapshots = all_snapshots(engine, ids);
    for s in snapshots.iter() {
        assert_eq!(s.original_size, s.remaining_size + s.filled_size);
    }
    let filled: u64 = snapshots.iter().map(|s| s.filled_size).sum();
    assert_eq!(filled, 2 * engine.stats().total_matched_qty);
}

#[test]
fn markets_are_registered_once() {
    let mut engine = MatchEngine::new();
    assert!(engine.get_orderbooks().is_empty());
    let btc_usd = pair("btc", "usd");
    let btc_eth = pair("btc", "eth");
    assert_eq!(engine.add_new_market(btc_usd.clone()), 0);
    assert_eq!(engine.add_new_market(btc_eth.clone()), 1);
    assert_eq!(engine.add_new_market(btc_usd.clone()), 0);
    assert_eq!(engine.add_new_market(pair("BTC", "usd")), 2);
    assert_eq!(engine.find_market(&btc_eth), Some(1));
    assert_eq!(engine.find_market(&pair("eth", "btc")), None);
    let names: Vec<String> = engine.get_orderbooks().iter().map(|p| p.to_string()).collect();
    assert_eq!(names, vec!["btc_usd", "btc_eth", "BTC_usd"]);
    assert_eq!(btc_usd.base(), "btc");
    assert_eq!(btc_usd.quote(), "usd");
    assert!(btc_usd.same_as(&pair("btc", "usd")));
    assert!(!btc_usd.same_as(&btc_eth));
    assert!(engine.get_limits_for_a_pair(&pair("eth", "btc")).is_none());
    assert_eq!(engine.get_limits_for_a_pair(&btc_eth).unwrap().ask_capacity(), 0);
}

#[test]
fn a_limit_order_rests_and_is_open() {
    let btc_usd = pair("btc", "usd");
    let mut engine = engine_with(&btc_usd);
    let order = Order::with_user(eq(10.5), BidOrAsk::Bid, "ann".to_string());
    let response = engine.place_limit_order(&btc_usd, ep(102, 1), order).unwrap();
    assert_eq!(
        response.message,
        " received Bid order with size 10.5 in pair btc_usd on price 10.2"
    );
    let s = &response.order;
    assert_eq!(s.id, 1);
    assert_eq!(s.user_id, "ann");
    assert!(s.pair.same_as(&btc_usd));
    assert_eq!(s.side, BidOrAsk::Bid);
    assert_eq!(s.order_type, OrderType::Limit);
    assert_eq!(s.price, Some(102_000));
    assert_eq!(s.original_size, eq(10.5));
    assert_eq!(s.remaining_size, eq(10.5));
    assert_eq!(s.filled_size, 0);
    assert_eq!(s.status, OrderStatus::Open);

    let stored = engine.get_order(1).unwrap();
    assert_eq!(stored.user_id, "ann");
    assert_eq!(stored.status, OrderStatus::Open);
    assert!(engine.get_order(2).is_none());
    assert!(engine.get_order(0).is_none());

    let book = engine.get_limits_for_a_pair(&btc_usd).unwrap();
    assert_eq!(levels(&book.bid_limits()), vec![(102_000, eq(10.5))]);
    assert_eq!(book.bid_capacity(), eq(10.5));
    assert_eq!(book.ask_capacity(), 0);
}

#[test]
fn identifiers_and_users_are_assigned() {
    let btc_usd = pair("btc", "usd");
    let mut engine = engine_with(&btc_usd);
    let first = engine.place_limit_order_raw_by_id_tick(0, 100, Order::new(5, BidOrAsk::Bid));
    assert_eq!(first, Ok(1));
    let mut own = Order::new(5, BidOrAsk::Bid);
    own.id = 77;
    assert_eq!(engine.place_limit_order_raw_by_id_tick(0, 99, own), Ok(77));
    let third = engine.place_limit_order_raw_by_id_tick(0, 98, Order::new(5, BidOrAsk::Bid));
    assert_eq!(third, Ok(2));
    assert_eq!(engine.get_order(1).unwrap().user_id, "unknown");
    assert_eq!(engine.get_order(77).unwrap().price, Some(99));

    let mut market = Order::new(1, BidOrAsk::Ask);
    let report = engine.fill_market_order_raw_by_id(0, &mut market).unwrap();
    assert!(report.fully_filled);
    assert_eq!(market.id, 3);
    assert_eq!(market.user_id, "unknown");
    assert_eq!(engine.get_order(3).unwrap().order_type, OrderType::Market);

    let mut again = Order::new(5, BidOrAsk::Bid);
    again.id = 77;
    assert_eq!(engine.place_limit_order_raw_by_id_tick(0, 97, again), Ok(77));
    assert_eq!(engine.get_order(77).unwrap().price, Some(97));
    assert_eq!(engine.get_orders_for_user("unknown").len(), 4);
}

#[test]
fn orders_are_found_by_user() {
    let btc_usd = pair("btc", "usd");
    let mut engine = engine_with(&btc_usd);
    for (user, price) in [("ann", 100), ("bob", 99), ("ann", 98), ("", 97)] {
        let order = Order::with_user(5, BidOrAsk::Bid, user.to_string());
        engine.place_limit_order_raw_by_id_tick(0, price, order).unwrap();
    }
    let ids: Vec<u64> = engine.get_orders_for_user("ann").iter().map(|s| s.id).collect();
    assert_eq!(ids, vec![1, 3]);
    let ids: Vec<u64> = engine.get_orders_for_user("bob").iter().map(|s| s.id).collect();
    assert_eq!(ids, vec![2]);
    let ids: Vec<u64> = engine.get_orders_for_user("unknown").iter().map(|s| s.id).collect();
    assert_eq!(ids, vec![4]);
    assert!(engine.get_orders_for_user("Ann").is_empty());
    assert!(engine.get_orders_for_user("").is_empty());
}

#[test]
fn an_unknown_market_is_an_error() {
    let btc_usd = pair("btc", "usd");
    let btc_eth = pair("btc", "eth");
    let mut engine = engine_with(&btc_usd);
    let placed = engine.place_limit_order(&btc_eth, ep(10, 0), Order::new(5, BidOrAsk::Bid));
    assert_eq!(placed.unwrap_err(), "the orderbook btc_eth doesn't exist ");
    let mut market = Order::new(5, BidOrAsk::Bid);
    let filled = engine.fill_market_order(&btc_eth, &mut market);
    assert_eq!(filled.unwrap_err(), "the orderbook btc_eth doesn't exist ");
    assert_eq!(market.id, 0);
    assert_eq!(
        engine.place_limit_order_raw_by_id_tick(1, 100, Order::new(5, BidOrAsk::Bid)),
        Err(EngineError::UnknownMarket)
    );
    assert_eq!(
        engine.fill_market_order_raw_by_id(7, &mut market),
        Err(EngineError::UnknownMarket)
    );
    assert!(engine.get_order(1).is_none());
    let next = engine.place_limit_order_raw_by_id_tick(0, 100, Order::new(5, BidOrAsk::Bid));
    assert_eq!(next, Ok(1));
}

#[test]
fn a_crossing_limit_is_rejected_and_changes_nothing() {
    let btc_usd = pair("btc", "usd");
    let mut engine = engine_with(&btc_usd);
    engine.place_limit_order(&btc_usd, ep(105, 1), Order::new(eq(3.0), BidOrAsk::Bid)).unwrap();

    let sell = engine.place_limit_order(&btc_usd, ep(104, 1), Order::new(eq(1.0), BidOrAsk::Ask));
    assert_eq!(
        sell.unwrap_err(),
        "You can not place a sell order on that price 10.4. Try a market order."
    );
    let at_best =
        engine.place_limit_order(&btc_usd, ep(105, 1), Order::new(eq(1.0), BidOrAsk::Ask));
    assert_eq!(
        at_best.unwrap_err(),
        "You can not place a sell order on that price 10.5. Try a market order."
    );
    assert_eq!(
        engine.place_limit_order_raw_by_id_tick(0, 104_000, Order::new(0, BidOrAsk::Ask)),
        Err(EngineError::CrossingLimit)
    );
    {
        let book = engine.get_limits_for_a_pair(&btc_usd).unwrap();
        assert!(book.ask_limits().is_empty());
        assert_eq!(levels(&book.bid_limits()), vec![(105_000, eq(3.0))]);
        assert_eq!(book.ask_capacity(), 0);
    }
    assert!(engine.get_order(2).is_none());

    engine.place_limit_order(&btc_usd, ep(106, 1), Order::new(eq(1.0), BidOrAsk::Ask)).unwrap();
    assert_eq!(engine.get_order(2).unwrap().price, Some(106_000));
    let buy = engine.place_limit_order(&btc_usd, ep(1061, 2), Order::new(eq(1.0), BidOrAsk::Bid));
    assert_eq!(
        buy.unwrap_err(),
        "You can not place a buy order on that price 10.61. Try a market order."
    );
}

#[test]
fn a_side_that_cannot_hold_more_turns_the_order_away() {
    let btc_usd = pair("btc", "usd");
    let mut engine = engine_with(&btc_usd);
    engine.place_limit_order_raw_by_id_tick(0, 100, Order::new(u64::MAX - 5, BidOrAsk::Ask)).unwrap();
    assert_eq!(
        engine.place_limit_order_raw_by_id_tick(0, 101, Order::new(6, BidOrAsk::Ask)),
        Err(EngineError::CapacityExceeded)
    );
    let told = engine.place_limit_order(&btc_usd, ep(101, 4), Order::new(600_000_000, BidOrAsk::Ask));
    assert_eq!(told.unwrap_err(), "The Ask side of btc_usd can not hold another 6");
    assert!(engine.get_order(2).is_none());
    assert_eq!(
        engine.place_limit_order_raw_by_id_tick(0, 101, Order::new(5, BidOrAsk::Ask)),
        Ok(2)
    );
    assert_eq!(engine.get_limits_for_a_pair(&btc_usd).unwrap().ask_capacity(), u64::MAX);
    assert_eq!(
        engine.place_limit_order_raw_by_id_tick(0, 90, Order::new(u64::MAX, BidOrAsk::Bid)),
        Ok(3)
    );
}

#[test]
fn insufficient_liquidity_rejects_the_market_order() {
    let btc_usd = pair("btc", "usd");
    let mut engine = engine_with(&btc_usd);
    engine.place_limit_order(&btc_usd, ep(100, 1), Order::new(eq(100.0), BidOrAsk::Ask)).unwrap();

    let mut buy = Order::new(eq(200.0), BidOrAsk::Bid);
    let response = engine.fill_market_order(&btc_usd, &mut buy).unwrap();
    assert_eq!(response.message, "Not enough ask orders to fill this buy");
    assert_eq!(response.order.status, OrderStatus::Rejected);
    assert_eq!(response.order.id, 2);
    assert_eq!(response.order.price, None);
    assert_eq!(response.order.original_size, eq(200.0));
    assert_eq!(response.order.remaining_size, eq(200.0));
    assert_eq!(response.order.filled_size, 0);
    assert_eq!(buy.size(), eq(200.0));
    assert_eq!(buy.id, 2);

    let mut sell = Order::new(1, BidOrAsk::Ask);
    let response = engine.fill_market_order(&btc_usd, &mut sell).unwrap();
    assert_eq!(response.message, "Not enough bid orders to fill this sell");
    assert_eq!(response.order.status, OrderStatus::Rejected);

    let book = engine.get_limits_for_a_pair(&btc_usd).unwrap();
    assert_eq!(book.ask_capacity(), eq(100.0));
    assert_eq!(levels(&book.ask_limits()), vec![(100_000, eq(100.0))]);
    assert_eq!(engine.get_order(1).unwrap().status, OrderStatus::Open);
    assert_eq!(
        engine.stats(),
        EngineStats {
            fills_total: 0,
            resting_orders_consumed_total: 0,
            levels_crossed_total: 0,
            total_matched_qty: 0,
        }
    );
}

#[test]
fn fills_reach_the_snapshots_of_both_sides() {
    let btc_usd = pair("btc", "usd");
    let mut engine = engine_with(&btc_usd);
    for price in 100..=103 {
        let order = Order::new(eq(100.0), BidOrAsk::Ask);
        engine.place_limit_order(&btc_usd, Price::from_units(price), order).unwrap();
    }
    let mut buy = Order::with_user(eq(250.0), BidOrAsk::Bid, "cat".to_string());
    let response = engine.fill_market_order(&btc_usd, &mut buy).unwrap();
    assert_eq!(response.message, "Successfully filled 250 Bid market orders");
    assert_eq!(response.order.status, OrderStatus::Filled);
    assert_eq!(response.order.id, 5);
    assert_eq!(response.order.user_id, "cat");
    assert_eq!(response.order.filled_size, eq(250.0));
    assert_eq!(response.order.remaining_size, 0);
    assert!(buy.is_filled());

    let expected = [
        (1, OrderStatus::Filled, 0.0, 100.0),
        (2, OrderStatus::Filled, 0.0, 100.0),
        (3, OrderStatus::PartiallyFilled, 50.0, 50.0),
        (4, OrderStatus::Open, 100.0, 0.0),
    ];
    for (id, status, remaining, filled) in expected {
        let s = engine.get_order(id).unwrap();
        assert_eq!(s.status, status);
        assert_eq!(s.remaining_size, eq(remaining));
        assert_eq!(s.filled_size, eq(filled));
        assert_eq!(s.original_size, eq(100.0));
    }
    assert_eq!(
        engine.stats(),
        EngineStats {
            fills_total: 3,
            resting_orders_consumed_total: 2,
            levels_crossed_total: 3,
            total_matched_qty: eq(250.0),
        }
    );
    let book = engine.get_limits_for_a_pair(&btc_usd).unwrap();
    assert_eq!(
        levels(&book.ask_limits()),
        vec![
            (price_to_tick(Price::from_units(102)), eq(50.0)),
            (price_to_tick(Price::from_units(103)), eq(100.0)),
        ]
    );
    assert_eq!(book.ask_capacity(), eq(150.0));
    check_engine_laws(&engine, book, 5);
}

#[test]
fn the_laws_hold_along_a_mixed_run() {
    let btc_usd = pair("btc", "usd");
    let mut engine = engine_with(&btc_usd);
    let mut ids = 0u64;
    for round in 0..40u64 {
        let bid = 1_000 - (round % 7) as i64;
        let ask = 1_010 + (round % 5) as i64;
        engine.place_limit_order_raw_by_id_tick(0, bid, Order::new(3 + round % 4, BidOrAsk::Bid)).unwrap();
        engine.place_limit_order_raw_by_id_tick(0, ask, Order::new(2 + round % 3, BidOrAsk::Ask)).unwrap();
        ids += 2;
        let side = if round % 2 == 0 { BidOrAsk::Bid } else { BidOrAsk::Ask };
        let mut market = Order::new(1 + (round * 5) % 11, side);
        let before = {
            let book = engine.get_limits_for_a_pair(&btc_usd).unwrap();
            (book.ask_capacity(), book.bid_capacity())
        };
        let size = market.size();
        let report = engine.fill_market_order_raw_by_id(0, &mut market).unwrap();
        ids += 1;
        let book = engine.get_limits_for_a_pair(&btc_usd).unwrap();
        let after = (book.ask_capacity(), book.bid_capacity());
        let opposing = if side == BidOrAsk::Bid { (before.0, after.0) } else { (before.1, after.1) };
        if report.insufficient_liquidity {
            assert_eq!(after, before);
            assert_eq!(market.size(), size);
        } else {
            assert_eq!(opposing.1, opposing.0 - size);
            assert_eq!(market.size(), 0);
        }
        check_engine_laws(&engine, book, ids);
    }
    assert!(engine.stats().total_matched_qty > 0);
}

#[test]
fn counters_add_up_and_reset() {
    let btc_usd = pair("btc", "usd");
    let mut engine = engine_with(&btc_usd);
    for _ in 0..4 {
        engine.place_limit_order_raw_by_id_tick(0, 100, Order::new(5, BidOrAsk::Ask)).unwrap();
    }
    let mut a = Order::new(7, BidOrAsk::Bid);
    engine.fill_market_order_raw_by_id(0, &mut a).unwrap();
    let mut b = Order::new(3, BidOrAsk::Bid);
    engine.fill_market_order_raw_by_id(0, &mut b).unwrap();
    assert_eq!(
        engine.stats(),
        EngineStats {
            fills_total: 3,
            resting_orders_consumed_total: 2,
            levels_crossed_total: 2,
            total_matched_qty: 10,
        }
    );
    engine.reset_stats();
    assert_eq!(
        engine.stats(),
        EngineStats {
            fills_total: 0,
            resting_orders_consumed_total: 0,
            levels_crossed_total: 0,
            total_matched_qty: 0,
        }
    );
    assert_eq!(engine.get_order(1).unwrap().status, OrderStatus::Filled);
    assert_eq!(engine.get_limits_for_a_pair(&btc_usd).unwrap().ask_capacity(), 10);
}

#[test]
fn orders_name_their_side() {
    let order = Order::new(4, BidOrAsk::Ask);
    assert_eq!(order.get_bid_or_ask(), "Ask");
    assert_eq!(order.bid_or_ask(), BidOrAsk::Ask);
    assert_eq!(order.id(), 0);
    assert!(!order.is_filled());
    assert_eq!(Order::new(0, BidOrAsk::Bid).get_bid_or_ask(), "Bid");
    assert!(Order::new(0, BidOrAsk::Bid).is_filled());
    assert_eq!(BidOrAsk::Bid.opposite(), BidOrAsk::Ask);
    assert_eq!(BidOrAsk::Ask.opposite(), BidOrAsk::Bid);
}
