use order_matching_engine::limit::{FillStats, Limit};
use order_matching_engine::order::{BidOrAsk, Fill, Order, RestingOrder};
use order_matching_engine::orderbook::{FillReport, OrderBook};
use order_matching_engine::tick::Tick;

fn resting(book: &mut OrderBook, side: BidOrAsk, price: Tick, id: u64, size: u64) {
    let mut order = Order::new(size, side);
    order.id = id;
    assert!(!book.crosses(price, side));
    book.add_limit_order(price, order);
}

fn volumes(levels: &Vec<Limit>) -> Vec<(Tick, u64)> {
    levels.iter().map(|l| (l.price(), l.total_volume())).collect()
}

fn check_book_laws(book: &OrderBook) {
    let asks = book.ask_limits();
    let bids = book.bid_limits();
    assert_eq!(book.ask_capacity(), asks.iter().map(|l| l.total_volume()).sum::<u64>());
    assert_eq!(book.bid_capacity(), bids.iter().map(|l| l.total_volume()).sum::<u64>());
    for level in asks.iter().chain(bids.iter()) {
        assert!(level.total_volume() > 0);
        assert!(level.order_count() > 0);
        let orders = level.orders();
        assert_eq!(orders.len(), level.order_count());
        assert!(orders.iter().all(|o| o.qty > 0));
        assert_eq!(orders.iter().map(|o| o.qty).sum::<u64>(), level.total_volume());
    }
    if let (Some(a), Some(b)) = (book.best_ask(), book.best_bid()) {
        assert!(a > b);
    }
    assert_eq!(book.best_ask(), asks.first().map(|l| l.price()));
    assert_eq!(book.best_bid(), bids.first().map(|l| l.price()));
}

#[test]
fn a_level_fills_from_its_head() {
    let mut level = Limit::new(70);
    assert_eq!(level.price(), 70);
    assert_eq!(level.total_volume(), 0);
    level.add_order(RestingOrder::new(11, 5));
    level.add_order(RestingOrder::new(12, 3));
    level.add_order(RestingOrder::new(13, 4));
    assert_eq!(level.total_volume(), 12);

    let mut incoming = Order::new(9, BidOrAsk::Bid);
    let mut fills: Vec<Fill> = vec![Fill { order_id: 99, qty: 1 }];
    let stats = level.fill_order(&mut incoming, &mut fills);

    assert_eq!(
        stats,
        FillStats { fills_total: 3, resting_orders_consumed: 2, total_matched_qty: 9 }
    );
    assert_eq!(
        fills,
        vec![
            Fill { order_id: 99, qty: 1 },
            Fill { order_id: 11, qty: 5 },
            Fill { order_id: 12, qty: 3 },
            Fill { order_id: 13, qty: 1 },
        ]
    );
    assert_eq!(incoming.size(), 0);
    assert_eq!(level.orders(), vec![RestingOrder::new(13, 3)]);
    assert_eq!(level.total_volume(), 3);
    assert_eq!(level.price(), 70);
}

#[test]
fn a_level_gives_no_more_than_it_holds() {
    let mut level = Limit::new(1);
    level.add_order(RestingOrder::new(1, 2));
    level.add_order(RestingOrder::new(2, 2));
    let mut incoming = Order::new(10, BidOrAsk::Ask);
    let mut fills: Vec<Fill> = Vec::new();
    let stats = level.fill_order(&mut incoming, &mut fills);
    assert_eq!(
        stats,
        FillStats { fills_total: 2, resting_orders_consumed: 2, total_matched_qty: 4 }
    );
    assert_eq!(incoming.size(), 6);
    assert_eq!(level.order_count(), 0);
    assert_eq!(level.total_volume(), 0);

    let mut nothing = Order::new(0, BidOrAsk::Ask);
    let mut level = Limit::new(1);
    level.add_order(RestingOrder::new(1, 2));
    let stats = level.fill_order(&mut nothing, &mut fills);
    assert_eq!(
        stats,
        FillStats { fills_total: 0, resting_orders_consumed: 0, total_matched_qty: 0 }
    );
    assert_eq!(level.orders(), vec![RestingOrder::new(1, 2)]);
    assert_eq!(fills.len(), 2);
}

#[test]
fn asks_are_listed_ascending() {
    let mut book = OrderBook::new();
    for (i, price) in [105, 100, 102, 101, 104].iter().enumerate() {
        resting(&mut book, BidOrAsk::Ask, *price, i as u64 + 1, 10);
    }
    assert_eq!(book.best_ask(), Some(100));
    assert_eq!(book.first_price_ask(), 100);
    assert_eq!(book.best_bid(), None);
    assert_eq!(
        volumes(&book.ask_limits()),
        vec![(100, 10), (101, 10), (102, 10), (104, 10), (105, 10)]
    );
    assert_eq!(book.ask_capacity(), 50);
    assert_eq!(book.bid_capacity(), 0);
    check_book_laws(&book);
}

#[test]
fn bids_are_listed_descending() {
    let mut book = OrderBook::new();
    for (i, price) in [95, 100, 98, 99, 96].iter().enumerate() {
        resting(&mut book, BidOrAsk::Bid, *price, i as u64 + 1, 10);
    }
    assert_eq!(book.best_bid(), Some(100));
    assert_eq!(book.first_price_bid(), 100);
    assert_eq!(book.best_ask(), None);
    assert_eq!(
        volumes(&book.bid_limits()),
        vec![(100, 10), (99, 10), (98, 10), (96, 10), (95, 10)]
    );
    assert_eq!(book.bid_capacity(), 50);
    assert_eq!(book.ask_capacity(), 0);
    check_book_laws(&book);
}

#[test]
fn a_sweep_takes_the_best_price_and_the_earliest_order_first() {
    let mut book = OrderBook::new();
    resting(&mut book, BidOrAsk::Ask, 113, 1, 40);
    resting(&mut book, BidOrAsk::Ask, 120, 2, 50);
    resting(&mut book, BidOrAsk::Ask, 110, 3, 1);
    resting(&mut book, BidOrAsk::Ask, 113, 4, 7);
    resting(&mut book, BidOrAsk::Bid, 100, 5, 100);

    let mut order = Order::new(45, BidOrAsk::Bid);
    let mut fills: Vec<Fill> = Vec::new();
    let report = book.match_market(&mut order, &mut fills);

    assert_eq!(
        report,
        FillReport {
            insufficient_liquidity: false,
            fully_filled: true,
            filled_qty: 45,
            remaining_qty: 0,
            fills_total: 3,
            resting_orders_consumed: 2,
            levels_crossed: 2,
            total_matched_qty: 45,
        }
    );
    assert_eq!(
        fills,
        vec![
            Fill { order_id: 3, qty: 1 },
            Fill { order_id: 1, qty: 40 },
            Fill { order_id: 4, qty: 4 },
        ]
    );
    assert_eq!(order.size(), 0);
    assert_eq!(volumes(&book.ask_limits()), vec![(113, 3), (120, 50)]);
    assert_eq!(book.ask_limits()[0].orders(), vec![RestingOrder::new(4, 3)]);
    assert_eq!(volumes(&book.bid_limits()), vec![(100, 100)]);
    assert_eq!(book.ask_capacity(), 53);
    assert_eq!(book.bid_capacity(), 100);
    check_book_laws(&book);
}

#[test]
fn a_sweep_of_bids_starts_at_the_highest() {
    let mut book = OrderBook::new();
    resting(&mut book, BidOrAsk::Bid, 95, 1, 10);
    resting(&mut book, BidOrAsk::Bid, 100, 2, 10);
    resting(&mut book, BidOrAsk::Bid, 98, 3, 10);
    resting(&mut book, BidOrAsk::Ask, 101, 4, 10);

    let mut order = Order::new(20, BidOrAsk::Ask);
    let mut fills: Vec<Fill> = Vec::new();
    let report = book.match_market(&mut order, &mut fills);
    assert_eq!(report.levels_crossed, 2);
    assert_eq!(report.resting_orders_consumed, 2);
    assert_eq!(fills, vec![Fill { order_id: 2, qty: 10 }, Fill { order_id: 3, qty: 10 }]);
    assert_eq!(volumes(&book.bid_limits()), vec![(95, 10)]);
    assert_eq!(volumes(&book.ask_limits()), vec![(101, 10)]);
    check_book_laws(&book);
}

#[test]
fn a_market_order_is_all_or_nothing() {
    let mut book = OrderBook::new();
    resting(&mut book, BidOrAsk::Ask, 100, 1, 60);
    resting(&mut book, BidOrAsk::Ask, 101, 2, 40);

    let mut too_large = Order::new(101, BidOrAsk::Bid);
    let mut fills: Vec<Fill> = Vec::new();
    let report = book.match_market(&mut too_large, &mut fills);
    assert_eq!(
        report,
        FillReport {
            insufficient_liquidity: true,
            fully_filled: false,
            filled_qty: 0,
            remaining_qty: 101,
            fills_total: 0,
            resting_orders_consumed: 0,
            levels_crossed: 0,
            total_matched_qty: 0,
        }
    );
    assert!(fills.is_empty());
    assert_eq!(too_large.size(), 101);
    assert_eq!(volumes(&book.ask_limits()), vec![(100, 60), (101, 40)]);
    assert_eq!(book.ask_capacity(), 100);

    let mut exact = Order::new(100, BidOrAsk::Bid);
    let report = book.fill_order_book(&mut exact);
    assert!(report.fully_filled);
    assert!(!report.insufficient_liquidity);
    assert_eq!(report.fills_total, 2);
    assert_eq!(report.levels_crossed, 2);
    assert_eq!(exact.size(), 0);
    assert!(book.ask_limits().is_empty());
    assert_eq!(book.ask_capacity(), 0);
    assert_eq!(book.best_ask(), None);
    check_book_laws(&book);
}

#[test]
fn orders_of_size_zero_change_nothing() {
    let mut book = OrderBook::new();
    resting(&mut book, BidOrAsk::Ask, 100, 1, 60);
    book.add_limit_order(105, Order::new(0, BidOrAsk::Ask));
    book.add_limit_order(90, Order::new(0, BidOrAsk::Bid));
    assert_eq!(volumes(&book.ask_limits()), vec![(100, 60)]);
    assert!(book.bid_limits().is_empty());

    let mut nothing = Order::new(0, BidOrAsk::Bid);
    let mut fills: Vec<Fill> = Vec::new();
    let report = book.match_market(&mut nothing, &mut fills);
    assert!(report.fully_filled);
    assert!(!report.insufficient_liquidity);
    assert_eq!(report.fills_total, 0);
    assert_eq!(report.levels_crossed, 0);
    assert!(fills.is_empty());
    assert_eq!(volumes(&book.ask_limits()), vec![(100, 60)]);

    let mut empty_side = Order::new(0, BidOrAsk::Ask);
    let report = book.match_market(&mut empty_side, &mut fills);
    assert!(report.fully_filled);
    check_book_laws(&book);
}

#[test]
fn crossing_is_told_from_the_opposing_best() {
    let mut book = OrderBook::new();
    assert!(!book.crosses(100, BidOrAsk::Ask));
    assert!(!book.crosses(100, BidOrAsk::Bid));
    resting(&mut book, BidOrAsk::Bid, 105, 1, 10);
    resting(&mut book, BidOrAsk::Ask, 110, 2, 10);
    assert!(book.crosses(104, BidOrAsk::Ask));
    assert!(book.crosses(105, BidOrAsk::Ask));
    assert!(!book.crosses(106, BidOrAsk::Ask));
    assert!(book.crosses(111, BidOrAsk::Bid));
    assert!(book.crosses(110, BidOrAsk::Bid));
    assert!(!book.crosses(109, BidOrAsk::Bid));
    assert!(!book.crosses(i64::MIN, BidOrAsk::Bid));
    assert!(!book.crosses(i64::MAX, BidOrAsk::Ask));
}

#[test]
fn the_extreme_ticks_are_ordinary_prices() {
    let mut book = OrderBook::new();
    resting(&mut book, BidOrAsk::Bid, i64::MIN, 1, 5);
    resting(&mut book, BidOrAsk::Bid, i64::MIN + 1, 2, 5);
    resting(&mut book, BidOrAsk::Ask, i64::MAX, 3, 5);
    resting(&mut book, BidOrAsk::Ask, i64::MAX - 1, 4, 5);
    assert_eq!(book.best_bid(), Some(i64::MIN + 1));
    assert_eq!(book.best_ask(), Some(i64::MAX - 1));
    let mut sell = Order::new(7, BidOrAsk::Ask);
    let mut fills: Vec<Fill> = Vec::new();
    book.match_market(&mut sell, &mut fills);
    assert_eq!(fills, vec![Fill { order_id: 2, qty: 5 }, Fill { order_id: 1, qty: 2 }]);
    let mut buy = Order::new(10, BidOrAsk::Bid);
    let mut fills: Vec<Fill> = Vec::new();
    book.match_market(&mut buy, &mut fills);
    assert_eq!(fills, vec![Fill { order_id: 4, qty: 5 }, Fill { order_id: 3, qty: 5 }]);
    assert_eq!(volumes(&book.bid_limits()), vec![(i64::MIN, 3)]);
    check_book_laws(&book);
}
