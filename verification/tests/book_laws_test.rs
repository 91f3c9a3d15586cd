use engine::order_book::OrderBook;
use engine::types::{OrderStatus, PriceLevel, Side, Trade};

fn level(price: u64, qty: u64) -> PriceLevel {
    PriceLevel { price, qty }
}

#[test]
fn refused_order_leaves_book_untouched() {
    let mut book = OrderBook::new();
    book.place_limit_sell("S1".into(), 50000, 2);
    let refused = book.place_limit_buy("B1".into(), 0, 5);
    assert_eq!(refused.status, OrderStatus::Rejected);
    assert_eq!(refused.order_id, "B1");
    assert!(refused.trades.is_empty());
    assert!(refused.book_snap.asks_changed.is_empty());
    // The refused identifier was not recorded and the ask is still there.
    let result = book.place_limit_buy("B1".into(), 50000, 2);
    assert_eq!(result.status, OrderStatus::Accepted);
    assert_eq!(result.trades, vec![Trade { price: 50000, qty: 2, taker_side: Side::Buy }]);
}

#[test]
fn filled_identifier_stays_reserved_on_both_sides() {
    let mut book = OrderBook::new();
    book.place_limit_sell("S1".into(), 50000, 1);
    let fill = book.place_limit_buy("B1".into(), 50000, 1);
    assert_eq!(fill.status, OrderStatus::Accepted);
    assert!(fill.book_snap.bids_changed.is_empty());
    assert_eq!(book.place_limit_buy("B1".into(), 40000, 1).status, OrderStatus::Rejected);
    assert_eq!(book.place_limit_sell("B1".into(), 60000, 1).status, OrderStatus::Rejected);
    assert_eq!(book.place_limit_sell("S1".into(), 60000, 1).status, OrderStatus::Rejected);
}

#[test]
fn sell_rejections_report_nothing() {
    let mut book = OrderBook::new();
    book.place_limit_buy("B1".into(), 50000, 4);
    for result in [
        book.place_limit_sell("S1".into(), 0, 1),
        book.place_limit_sell("S1".into(), 40000, 0),
        book.place_limit_sell("".into(), 40000, 1),
        book.place_limit_sell("B1".into(), 40000, 1),
    ] {
        assert_eq!(result.status, OrderStatus::Rejected);
        assert!(result.trades.is_empty());
        assert!(result.book_snap.bids_changed.is_empty());
        assert!(result.book_snap.asks_changed.is_empty());
    }
    // The bid is untouched: a crossing sell still finds all of it.
    let result = book.place_limit_sell("S2".into(), 40000, 4);
    assert_eq!(result.trades, vec![Trade { price: 50000, qty: 4, taker_side: Side::Sell }]);
    assert_eq!(result.book_snap.bids_changed, vec![level(50000, 0)]);
    assert!(result.book_snap.asks_changed.is_empty());
}

#[test]
fn quantity_is_conserved_in_a_sweep() {
    let mut book = OrderBook::new();
    book.place_limit_buy("B1".into(), 52000, 3);
    book.place_limit_buy("B2".into(), 51000, 4);
    book.place_limit_buy("B3".into(), 49000, 5);
    let result = book.place_limit_sell("S1".into(), 50000, 10);
    let traded: u64 = result.trades.iter().map(|t| t.qty).sum();
    assert_eq!(traded, 7);
    assert_eq!(result.book_snap.asks_changed, vec![level(50000, 3)]);
    assert_eq!(traded + result.book_snap.asks_changed[0].qty, 10);
    assert_eq!(result.book_snap.bids_changed, vec![level(52000, 0), level(51000, 0)]);
    // The 49000 bid did not cross the 50000 limit and is still resting.
    let probe = book.place_limit_sell("S2".into(), 49000, 1);
    assert_eq!(probe.trades, vec![Trade { price: 49000, qty: 1, taker_side: Side::Sell }]);
    assert_eq!(probe.book_snap.bids_changed, vec![level(49000, 4)]);
}

#[test]
fn trades_are_at_maker_prices_in_priority_order() {
    let mut book = OrderBook::new();
    book.place_limit_sell("S3".into(), 52000, 1);
    book.place_limit_sell("S1".into(), 50000, 1);
    book.place_limit_sell("S2".into(), 51000, 1);
    let result = book.place_limit_buy("B1".into(), 60000, 3);
    assert_eq!(
        result.trades,
        vec![
            Trade { price: 50000, qty: 1, taker_side: Side::Buy },
            Trade { price: 51000, qty: 1, taker_side: Side::Buy },
            Trade { price: 52000, qty: 1, taker_side: Side::Buy },
        ]
    );
    for trade in &result.trades {
        assert!(trade.price <= 60000);
    }
}

#[test]
fn book_is_never_crossed_after_a_residual() {
    let mut book = OrderBook::new();
    book.place_limit_sell("S1".into(), 50000, 1);
    let result = book.place_limit_buy("B1".into(), 55000, 3);
    assert_eq!(result.book_snap.bids_changed, vec![level(55000, 2)]);
    // The residual bid is now the best bid: a sell at 55000 takes it.
    let sell = book.place_limit_sell("S2".into(), 55000, 2);
    assert_eq!(sell.trades, vec![Trade { price: 55000, qty: 2, taker_side: Side::Sell }]);
    assert_eq!(sell.book_snap.bids_changed, vec![level(55000, 0)]);
    assert!(sell.book_snap.asks_changed.is_empty());
}

#[test]
fn consumed_level_is_gone_from_the_book() {
    let mut book = OrderBook::new();
    book.place_limit_sell("S1".into(), 50000, 2);
    book.place_limit_buy("B1".into(), 50000, 2);
    // Nothing rests at 50000 any more: a new ask there starts a fresh level.
    let result = book.place_limit_sell("S2".into(), 50000, 1);
    assert!(result.trades.is_empty());
    assert_eq!(result.book_snap.asks_changed, vec![level(50000, 1)]);
}

#[test]
fn reduced_level_keeps_its_place() {
    let mut book = OrderBook::new();
    book.place_limit_sell("S1".into(), 50000, 5);
    book.place_limit_sell("S2".into(), 51000, 5);
    book.place_limit_buy("B1".into(), 50000, 2);
    let result = book.place_limit_buy("B2".into(), 51000, 4);
    assert_eq!(
        result.trades,
        vec![
            Trade { price: 50000, qty: 3, taker_side: Side::Buy },
            Trade { price: 51000, qty: 1, taker_side: Side::Buy },
        ]
    );
    assert_eq!(result.book_snap.asks_changed, vec![level(50000, 0), level(51000, 4)]);
}

#[test]
fn extreme_prices_and_quantities() {
    let mut book = OrderBook::new();
    let result = book.place_limit_sell("S1".into(), u64::MAX, u64::MAX);
    assert_eq!(result.book_snap.asks_changed, vec![level(u64::MAX, u64::MAX)]);
    let result = book.place_limit_buy("B1".into(), u64::MAX, u64::MAX - 1);
    assert_eq!(result.trades, vec![Trade { price: u64::MAX, qty: u64::MAX - 1, taker_side: Side::Buy }]);
    assert_eq!(result.book_snap.asks_changed, vec![level(u64::MAX, 1)]);
    assert!(result.book_snap.bids_changed.is_empty());
    let result = book.place_limit_buy("B2".into(), 1, 1);
    assert_eq!(result.book_snap.bids_changed, vec![level(1, 1)]);
}

#[test]
fn aggregation_on_the_ask_side_between_levels() {
    let mut book = OrderBook::new();
    book.place_limit_sell("S1".into(), 50000, 1);
    book.place_limit_sell("S2".into(), 52000, 1);
    book.place_limit_sell("S3".into(), 51000, 1);
    let result = book.place_limit_sell("S4".into(), 51000, 6);
    assert_eq!(result.book_snap.asks_changed, vec![level(51000, 7)]);
    let sweep = book.place_limit_buy("B1".into(), 52000, 9);
    assert_eq!(
        sweep.book_snap.asks_changed,
        vec![level(50000, 0), level(51000, 0), level(52000, 0)]
    );
    assert!(sweep.book_snap.bids_changed.is_empty());
}
