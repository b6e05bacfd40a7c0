use orderbook::{Order, OrderBook, Side};

#[test]
fn test_ordering_invariant_mixed_submissions() {
    let mut ob: OrderBook = OrderBook::new();
    let submissions: Vec<(u64, u64, bool)> = vec![
        (100, 10, true),
        (105, 5, false),
        (95, 7, true),
        (120, 3, false),
        (100, 4, true),
        (97, 2, false),
        (110, 9, true),
        (105, 6, false),
        (95, 1, true),
        (103, 8, false),
    ];
    for (price, quantity, buy) in submissions {
        let side = if buy { Side::Buy } else { Side::Sell };
        ob.proceed_order(Order { price, quantity, side });
    }
    for pair in ob.bids.windows(2) {
        assert!(pair[0].0 > pair[1].0, "bid prices must strictly decrease");
    }
    for pair in ob.asks.windows(2) {
        assert!(pair[0].0 < pair[1].0, "ask prices must strictly increase");
    }
}

#[test]
fn test_aggregation_matches_single_submission() {
    let mut split: OrderBook = OrderBook::new();
    split.proceed_order(Order { price: 100, quantity: 7, side: Side::Buy });
    split.proceed_order(Order { price: 100, quantity: 8, side: Side::Buy });
    split.proceed_order(Order { price: 104, quantity: 2, side: Side::Sell });
    split.proceed_order(Order { price: 104, quantity: 9, side: Side::Sell });

    let mut whole: OrderBook = OrderBook::new();
    whole.proceed_order(Order { price: 100, quantity: 15, side: Side::Buy });
    whole.proceed_order(Order { price: 104, quantity: 11, side: Side::Sell });

    assert_eq!(split.bids, whole.bids, "two bid submissions equal their sum");
    assert_eq!(split.asks, whole.asks, "two ask submissions equal their sum");
}

#[test]
fn test_side_isolation() {
    let mut ob: OrderBook = OrderBook::new();
    ob.proceed_order(Order { price: 105, quantity: 5, side: Side::Sell });
    ob.proceed_order(Order { price: 110, quantity: 8, side: Side::Sell });
    let asks_before = ob.asks.clone();

    ob.proceed_order(Order { price: 105, quantity: 40, side: Side::Buy });
    ob.proceed_order(Order { price: 110, quantity: 41, side: Side::Buy });
    assert_eq!(ob.asks, asks_before, "buy submissions never alter the ask side");

    let bids_before = ob.bids.clone();
    ob.proceed_order(Order { price: 105, quantity: 42, side: Side::Sell });
    assert_eq!(ob.bids, bids_before, "sell submissions never alter the bid side");
}

#[test]
fn test_snapshot_depth_zero() {
    let mut ob: OrderBook = OrderBook::new();
    ob.proceed_order(Order { price: 100, quantity: 10, side: Side::Buy });
    ob.proceed_order(Order { price: 105, quantity: 5, side: Side::Sell });

    let (bids, asks) = ob.snapshot(0);

    assert!(bids.is_empty(), "depth 0 yields no bid levels");
    assert!(asks.is_empty(), "depth 0 yields no ask levels");
}

#[test]
fn test_snapshot_empty_book() {
    let ob: OrderBook = OrderBook::new();

    let (bids, asks) = ob.snapshot(10);

    assert!(bids.is_empty(), "an empty side yields an empty sequence");
    assert!(asks.is_empty(), "an empty side yields an empty sequence");
}

#[test]
fn test_snapshot_counts_are_min_of_depth_and_levels() {
    let mut ob: OrderBook = OrderBook::new();
    for price in [100u64, 101, 102, 103, 104] {
        ob.proceed_order(Order { price, quantity: 1, side: Side::Buy });
    }
    for price in [105u64, 106, 107] {
        ob.proceed_order(Order { price, quantity: 1, side: Side::Sell });
    }
    for depth in 0..8usize {
        let (bids, asks) = ob.snapshot(depth);
        assert_eq!(bids.len(), depth.min(5), "bid count is min(depth, level count)");
        assert_eq!(asks.len(), depth.min(3), "ask count is min(depth, level count)");
    }
}

#[test]
fn test_snapshot_is_point_in_time_copy() {
    let mut ob: OrderBook = OrderBook::new();
    ob.proceed_order(Order { price: 100, quantity: 10, side: Side::Buy });

    let (bids, _) = ob.snapshot(10);
    ob.proceed_order(Order { price: 100, quantity: 90, side: Side::Buy });
    ob.proceed_order(Order { price: 101, quantity: 1, side: Side::Buy });

    assert_eq!(bids, vec![(100, 10)], "later mutation leaves an old snapshot unchanged");
}

#[test]
fn test_spread_descending_example() {
    let mut ob: OrderBook = OrderBook::new();
    ob.proceed_order(Order { price: 100, quantity: 10, side: Side::Buy });
    ob.proceed_order(Order { price: 105, quantity: 20, side: Side::Buy });
    ob.proceed_order(Order { price: 95, quantity: 15, side: Side::Buy });

    let (bids, asks) = ob.snapshot(10);

    assert_eq!(bids, vec![(105, 20), (100, 10), (95, 15)], "bids come best first");
    assert!(asks.is_empty(), "nothing was sold");
}

#[test]
fn test_spread_empty_book() {
    let ob: OrderBook = OrderBook::new();

    assert_eq!(ob.spread(), None, "an empty book has no spread");
}

#[test]
fn test_spread_crossed_book_is_negative() {
    let mut ob: OrderBook = OrderBook::new();
    ob.proceed_order(Order { price: 110, quantity: 10, side: Side::Buy });
    ob.proceed_order(Order { price: 100, quantity: 5, side: Side::Sell });

    assert_eq!(ob.spread(), Some(-10), "a crossed book has a negative spread, not an error");
}

#[test]
fn test_spread_touching_book_is_zero() {
    let mut ob: OrderBook = OrderBook::new();
    ob.proceed_order(Order { price: 100, quantity: 10, side: Side::Buy });
    ob.proceed_order(Order { price: 100, quantity: 5, side: Side::Sell });

    assert_eq!(ob.spread(), Some(0), "equal best prices give a zero spread");
}

#[test]
fn test_zero_quantity_is_accepted_and_aggregated() {
    let mut ob: OrderBook = OrderBook::new();
    ob.proceed_order(Order { price: 100, quantity: 0, side: Side::Buy });

    assert_eq!(ob.bids, vec![(100, 0)], "a zero quantity still opens a level");

    ob.proceed_order(Order { price: 100, quantity: 3, side: Side::Buy });
    assert_eq!(ob.bids, vec![(100, 3)], "a zero-quantity level aggregates like any other");
}

#[test]
fn test_extreme_prices_and_quantities() {
    let mut ob: OrderBook = OrderBook::new();
    ob.proceed_order(Order { price: 0, quantity: u64::MAX, side: Side::Buy });
    ob.proceed_order(Order { price: u64::MAX, quantity: 1, side: Side::Buy });
    ob.proceed_order(Order { price: u64::MAX, quantity: 2, side: Side::Sell });
    ob.proceed_order(Order { price: 0, quantity: 3, side: Side::Sell });

    assert_eq!(ob.bids, vec![(u64::MAX, 1), (0, u64::MAX)]);
    assert_eq!(ob.asks, vec![(0, 3), (u64::MAX, 2)]);
    let expected: i128 = -(u64::MAX as i128);
    assert_eq!(ob.spread(), Some(expected), "spread spans the whole u64 price range");
}
