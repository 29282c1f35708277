use orderbook::errors::{OrderError, OrderbookProcessingError};
use orderbook::levels::{PriceLevel, PriceLevelIndex};
use orderbook::matching::{sweep, BookSide, Fill};
use orderbook::orders::{OrderContent, Side};
use orderbook::table::OrderTable;
use orderbook::tracker::PriceTracker;

fn sell(price: u64, quantity: u64) -> OrderContent {
    OrderContent::LimitOrderSell { price, quantity }
}

#[test]
fn tracker_gives_highest_bid_first() {
    let mut tracker = PriceTracker::new(Side::Bid);
    assert_eq!(tracker.side(), Side::Bid);
    assert!(tracker.is_empty());
    assert_eq!(tracker.peek(), None);
    assert_eq!(tracker.pop(), None);
    for price in [5u64, 9, 1, 7, 9, 3, 8, 2, 6, 4] {
        tracker.push(price);
    }
    assert_eq!(tracker.len(), 10);
    assert_eq!(tracker.peek(), Some(9));
    let mut popped = Vec::new();
    while let Some(price) = tracker.pop() {
        popped.push(price);
    }
    assert_eq!(popped, vec![9, 9, 8, 7, 6, 5, 4, 3, 2, 1]);
    assert!(tracker.is_empty());
}

#[test]
fn tracker_gives_lowest_ask_first() {
    let mut tracker = PriceTracker::new(Side::Ask);
    for price in [5u64, 9, 1, 7, 1, 3, 8, 2, 6, 4, u64::MAX, 0] {
        tracker.push(price);
    }
    assert_eq!(tracker.peek(), Some(0));
    assert_eq!(tracker.len(), 12);
    let mut popped = Vec::new();
    while let Some(price) = tracker.pop() {
        popped.push(price);
    }
    assert_eq!(popped, vec![0, 1, 1, 2, 3, 4, 5, 6, 7, 8, 9, u64::MAX]);
}

#[test]
fn tracker_interleaves_pushes_and_pops() {
    let mut tracker = PriceTracker::new(Side::Ask);
    tracker.push(10);
    tracker.push(5);
    assert_eq!(tracker.pop(), Some(5));
    tracker.push(7);
    tracker.push(12);
    assert_eq!(tracker.pop(), Some(7));
    assert_eq!(tracker.pop(), Some(10));
    tracker.push(1);
    assert_eq!(tracker.pop(), Some(1));
    assert_eq!(tracker.pop(), Some(12));
    assert_eq!(tracker.pop(), None);
}

#[test]
fn table_holds_what_was_inserted() {
    let mut table = OrderTable::new();
    assert!(!table.contains(1));
    assert_eq!(table.get(1), None);
    table.insert(1, sell(10, 5));
    table.insert(2, sell(11, 6));
    assert!(table.contains(1));
    assert_eq!(table.get(1), Some(sell(10, 5)));
    assert_eq!(table.get(2), Some(sell(11, 6)));
    table.insert(1, sell(10, 9));
    assert_eq!(table.get(1), Some(sell(10, 9)));
    assert_eq!(table.remove(1), Some(sell(10, 9)));
    assert_eq!(table.remove(1), None);
    assert!(!table.contains(1));
    assert!(table.contains(2));
}

#[test]
fn table_removes_only_what_fits_the_incoming_quantity() {
    let mut table = OrderTable::new();
    table.insert(1, sell(10, 5));
    assert_eq!(table.compare_and_remove(1, 4), None);
    assert_eq!(table.get(1), Some(sell(10, 5)));
    assert_eq!(table.compare_and_remove(2, 100), None);
    assert_eq!(table.compare_and_remove(1, 5), Some(sell(10, 5)));
    assert_eq!(table.get(1), None);
    table.insert(3, sell(10, 5));
    assert_eq!(table.compare_and_remove(3, 6), Some(sell(10, 5)));
    assert!(!table.contains(3));
}

#[test]
fn table_sets_quantities_and_keeps_none_at_zero() {
    let mut table = OrderTable::new();
    assert_eq!(table.mutate_quantity(1, 3), Err(OrderError::NotFound));
    table.insert(1, sell(10, 5));
    assert_eq!(table.mutate_quantity(1, 3), Ok(()));
    assert_eq!(table.get(1), Some(sell(10, 3)));
    assert_eq!(table.mutate_quantity(1, 0), Ok(()));
    assert_eq!(table.get(1), None);
    assert_eq!(table.mutate_quantity(1, 2), Err(OrderError::NotFound));
}

#[test]
fn level_is_a_queue() {
    let mut level = PriceLevel::new(Side::Ask, 42);
    assert_eq!(level.side(), Side::Ask);
    assert_eq!(level.price(), 42);
    assert!(level.is_empty());
    assert_eq!(level.front(), None);
    assert_eq!(level.pop_front(), None);
    level.push_back(3);
    level.push_back(1);
    level.push_back(2);
    assert_eq!(level.len(), 3);
    assert_eq!(level.front(), Some(3));
    assert_eq!(level.order_ids(), vec![3, 1, 2]);
    assert_eq!(level.pop_front(), Some(3));
    assert_eq!(level.order_ids(), vec![1, 2]);
    assert_eq!(level.price(), 42);
}

#[test]
fn index_takes_and_puts_levels() {
    let mut index = PriceLevelIndex::new(Side::Bid);
    assert_eq!(index.side(), Side::Bid);
    assert!(!index.contains(10));
    assert!(index.take(10).is_none());
    assert!(index.level(10).is_none());
    assert_eq!(index.prices(), Vec::<u64>::new());

    let mut level = PriceLevel::new(Side::Bid, 10);
    level.push_back(7);
    level.push_back(8);
    index.put(level);
    let mut other = PriceLevel::new(Side::Bid, 11);
    other.push_back(9);
    index.put(other);

    assert!(index.contains(10));
    let copy = index.level(10).unwrap();
    assert_eq!(copy.order_ids(), vec![7, 8]);
    assert_eq!(copy.price(), 10);
    assert_eq!(copy.side(), Side::Bid);
    assert!(index.contains(10));
    let mut prices = index.prices();
    prices.sort();
    assert_eq!(prices, vec![10, 11]);

    let taken = index.take(10).unwrap();
    assert_eq!(taken.order_ids(), vec![7, 8]);
    assert_eq!(taken.price(), 10);
    assert!(!index.contains(10));
    assert!(index.contains(11));
    assert_eq!(index.prices(), vec![11]);

    let mut replaced = PriceLevel::new(Side::Bid, 11);
    replaced.push_back(1);
    index.put(replaced);
    assert_eq!(index.level(11).unwrap().order_ids(), vec![1]);
}

#[test]
fn sweep_drops_ids_without_order_and_stops_on_a_partial_fill() {
    let mut table = OrderTable::new();
    table.insert(2, sell(10, 4));
    table.insert(3, sell(10, 6));
    table.insert(4, sell(10, 1));
    let mut level = PriceLevel::new(Side::Ask, 10);
    for id in [1u64, 2, 3, 4] {
        level.push_back(id);
    }
    let mut fills = vec![Fill { resting_id: 99, price: 1, quantity: 1 }];
    let remaining = sweep(&mut table, &mut level, 7, &mut fills);
    assert_eq!(remaining, 0);
    assert_eq!(
        fills,
        vec![
            Fill { resting_id: 99, price: 1, quantity: 1 },
            Fill { resting_id: 2, price: 10, quantity: 4 },
            Fill { resting_id: 3, price: 10, quantity: 3 },
        ]
    );
    assert_eq!(level.order_ids(), vec![3, 4]);
    assert_eq!(table.get(2), None);
    assert_eq!(table.get(3), Some(sell(10, 3)));
    assert_eq!(table.get(4), Some(sell(10, 1)));
}

#[test]
fn sweep_of_a_whole_queue_leaves_quantity_over() {
    let mut table = OrderTable::new();
    table.insert(1, sell(10, 4));
    let mut level = PriceLevel::new(Side::Ask, 10);
    level.push_back(1);
    level.push_back(5);
    let mut fills = Vec::new();
    assert_eq!(sweep(&mut table, &mut level, 9, &mut fills), 5);
    assert!(level.is_empty());
    assert_eq!(fills, vec![Fill { resting_id: 1, price: 10, quantity: 4 }]);
    let mut none = Vec::new();
    assert_eq!(sweep(&mut table, &mut level, 9, &mut none), 9);
    assert_eq!(none, Vec::<Fill>::new());
}

#[test]
fn side_rests_orders_and_crosses_them() {
    let mut table = OrderTable::new();
    let mut asks = BookSide::new(Side::Ask);
    assert_eq!(asks.side(), Side::Ask);
    assert_eq!(asks.best(), None);
    for (id, price, quantity) in [(1u64, 12u64, 5u64), (2, 10, 5), (3, 10, 5), (4, 11, 5)] {
        table.insert(id, sell(price, quantity));
        asks.rest(id, price);
    }
    assert_eq!(asks.best(), Some(10));
    assert_eq!(asks.level(10).unwrap().order_ids(), vec![2, 3]);
    let mut prices = asks.level_prices();
    prices.sort();
    assert_eq!(prices, vec![10, 11, 12]);

    let mut fills = Vec::new();
    let remaining = asks.cross(&mut table, 11, 100, &mut fills);
    assert_eq!(remaining, 85);
    assert_eq!(
        fills,
        vec![
            Fill { resting_id: 2, price: 10, quantity: 5 },
            Fill { resting_id: 3, price: 10, quantity: 5 },
            Fill { resting_id: 4, price: 11, quantity: 5 },
        ]
    );
    assert_eq!(asks.best(), Some(12));
    assert_eq!(asks.level_prices(), vec![12]);
    assert!(asks.level(10).is_none());
    assert_eq!(table.get(1), Some(sell(12, 5)));
}

#[test]
fn errors_have_their_messages() {
    assert_eq!(OrderError::NotFound.message(), "There was an error processing the order.");
    assert_eq!(
        OrderbookProcessingError.message(),
        "There was an error processing the orderbook."
    );
    assert!(OrderError::InvariantViolation.is_fatal());
    assert!(!OrderError::NotFound.is_fatal());
    assert!(!OrderError::InvalidReplace.is_fatal());
}
