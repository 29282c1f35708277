use orderbook::book::{CreateOutcome, Execution, OrderBook};
use orderbook::errors::OrderError;
use orderbook::matching::Fill;
use orderbook::orders::{OrderContent, Side};

fn buy(price: u64, quantity: u64) -> OrderContent {
    OrderContent::LimitOrderBuy { price, quantity }
}

fn sell(price: u64, quantity: u64) -> OrderContent {
    OrderContent::LimitOrderSell { price, quantity }
}

fn queue(book: &OrderBook, side: Side, price: u64) -> Option<Vec<u64>> {
    book.level(side, price).map(|level| level.order_ids())
}

/// The book after the first `steps` requests of the walk-through.
fn walk(steps: usize) -> OrderBook {
    let mut book = OrderBook::new();
    if steps >= 1 {
        book.new_order(1, sell(100, 10)).unwrap();
    }
    if steps >= 2 {
        book.new_order(2, buy(100, 4)).unwrap();
    }
    if steps >= 3 {
        book.new_order(3, buy(100, 10)).unwrap();
    }
    if steps >= 4 {
        book.replace_order(3, buy(100, 2)).unwrap();
    }
    if steps >= 5 {
        assert_eq!(book.replace_order(3, buy(90, 2)), Err(OrderError::InvalidReplace));
    }
    if steps >= 6 {
        book.cancel_order(3).unwrap();
    }
    book
}

#[test]
fn sell_rests_when_there_are_no_bids() {
    let mut book = OrderBook::new();
    let outcome = book.new_order(1, sell(100, 10));
    assert_eq!(
        outcome,
        Ok(CreateOutcome::Executed(Execution { remaining: 10, fills: vec![] }))
    );
    assert_eq!(queue(&book, Side::Ask, 100), Some(vec![1]));
    assert_eq!(book.best_ask(), Some(100));
    assert_eq!(book.best_bid(), None);
    assert_eq!(book.order(1), Some(sell(100, 10)));
    assert_eq!(book.level_prices(Side::Ask), vec![100]);
    assert_eq!(book.level_prices(Side::Bid), Vec::<u64>::new());
}

#[test]
fn buy_fills_part_of_the_resting_sell() {
    let mut book = walk(1);
    let outcome = book.new_order(2, buy(100, 4));
    assert_eq!(
        outcome,
        Ok(CreateOutcome::Executed(Execution {
            remaining: 0,
            fills: vec![Fill { resting_id: 1, price: 100, quantity: 4 }],
        }))
    );
    assert_eq!(book.order(1), Some(sell(100, 6)));
    assert_eq!(book.order(2), None);
    assert_eq!(queue(&book, Side::Ask, 100), Some(vec![1]));
    assert_eq!(book.best_ask(), Some(100));
    assert_eq!(book.best_bid(), None);
    assert_eq!(queue(&book, Side::Bid, 100), None);
}

#[test]
fn buy_uses_up_the_sell_and_rests_with_the_remainder() {
    let mut book = walk(2);
    let outcome = book.new_order(3, buy(100, 10));
    assert_eq!(
        outcome,
        Ok(CreateOutcome::Executed(Execution {
            remaining: 4,
            fills: vec![Fill { resting_id: 1, price: 100, quantity: 6 }],
        }))
    );
    assert_eq!(book.order(1), None);
    assert_eq!(book.order(3), Some(buy(100, 4)));
    assert_eq!(queue(&book, Side::Ask, 100), None);
    assert_eq!(queue(&book, Side::Bid, 100), Some(vec![3]));
    assert_eq!(book.best_bid(), Some(100));
    assert_eq!(book.best_ask(), None);
}

#[test]
fn replace_sets_the_quantity() {
    let mut book = walk(3);
    assert_eq!(book.replace_order(3, buy(100, 2)), Ok(()));
    assert_eq!(book.order(3), Some(buy(100, 2)));
    assert_eq!(queue(&book, Side::Bid, 100), Some(vec![3]));
    assert_eq!(book.best_bid(), Some(100));
}

#[test]
fn replace_at_another_price_is_refused() {
    let mut book = walk(4);
    assert_eq!(book.replace_order(3, buy(90, 2)), Err(OrderError::InvalidReplace));
    assert_eq!(book.order(3), Some(buy(100, 2)));
    assert_eq!(queue(&book, Side::Bid, 100), Some(vec![3]));
    assert_eq!(queue(&book, Side::Bid, 90), None);
    assert_eq!(book.best_bid(), Some(100));
}

#[test]
fn cancelled_order_is_skipped_by_the_next_crossing() {
    let mut book = walk(5);
    assert_eq!(book.cancel_order(3), Ok(()));
    assert_eq!(book.order(3), None);
    assert_eq!(queue(&book, Side::Bid, 100), Some(vec![3]));
    assert_eq!(book.best_bid(), Some(100));

    let outcome = book.new_order(4, sell(100, 5));
    assert_eq!(
        outcome,
        Ok(CreateOutcome::Executed(Execution { remaining: 5, fills: vec![] }))
    );
    assert_eq!(queue(&book, Side::Bid, 100), None);
    assert_eq!(book.best_bid(), None);
    assert_eq!(book.order(4), Some(sell(100, 5)));
    assert_eq!(queue(&book, Side::Ask, 100), Some(vec![4]));
    assert_eq!(book.best_ask(), Some(100));
}

#[test]
fn whole_walk_ends_in_an_empty_table() {
    let book = walk(6);
    assert_eq!(book.order(1), None);
    assert_eq!(book.order(2), None);
    assert_eq!(book.order(3), None);
}
