use orderbook::book::{CreateOutcome, Execution, OrderBook};
use orderbook::errors::OrderError;
use orderbook::matching::Fill;
use orderbook::orders::{OrderContent, Side};

fn bid(price: u64, quantity: u64) -> OrderContent {
    OrderContent::LimitOrderBuy { price, quantity }
}

fn ask(price: u64, quantity: u64) -> OrderContent {
    OrderContent::LimitOrderSell { price, quantity }
}

fn fill(resting_id: u64, price: u64, quantity: u64) -> Fill {
    Fill { resting_id, price, quantity }
}

fn ids_at(book: &OrderBook, side: Side, price: u64) -> Option<Vec<u64>> {
    book.level(side, price).map(|level| level.order_ids())
}

fn open(book: &OrderBook, id: u64) -> u64 {
    book.order(id).map(|content| content.quantity()).unwrap_or(0)
}

#[test]
fn earlier_order_at_a_price_fills_first() {
    let mut book = OrderBook::new();
    book.new_order(1, ask(100, 5)).unwrap();
    book.new_order(2, ask(100, 5)).unwrap();
    book.new_order(3, ask(100, 5)).unwrap();
    assert_eq!(ids_at(&book, Side::Ask, 100), Some(vec![1, 2, 3]));

    let execution = book.execute_order(Side::Bid, 100, 7);
    assert_eq!(execution.remaining, 0);
    assert_eq!(execution.fills, vec![fill(1, 100, 5), fill(2, 100, 2)]);
    assert_eq!(book.order(1), None);
    assert_eq!(book.order(2), Some(ask(100, 3)));
    assert_eq!(book.order(3), Some(ask(100, 5)));
    assert_eq!(ids_at(&book, Side::Ask, 100), Some(vec![2, 3]));
}

#[test]
fn partly_filled_order_keeps_its_place() {
    let mut book = OrderBook::new();
    book.new_order(1, bid(50, 10)).unwrap();
    book.new_order(2, bid(50, 10)).unwrap();
    book.execute_order(Side::Ask, 50, 3);
    assert_eq!(ids_at(&book, Side::Bid, 50), Some(vec![1, 2]));
    let execution = book.execute_order(Side::Ask, 50, 8);
    assert_eq!(execution.fills, vec![fill(1, 50, 7), fill(2, 50, 1)]);
    assert_eq!(ids_at(&book, Side::Bid, 50), Some(vec![2]));
    assert_eq!(book.order(2), Some(bid(50, 9)));
}

#[test]
fn replaced_order_keeps_its_place() {
    let mut book = OrderBook::new();
    book.new_order(1, ask(10, 4)).unwrap();
    book.new_order(2, ask(10, 4)).unwrap();
    book.replace_order(1, ask(10, 9)).unwrap();
    assert_eq!(ids_at(&book, Side::Ask, 10), Some(vec![1, 2]));
    let execution = book.execute_order(Side::Bid, 10, 10);
    assert_eq!(execution.fills, vec![fill(1, 10, 9), fill(2, 10, 1)]);
}

#[test]
fn better_price_fills_before_worse_price() {
    let mut book = OrderBook::new();
    book.new_order(1, ask(102, 5)).unwrap();
    book.new_order(2, ask(100, 5)).unwrap();
    book.new_order(3, ask(101, 5)).unwrap();
    assert_eq!(book.best_ask(), Some(100));

    let execution = book.execute_order(Side::Bid, 102, 12);
    assert_eq!(execution.remaining, 0);
    assert_eq!(
        execution.fills,
        vec![fill(2, 100, 5), fill(3, 101, 5), fill(1, 102, 2)]
    );
    assert_eq!(ids_at(&book, Side::Ask, 100), None);
    assert_eq!(ids_at(&book, Side::Ask, 101), None);
    assert_eq!(ids_at(&book, Side::Ask, 102), Some(vec![1]));
    assert_eq!(book.best_ask(), Some(102));
    assert_eq!(book.order(1), Some(ask(102, 3)));
}

#[test]
fn highest_bid_fills_first() {
    let mut book = OrderBook::new();
    book.new_order(1, bid(98, 5)).unwrap();
    book.new_order(2, bid(100, 5)).unwrap();
    book.new_order(3, bid(99, 5)).unwrap();
    assert_eq!(book.best_bid(), Some(100));
    let execution = book.execute_order(Side::Ask, 99, 20);
    assert_eq!(execution.remaining, 10);
    assert_eq!(execution.fills, vec![fill(2, 100, 5), fill(3, 99, 5)]);
    assert_eq!(book.best_bid(), Some(98));
    assert_eq!(book.order(1), Some(bid(98, 5)));
}

#[test]
fn fills_add_up_to_what_both_sides_lose() {
    let mut book = OrderBook::new();
    book.new_order(1, ask(10, 3)).unwrap();
    book.new_order(2, ask(11, 4)).unwrap();
    book.new_order(3, ask(12, 5)).unwrap();
    let before: u64 = (1..=3).map(|id| open(&book, id)).sum();

    let execution = book.execute_order(Side::Bid, 11, 20);
    let traded: u64 = execution.fills.iter().map(|f| f.quantity).sum();
    let after: u64 = (1..=3).map(|id| open(&book, id)).sum();
    assert_eq!(traded, 7);
    assert_eq!(20 - execution.remaining, traded);
    assert_eq!(before - after, traded);
    assert_eq!(execution.fills, vec![fill(1, 10, 3), fill(2, 11, 4)]);
}

#[test]
fn fill_is_the_smaller_of_the_two_quantities() {
    let mut book = OrderBook::new();
    book.new_order(1, ask(10, 3)).unwrap();
    assert_eq!(book.execute_order(Side::Bid, 10, 2).fills, vec![fill(1, 10, 2)]);
    assert_eq!(book.order(1), Some(ask(10, 1)));
    assert_eq!(book.execute_order(Side::Bid, 10, 5).fills, vec![fill(1, 10, 1)]);
    assert_eq!(book.order(1), None);
}

#[test]
fn buy_never_fills_above_its_limit() {
    let mut book = OrderBook::new();
    book.new_order(1, ask(100, 5)).unwrap();
    book.new_order(2, ask(101, 5)).unwrap();
    let outcome = book.new_order(3, bid(100, 8)).unwrap();
    assert_eq!(
        outcome,
        CreateOutcome::Executed(Execution { remaining: 3, fills: vec![fill(1, 100, 5)] })
    );
    assert_eq!(book.order(2), Some(ask(101, 5)));
    assert_eq!(book.order(3), Some(bid(100, 3)));
    assert_eq!(book.best_bid(), Some(100));
    assert_eq!(book.best_ask(), Some(101));
}

#[test]
fn sell_never_fills_below_its_limit() {
    let mut book = OrderBook::new();
    book.new_order(1, bid(100, 5)).unwrap();
    book.new_order(2, bid(99, 5)).unwrap();
    let outcome = book.new_order(3, ask(100, 8)).unwrap();
    assert_eq!(
        outcome,
        CreateOutcome::Executed(Execution { remaining: 3, fills: vec![fill(1, 100, 5)] })
    );
    assert_eq!(book.order(2), Some(bid(99, 5)));
    assert_eq!(book.order(3), Some(ask(100, 3)));
}

#[test]
fn order_that_does_not_cross_just_rests() {
    let mut book = OrderBook::new();
    book.new_order(1, ask(100, 5)).unwrap();
    let outcome = book.new_order(2, bid(99, 5)).unwrap();
    assert_eq!(outcome, CreateOutcome::Executed(Execution { remaining: 5, fills: vec![] }));
    assert_eq!(book.best_bid(), Some(99));
    assert_eq!(book.best_ask(), Some(100));
}

#[test]
fn duplicate_create_is_ignored() {
    let mut book = OrderBook::new();
    book.new_order(1, ask(100, 5)).unwrap();
    assert_eq!(book.new_order(1, ask(100, 5)), Ok(CreateOutcome::Duplicate));
    assert_eq!(ids_at(&book, Side::Ask, 100), Some(vec![1]));
    assert_eq!(book.order(1), Some(ask(100, 5)));
    assert_eq!(book.new_order(1, bid(200, 50)), Ok(CreateOutcome::Duplicate));
    assert_eq!(book.new_order(1, OrderContent::Empty), Ok(CreateOutcome::Duplicate));
    assert_eq!(book.order(1), Some(ask(100, 5)));
    assert_eq!(book.best_bid(), None);
}

#[test]
fn create_after_a_full_fill_is_a_new_order() {
    let mut book = OrderBook::new();
    book.new_order(1, ask(100, 10)).unwrap();
    book.new_order(2, bid(100, 4)).unwrap();
    assert_eq!(book.order(2), None);
    let again = book.new_order(2, bid(100, 4)).unwrap();
    assert_eq!(
        again,
        CreateOutcome::Executed(Execution { remaining: 0, fills: vec![fill(1, 100, 4)] })
    );
    assert_eq!(book.order(1), Some(ask(100, 2)));
}

#[test]
fn replace_that_changes_price_or_side_is_refused() {
    let mut book = OrderBook::new();
    book.new_order(1, ask(100, 5)).unwrap();
    book.new_order(2, ask(100, 6)).unwrap();
    assert_eq!(book.replace_order(1, ask(101, 5)), Err(OrderError::InvalidReplace));
    assert_eq!(book.replace_order(1, ask(99, 1)), Err(OrderError::InvalidReplace));
    assert_eq!(book.replace_order(1, bid(100, 5)), Err(OrderError::InvalidReplace));
    assert_eq!(book.replace_order(1, OrderContent::Empty), Err(OrderError::InvalidReplace));
    assert_eq!(book.order(1), Some(ask(100, 5)));
    assert_eq!(ids_at(&book, Side::Ask, 100), Some(vec![1, 2]));
    assert_eq!(ids_at(&book, Side::Ask, 101), None);
}

#[test]
fn replace_and_cancel_of_an_unknown_order_fail() {
    let mut book = OrderBook::new();
    assert_eq!(book.replace_order(9, ask(1, 1)), Err(OrderError::NotFound));
    assert_eq!(book.cancel_order(9), Err(OrderError::NotFound));
    book.new_order(9, ask(1, 1)).unwrap();
    assert_eq!(book.cancel_order(9), Ok(()));
    assert_eq!(book.cancel_order(9), Err(OrderError::NotFound));
    assert_eq!(book.replace_order(9, ask(1, 1)), Err(OrderError::NotFound));
}

#[test]
fn replace_to_nothing_takes_the_order_out() {
    let mut book = OrderBook::new();
    book.new_order(1, bid(10, 5)).unwrap();
    assert_eq!(book.replace_order(1, bid(10, 0)), Ok(()));
    assert_eq!(book.order(1), None);
    assert_eq!(ids_at(&book, Side::Bid, 10), Some(vec![1]));
}

#[test]
fn content_without_terms_is_turned_down() {
    let mut book = OrderBook::new();
    assert_eq!(
        book.new_order(1, OrderContent::Empty),
        Err(OrderError::InvariantViolation)
    );
    assert_eq!(book.order(1), None);
    assert_eq!(book.best_bid(), None);
    assert_eq!(book.best_ask(), None);
}

#[test]
fn order_without_quantity_does_not_rest() {
    let mut book = OrderBook::new();
    book.new_order(1, ask(10, 5)).unwrap();
    let outcome = book.new_order(2, bid(10, 0)).unwrap();
    assert_eq!(outcome, CreateOutcome::Executed(Execution { remaining: 0, fills: vec![] }));
    assert_eq!(book.order(2), None);
    assert_eq!(book.order(1), Some(ask(10, 5)));
    assert_eq!(book.best_bid(), None);
}

#[test]
fn bid_and_ask_levels_at_one_price_do_not_collide() {
    let mut book = OrderBook::new();
    book.new_order(1, bid(100, 5)).unwrap();
    book.cancel_order(1).unwrap();
    book.new_order(2, bid(100, 5)).unwrap();
    book.cancel_order(2).unwrap();
    book.new_order(3, ask(100, 5)).unwrap();
    assert_eq!(ids_at(&book, Side::Bid, 100), None);
    assert_eq!(ids_at(&book, Side::Ask, 100), Some(vec![3]));
    book.new_order(4, ask(100, 5)).unwrap();
    book.cancel_order(3).unwrap();
    book.cancel_order(4).unwrap();
    book.new_order(5, bid(100, 5)).unwrap();
    assert_eq!(ids_at(&book, Side::Ask, 100), None);
    assert_eq!(ids_at(&book, Side::Bid, 100), Some(vec![5]));
    assert_eq!(book.order(5), Some(bid(100, 5)));
}

#[test]
fn level_stays_when_the_incoming_order_ends_on_a_full_fill() {
    let mut book = OrderBook::new();
    book.new_order(1, ask(10, 5)).unwrap();
    book.new_order(2, ask(10, 5)).unwrap();
    let execution = book.execute_order(Side::Bid, 10, 5);
    assert_eq!(execution.fills, vec![fill(1, 10, 5)]);
    assert_eq!(ids_at(&book, Side::Ask, 10), Some(vec![2]));
    assert_eq!(book.best_ask(), Some(10));
    assert_eq!(book.order(2), Some(ask(10, 5)));
}

#[test]
fn id_taken_up_again_stands_in_two_places_of_a_queue() {
    let mut book = OrderBook::new();
    book.new_order(1, ask(100, 5)).unwrap();
    book.cancel_order(1).unwrap();
    book.new_order(2, ask(100, 5)).unwrap();
    book.new_order(1, ask(100, 5)).unwrap();
    assert_eq!(ids_at(&book, Side::Ask, 100), Some(vec![1, 2, 1]));
    let execution = book.execute_order(Side::Bid, 100, 5);
    assert_eq!(execution.fills, vec![fill(1, 100, 5)]);
    assert_eq!(book.order(2), Some(ask(100, 5)));
    assert_eq!(ids_at(&book, Side::Ask, 100), Some(vec![2, 1]));
}

#[test]
fn id_taken_up_again_at_another_price_trades_where_it_is_found() {
    let mut book = OrderBook::new();
    book.new_order(1, ask(90, 5)).unwrap();
    book.cancel_order(1).unwrap();
    book.new_order(1, ask(100, 5)).unwrap();
    assert_eq!(ids_at(&book, Side::Ask, 90), Some(vec![1]));
    assert_eq!(ids_at(&book, Side::Ask, 100), Some(vec![1]));
    let execution = book.execute_order(Side::Bid, 95, 5);
    assert_eq!(execution.fills, vec![fill(1, 90, 5)]);
    assert_eq!(book.order(1), None);
}

#[test]
fn fresh_ids_keep_fills_at_the_resting_orders_prices() {
    let mut book = OrderBook::new();
    let mut id = 0;
    for round in 0..5u64 {
        for price in [100u64, 101, 102] {
            id += 1;
            book.new_order(id, ask(price, 2 + round)).unwrap();
        }
        id += 1;
        book.cancel_order(id - 2).unwrap();
        let resting: Vec<(u64, Option<OrderContent>)> =
            (1..id).map(|known| (known, book.order(known))).collect();
        let outcome = book.new_order(id, bid(101, 5)).unwrap();
        if let CreateOutcome::Executed(execution) = outcome {
            let mut last_price = 0;
            for traded in &execution.fills {
                let terms = resting[traded.resting_id as usize - 1].1.unwrap();
                assert_eq!(terms.price(), traded.price);
                assert_eq!(terms.side(), Some(Side::Ask));
                assert!(traded.price <= 101);
                assert!(traded.price >= last_price);
                assert!(traded.quantity <= terms.quantity());
                last_price = traded.price;
            }
        } else {
            panic!("a fresh id is no duplicate");
        }
    }
}
