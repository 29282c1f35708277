use orderbook::book::{CreateOutcome, OrderBook};
use orderbook::orders::{OrderContent, Side};

/// A small generator of numbers that gives the same run every time.
struct Numbers(u64);

impl Numbers {
    fn next(&mut self, below: u64) -> u64 {
        self.0 = self.0.wrapping_mul(6364136223846793005).wrapping_add(1442695040888963407);
        (self.0 >> 33) % below
    }
}

fn content(side: Side, price: u64, quantity: u64) -> OrderContent {
    match side {
        Side::Bid => OrderContent::LimitOrderBuy { price, quantity },
        Side::Ask => OrderContent::LimitOrderSell { price, quantity },
    }
}

fn check_book(book: &OrderBook, ids: u64) {
    for id in 0..ids {
        if let Some(terms) = book.order(id) {
            assert!(terms.quantity() > 0);
            let side = terms.side().unwrap();
            let level = book.level(side, terms.price()).unwrap();
            assert!(level.order_ids().contains(&id));
        }
    }
    for side in [Side::Bid, Side::Ask] {
        let prices = book.level_prices(side);
        let best = match side {
            Side::Bid => book.best_bid(),
            Side::Ask => book.best_ask(),
        };
        for price in &prices {
            assert!(!book.level(side, *price).unwrap().is_empty());
            let best = best.unwrap();
            match side {
                Side::Bid => assert!(best >= *price),
                Side::Ask => assert!(best <= *price),
            }
        }
        if prices.is_empty() {
            assert_eq!(best, None);
        } else {
            assert!(prices.contains(&best.unwrap()));
        }
    }
}

fn run_stream(seed: u64, steps: usize, ids: u64, reuse: bool) {
    let mut numbers = Numbers(seed);
    let mut book = OrderBook::new();
    let mut next_id = 0;
    for _ in 0..steps {
        match numbers.next(10) {
            0 | 1 => {
                let id = numbers.next(ids);
                let was = book.order(id);
                assert_eq!(book.cancel_order(id).is_ok(), was.is_some());
                assert_eq!(book.order(id), None);
            }
            2 => {
                let id = numbers.next(ids);
                if let Some(terms) = book.order(id) {
                    let quantity = numbers.next(20) + 1;
                    book.replace_order(id, terms.with_quantity(quantity)).unwrap();
                    assert_eq!(book.order(id), Some(terms.with_quantity(quantity)));
                }
            }
            _ => {
                let id = if reuse {
                    numbers.next(ids)
                } else {
                    next_id += 1;
                    next_id - 1
                };
                if id >= ids {
                    continue;
                }
                let side = if numbers.next(2) == 0 { Side::Bid } else { Side::Ask };
                let price = 95 + numbers.next(10);
                let quantity = numbers.next(20);
                let before: Vec<u64> = (0..ids)
                    .map(|known| book.order(known).map(|terms| terms.quantity()).unwrap_or(0))
                    .collect();
                let live = book.order(id).is_some();
                match book.new_order(id, content(side, price, quantity)).unwrap() {
                    CreateOutcome::Duplicate => assert!(live),
                    CreateOutcome::Executed(execution) => {
                        assert!(!live);
                        let traded: u64 = execution.fills.iter().map(|fill| fill.quantity).sum();
                        assert_eq!(quantity - execution.remaining, traded);
                        let mut lost = 0;
                        for known in 0..ids {
                            if known != id {
                                let now = book
                                    .order(known)
                                    .map(|terms| terms.quantity())
                                    .unwrap_or(0);
                                assert!(now <= before[known as usize]);
                                lost += before[known as usize] - now;
                            }
                        }
                        assert_eq!(lost, traded);
                        for pair in execution.fills.windows(2) {
                            match side {
                                Side::Bid => assert!(pair[0].price <= pair[1].price),
                                Side::Ask => assert!(pair[0].price >= pair[1].price),
                            }
                        }
                        for fill in &execution.fills {
                            match side {
                                Side::Bid => assert!(fill.price <= price),
                                Side::Ask => assert!(fill.price >= price),
                            }
                        }
                        if execution.remaining > 0 {
                            assert_eq!(
                                book.order(id),
                                Some(content(side, price, execution.remaining))
                            );
                            let queue = book.level(side, price).unwrap().order_ids();
                            assert_eq!(queue.last(), Some(&id));
                        } else {
                            assert_eq!(book.order(id), None);
                        }
                    }
                }
            }
        }
        check_book(&book, ids);
    }
}

#[test]
fn long_streams_with_fresh_ids_keep_the_book_in_order() {
    for seed in 1..6 {
        run_stream(seed, 600, 400, false);
    }
}

#[test]
fn long_streams_with_ids_taken_up_again_keep_the_book_in_order() {
    for seed in 11..16 {
        run_stream(seed, 600, 12, true);
    }
}
