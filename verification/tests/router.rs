use orderbook::book::OrderBook;
use orderbook::errors::{OrderError, OrderbookProcessingError};
use orderbook::orders::{OrderContent, Side};
use orderbook::requests::{Request, RequestType, Timestamp};
use orderbook::router::{
    process_request, process_requests, snapshot, BookSnapshot, LevelSnapshot, RequestOutcome,
};

fn request(order_id: u64, request_type: RequestType, content: OrderContent) -> Request {
    Request {
        timestamp: Timestamp { seconds: order_id as i64, nanos: 0, offset_seconds: 0 },
        order_id,
        request_type,
        content,
    }
}

fn buy(price: u64, quantity: u64) -> OrderContent {
    OrderContent::LimitOrderBuy { price, quantity }
}

fn sell(price: u64, quantity: u64) -> OrderContent {
    OrderContent::LimitOrderSell { price, quantity }
}

#[test]
fn walk_through_is_reported_step_by_step() {
    let requests = vec![
        request(1, RequestType::Create, sell(100, 10)),
        request(2, RequestType::Create, buy(100, 4)),
        request(3, RequestType::Create, buy(100, 10)),
        request(3, RequestType::Replace, buy(100, 2)),
        request(3, RequestType::Replace, buy(90, 2)),
        request(3, RequestType::Cancel, OrderContent::Empty),
        request(3, RequestType::Cancel, OrderContent::Empty),
        request(4, RequestType::Create, sell(100, 1)),
    ];
    let reports = process_requests(&requests).unwrap();
    let outcomes: Vec<RequestOutcome> = reports.iter().map(|report| report.outcome).collect();
    assert_eq!(
        outcomes,
        vec![
            RequestOutcome::Rested,
            RequestOutcome::Filled,
            RequestOutcome::Rested,
            RequestOutcome::Replaced,
            RequestOutcome::Rejected(OrderError::InvalidReplace),
            RequestOutcome::Cancelled,
            RequestOutcome::Rejected(OrderError::NotFound),
            RequestOutcome::Rested,
        ]
    );
    assert_eq!(
        reports[0].snapshot,
        BookSnapshot {
            levels: vec![LevelSnapshot {
                side: Side::Ask,
                price: 100,
                orders: vec![(1, Some(sell(100, 10)))],
            }],
            best_bid: None,
            best_ask: Some(100),
        }
    );
    assert_eq!(
        reports[1].snapshot,
        BookSnapshot {
            levels: vec![LevelSnapshot {
                side: Side::Ask,
                price: 100,
                orders: vec![(1, Some(sell(100, 6)))],
            }],
            best_bid: None,
            best_ask: Some(100),
        }
    );
    assert_eq!(
        reports[2].snapshot,
        BookSnapshot {
            levels: vec![LevelSnapshot {
                side: Side::Bid,
                price: 100,
                orders: vec![(3, Some(buy(100, 4)))],
            }],
            best_bid: Some(100),
            best_ask: None,
        }
    );
    assert_eq!(reports[4].snapshot, reports[3].snapshot);
    assert_eq!(
        reports[5].snapshot,
        BookSnapshot {
            levels: vec![LevelSnapshot { side: Side::Bid, price: 100, orders: vec![(3, None)] }],
            best_bid: Some(100),
            best_ask: None,
        }
    );
    assert_eq!(
        reports[7].snapshot,
        BookSnapshot {
            levels: vec![LevelSnapshot {
                side: Side::Ask,
                price: 100,
                orders: vec![(4, Some(sell(100, 1)))],
            }],
            best_bid: None,
            best_ask: Some(100),
        }
    );
}

#[test]
fn duplicate_create_is_reported_and_changes_nothing() {
    let requests = vec![
        request(1, RequestType::Create, sell(100, 10)),
        request(1, RequestType::Create, sell(100, 10)),
    ];
    let reports = process_requests(&requests).unwrap();
    assert_eq!(reports[1].outcome, RequestOutcome::Duplicate);
    assert_eq!(reports[1].snapshot, reports[0].snapshot);
}

#[test]
fn content_without_terms_stops_the_processing() {
    let requests = vec![
        request(1, RequestType::Create, sell(100, 10)),
        request(2, RequestType::Create, OrderContent::Empty),
        request(3, RequestType::Create, sell(100, 10)),
    ];
    assert_eq!(process_requests(&requests), Err(OrderbookProcessingError));
    assert_eq!(process_requests(&[]), Ok(vec![]));
}

#[test]
fn one_request_at_a_time() {
    let mut book = OrderBook::new();
    assert_eq!(
        process_request(&mut book, &request(1, RequestType::Cancel, OrderContent::Empty)),
        Ok(RequestOutcome::Rejected(OrderError::NotFound))
    );
    assert_eq!(
        process_request(&mut book, &request(1, RequestType::Replace, buy(1, 1))),
        Ok(RequestOutcome::Rejected(OrderError::NotFound))
    );
    assert_eq!(
        process_request(&mut book, &request(1, RequestType::Create, buy(1, 1))),
        Ok(RequestOutcome::Rested)
    );
    assert_eq!(
        process_request(&mut book, &request(1, RequestType::Create, OrderContent::Empty)),
        Ok(RequestOutcome::Duplicate)
    );
    assert_eq!(
        process_request(&mut book, &request(2, RequestType::Create, OrderContent::Empty)),
        Err(OrderbookProcessingError)
    );
    assert_eq!(book.order(1), Some(buy(1, 1)));
    assert_eq!(
        process_request(&mut book, &request(1, RequestType::Cancel, OrderContent::Empty)),
        Ok(RequestOutcome::Cancelled)
    );
    assert_eq!(book.order(1), None);
}

#[test]
fn snapshot_shows_every_level_once() {
    let mut book = OrderBook::new();
    book.new_order(1, buy(10, 1)).unwrap();
    book.new_order(2, buy(11, 1)).unwrap();
    book.new_order(3, buy(10, 1)).unwrap();
    book.new_order(4, sell(20, 1)).unwrap();
    book.new_order(5, sell(21, 1)).unwrap();
    book.cancel_order(3).unwrap();
    let shown = snapshot(&book);
    assert_eq!(shown.best_bid, Some(11));
    assert_eq!(shown.best_ask, Some(20));
    let mut levels = shown.levels.clone();
    levels.sort_by_key(|level| (level.side == Side::Ask, level.price));
    assert_eq!(
        levels,
        vec![
            LevelSnapshot {
                side: Side::Bid,
                price: 10,
                orders: vec![(1, Some(buy(10, 1))), (3, None)],
            },
            LevelSnapshot { side: Side::Bid, price: 11, orders: vec![(2, Some(buy(11, 1)))] },
            LevelSnapshot { side: Side::Ask, price: 20, orders: vec![(4, Some(sell(20, 1)))] },
            LevelSnapshot { side: Side::Ask, price: 21, orders: vec![(5, Some(sell(21, 1)))] },
        ]
    );
    assert!(shown.levels[..2].iter().all(|level| level.side == Side::Bid));
}
