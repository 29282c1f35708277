//! Feeding requests to the book, one at a time, and showing the book after
//! each.

use crate::book::{
    cancel, execute, place, replace, replace_check, BookModel, CreateOutcome, OrderBook,
};
use crate::errors::{OrderError, OrderbookProcessingError};
use crate::matching::SideModel;
use crate::orders::{OrderContent, Side};
use crate::requests::{Request, RequestType};
use crate::table::lookup;
use crate::tracker::best_price;
use vstd::multiset::Multiset;
use vstd::prelude::*;

verus! {

/// What became of one request.
#[derive(Clone, Copy, Debug, PartialEq, Eq, Hash, Structural)]
pub enum RequestOutcome {
    /// A create request for an order that rests already; it was ignored.
    Duplicate,
    /// A create request whose order traded completely; nothing of it rests.
    Filled,
    /// A create request whose order rests now, with what was left of it.
    Rested,
    /// A replace request; the order has its new quantity.
    Replaced,
    /// A cancel request; the order is out of the table.
    Cancelled,
    /// A request that was turned down; the book is as it was.
    Rejected(OrderError),
}

/// The book after `request`.
pub open spec fn apply(book: BookModel, request: Request) -> BookModel {
    match request.request_type {
        RequestType::Create => place(book, request.order_id, request.content),
        RequestType::Replace => replace(book, request.order_id, request.content),
        RequestType::Cancel => cancel(book, request.order_id),
    }
}

/// What is reported of `request` when it meets `book`.
///
/// Only a create request for content without terms is an error here: it
/// shows a fault upstream, and processing stops at it. A request that is
/// turned down for what it asks is reported as `Rejected`.
pub open spec fn outcome_of(book: BookModel, request: Request) -> Result<
    RequestOutcome,
    OrderbookProcessingError,
> {
    match request.request_type {
        RequestType::Create => if book.orders.dom().contains(request.order_id) {
            Ok(RequestOutcome::Duplicate)
        } else {
            match request.content.spec_side() {
                None => Err(OrderbookProcessingError),
                Some(side) => if execute(
                    book,
                    side,
                    request.content.spec_price(),
                    request.content.spec_quantity(),
                ).remaining == 0 {
                    Ok(RequestOutcome::Filled)
                } else {
                    Ok(RequestOutcome::Rested)
                },
            }
        },
        RequestType::Replace => match replace_check(book, request.order_id, request.content) {
            Ok(_) => Ok(RequestOutcome::Replaced),
            Err(error) => Ok(RequestOutcome::Rejected(error)),
        },
        RequestType::Cancel => if book.orders.dom().contains(request.order_id) {
            Ok(RequestOutcome::Cancelled)
        } else {
            Ok(RequestOutcome::Rejected(OrderError::NotFound))
        },
    }
}

/// Hands `request` to the book and reports what became of it.
pub fn process_request(book: &mut OrderBook, request: &Request) -> (result: Result<
    RequestOutcome,
    OrderbookProcessingError,
>)
    requires
        old(book).wf(),
    ensures
        final(book).wf(),
        final(book)@ == apply(old(book)@, *request),
        result == outcome_of(old(book)@, *request),
{
    let result = match request.request_type {
        RequestType::Create => match book.new_order(request.order_id, request.content) {
            Ok(CreateOutcome::Duplicate) => Ok(RequestOutcome::Duplicate),
            Ok(CreateOutcome::Executed(execution)) => if execution.remaining == 0 {
                Ok(RequestOutcome::Filled)
            } else {
                Ok(RequestOutcome::Rested)
            },
            Err(error) => Err(error),
        },
        RequestType::Replace => match book.replace_order(request.order_id, request.content) {
            Ok(_) => Ok(RequestOutcome::Replaced),
            Err(error) => Err(error),
        },
        RequestType::Cancel => match book.cancel_order(request.order_id) {
            Ok(_) => Ok(RequestOutcome::Cancelled),
            Err(error) => Err(error),
        },
    };
    match result {
        Ok(outcome) => Ok(outcome),
        Err(error) => if error.is_fatal() {
            Err(OrderbookProcessingError)
        } else {
            Ok(RequestOutcome::Rejected(error))
        },
    }
}

/// One price level as it is shown: its side, its price and its queue, each
/// id with the terms of its order, or with `None` where the order rests no
/// more.
#[derive(Clone, Debug, PartialEq, Eq)]
pub struct LevelSnapshot {
    pub side: Side,
    pub price: u64,
    pub orders: Vec<(u64, Option<OrderContent>)>,
}

/// The book as it is shown: the levels of both sides and the best price of
/// each tracker.
#[derive(Clone, Debug, PartialEq, Eq)]
pub struct BookSnapshot {
    pub levels: Vec<LevelSnapshot>,
    pub best_bid: Option<u64>,
    pub best_ask: Option<u64>,
}

/// Whether `shown` is the level of `book` at its side and price.
pub open spec fn shows_level(shown: LevelSnapshot, book: BookModel) -> bool {
    let levels = book.side(shown.side).levels;
    &&& levels.dom().contains(shown.price)
    &&& shown.orders@.len() == levels[shown.price].len()
    &&& forall|i: int|
        0 <= i < shown.orders@.len() ==> #[trigger] shown.orders@[i] == (
            levels[shown.price][i],
            lookup(book.orders, levels[shown.price][i]),
        )
}

/// Whether `shown` is `book`: every level of the book is shown once, as it
/// is, and the best prices are those of the trackers.
pub open spec fn shows_book(shown: BookSnapshot, book: BookModel) -> bool {
    &&& shown.best_bid == best_price(Side::Bid, book.bids.prices)
    &&& shown.best_ask == best_price(Side::Ask, book.asks.prices)
    &&& forall|i: int|
        0 <= i < shown.levels@.len() ==> shows_level(#[trigger] shown.levels@[i], book)
    &&& forall|i: int, j: int|
        0 <= i < j < shown.levels@.len() ==> (#[trigger] shown.levels@[i]).side != (
        #[trigger] shown.levels@[j]).side || shown.levels@[i].price != shown.levels@[j].price
    &&& forall|side: Side, price: u64| #[trigger]
        book.side(side).levels.dom().contains(price) ==> exists|i: int|
            0 <= i < shown.levels@.len() && (#[trigger] shown.levels@[i]).side == side
                && shown.levels@[i].price == price
}

/// Adds the levels of `side` to `levels`.
fn show_side(book: &OrderBook, side: Side, levels: &mut Vec<LevelSnapshot>)
    requires
        book.wf(),
    ensures
        final(levels)@.len() >= old(levels)@.len(),
        final(levels)@.subrange(0, old(levels)@.len() as int) == old(levels)@,
        forall|i: int|
            old(levels)@.len() <= i < final(levels)@.len() ==> {
                &&& (#[trigger] final(levels)@[i]).side == side
                &&& shows_level(final(levels)@[i], book@)
            },
        forall|i: int, j: int|
            old(levels)@.len() <= i < j < final(levels)@.len() ==> (
            #[trigger] final(levels)@[i]).price != (#[trigger] final(levels)@[j]).price,
        forall|price: u64| #[trigger]
            book@.side(side).levels.dom().contains(price) ==> exists|i: int|
                old(levels)@.len() <= i < final(levels)@.len() && (
                #[trigger] final(levels)@[i]).price == price,
{
    let prices = book.level_prices(side);
    let ghost start = levels@.len() as int;
    let mut k: usize = 0;
    while k < prices.len()
        invariant
            book.wf(),
            k <= prices.len(),
            start == old(levels)@.len(),
            levels@.len() == start + k,
            levels@.subrange(0, start) == old(levels)@,
            prices@.no_duplicates(),
            forall|price: u64| #[trigger]
                prices@.contains(price) <==> book@.side(side).levels.dom().contains(price),
            forall|i: int|
                start <= i < levels@.len() ==> {
                    &&& (#[trigger] levels@[i]).side == side
                    &&& levels@[i].price == prices@[i - start]
                    &&& shows_level(levels@[i], book@)
                },
        decreases prices.len() - k,
    {
        let price: u64 = prices[k];
        assert(prices@.contains(price));
        let ids: Vec<u64> = match book.level(side, price) {
            Some(level) => level.order_ids(),
            None => Vec::new(),
        };
        let mut orders: Vec<(u64, Option<OrderContent>)> = Vec::new();
        let mut m: usize = 0;
        while m < ids.len()
            invariant
                m <= ids.len(),
                orders@.len() == m,
                forall|i: int|
                    0 <= i < m ==> #[trigger] orders@[i] == (ids@[i], lookup(book@.orders, ids@[i])),
            decreases ids.len() - m,
        {
            let id: u64 = ids[m];
            orders.push((id, book.order(id)));
            m += 1;
        }
        let ghost before = levels@;
        levels.push(LevelSnapshot { side, price, orders });
        k += 1;
        proof {
            assert(levels@.subrange(0, start) =~= before.subrange(0, start));
            assert forall|i: int| start <= i < levels@.len() implies {
                &&& (#[trigger] levels@[i]).side == side
                &&& levels@[i].price == prices@[i - start]
                &&& shows_level(levels@[i], book@)
            } by {
                if i < levels@.len() - 1 {
                    assert(levels@[i] == before[i]);
                }
            }
        }
    }
    proof {
        assert forall|price: u64| #[trigger]
            book@.side(side).levels.dom().contains(price) implies exists|i: int|
            start <= i < levels@.len() && (#[trigger] levels@[i]).price == price by {
            assert(prices@.contains(price));
            let at = choose|at: int| 0 <= at < prices@.len() && prices@[at] == price;
            assert(levels@[start + at].price == price);
        }
    }
}

/// Shows the book: the levels of both sides and the best prices.
pub fn snapshot(book: &OrderBook) -> (shown: BookSnapshot)
    requires
        book.wf(),
    ensures
        shows_book(shown, book@),
{
    let mut levels: Vec<LevelSnapshot> = Vec::new();
    show_side(book, Side::Bid, &mut levels);
    let ghost bids = levels@;
    show_side(book, Side::Ask, &mut levels);
    let shown = BookSnapshot { levels, best_bid: book.best_bid(), best_ask: book.best_ask() };
    proof {
        assert forall|i: int| 0 <= i < shown.levels@.len() implies shows_level(
            #[trigger] shown.levels@[i],
            book@,
        ) && shown.levels@[i].side == (if i < bids.len() {
            Side::Bid
        } else {
            Side::Ask
        }) by {
            if i < bids.len() {
                assert(shown.levels@[i] == shown.levels@.subrange(0, bids.len() as int)[i]);
            }
        }
        assert forall|i: int, j: int| 0 <= i < j < shown.levels@.len() implies (
        #[trigger] shown.levels@[i]).side != (#[trigger] shown.levels@[j]).side
            || shown.levels@[i].price != shown.levels@[j].price by {
            if j < bids.len() {
                assert(shown.levels@[i] == shown.levels@.subrange(0, bids.len() as int)[i]);
                assert(shown.levels@[j] == shown.levels@.subrange(0, bids.len() as int)[j]);
            }
        }
        assert forall|side: Side, price: u64| #[trigger]
            book@.side(side).levels.dom().contains(price) implies exists|i: int|
            0 <= i < shown.levels@.len() && (#[trigger] shown.levels@[i]).side == side
                && shown.levels@[i].price == price by {
            match side {
                Side::Bid => {
                    let at = choose|at: int|
                        0 <= at < bids.len() && (#[trigger] bids[at]).price == price;
                    assert(shown.levels@[at] == shown.levels@.subrange(0, bids.len() as int)[at]);
                },
                Side::Ask => {
                    let at = choose|at: int|
                        bids.len() <= at < shown.levels@.len() && (
                        #[trigger] shown.levels@[at]).price == price;
                    assert(shown.levels@[at].side == side);
                },
            }
        }
    }
    shown
}

/// The book without any order.
pub open spec fn empty_book() -> BookModel {
    BookModel {
        orders: Map::empty(),
        bids: SideModel { levels: Map::empty(), prices: Multiset::empty() },
        asks: SideModel { levels: Map::empty(), prices: Multiset::empty() },
    }
}

/// The book after the requests of `requests`, in their order, starting from
/// the empty book.
pub open spec fn run(requests: Seq<Request>) -> BookModel
    decreases requests.len(),
{
    if requests.len() == 0 {
        empty_book()
    } else {
        apply(run(requests.drop_last()), requests.last())
    }
}

/// What is reported of one request: what became of it, and the book after
/// it.
#[derive(Clone, Debug, PartialEq, Eq)]
pub struct RequestReport {
    pub outcome: RequestOutcome,
    pub snapshot: BookSnapshot,
}

/// Whether request `i` of `requests` stops the processing.
pub open spec fn stops_at(requests: Seq<Request>, i: int) -> bool {
    outcome_of(run(requests.take(i)), requests[i]) is Err
}

/// Feeds `requests` to an empty book, in their order, and reports of each
/// what became of it and what the book looked like after it.
///
/// A request that is turned down does not stop the processing; the next
/// request meets the book as it was. Processing is given up, and nothing
/// reported, when a create request comes with content without terms.
pub fn process_requests(requests: &[Request]) -> (result: Result<
    Vec<RequestReport>,
    OrderbookProcessingError,
>)
    ensures
        result is Err <==> exists|i: int| 0 <= i < requests@.len() && stops_at(requests@, i),
        result is Ok ==> {
            &&& result->Ok_0@.len() == requests@.len()
            &&& forall|i: int|
                0 <= i < requests@.len() ==> {
                    &&& Ok::<RequestOutcome, OrderbookProcessingError>(
                        (#[trigger] result->Ok_0@[i]).outcome,
                    ) == outcome_of(run(requests@.take(i)), requests@[i])
                    &&& shows_book(result->Ok_0@[i].snapshot, run(requests@.take(i + 1)))
                }
        },
{
    let mut book = OrderBook::new();
    let mut reports: Vec<RequestReport> = Vec::new();
    let mut k: usize = 0;
    proof {
        assert(book@ =~= empty_book());
        assert(requests@.take(0) =~= Seq::<Request>::empty());
    }
    while k < requests.len()
        invariant
            book.wf(),
            k <= requests@.len(),
            reports@.len() == k,
            book@ == run(requests@.take(k as int)),
            forall|i: int| 0 <= i < k ==> !stops_at(requests@, i),
            forall|i: int|
                0 <= i < k ==> {
                    &&& Ok::<RequestOutcome, OrderbookProcessingError>(
                        (#[trigger] reports@[i]).outcome,
                    ) == outcome_of(run(requests@.take(i)), requests@[i])
                    &&& shows_book(reports@[i].snapshot, run(requests@.take(i + 1)))
                },
        decreases requests@.len() - k,
    {
        let ghost before = reports@;
        let outcome = match process_request(&mut book, &requests[k]) {
            Ok(outcome) => outcome,
            Err(error) => {
                assert(stops_at(requests@, k as int));
                return Err(error);
            },
        };
        proof {
            assert(requests@.take(k + 1).drop_last() =~= requests@.take(k as int));
            assert(requests@.take(k + 1).last() == requests@[k as int]);
        }
        let snapshot = snapshot(&book);
        reports.push(RequestReport { outcome, snapshot });
        k += 1;
        proof {
            assert forall|i: int| 0 <= i < k implies {
                &&& Ok::<RequestOutcome, OrderbookProcessingError>(
                    (#[trigger] reports@[i]).outcome,
                ) == outcome_of(run(requests@.take(i)), requests@[i])
                &&& shows_book(reports@[i].snapshot, run(requests@.take(i + 1)))
            } by {
                if i < k - 1 {
                    assert(reports@[i] == before[i]);
                }
            }
        }
    }
    Ok(reports)
}

} // verus!
