//! What holds of a book whose requests never take up the id of an order
//! that has left.
//!
//! The book accepts a create request for any id that does not rest. Where
//! such an id is still queued from an earlier order, the new order stands
//! in two queues at once, and priority and price of a fill can no longer be
//! read off the queue it was found in. A stream of requests that names a
//! used id only while its order rests keeps the queues in order; the laws
//! that ask for orderly queues then hold of every crossing.

use crate::book::{cancel, execute, place, replace, BookModel};
use crate::laws::{
    lemma_cross_only_takes, lemma_earlier_order_trades_first, lemma_execute_keeps_order,
    lemma_place_keeps_order, lemma_resting_order_trades_at_its_price, only_traded,
    queued_at_own_terms, stands_once,
};
use crate::matching::{cross, rest_on, SideModel};
use crate::orders::{OrderContent, Side};
use crate::requests::{Request, RequestType};
use crate::router::{apply, empty_book, run};
use crate::table::lookup;
use vstd::prelude::*;

verus! {

/// Whether every id that is queued on this side is one of `seen`.
pub open spec fn queued_ids_within(book: SideModel, seen: Set<u64>) -> bool {
    forall|price: u64, i: int|
        book.levels.dom().contains(price) && 0 <= i < book.levels[price].len() ==> seen.contains(
            #[trigger] book.levels[price][i],
        )
}

/// Whether no id is queued twice on this side.
pub open spec fn queued_once(book: SideModel) -> bool {
    forall|price: u64, at: int|
        book.levels.dom().contains(price) && 0 <= at < book.levels[price].len()
            ==> #[trigger] stands_once(book.levels, price, at)
}

/// Whether the queues of `book` are in order: the book is well formed, all
/// ids in it are among `seen`, no id is queued twice on a side, and every
/// resting order that is queued is queued on its own side at its own price.
pub open spec fn well_queued(book: BookModel, seen: Set<u64>) -> bool {
    &&& book.wf()
    &&& forall|id: u64| #[trigger] book.orders.dom().contains(id) ==> seen.contains(id)
    &&& queued_ids_within(book.bids, seen)
    &&& queued_ids_within(book.asks, seen)
    &&& queued_once(book.bids)
    &&& queued_once(book.asks)
    &&& queued_at_own_terms(book.orders, book.bids, Side::Bid)
    &&& queued_at_own_terms(book.orders, book.asks, Side::Ask)
}

/// Queues that are in order are still in order after a crossing.
pub proof fn lemma_cross_keeps_queues(
    orders: Map<u64, OrderContent>,
    book: SideModel,
    resting: Side,
    limit: u64,
    quantity: u64,
    seen: Set<u64>,
)
    requires
        queued_ids_within(book, seen),
        queued_once(book),
        queued_at_own_terms(orders, book, resting),
    ensures
        queued_ids_within(cross(orders, book, resting, limit, quantity).side, seen),
        queued_once(cross(orders, book, resting, limit, quantity).side),
        queued_at_own_terms(
            cross(orders, book, resting, limit, quantity).orders,
            cross(orders, book, resting, limit, quantity).side,
            resting,
        ),
{
    let crossed = cross(orders, book, resting, limit, quantity);
    let after = crossed.side.levels;
    lemma_cross_only_takes(orders, book, resting, limit, quantity);
    assert forall|price: u64, i: int|
        after.dom().contains(price) && 0 <= i < after[price].len() implies {
        &&& book.levels.dom().contains(price)
        &&& 0 <= i + (book.levels[price].len() - after[price].len()) < book.levels[price].len()
        &&& #[trigger] after[price][i] == book.levels[price][i + (book.levels[price].len()
            - after[price].len())]
    } by {}
    assert forall|price: u64, i: int|
        after.dom().contains(price) && 0 <= i < after[price].len() implies seen.contains(
        #[trigger] after[price][i],
    ) by {
        let shift = book.levels[price].len() - after[price].len();
        assert(after[price][i] == book.levels[price][i + shift]);
    }
    assert forall|price: u64, at: int|
        after.dom().contains(price) && 0 <= at < after[price].len() implies #[trigger] stands_once(
        after,
        price,
        at,
    ) by {
        let shift = book.levels[price].len() - after[price].len();
        assert(stands_once(book.levels, price, at + shift));
        assert forall|other: u64, i: int|
            after.dom().contains(other) && 0 <= i < after[other].len() && #[trigger] after[other][i]
                == after[price][at] implies other == price && i == at by {
            let slide = book.levels[other].len() - after[other].len();
            assert(book.levels[other][i + slide] == book.levels[price][at + shift]);
        }
    }
    assert forall|price: u64, i: int|
        after.dom().contains(price) && 0 <= i < after[price].len() && crossed.orders.dom().contains(
            #[trigger] after[price][i],
        ) implies {
        &&& crossed.orders[after[price][i]].spec_side() == Some(resting)
        &&& crossed.orders[after[price][i]].spec_price() == price
    } by {
        let shift = book.levels[price].len() - after[price].len();
        assert(after[price][i] == book.levels[price][i + shift]);
        assert(orders.dom().contains(book.levels[price][i + shift]));
    }
}

/// Queues that are in order stay so when more ids count as seen.
proof fn lemma_well_queued_widens(book: BookModel, seen: Set<u64>, wider: Set<u64>)
    requires
        well_queued(book, seen),
        forall|id: u64| seen.contains(id) ==> wider.contains(id),
    ensures
        well_queued(book, wider),
{
}

/// A create request keeps the queues in order when its id either rests or
/// was never seen.
pub proof fn lemma_place_keeps_queues(
    book: BookModel,
    seen: Set<u64>,
    id: u64,
    content: OrderContent,
)
    requires
        well_queued(book, seen),
        book.orders.dom().contains(id) || !seen.contains(id),
    ensures
        well_queued(place(book, id, content), seen.insert(id)),
{
    let wider = seen.insert(id);
    if book.orders.dom().contains(id) || content.spec_side() is None {
        lemma_well_queued_widens(book, seen, wider);
    } else {
        let side = content.spec_side()->0;
        let opposite = side.spec_opposite();
        let price = content.spec_price();
        let crossed = cross(
            book.orders,
            book.side(opposite),
            opposite,
            price,
            content.spec_quantity(),
        );
        let executed = execute(book, side, price, content.spec_quantity());
        lemma_cross_only_takes(
            book.orders,
            book.side(opposite),
            opposite,
            price,
            content.spec_quantity(),
        );
        lemma_cross_keeps_queues(
            book.orders,
            book.side(opposite),
            opposite,
            price,
            content.spec_quantity(),
            seen,
        );
        assert(only_traded(book.orders, crossed.orders));
        assert(executed.book.side(side) == book.side(side));
        assert(executed.book.side(opposite) == crossed.side);
        assert(well_queued(executed.book, seen)) by {
            lemma_execute_keeps_order(book, side, price, content.spec_quantity());
            assert(queued_at_own_terms(executed.book.orders, book.side(side), side));
        }
        if executed.remaining == 0 {
            lemma_well_queued_widens(executed.book, seen, wider);
        } else {
            let own = book.side(side);
            let rested = rest_on(own, id, price);
            let resting = content.spec_with_quantity(executed.remaining);
            let orders = crossed.orders.insert(id, resting);
            let placed = place(book, id, content);
            assert(placed.orders == orders);
            assert(placed.side(side) == rested);
            assert(placed.side(opposite) == crossed.side);
            assert(placed.wf()) by {
                lemma_place_keeps_order(book, id, content);
            }
            lemma_rest_keeps_queue(own, seen, id, price);
            assert(queued_at_own_terms(orders, rested, side)) by {
                assert forall|p: u64, i: int|
                    rested.levels.dom().contains(p) && 0 <= i < rested.levels[p].len()
                        && orders.dom().contains(#[trigger] rested.levels[p][i]) implies {
                    &&& orders[rested.levels[p][i]].spec_side() == Some(side)
                    &&& orders[rested.levels[p][i]].spec_price() == p
                } by {
                    if rested.levels[p][i] != id {
                        assert(own.levels.dom().contains(p));
                        assert(rested.levels[p][i] == own.levels[p][i]);
                    }
                }
            }
            assert(queued_at_own_terms(orders, crossed.side, opposite)) by {
                assert forall|p: u64, i: int|
                    crossed.side.levels.dom().contains(p) && 0 <= i < crossed.side.levels[p].len()
                        && orders.dom().contains(#[trigger] crossed.side.levels[p][i]) implies {
                    &&& orders[crossed.side.levels[p][i]].spec_side() == Some(opposite)
                    &&& orders[crossed.side.levels[p][i]].spec_price() == p
                } by {
                    assert(seen.contains(crossed.side.levels[p][i]));
                }
            }
            assert(queued_ids_within(crossed.side, wider));
        }
    }
}

/// An id that was never seen takes its place behind the others without
/// upsetting the queues of its side.
proof fn lemma_rest_keeps_queue(own: SideModel, seen: Set<u64>, id: u64, price: u64)
    requires
        queued_ids_within(own, seen),
        queued_once(own),
        !seen.contains(id),
    ensures
        queued_ids_within(rest_on(own, id, price), seen.insert(id)),
        queued_once(rest_on(own, id, price)),
        forall|p: u64, i: int|
            rest_on(own, id, price).levels.dom().contains(p) && 0 <= i < rest_on(
                own,
                id,
                price,
            ).levels[p].len() && #[trigger] rest_on(own, id, price).levels[p][i] != id ==> {
                &&& own.levels.dom().contains(p)
                &&& i < own.levels[p].len()
                &&& rest_on(own, id, price).levels[p][i] == own.levels[p][i]
            },
        forall|p: u64, i: int|
            rest_on(own, id, price).levels.dom().contains(p) && 0 <= i < rest_on(
                own,
                id,
                price,
            ).levels[p].len() && #[trigger] rest_on(own, id, price).levels[p][i] == id ==> p
                == price,
{
    let rested = rest_on(own, id, price).levels;
    assert forall|p: u64, i: int| rested.dom().contains(p) && 0 <= i < rested[p].len() implies {
        if #[trigger] rested[p][i] == id {
            p == price && i == rested[p].len() - 1
        } else {
            &&& own.levels.dom().contains(p)
            &&& i < own.levels[p].len()
            &&& rested[p][i] == own.levels[p][i]
        }
    } by {
        if p == price && i < rested[p].len() - 1 {
            assert(own.levels.dom().contains(p));
            assert(rested[p][i] == own.levels[p][i]);
        }
        if p != price {
            assert(rested[p][i] == own.levels[p][i]);
        }
    }
    assert forall|p: u64, at: int|
        rested.dom().contains(p) && 0 <= at < rested[p].len() implies #[trigger] stands_once(
        rested,
        p,
        at,
    ) by {
        if rested[p][at] != id {
            assert(stands_once(own.levels, p, at));
        }
        assert forall|other: u64, i: int|
            rested.dom().contains(other) && 0 <= i < rested[other].len() && #[trigger] rested[other][i]
                == rested[p][at] implies other == p && i == at by {
            if rested[p][at] != id {
                assert(own.levels[other][i] == own.levels[p][at]);
            }
        }
    }
}

/// A replace request keeps the queues in order.
pub proof fn lemma_replace_keeps_queues(
    book: BookModel,
    seen: Set<u64>,
    id: u64,
    content: OrderContent,
)
    requires
        well_queued(book, seen),
    ensures
        well_queued(replace(book, id, content), seen),
{
}

/// A cancel request keeps the queues in order.
pub proof fn lemma_cancel_keeps_queues(book: BookModel, seen: Set<u64>, id: u64)
    requires
        well_queued(book, seen),
    ensures
        well_queued(cancel(book, id), seen),
{
}

/// The ids that the first `n` requests of `requests` ask to create.
pub open spec fn created_by(requests: Seq<Request>, n: int) -> Set<u64> {
    Set::new(
        |id: u64|
            exists|i: int|
                0 <= i < n && i < requests.len() && (#[trigger] requests[i]).order_id == id
                    && requests[i].request_type == RequestType::Create,
    )
}

/// Whether no create request of `requests` takes up the id of an order
/// that has left: an id that an earlier request created is named again
/// only while its order rests.
pub open spec fn takes_up_no_id(requests: Seq<Request>) -> bool {
    forall|j: int|
        0 <= j < requests.len() && (#[trigger] requests[j]).request_type == RequestType::Create
            && created_by(requests, j).contains(requests[j].order_id) ==> run(
            requests.take(j),
        ).orders.dom().contains(requests[j].order_id)
}

/// The book that a stream of requests leaves has its queues in order when
/// the stream takes up no id of an order that has left.
pub proof fn lemma_orderly_past_keeps_queues(requests: Seq<Request>)
    requires
        takes_up_no_id(requests),
    ensures
        well_queued(run(requests), created_by(requests, requests.len() as int)),
    decreases requests.len(),
{
    let n = requests.len() as int;
    if n == 0 {
        assert(well_queued(empty_book(), created_by(requests, 0)));
    } else {
        let before = requests.drop_last();
        let last = requests.last();
        let seen = created_by(before, n - 1);
        assert(before =~= requests.take(n - 1));
        assert forall|j: int| 0 <= j <= n - 1 implies #[trigger] created_by(before, j)
            == created_by(requests, j) by {
            assert forall|id: u64| created_by(before, j).contains(id) == created_by(
                requests,
                j,
            ).contains(id) by {
                if created_by(before, j).contains(id) {
                    let i = choose|i: int|
                        0 <= i < j && i < before.len() && (#[trigger] before[i]).order_id == id
                            && before[i].request_type == RequestType::Create;
                    assert(requests[i] == before[i]);
                }
                if created_by(requests, j).contains(id) {
                    let i = choose|i: int|
                        0 <= i < j && i < requests.len() && (#[trigger] requests[i]).order_id == id
                            && requests[i].request_type == RequestType::Create;
                    assert(before[i] == requests[i]);
                }
            }
            assert(created_by(before, j) =~= created_by(requests, j));
        }
        assert(takes_up_no_id(before)) by {
            assert forall|j: int|
                0 <= j < before.len() && (#[trigger] before[j]).request_type
                    == RequestType::Create && created_by(before, j).contains(
                    before[j].order_id,
                ) implies run(before.take(j)).orders.dom().contains(before[j].order_id) by {
                assert(requests[j] == before[j]);
                assert(before.take(j) =~= requests.take(j));
                assert(created_by(before, j) == created_by(requests, j));
            }
        }
        lemma_orderly_past_keeps_queues(before);
        let book = run(before);
        let all = created_by(requests, n);
        assert(run(requests) == apply(book, last));
        assert(created_by(requests, n - 1) == seen);
        assert forall|id: u64| seen.contains(id) implies all.contains(id) by {
            let i = choose|i: int|
                0 <= i < n - 1 && i < requests.len() && (#[trigger] requests[i]).order_id == id
                    && requests[i].request_type == RequestType::Create;
            assert(0 <= i < n);
        }
        match last.request_type {
            RequestType::Create => {
                assert(requests[n - 1] == last);
                assert(all.contains(last.order_id));
                assert(all =~= seen.insert(last.order_id)) by {
                    assert forall|id: u64| all.contains(id) implies seen.insert(
                        last.order_id,
                    ).contains(id) by {
                        let i = choose|i: int|
                            0 <= i < n && i < requests.len() && (#[trigger] requests[i]).order_id
                                == id && requests[i].request_type == RequestType::Create;
                        if i < n - 1 {
                            assert(seen.contains(id));
                        }
                    }
                }
                if seen.contains(last.order_id) {
                    assert(requests.take(n - 1) =~= before);
                }
                lemma_place_keeps_queues(book, seen, last.order_id, last.content);
            },
            RequestType::Replace => {
                lemma_replace_keeps_queues(book, seen, last.order_id, last.content);
                lemma_well_queued_widens(run(requests), seen, all);
            },
            RequestType::Cancel => {
                lemma_cancel_keeps_queues(book, seen, last.order_id);
                lemma_well_queued_widens(run(requests), seen, all);
            },
        }
    }
}

/// No price violation, with queues in order: every fill is at the limit
/// price of the resting order that trades, and that order is of the
/// opposite side.
pub proof fn lemma_orderly_book_trades_at_resting_prices(
    book: BookModel,
    seen: Set<u64>,
    side: Side,
    limit: u64,
    quantity: u64,
    fill: int,
)
    requires
        well_queued(book, seen),
        0 <= fill < execute(book, side, limit, quantity).fills.len(),
    ensures
        book.orders.dom().contains(execute(book, side, limit, quantity).fills[fill].resting_id),
        book.orders[execute(book, side, limit, quantity).fills[fill].resting_id].spec_price()
            == execute(book, side, limit, quantity).fills[fill].price,
        book.orders[execute(book, side, limit, quantity).fills[fill].resting_id].spec_side()
            == Some(side.spec_opposite()),
{
    lemma_resting_order_trades_at_its_price(book, side, limit, quantity, fill);
}

/// Price-time priority, with queues in order: of two orders queued at the
/// same price on the same side, the one queued later is touched by an
/// incoming order only when the one queued earlier is gone from the table.
pub proof fn lemma_orderly_book_serves_in_arrival_order(
    book: BookModel,
    seen: Set<u64>,
    side: Side,
    limit: u64,
    quantity: u64,
    price: u64,
    earlier: int,
    later: int,
)
    requires
        well_queued(book, seen),
        book.side(side.spec_opposite()).levels.dom().contains(price),
        0 <= earlier < later < book.side(side.spec_opposite()).levels[price].len(),
        lookup(
            execute(book, side, limit, quantity).book.orders,
            book.side(side.spec_opposite()).levels[price][later],
        ) != lookup(book.orders, book.side(side.spec_opposite()).levels[price][later]),
    ensures
        !execute(book, side, limit, quantity).book.orders.dom().contains(
            book.side(side.spec_opposite()).levels[price][earlier],
        ),
{
    let levels = book.side(side.spec_opposite()).levels;
    assert(stands_once(levels, price, later));
    lemma_earlier_order_trades_first(book, side, limit, quantity, price, earlier, later);
}

} // verus!
