//! What holds of every crossing.
//!
//! The statements here are proved of `sweep_level`, `cross` and the
//! functions of the book model, which the executable book is proved to
//! follow step by step.

use crate::book::{cancel, execute, place, replace, replace_check, BookModel};
use crate::errors::OrderError;
use crate::matching::{
    cross, levels_are_tracked, rest_on, sweep_level, Crossing, Fill, SideModel,
};
use crate::orders::{spec_ranks_before, OrderContent, Side};
use crate::table::{all_can_rest, lookup};
use crate::tracker::{best_price, is_best, lemma_take_out_one};
use vstd::multiset::group_multiset_axioms;
use vstd::prelude::*;

verus! {

/// The open quantity of the order `id`; zero when it does not rest.
pub open spec fn open_quantity(orders: Map<u64, OrderContent>, id: u64) -> nat {
    if orders.dom().contains(id) {
        orders[id].spec_quantity() as nat
    } else {
        0
    }
}

/// The quantity that changed hands in `fills`.
pub open spec fn traded(fills: Seq<Fill>) -> nat
    decreases fills.len(),
{
    if fills.len() == 0 {
        0
    } else {
        fills[0].quantity as nat + traded(fills.drop_first())
    }
}

/// The quantity that the resting order `id` gave in `fills`.
pub open spec fn traded_by(fills: Seq<Fill>, id: u64) -> nat
    decreases fills.len(),
{
    if fills.len() == 0 {
        0
    } else {
        (if fills[0].resting_id == id {
            fills[0].quantity as nat
        } else {
            0
        }) + traded_by(fills.drop_first(), id)
    }
}

/// The trades of two runs of fills add up.
proof fn lemma_traded_adds(first: Seq<Fill>, second: Seq<Fill>)
    ensures
        traded(first + second) == traded(first) + traded(second),
        forall|id: u64| #[trigger]
            traded_by(first + second, id) == traded_by(first, id) + traded_by(second, id),
    decreases first.len(),
{
    if first.len() == 0 {
        assert(first + second =~= second);
    } else {
        lemma_traded_adds(first.drop_first(), second);
        assert((first + second).drop_first() =~= first.drop_first() + second);
        assert forall|id: u64| #[trigger]
            traded_by(first + second, id) == traded_by(first, id) + traded_by(second, id) by {
            assert(traded_by(first.drop_first() + second, id) == traded_by(first.drop_first(), id)
                + traded_by(second, id));
        }
    }
}

/// What a run of one fill trades.
proof fn lemma_traded_once(fill: Fill, rest: Seq<Fill>)
    ensures
        traded(seq![fill] + rest) == fill.quantity + traded(rest),
        forall|id: u64| #[trigger]
            traded_by(seq![fill] + rest, id) == (if fill.resting_id == id {
                fill.quantity as nat
            } else {
                0
            }) + traded_by(rest, id),
{
    assert((seq![fill] + rest).drop_first() =~= rest);
}

/// Walking a level conserves quantity: the incoming order loses what the
/// fills add up to, and each resting order loses what its own fills add up
/// to.
pub proof fn lemma_sweep_conserves_quantity(
    orders: Map<u64, OrderContent>,
    queue: Seq<u64>,
    price: u64,
    quantity: u64,
)
    ensures
        sweep_level(orders, queue, price, quantity).remaining <= quantity,
        quantity - sweep_level(orders, queue, price, quantity).remaining == traded(
            sweep_level(orders, queue, price, quantity).fills,
        ),
        forall|id: u64|
            open_quantity(orders, id) - open_quantity(
                sweep_level(orders, queue, price, quantity).orders,
                id,
            ) == #[trigger] traded_by(sweep_level(orders, queue, price, quantity).fills, id),
    decreases queue.len(),
{
    if quantity != 0 && queue.len() != 0 {
        let front = queue[0];
        if !orders.dom().contains(front) {
            lemma_sweep_conserves_quantity(orders, queue.drop_first(), price, quantity);
        } else {
            let open = orders[front].spec_quantity();
            let fill = Fill { resting_id: front, price, quantity: open };
            if open <= quantity {
                let rest = sweep_level(
                    orders.remove(front),
                    queue.drop_first(),
                    price,
                    (quantity - open) as u64,
                );
                lemma_sweep_conserves_quantity(
                    orders.remove(front),
                    queue.drop_first(),
                    price,
                    (quantity - open) as u64,
                );
                lemma_traded_once(fill, rest.fills);
                assert forall|id: u64|
                    open_quantity(orders, id) - open_quantity(rest.orders, id)
                        == #[trigger] traded_by(seq![fill] + rest.fills, id) by {
                    assert(traded_by(rest.fills, id) == open_quantity(orders.remove(front), id)
                        - open_quantity(rest.orders, id));
                }
            } else {
                let partial = Fill { resting_id: front, price, quantity };
                lemma_traded_once(partial, Seq::empty());
                assert(seq![partial] + Seq::<Fill>::empty() =~= seq![partial]);
                let left = orders.insert(
                    front,
                    orders[front].spec_with_quantity((open - quantity) as u64),
                );
                assert forall|id: u64|
                    open_quantity(orders, id) - open_quantity(left, id) == #[trigger] traded_by(
                        seq![partial],
                        id,
                    ) by {
                    assert(traded_by(Seq::<Fill>::empty(), id) == 0);
                }
            }
        }
    }
}

/// Crossing conserves quantity: the incoming order loses what the fills add
/// up to, and each resting order loses what its own fills add up to.
pub proof fn lemma_cross_conserves_quantity(
    orders: Map<u64, OrderContent>,
    book: SideModel,
    resting: Side,
    limit: u64,
    quantity: u64,
)
    ensures
        cross(orders, book, resting, limit, quantity).remaining <= quantity,
        quantity - cross(orders, book, resting, limit, quantity).remaining == traded(
            cross(orders, book, resting, limit, quantity).fills,
        ),
        forall|id: u64|
            open_quantity(orders, id) - open_quantity(
                cross(orders, book, resting, limit, quantity).orders,
                id,
            ) == #[trigger] traded_by(cross(orders, book, resting, limit, quantity).fills, id),
    decreases book.prices.len(),
{
    match best_price(resting, book.prices) {
        None => {},
        Some(price) => {
            if quantity == 0 || !spec_ranks_before(resting, price, limit) {
            } else {
                assert(is_best(resting, book.prices, price));
                lemma_take_out_one(book.prices, price);
                if !book.levels.dom().contains(price) {
                    lemma_cross_conserves_quantity(
                        orders,
                        SideModel { levels: book.levels, prices: book.prices.remove(price) },
                        resting,
                        limit,
                        quantity,
                    );
                } else {
                    let swept = sweep_level(orders, book.levels[price], price, quantity);
                    lemma_sweep_conserves_quantity(orders, book.levels[price], price, quantity);
                    if swept.queue.len() == 0 {
                        let next = SideModel {
                            levels: book.levels.remove(price),
                            prices: book.prices.remove(price),
                        };
                        let rest = cross(swept.orders, next, resting, limit, swept.remaining);
                        lemma_cross_conserves_quantity(
                            swept.orders,
                            next,
                            resting,
                            limit,
                            swept.remaining,
                        );
                        lemma_traded_adds(swept.fills, rest.fills);
                        assert forall|id: u64|
                            open_quantity(orders, id) - open_quantity(rest.orders, id)
                                == #[trigger] traded_by(swept.fills + rest.fills, id) by {
                            assert(traded_by(swept.fills, id) == open_quantity(orders, id)
                                - open_quantity(swept.orders, id));
                            assert(traded_by(rest.fills, id) == open_quantity(swept.orders, id)
                                - open_quantity(rest.orders, id));
                        }
                    }
                }
            }
        },
    }
}

/// Whether `id` stands among the first `n` ids of `queue`.
pub open spec fn stands_within(queue: Seq<u64>, id: u64, n: int) -> bool {
    exists|i: int| 0 <= i < n && i < queue.len() && #[trigger] queue[i] == id
}

/// The terms of `after` are those of `before` but for orders that left and
/// open quantities that went down.
pub open spec fn only_traded(
    before: Map<u64, OrderContent>,
    after: Map<u64, OrderContent>,
) -> bool {
    forall|id: u64| #[trigger]
        after.dom().contains(id) ==> {
            &&& before.dom().contains(id)
            &&& after[id].spec_side() == before[id].spec_side()
            &&& after[id].spec_price() == before[id].spec_price()
            &&& after[id].spec_quantity() <= before[id].spec_quantity()
        }
}

/// A walk takes ids from the front of the queue and touches nothing behind
/// the id it stops at.
///
/// What is left of the queue is the old queue without its first `taken`
/// ids. None of the ids taken rests afterwards. An order whose id is not
/// among the ids taken, nor the id at which the walk stopped, is as it was.
/// Every fill is at the price of the level and of an order that rested.
pub proof fn lemma_sweep_takes_from_front(
    orders: Map<u64, OrderContent>,
    queue: Seq<u64>,
    price: u64,
    quantity: u64,
)
    ensures
        sweep_level(orders, queue, price, quantity).queue.len() <= queue.len(),
        sweep_level(orders, queue, price, quantity).queue == queue.skip(
            queue.len() - sweep_level(orders, queue, price, quantity).queue.len(),
        ),
        forall|i: int|
            0 <= i < queue.len() - sweep_level(orders, queue, price, quantity).queue.len()
                ==> !sweep_level(orders, queue, price, quantity).orders.dom().contains(
                #[trigger] queue[i],
            ),
        only_traded(orders, sweep_level(orders, queue, price, quantity).orders),
        forall|id: u64|
            !stands_within(
                queue,
                id,
                queue.len() - sweep_level(orders, queue, price, quantity).queue.len() + 1,
            ) ==> #[trigger] lookup(sweep_level(orders, queue, price, quantity).orders, id)
                == lookup(orders, id),
        sweep_level(orders, queue, price, quantity).queue.len() == 0 ==> forall|id: u64| #[trigger]
            sweep_level(orders, queue, price, quantity).orders.dom().contains(id)
                ==> sweep_level(orders, queue, price, quantity).orders[id] == orders[id],
        forall|i: int|
            0 <= i < sweep_level(orders, queue, price, quantity).fills.len() ==> {
                let fill = #[trigger] sweep_level(orders, queue, price, quantity).fills[i];
                &&& fill.price == price
                &&& orders.dom().contains(fill.resting_id)
                &&& queue.contains(fill.resting_id)
                &&& fill.quantity <= orders[fill.resting_id].spec_quantity()
            },
    decreases queue.len(),
{
    let swept = sweep_level(orders, queue, price, quantity);
    let taken = queue.len() - swept.queue.len();
    if quantity == 0 || queue.len() == 0 {
        assert(queue.skip(0) =~= queue);
    } else {
        let front = queue[0];
        let tail = queue.drop_first();
        if !orders.dom().contains(front) {
            let rest = sweep_level(orders, tail, price, quantity);
            lemma_sweep_takes_from_front(orders, tail, price, quantity);
            let taken_rest = tail.len() - rest.queue.len();
            assert(taken == taken_rest + 1);
            assert(queue.skip(taken) =~= tail.skip(taken_rest));
            assert forall|i: int| 0 <= i < taken implies !swept.orders.dom().contains(
                #[trigger] queue[i],
            ) by {
                if i > 0 {
                    assert(queue[i] == tail[i - 1]);
                } else {
                    assert(only_traded(orders, rest.orders));
                }
            }
            assert forall|id: u64| !stands_within(queue, id, taken + 1) implies #[trigger] lookup(
                swept.orders,
                id,
            ) == lookup(orders, id) by {
                if stands_within(tail, id, taken_rest + 1) {
                    let i = choose|i: int|
                        0 <= i < taken_rest + 1 && i < tail.len() && #[trigger] tail[i] == id;
                    assert(queue[i + 1] == id);
                }
            }
            assert forall|i: int| 0 <= i < swept.fills.len() implies queue.contains(
                (#[trigger] swept.fills[i]).resting_id,
            ) by {
                let id = rest.fills[i].resting_id;
                assert(tail.contains(id));
                let m = choose|m: int| 0 <= m < tail.len() && tail[m] == id;
                assert(queue[m + 1] == id);
            }
        } else {
            let open = orders[front].spec_quantity();
            if open <= quantity {
                let left = orders.remove(front);
                let rest = sweep_level(left, tail, price, (quantity - open) as u64);
                lemma_sweep_takes_from_front(left, tail, price, (quantity - open) as u64);
                let taken_rest = tail.len() - rest.queue.len();
                assert(taken == taken_rest + 1);
                assert(queue.skip(taken) =~= tail.skip(taken_rest));
                assert(only_traded(left, rest.orders));
                assert forall|i: int| 0 <= i < taken implies !swept.orders.dom().contains(
                    #[trigger] queue[i],
                ) by {
                    if i > 0 {
                        assert(queue[i] == tail[i - 1]);
                    }
                }
                assert forall|id: u64|
                    !stands_within(queue, id, taken + 1) implies #[trigger] lookup(
                    swept.orders,
                    id,
                ) == lookup(orders, id) by {
                    assert(queue[0] != id);
                    if stands_within(tail, id, taken_rest + 1) {
                        let i = choose|i: int|
                            0 <= i < taken_rest + 1 && i < tail.len() && #[trigger] tail[i] == id;
                        assert(queue[i + 1] == id);
                    }
                    assert(lookup(rest.orders, id) == lookup(left, id));
                }
                let first = Fill { resting_id: front, price, quantity: open };
                assert forall|i: int| 0 <= i < swept.fills.len() implies {
                    let fill = #[trigger] swept.fills[i];
                    &&& fill.price == price
                    &&& orders.dom().contains(fill.resting_id)
                    &&& queue.contains(fill.resting_id)
                    &&& fill.quantity <= orders[fill.resting_id].spec_quantity()
                } by {
                    if i == 0 {
                        assert(swept.fills[0] == first);
                        assert(queue[0] == front);
                    } else {
                        assert(swept.fills[i] == rest.fills[i - 1]);
                        let id = rest.fills[i - 1].resting_id;
                        assert(tail.contains(id));
                        let m = choose|m: int| 0 <= m < tail.len() && tail[m] == id;
                        assert(queue[m + 1] == id);
                    }
                }
            } else {
                assert(queue.skip(0) =~= queue);
                assert forall|id: u64| !stands_within(queue, id, 1) implies #[trigger] lookup(
                    swept.orders,
                    id,
                ) == lookup(orders, id) by {
                    assert(queue[0] != id);
                }
                assert(queue[0] == front);
            }
        }
    }
}

/// What can be said of one fill of a crossing against `book`: it is at a
/// price of the tracker that is within the limit, and of an order that
/// rested and was queued at that price.
pub open spec fn fill_is_sound(
    orders: Map<u64, OrderContent>,
    book: SideModel,
    resting: Side,
    limit: u64,
    fill: Fill,
) -> bool {
    &&& spec_ranks_before(resting, fill.price, limit)
    &&& book.prices.count(fill.price) > 0
    &&& book.levels.dom().contains(fill.price)
    &&& book.levels[fill.price].contains(fill.resting_id)
    &&& orders.dom().contains(fill.resting_id)
    &&& fill.quantity <= orders[fill.resting_id].spec_quantity()
}

/// A crossing only takes: no order and no level appears, no open quantity
/// grows, a level that stays keeps the tail of its queue, and every fill is
/// sound.
pub proof fn lemma_cross_only_takes(
    orders: Map<u64, OrderContent>,
    book: SideModel,
    resting: Side,
    limit: u64,
    quantity: u64,
)
    ensures
        only_traded(orders, cross(orders, book, resting, limit, quantity).orders),
        forall|price: u64| #[trigger]
            cross(orders, book, resting, limit, quantity).side.levels.dom().contains(price) ==> {
                let left = cross(orders, book, resting, limit, quantity).side.levels[price];
                &&& book.levels.dom().contains(price)
                &&& left.len() <= book.levels[price].len()
                &&& left == book.levels[price].skip(book.levels[price].len() - left.len())
            },
        forall|price: u64|
            cross(orders, book, resting, limit, quantity).side.prices.count(price)
                <= #[trigger] book.prices.count(price),
        levels_are_tracked(book) ==> levels_are_tracked(
            cross(orders, book, resting, limit, quantity).side,
        ),
        all_can_rest(orders) ==> all_can_rest(cross(orders, book, resting, limit, quantity).orders),
        forall|i: int|
            0 <= i < cross(orders, book, resting, limit, quantity).fills.len() ==> fill_is_sound(
                orders,
                book,
                resting,
                limit,
                #[trigger] cross(orders, book, resting, limit, quantity).fills[i],
            ),
    decreases book.prices.len(),
{
    let crossed = cross(orders, book, resting, limit, quantity);
    match best_price(resting, book.prices) {
        None => {
            assert forall|price: u64| #[trigger]
                crossed.side.levels.dom().contains(price) implies book.levels[price]
                == book.levels[price].skip(0) by {
                assert(book.levels[price].skip(0) =~= book.levels[price]);
            }
        },
        Some(price) => {
            if quantity == 0 || !spec_ranks_before(resting, price, limit) {
                assert forall|p: u64| #[trigger]
                    crossed.side.levels.dom().contains(p) implies book.levels[p]
                    == book.levels[p].skip(0) by {
                    assert(book.levels[p].skip(0) =~= book.levels[p]);
                }
            } else {
                assert(is_best(resting, book.prices, price));
                lemma_take_out_one(book.prices, price);
                if !book.levels.dom().contains(price) {
                    let next = SideModel {
                        levels: book.levels,
                        prices: book.prices.remove(price),
                    };
                    lemma_cross_only_takes(orders, next, resting, limit, quantity);
                    assert forall|p: u64|
                        crossed.side.prices.count(p) <= #[trigger] book.prices.count(p) by {
                        assert(crossed.side.prices.count(p) <= next.prices.count(p));
                    }
                    assert forall|i: int| 0 <= i < crossed.fills.len() implies fill_is_sound(
                        orders,
                        book,
                        resting,
                        limit,
                        #[trigger] crossed.fills[i],
                    ) by {
                        assert(fill_is_sound(orders, next, resting, limit, crossed.fills[i]));
                        assert(next.prices.count(crossed.fills[i].price) <= book.prices.count(
                            crossed.fills[i].price,
                        ));
                    }
                } else {
                    let queue = book.levels[price];
                    let swept = sweep_level(orders, queue, price, quantity);
                    lemma_sweep_takes_from_front(orders, queue, price, quantity);
                    lemma_sweep_keeps_resting(orders, queue, price, quantity);
                    if swept.queue.len() == 0 {
                        let next = SideModel {
                            levels: book.levels.remove(price),
                            prices: book.prices.remove(price),
                        };
                        let rest = cross(swept.orders, next, resting, limit, swept.remaining);
                        lemma_cross_only_takes(swept.orders, next, resting, limit, swept.remaining);
                        assert(only_traded(orders, crossed.orders)) by {
                            assert forall|id: u64| #[trigger]
                                crossed.orders.dom().contains(id) implies {
                                &&& orders.dom().contains(id)
                                &&& crossed.orders[id].spec_side() == orders[id].spec_side()
                                &&& crossed.orders[id].spec_price() == orders[id].spec_price()
                                &&& crossed.orders[id].spec_quantity() <= orders[id].spec_quantity()
                            } by {
                                assert(swept.orders.dom().contains(id));
                            }
                        }
                        assert forall|p: u64|
                            crossed.side.prices.count(p) <= #[trigger] book.prices.count(p) by {
                            assert(crossed.side.prices.count(p) <= next.prices.count(p));
                        }
                        assert forall|p: u64| #[trigger]
                            crossed.side.levels.dom().contains(p) implies {
                            let left = crossed.side.levels[p];
                            &&& book.levels.dom().contains(p)
                            &&& left.len() <= book.levels[p].len()
                            &&& left == book.levels[p].skip(book.levels[p].len() - left.len())
                        } by {
                            assert(next.levels.dom().contains(p));
                        }
                        assert forall|i: int| 0 <= i < crossed.fills.len() implies fill_is_sound(
                            orders,
                            book,
                            resting,
                            limit,
                            #[trigger] crossed.fills[i],
                        ) by {
                            if i < swept.fills.len() {
                                assert(crossed.fills[i] == swept.fills[i]);
                            } else {
                                let fill = rest.fills[i - swept.fills.len()];
                                assert(crossed.fills[i] == fill);
                                assert(fill_is_sound(swept.orders, next, resting, limit, fill));
                                assert(next.prices.count(fill.price) <= book.prices.count(
                                    fill.price,
                                ));
                                assert(swept.orders.dom().contains(fill.resting_id));
                            }
                        }
                    } else {
                        assert forall|p: u64| #[trigger]
                            crossed.side.levels.dom().contains(p) implies {
                            let left = crossed.side.levels[p];
                            &&& book.levels.dom().contains(p)
                            &&& left.len() <= book.levels[p].len()
                            &&& left == book.levels[p].skip(book.levels[p].len() - left.len())
                        } by {
                            if p != price {
                                assert(book.levels[p].skip(0) =~= book.levels[p]);
                            }
                        }
                        assert forall|i: int| 0 <= i < crossed.fills.len() implies fill_is_sound(
                            orders,
                            book,
                            resting,
                            limit,
                            #[trigger] crossed.fills[i],
                        ) by {
                            assert(crossed.fills[i] == swept.fills[i]);
                        }
                    }
                }
            }
        },
    }
}

/// A walk leaves no order in the table that cannot rest.
pub proof fn lemma_sweep_keeps_resting(
    orders: Map<u64, OrderContent>,
    queue: Seq<u64>,
    price: u64,
    quantity: u64,
)
    ensures
        all_can_rest(orders) ==> all_can_rest(sweep_level(orders, queue, price, quantity).orders),
    decreases queue.len(),
{
    if quantity != 0 && queue.len() != 0 {
        let front = queue[0];
        if !orders.dom().contains(front) {
            lemma_sweep_keeps_resting(orders, queue.drop_first(), price, quantity);
        } else {
            let open = orders[front].spec_quantity();
            if open <= quantity {
                lemma_sweep_keeps_resting(
                    orders.remove(front),
                    queue.drop_first(),
                    price,
                    (quantity - open) as u64,
                );
            }
        }
    }
}

/// Whether price `a` is better than price `b` for orders resting on `side`.
pub open spec fn strictly_better(side: Side, a: u64, b: u64) -> bool {
    spec_ranks_before(side, a, b) && a != b
}

/// Whether nothing is left of the level that `queue` was at `price`: the
/// level is gone from the index and none of its orders rests.
pub open spec fn level_is_used_up(crossed: Crossing, queue: Seq<u64>, price: u64) -> bool {
    &&& !crossed.side.levels.dom().contains(price)
    &&& forall|i: int| 0 <= i < queue.len() ==> !crossed.orders.dom().contains(#[trigger] queue[i])
}

/// The fills of a crossing never go back to a better price.
pub proof fn lemma_cross_prices_never_improve(
    orders: Map<u64, OrderContent>,
    book: SideModel,
    resting: Side,
    limit: u64,
    quantity: u64,
    first: int,
    second: int,
)
    requires
        0 <= first <= second < cross(orders, book, resting, limit, quantity).fills.len(),
    ensures
        spec_ranks_before(
            resting,
            cross(orders, book, resting, limit, quantity).fills[first].price,
            cross(orders, book, resting, limit, quantity).fills[second].price,
        ),
    decreases book.prices.len(),
{
    let crossed = cross(orders, book, resting, limit, quantity);
    let price = best_price(resting, book.prices)->0;
    assert(is_best(resting, book.prices, price));
    lemma_take_out_one(book.prices, price);
    if !book.levels.dom().contains(price) {
        let next = SideModel { levels: book.levels, prices: book.prices.remove(price) };
        lemma_cross_prices_never_improve(orders, next, resting, limit, quantity, first, second);
    } else {
        let swept = sweep_level(orders, book.levels[price], price, quantity);
        lemma_sweep_takes_from_front(orders, book.levels[price], price, quantity);
        if swept.queue.len() == 0 {
            let next = SideModel {
                levels: book.levels.remove(price),
                prices: book.prices.remove(price),
            };
            let rest = cross(swept.orders, next, resting, limit, swept.remaining);
            let n = swept.fills.len() as int;
            if second < n {
                assert(crossed.fills[first] == swept.fills[first]);
                assert(crossed.fills[second] == swept.fills[second]);
            } else if first < n {
                assert(crossed.fills[first] == swept.fills[first]);
                assert(crossed.fills[second] == rest.fills[second - n]);
                lemma_cross_only_takes(swept.orders, next, resting, limit, swept.remaining);
                assert(fill_is_sound(
                    swept.orders,
                    next,
                    resting,
                    limit,
                    rest.fills[second - n],
                ));
                assert(book.prices.count(rest.fills[second - n].price) > 0);
            } else {
                assert(crossed.fills[first] == rest.fills[first - n]);
                assert(crossed.fills[second] == rest.fills[second - n]);
                lemma_cross_prices_never_improve(
                    swept.orders,
                    next,
                    resting,
                    limit,
                    swept.remaining,
                    first - n,
                    second - n,
                );
            }
        } else {
            assert(crossed.fills[first] == swept.fills[first]);
            assert(crossed.fills[second] == swept.fills[second]);
        }
    }
}

/// When a crossing fills at some price, nothing is left of any level with a
/// better price.
pub proof fn lemma_cross_uses_up_better_levels(
    orders: Map<u64, OrderContent>,
    book: SideModel,
    resting: Side,
    limit: u64,
    quantity: u64,
    fill: int,
    better: u64,
)
    requires
        levels_are_tracked(book),
        0 <= fill < cross(orders, book, resting, limit, quantity).fills.len(),
        book.levels.dom().contains(better),
        strictly_better(
            resting,
            better,
            cross(orders, book, resting, limit, quantity).fills[fill].price,
        ),
    ensures
        level_is_used_up(
            cross(orders, book, resting, limit, quantity),
            book.levels[better],
            better,
        ),
    decreases book.prices.len(),
{
    let crossed = cross(orders, book, resting, limit, quantity);
    let price = best_price(resting, book.prices)->0;
    assert(is_best(resting, book.prices, price));
    lemma_take_out_one(book.prices, price);
    assert(book.prices.count(better) > 0);
    assert(spec_ranks_before(resting, price, better));
    if !book.levels.dom().contains(price) {
        let next = SideModel { levels: book.levels, prices: book.prices.remove(price) };
        lemma_cross_uses_up_better_levels(orders, next, resting, limit, quantity, fill, better);
    } else {
        let queue = book.levels[price];
        let swept = sweep_level(orders, queue, price, quantity);
        lemma_sweep_takes_from_front(orders, queue, price, quantity);
        if swept.queue.len() == 0 {
            let next = SideModel {
                levels: book.levels.remove(price),
                prices: book.prices.remove(price),
            };
            let rest = cross(swept.orders, next, resting, limit, swept.remaining);
            let n = swept.fills.len() as int;
            lemma_cross_only_takes(swept.orders, next, resting, limit, swept.remaining);
            if fill < n {
                assert(crossed.fills[fill] == swept.fills[fill]);
            } else {
                assert(crossed.fills[fill] == rest.fills[fill - n]);
                if better == price {
                    assert forall|i: int|
                        0 <= i < queue.len() implies !crossed.orders.dom().contains(
                        #[trigger] queue[i],
                    ) by {
                        assert(!swept.orders.dom().contains(queue[i]));
                    }
                } else {
                    lemma_cross_uses_up_better_levels(
                        swept.orders,
                        next,
                        resting,
                        limit,
                        swept.remaining,
                        fill - n,
                        better,
                    );
                }
            }
        } else {
            assert(crossed.fills[fill] == swept.fills[fill]);
        }
    }
}

/// Whether the id at place `at` of the level at `price` stands nowhere else
/// in the queues of `levels`.
pub open spec fn stands_once(levels: Map<u64, Seq<u64>>, price: u64, at: int) -> bool {
    forall|other: u64, i: int|
        levels.dom().contains(other) && 0 <= i < levels[other].len() && #[trigger] levels[other][i]
            == levels[price][at] ==> other == price && i == at
}

/// Of two orders queued at one price, the one further back is touched by a
/// crossing only when the one before it is gone.
pub proof fn lemma_cross_serves_earlier_first(
    orders: Map<u64, OrderContent>,
    book: SideModel,
    resting: Side,
    limit: u64,
    quantity: u64,
    price: u64,
    earlier: int,
    later: int,
)
    requires
        book.levels.dom().contains(price),
        0 <= earlier < later < book.levels[price].len(),
        stands_once(book.levels, price, later),
        lookup(cross(orders, book, resting, limit, quantity).orders, book.levels[price][later])
            != lookup(orders, book.levels[price][later]),
    ensures
        !cross(orders, book, resting, limit, quantity).orders.dom().contains(
            book.levels[price][earlier],
        ),
    decreases book.prices.len(),
{
    let crossed = cross(orders, book, resting, limit, quantity);
    let queue = book.levels[price];
    let best = best_price(resting, book.prices)->0;
    assert(is_best(resting, book.prices, best));
    lemma_take_out_one(book.prices, best);
    if !book.levels.dom().contains(best) {
        let next = SideModel { levels: book.levels, prices: book.prices.remove(best) };
        lemma_cross_serves_earlier_first(
            orders,
            next,
            resting,
            limit,
            quantity,
            price,
            earlier,
            later,
        );
    } else {
        let walked = book.levels[best];
        let swept = sweep_level(orders, walked, best, quantity);
        lemma_sweep_takes_from_front(orders, walked, best, quantity);
        let taken = walked.len() - swept.queue.len();
        let next = SideModel {
            levels: book.levels.remove(best),
            prices: book.prices.remove(best),
        };
        if best == price {
            if swept.queue.len() == 0 {
                lemma_cross_only_takes(swept.orders, next, resting, limit, swept.remaining);
                assert(!swept.orders.dom().contains(queue[earlier]));
            } else {
                if stands_within(queue, queue[later], taken + 1) {
                    let m = choose|m: int|
                        0 <= m < taken + 1 && m < queue.len() && #[trigger] queue[m]
                            == queue[later];
                    assert(m == later);
                }
            }
        } else {
            if stands_within(walked, queue[later], taken + 1) {
                let m = choose|m: int|
                    0 <= m < taken + 1 && m < walked.len() && #[trigger] walked[m] == queue[later];
                assert(false);
            }
            assert(lookup(swept.orders, queue[later]) == lookup(orders, queue[later]));
            if swept.queue.len() == 0 {
                assert(stands_once(next.levels, price, later)) by {
                    assert forall|other: u64, i: int|
                        next.levels.dom().contains(other) && 0 <= i < next.levels[other].len()
                            && #[trigger] next.levels[other][i]
                            == next.levels[price][later] implies other == price && i == later by {
                        assert(book.levels[other][i] == book.levels[price][later]);
                    }
                }
                lemma_cross_serves_earlier_first(
                    swept.orders,
                    next,
                    resting,
                    limit,
                    swept.remaining,
                    price,
                    earlier,
                    later,
                );
            }
        }
    }
}

/// A crossing drops no id from a queue while the order of that id rests: an
/// id that was queued at some price and whose order rests afterwards is
/// still queued at that price.
pub proof fn lemma_cross_drops_no_resting_order(
    orders: Map<u64, OrderContent>,
    book: SideModel,
    resting: Side,
    limit: u64,
    quantity: u64,
    price: u64,
    at: int,
)
    requires
        book.levels.dom().contains(price),
        0 <= at < book.levels[price].len(),
        cross(orders, book, resting, limit, quantity).orders.dom().contains(
            book.levels[price][at],
        ),
    ensures
        cross(orders, book, resting, limit, quantity).side.levels.dom().contains(price),
        cross(orders, book, resting, limit, quantity).side.levels[price].contains(
            book.levels[price][at],
        ),
    decreases book.prices.len(),
{
    let crossed = cross(orders, book, resting, limit, quantity);
    let id = book.levels[price][at];
    match best_price(resting, book.prices) {
        None => {},
        Some(best) => {
            if quantity == 0 || !spec_ranks_before(resting, best, limit) {
            } else {
                assert(is_best(resting, book.prices, best));
                lemma_take_out_one(book.prices, best);
                if !book.levels.dom().contains(best) {
                    let next = SideModel {
                        levels: book.levels,
                        prices: book.prices.remove(best),
                    };
                    lemma_cross_drops_no_resting_order(
                        orders,
                        next,
                        resting,
                        limit,
                        quantity,
                        price,
                        at,
                    );
                } else {
                    let queue = book.levels[best];
                    let swept = sweep_level(orders, queue, best, quantity);
                    let taken = queue.len() - swept.queue.len();
                    lemma_sweep_takes_from_front(orders, queue, best, quantity);
                    if swept.queue.len() == 0 {
                        let next = SideModel {
                            levels: book.levels.remove(best),
                            prices: book.prices.remove(best),
                        };
                        lemma_cross_only_takes(swept.orders, next, resting, limit, swept.remaining);
                        if price == best {
                            assert(!swept.orders.dom().contains(queue[at]));
                        } else {
                            lemma_cross_drops_no_resting_order(
                                swept.orders,
                                next,
                                resting,
                                limit,
                                swept.remaining,
                                price,
                                at,
                            );
                        }
                    } else if price == best {
                        if at < taken {
                            assert(!swept.orders.dom().contains(queue[at]));
                        }
                        assert(swept.queue[at - taken] == id);
                    }
                }
            }
        },
    }
    if crossed.side.levels.dom().contains(price) && crossed.side.levels[price] == book.levels[price] {
        assert(book.levels[price][at] == id);
    }
}

/// Whether every resting order that is queued on this side is queued at its
/// own price and is an order of this side.
pub open spec fn queued_at_own_terms(
    orders: Map<u64, OrderContent>,
    book: SideModel,
    resting: Side,
) -> bool {
    forall|price: u64, i: int|
        book.levels.dom().contains(price) && 0 <= i < book.levels[price].len()
            && orders.dom().contains(#[trigger] book.levels[price][i]) ==> {
            &&& orders[book.levels[price][i]].spec_side() == Some(resting)
            &&& orders[book.levels[price][i]].spec_price() == price
        }
}

/// Quantity conservation. What an incoming order loses in a crossing is
/// what its fills add up to, and what each resting order loses, by trading
/// down or by leaving the table, is what its own fills add up to.
pub proof fn lemma_execution_conserves_quantity(
    book: BookModel,
    side: Side,
    limit: u64,
    quantity: u64,
)
    ensures
        execute(book, side, limit, quantity).remaining <= quantity,
        quantity - execute(book, side, limit, quantity).remaining == traded(
            execute(book, side, limit, quantity).fills,
        ),
        forall|id: u64|
            open_quantity(book.orders, id) - open_quantity(
                execute(book, side, limit, quantity).book.orders,
                id,
            ) == #[trigger] traded_by(execute(book, side, limit, quantity).fills, id),
{
    let opposite = side.spec_opposite();
    lemma_cross_conserves_quantity(book.orders, book.side(opposite), opposite, limit, quantity);
}

/// No price violation, for the incoming order: a buy never fills above its
/// limit and a sell never below.
pub proof fn lemma_no_price_violation(
    book: BookModel,
    side: Side,
    limit: u64,
    quantity: u64,
    fill: int,
)
    requires
        0 <= fill < execute(book, side, limit, quantity).fills.len(),
    ensures
        match side {
            Side::Bid => execute(book, side, limit, quantity).fills[fill].price <= limit,
            Side::Ask => execute(book, side, limit, quantity).fills[fill].price >= limit,
        },
{
    let opposite = side.spec_opposite();
    lemma_cross_only_takes(book.orders, book.side(opposite), opposite, limit, quantity);
    assert(fill_is_sound(
        book.orders,
        book.side(opposite),
        opposite,
        limit,
        execute(book, side, limit, quantity).fills[fill],
    ));
}

/// No price violation, for the resting order: where every resting order is
/// queued at its own price, each fill is at the limit price of the resting
/// order that trades, and that order is of the opposite side.
pub proof fn lemma_resting_order_trades_at_its_price(
    book: BookModel,
    side: Side,
    limit: u64,
    quantity: u64,
    fill: int,
)
    requires
        queued_at_own_terms(
            book.orders,
            book.side(side.spec_opposite()),
            side.spec_opposite(),
        ),
        0 <= fill < execute(book, side, limit, quantity).fills.len(),
    ensures
        book.orders.dom().contains(execute(book, side, limit, quantity).fills[fill].resting_id),
        book.orders[execute(book, side, limit, quantity).fills[fill].resting_id].spec_price()
            == execute(book, side, limit, quantity).fills[fill].price,
        book.orders[execute(book, side, limit, quantity).fills[fill].resting_id].spec_side()
            == Some(side.spec_opposite()),
{
    let opposite = side.spec_opposite();
    let levels = book.side(opposite).levels;
    let traded = execute(book, side, limit, quantity).fills[fill];
    lemma_cross_only_takes(book.orders, book.side(opposite), opposite, limit, quantity);
    assert(fill_is_sound(book.orders, book.side(opposite), opposite, limit, traded));
    let at = choose|at: int|
        0 <= at < levels[traded.price].len() && levels[traded.price][at] == traded.resting_id;
    assert(book.orders.dom().contains(levels[traded.price][at]));
}

/// Price priority. When an incoming order fills at some price, nothing is
/// left at any better price of the opposite side: the level is gone and
/// none of the orders that were queued there rests.
pub proof fn lemma_best_price_trades_first(
    book: BookModel,
    side: Side,
    limit: u64,
    quantity: u64,
    fill: int,
    better: u64,
)
    requires
        book.wf(),
        0 <= fill < execute(book, side, limit, quantity).fills.len(),
        book.side(side.spec_opposite()).levels.dom().contains(better),
        strictly_better(
            side.spec_opposite(),
            better,
            execute(book, side, limit, quantity).fills[fill].price,
        ),
    ensures
        !execute(book, side, limit, quantity).book.side(
            side.spec_opposite(),
        ).levels.dom().contains(better),
        forall|i: int|
            0 <= i < book.side(side.spec_opposite()).levels[better].len() ==> !execute(
                book,
                side,
                limit,
                quantity,
            ).book.orders.dom().contains(
                #[trigger] book.side(side.spec_opposite()).levels[better][i],
            ),
{
    let opposite = side.spec_opposite();
    lemma_cross_uses_up_better_levels(
        book.orders,
        book.side(opposite),
        opposite,
        limit,
        quantity,
        fill,
        better,
    );
}

/// Price priority, in the order of the fills: a later fill is never at a
/// better price than an earlier one.
pub proof fn lemma_fill_prices_never_improve(
    book: BookModel,
    side: Side,
    limit: u64,
    quantity: u64,
    first: int,
    second: int,
)
    requires
        0 <= first <= second < execute(book, side, limit, quantity).fills.len(),
    ensures
        spec_ranks_before(
            side.spec_opposite(),
            execute(book, side, limit, quantity).fills[first].price,
            execute(book, side, limit, quantity).fills[second].price,
        ),
{
    let opposite = side.spec_opposite();
    lemma_cross_prices_never_improve(
        book.orders,
        book.side(opposite),
        opposite,
        limit,
        quantity,
        first,
        second,
    );
}

/// Price-time priority. Of two orders queued at the same price on the same
/// side, the one queued later is touched by an incoming order only when the
/// one queued earlier is gone from the table. The id of the later one must
/// not be queued a second time on that side.
pub proof fn lemma_earlier_order_trades_first(
    book: BookModel,
    side: Side,
    limit: u64,
    quantity: u64,
    price: u64,
    earlier: int,
    later: int,
)
    requires
        book.side(side.spec_opposite()).levels.dom().contains(price),
        0 <= earlier < later < book.side(side.spec_opposite()).levels[price].len(),
        stands_once(book.side(side.spec_opposite()).levels, price, later),
        lookup(
            execute(book, side, limit, quantity).book.orders,
            book.side(side.spec_opposite()).levels[price][later],
        ) != lookup(book.orders, book.side(side.spec_opposite()).levels[price][later]),
    ensures
        !execute(book, side, limit, quantity).book.orders.dom().contains(
            book.side(side.spec_opposite()).levels[price][earlier],
        ),
{
    let opposite = side.spec_opposite();
    lemma_cross_serves_earlier_first(
        book.orders,
        book.side(opposite),
        opposite,
        limit,
        quantity,
        price,
        earlier,
        later,
    );
}

/// Price-time priority, on arrival: an order that comes to rest stands last
/// in the queue of its price, behind the orders that were queued there.
pub proof fn lemma_new_order_queues_last(book: BookModel, id: u64, content: OrderContent)
    requires
        !book.orders.dom().contains(id),
        content.spec_side() is Some,
        execute(
            book,
            content.spec_side()->0,
            content.spec_price(),
            content.spec_quantity(),
        ).remaining > 0,
    ensures
        place(book, id, content).side(content.spec_side()->0).levels.dom().contains(
            content.spec_price(),
        ),
        place(book, id, content).side(content.spec_side()->0).levels[content.spec_price()]
            == (if book.side(content.spec_side()->0).levels.dom().contains(content.spec_price()) {
            book.side(content.spec_side()->0).levels[content.spec_price()]
        } else {
            Seq::empty()
        }).push(id),
        place(book, id, content).orders.dom().contains(id),
        place(book, id, content).orders[id] == content.spec_with_quantity(
            execute(
                book,
                content.spec_side()->0,
                content.spec_price(),
                content.spec_quantity(),
            ).remaining,
        ),
{
    assert(Seq::<u64>::empty().push(id) =~= seq![id]);
}

/// Idempotent duplicate create. A create request that is repeated while the
/// order of the first one rests changes nothing, and neither does a
/// repeated request whose content cannot rest.
pub proof fn lemma_duplicate_create_is_ignored(book: BookModel, id: u64, content: OrderContent)
    requires
        place(book, id, content).orders.dom().contains(id) || !content.spec_can_rest(),
    ensures
        place(place(book, id, content), id, content) == place(book, id, content),
{
    let once = place(book, id, content);
    if !once.orders.dom().contains(id) {
        if content.spec_side() is Some {
            let side = content.spec_side()->0;
            assert(content.spec_quantity() == 0);
            assert(execute(book, side, content.spec_price(), 0).book =~= book);
            assert(once =~= book);
        }
    }
}

/// Replace is price-invariant. A replace request that names another price
/// than the resting order has is turned down with `InvalidReplace` and
/// changes nothing: the order keeps its quantity and its place.
pub proof fn lemma_replace_keeps_price(book: BookModel, id: u64, content: OrderContent)
    requires
        book.orders.dom().contains(id),
        content.spec_price() != book.orders[id].spec_price(),
    ensures
        replace_check(book, id, content) == Err::<(), OrderError>(OrderError::InvalidReplace),
        replace(book, id, content) == book,
{
}

/// A replace request never moves an order: whatever it does, the queues
/// and the trackers of both sides stay as they are.
pub proof fn lemma_replace_keeps_places(book: BookModel, id: u64, content: OrderContent)
    ensures
        replace(book, id, content).bids == book.bids,
        replace(book, id, content).asks == book.asks,
        replace_check(book, id, content) is Ok && content.spec_quantity() > 0 ==> {
            &&& replace(book, id, content).orders.dom() == book.orders.dom()
            &&& replace(book, id, content).orders[id].spec_price() == book.orders[id].spec_price()
            &&& replace(book, id, content).orders[id].spec_side() == book.orders[id].spec_side()
            &&& replace(book, id, content).orders[id].spec_quantity() == content.spec_quantity()
        },
{
    if replace_check(book, id, content) is Ok && content.spec_quantity() > 0 {
        assert(replace(book, id, content).orders.dom() =~= book.orders.dom());
    }
}

/// A crossing leaves the book in order: what rests can rest and stands in
/// its queue, and every level is tracked.
pub proof fn lemma_execute_keeps_order(book: BookModel, side: Side, limit: u64, quantity: u64)
    requires
        book.wf(),
    ensures
        execute(book, side, limit, quantity).book.wf(),
{
    let opposite = side.spec_opposite();
    let crossed = cross(book.orders, book.side(opposite), opposite, limit, quantity);
    let after = execute(book, side, limit, quantity).book;
    lemma_cross_only_takes(book.orders, book.side(opposite), opposite, limit, quantity);
    assert(after.side(side) == book.side(side));
    assert(after.side(opposite) == crossed.side);
    assert forall|id: u64| #[trigger] after.orders.dom().contains(id) implies after.holds_in_queue(
        id,
    ) by {
        assert(book.orders.dom().contains(id));
        assert(book.holds_in_queue(id));
        let own = book.orders[id].spec_side()->0;
        let price = book.orders[id].spec_price();
        if own == opposite {
            let queue = book.side(opposite).levels[price];
            let at = choose|at: int| 0 <= at < queue.len() && queue[at] == id;
            lemma_cross_drops_no_resting_order(
                book.orders,
                book.side(opposite),
                opposite,
                limit,
                quantity,
                price,
                at,
            );
        }
    }
}

/// A create request leaves the book in order.
pub proof fn lemma_place_keeps_order(book: BookModel, id: u64, content: OrderContent)
    requires
        book.wf(),
    ensures
        place(book, id, content).wf(),
{
    if !book.orders.dom().contains(id) && content.spec_side() is Some {
        let side = content.spec_side()->0;
        let price = content.spec_price();
        let executed = execute(book, side, price, content.spec_quantity());
        lemma_execute_keeps_order(book, side, price, content.spec_quantity());
        if executed.remaining != 0 {
            let crossed = executed.book;
            let placed = place(book, id, content);
            let own = crossed.side(side);
            let rested = rest_on(own, id, price);
            assert(placed.side(side) == rested);
            assert(placed.side(side.spec_opposite()) == crossed.side(side.spec_opposite()));
            assert(levels_are_tracked(rested)) by {
                broadcast use group_multiset_axioms;

            }
            assert(rested.levels[price].contains(id)) by {
                let last = rested.levels[price].len() - 1;
                assert(rested.levels[price][last] == id);
            }
            assert forall|other: u64| #[trigger]
                placed.orders.dom().contains(other) implies placed.holds_in_queue(other) by {
                if other != id {
                    assert(crossed.holds_in_queue(other));
                    let at_side = crossed.orders[other].spec_side()->0;
                    let at_price = crossed.orders[other].spec_price();
                    if at_side == side && at_price == price {
                        let queue = own.levels[price];
                        let at = choose|at: int| 0 <= at < queue.len() && queue[at] == other;
                        assert(rested.levels[price][at] == other);
                    }
                }
            }
        }
    }
}

/// A replace request leaves the book in order.
pub proof fn lemma_replace_keeps_order(book: BookModel, id: u64, content: OrderContent)
    requires
        book.wf(),
    ensures
        replace(book, id, content).wf(),
{
    let after = replace(book, id, content);
    assert forall|other: u64| #[trigger] after.orders.dom().contains(other) implies {
        &&& after.orders[other].spec_can_rest()
        &&& after.holds_in_queue(other)
    } by {
        assert(book.orders.dom().contains(other));
        assert(book.holds_in_queue(other));
    }
}

/// A cancel request leaves the book in order.
pub proof fn lemma_cancel_keeps_order(book: BookModel, id: u64)
    requires
        book.wf(),
    ensures
        cancel(book, id).wf(),
{
    let after = cancel(book, id);
    assert forall|other: u64| #[trigger] after.orders.dom().contains(other) implies {
        &&& after.orders[other].spec_can_rest()
        &&& after.holds_in_queue(other)
    } by {
        assert(book.orders.dom().contains(other));
        assert(book.holds_in_queue(other));
    }
}

} // verus!
