//! Crossing an incoming order against one side of the book.
//!
//! The incoming order trades against the best price of the opposite side
//! first and, within a price, against the order that has waited longest.
//! It stops when it is used up or when the best price left is beyond its
//! limit.

use crate::levels::{PriceLevel, PriceLevelIndex};
use crate::orders::{ranks_before, spec_ranks_before, OrderContent, Side};
use crate::table::{all_can_rest, OrderTable};
use crate::tracker::{best_price, is_best, lemma_take_out_one, PriceTracker};
use vstd::multiset::*;
use vstd::prelude::*;

verus! {

/// One trade between the incoming order and a resting order.
#[derive(Clone, Copy, Debug, PartialEq, Eq, Hash, Structural)]
pub struct Fill {
    /// The resting order that traded.
    pub resting_id: u64,
    /// The price of the level at which it rested.
    pub price: u64,
    /// The quantity that changed hands.
    pub quantity: u64,
}

/// The outcome of walking the queue of one level.
pub struct LevelSweep {
    /// The resting orders afterwards.
    pub orders: Map<u64, OrderContent>,
    /// What is left of the queue.
    pub queue: Seq<u64>,
    /// What is left of the incoming quantity.
    pub remaining: u64,
    /// The trades made, first first.
    pub fills: Seq<Fill>,
}

/// Walks `queue`, the level at `price`, from its front with an incoming
/// quantity.
///
/// An id without a resting order is dropped from the queue. A resting order
/// with no more open quantity than is incoming trades all of it and leaves
/// both the table and the queue. One with more trades the incoming quantity,
/// keeps the rest and its place at the front, and ends the walk.
pub open spec fn sweep_level(
    orders: Map<u64, OrderContent>,
    queue: Seq<u64>,
    price: u64,
    quantity: u64,
) -> LevelSweep
    decreases queue.len(),
{
    if quantity == 0 || queue.len() == 0 {
        LevelSweep { orders, queue, remaining: quantity, fills: Seq::empty() }
    } else {
        let id = queue[0];
        if !orders.dom().contains(id) {
            sweep_level(orders, queue.drop_first(), price, quantity)
        } else {
            let open = orders[id].spec_quantity();
            if open <= quantity {
                let rest = sweep_level(
                    orders.remove(id),
                    queue.drop_first(),
                    price,
                    (quantity - open) as u64,
                );
                LevelSweep {
                    orders: rest.orders,
                    queue: rest.queue,
                    remaining: rest.remaining,
                    fills: seq![Fill { resting_id: id, price, quantity: open }] + rest.fills,
                }
            } else {
                LevelSweep {
                    orders: orders.insert(
                        id,
                        orders[id].spec_with_quantity((open - quantity) as u64),
                    ),
                    queue,
                    remaining: 0,
                    fills: seq![Fill { resting_id: id, price, quantity }],
                }
            }
        }
    }
}

/// Walks the queue of `level` with an incoming `quantity`, trading against
/// the orders in `orders`. The trades are appended to `fills`; what is left
/// of the incoming quantity is returned.
pub fn sweep(
    orders: &mut OrderTable,
    level: &mut PriceLevel,
    quantity: u64,
    fills: &mut Vec<Fill>,
) -> (remaining: u64)
    requires
        old(orders).wf(),
    ensures
        final(orders).wf(),
        final(level).spec_price() == old(level).spec_price(),
        final(level).spec_side() == old(level).spec_side(),
        final(orders)@ == sweep_level(
            old(orders)@,
            old(level)@,
            old(level).spec_price(),
            quantity,
        ).orders,
        final(level)@ == sweep_level(
            old(orders)@,
            old(level)@,
            old(level).spec_price(),
            quantity,
        ).queue,
        remaining == sweep_level(
            old(orders)@,
            old(level)@,
            old(level).spec_price(),
            quantity,
        ).remaining,
        final(fills)@ == old(fills)@ + sweep_level(
            old(orders)@,
            old(level)@,
            old(level).spec_price(),
            quantity,
        ).fills,
{
    let price = level.price();
    let ghost target = sweep_level(old(orders)@, old(level)@, price, quantity);
    let mut remaining: u64 = quantity;
    while remaining > 0 && level.len() > 0
        invariant
            orders.wf(),
            level.spec_price() == price,
            level.spec_side() == old(level).spec_side(),
            sweep_level(orders@, level@, price, remaining).orders == target.orders,
            sweep_level(orders@, level@, price, remaining).queue == target.queue,
            sweep_level(orders@, level@, price, remaining).remaining == target.remaining,
            fills@ + sweep_level(orders@, level@, price, remaining).fills == old(fills)@
                + target.fills,
        decreases
                (if remaining > 0 {
                    1int
                } else {
                    0int
                }),
                level@.len(),
    {
        let ghost ahead = sweep_level(orders@, level@, price, remaining);
        let ghost fills_before = fills@;
        let id: u64 = match level.front() {
            Some(id) => id,
            None => 0,
        };
        if !orders.contains(id) {
            level.pop_front();
        } else {
            match orders.compare_and_remove(id, remaining) {
                Some(content) => {
                    let open: u64 = content.quantity();
                    fills.push(Fill { resting_id: id, price, quantity: open });
                    remaining = remaining - open;
                    level.pop_front();
                    proof {
                        let rest = sweep_level(orders@, level@, price, remaining);
                        assert(ahead.fills == seq![Fill { resting_id: id, price, quantity: open }]
                            + rest.fills);
                        assert(fills@ + rest.fills =~= fills_before + ahead.fills);
                    }
                },
                None => {
                    let open: u64 = match orders.get(id) {
                        Some(content) => content.quantity(),
                        None => 0,
                    };
                    let _ = orders.mutate_quantity(id, open - remaining);
                    fills.push(Fill { resting_id: id, price, quantity: remaining });
                    proof {
                        assert(fills@ =~= fills_before + ahead.fills);
                        assert(fills@ + Seq::<Fill>::empty() =~= fills@);
                    }
                    remaining = 0;
                },
            }
        }
    }
    proof {
        assert(fills@ + Seq::<Fill>::empty() =~= fills@);
    }
    remaining
}

/// A walk that leaves ids in the queue has used up the incoming quantity.
pub proof fn lemma_sweep_stops_when_used_up(
    orders: Map<u64, OrderContent>,
    queue: Seq<u64>,
    price: u64,
    quantity: u64,
)
    ensures
        sweep_level(orders, queue, price, quantity).queue.len() > 0 ==> sweep_level(
            orders,
            queue,
            price,
            quantity,
        ).remaining == 0,
    decreases queue.len(),
{
    if quantity != 0 && queue.len() != 0 {
        let id = queue[0];
        if !orders.dom().contains(id) {
            lemma_sweep_stops_when_used_up(orders, queue.drop_first(), price, quantity);
        } else {
            let open = orders[id].spec_quantity();
            if open <= quantity {
                lemma_sweep_stops_when_used_up(
                    orders.remove(id),
                    queue.drop_first(),
                    price,
                    (quantity - open) as u64,
                );
            }
        }
    }
}

/// The levels of one side of the book and the prices its tracker holds.
#[verifier::ext_equal]
pub struct SideModel {
    /// The queue of each level, by price.
    pub levels: Map<u64, Seq<u64>>,
    /// The prices in the tracker.
    pub prices: Multiset<u64>,
}

/// Every level has its price in the tracker.
pub open spec fn levels_are_tracked(book: SideModel) -> bool {
    forall|price: u64| #[trigger]
        book.levels.dom().contains(price) ==> book.prices.count(price) > 0
}

/// The side after the order `id` came to rest at `price`: the id stands
/// behind the others of its level. Where there was no level at the price,
/// there is one now, and the price is in the tracker once more.
pub open spec fn rest_on(book: SideModel, id: u64, price: u64) -> SideModel {
    if book.levels.dom().contains(price) {
        SideModel {
            levels: book.levels.insert(price, book.levels[price].push(id)),
            prices: book.prices,
        }
    } else {
        SideModel {
            levels: book.levels.insert(price, seq![id]),
            prices: book.prices.insert(price),
        }
    }
}

/// The outcome of crossing an incoming order against one side.
#[verifier::ext_equal]
pub struct Crossing {
    /// The resting orders afterwards.
    pub orders: Map<u64, OrderContent>,
    /// The side afterwards.
    pub side: SideModel,
    /// What is left of the incoming quantity.
    pub remaining: u64,
    /// The trades made, first first.
    pub fills: Seq<Fill>,
}

/// Crosses an incoming order of `quantity` and limit price `limit` against
/// `book`, the side on which the `resting` orders lie.
///
/// As long as quantity is left and the best price of the tracker is within
/// the limit, the level at that price is walked. A level that is walked to
/// its end leaves the index, and its price the tracker. A price without a
/// level just leaves the tracker.
pub open spec fn cross(
    orders: Map<u64, OrderContent>,
    book: SideModel,
    resting: Side,
    limit: u64,
    quantity: u64,
) -> Crossing
    decreases book.prices.len(),
    via cross_decreases
{
    match best_price(resting, book.prices) {
        None => Crossing { orders, side: book, remaining: quantity, fills: Seq::empty() },
        Some(price) => {
            if quantity == 0 || !ranks_before(resting, price, limit) {
                Crossing { orders, side: book, remaining: quantity, fills: Seq::empty() }
            } else if !book.levels.dom().contains(price) {
                cross(
                    orders,
                    SideModel { levels: book.levels, prices: book.prices.remove(price) },
                    resting,
                    limit,
                    quantity,
                )
            } else {
                let swept = sweep_level(orders, book.levels[price], price, quantity);
                if swept.queue.len() == 0 {
                    let rest = cross(
                        swept.orders,
                        SideModel {
                            levels: book.levels.remove(price),
                            prices: book.prices.remove(price),
                        },
                        resting,
                        limit,
                        swept.remaining,
                    );
                    Crossing {
                        orders: rest.orders,
                        side: rest.side,
                        remaining: rest.remaining,
                        fills: swept.fills + rest.fills,
                    }
                } else {
                    Crossing {
                        orders: swept.orders,
                        side: SideModel {
                            levels: book.levels.insert(price, swept.queue),
                            prices: book.prices,
                        },
                        remaining: swept.remaining,
                        fills: swept.fills,
                    }
                }
            }
        },
    }
}

/// Every step of a crossing that goes on takes one price out of the
/// tracker.
#[via_fn]
proof fn cross_decreases(
    orders: Map<u64, OrderContent>,
    book: SideModel,
    resting: Side,
    limit: u64,
    quantity: u64,
) {
    match best_price(resting, book.prices) {
        None => {},
        Some(price) => {
            assert(is_best(resting, book.prices, price));
            lemma_take_out_one(book.prices, price);
        },
    }
}

/// The levels of one side of the book with the tracker of their prices.
pub struct BookSide {
    levels: PriceLevelIndex,
    tracker: PriceTracker,
}

impl View for BookSide {
    type V = SideModel;

    /// The queues of the index and the prices of the tracker.
    closed spec fn view(&self) -> SideModel {
        SideModel { levels: self.levels@, prices: self.tracker@ }
    }
}

impl BookSide {
    /// The side of the orders that rest here.
    pub closed spec fn spec_side(&self) -> Side {
        self.tracker.spec_side()
    }

    /// The tracker is in order and tracks the side that the index holds.
    pub closed spec fn parts_wf(&self) -> bool {
        &&& self.tracker.wf()
        &&& self.levels.spec_side() == self.tracker.spec_side()
    }

    /// The parts are in order and every level has its price in the tracker.
    pub open spec fn wf(&self) -> bool {
        &&& self.parts_wf()
        &&& levels_are_tracked(self@)
    }

    /// A side without orders.
    pub fn new(side: Side) -> (book: BookSide)
        ensures
            book.wf(),
            book.spec_side() == side,
            book@.levels == crate::levels::no_levels(),
            book@.prices == Multiset::<u64>::empty(),
    {
        BookSide { levels: PriceLevelIndex::new(side), tracker: PriceTracker::new(side) }
    }

    /// The side of the orders that rest here.
    #[verifier::when_used_as_spec(spec_side)]
    pub fn side(&self) -> (side: Side)
        ensures
            side == self.spec_side(),
    {
        self.tracker.side()
    }

    /// The best price in the tracker, if it holds any.
    pub fn best(&self) -> (price: Option<u64>)
        requires
            self.wf(),
        ensures
            price == best_price(self.spec_side(), self@.prices),
            price is None <==> self@.prices.len() == 0,
    {
        self.tracker.peek()
    }

    /// A copy of the level at `price`.
    pub fn level(&self, price: u64) -> (level: Option<PriceLevel>)
        requires
            self.wf(),
        ensures
            level is Some <==> self@.levels.dom().contains(price),
            level is Some ==> {
                &&& level->0@ == self@.levels[price]
                &&& level->0.spec_price() == price
                &&& level->0.spec_side() == self.spec_side()
            },
    {
        self.levels.level(price)
    }

    /// The prices that have a level, each once, in no particular order.
    pub fn level_prices(&self) -> (prices: Vec<u64>)
        ensures
            prices@.no_duplicates(),
            forall|price: u64| #[trigger]
                prices@.contains(price) <==> self@.levels.dom().contains(price),
    {
        self.levels.prices()
    }

    /// Queues `id` behind the orders that rest at `price`. The first order
    /// at a price opens its level and puts the price into the tracker.
    pub fn rest(&mut self, id: u64, price: u64)
        requires
            old(self).wf(),
        ensures
            final(self).wf(),
            final(self).spec_side() == old(self).spec_side(),
            final(self)@ == rest_on(old(self)@, id, price),
    {
        let ghost before = self@;
        match self.levels.take(price) {
            Some(mut level) => {
                level.push_back(id);
                self.levels.put(level);
                proof {
                    assert(self@.levels =~= before.levels.insert(
                        price,
                        before.levels[price].push(id),
                    ));
                    assert(self@ =~= rest_on(before, id, price));
                }
            },
            None => {
                let mut level = PriceLevel::new(self.tracker.side(), price);
                level.push_back(id);
                self.levels.put(level);
                self.tracker.push(price);
                proof {
                    broadcast use group_multiset_axioms;

                    assert(Seq::<u64>::empty().push(id) =~= seq![id]);
                    assert(self@.levels =~= before.levels.insert(price, seq![id]));
                    assert(self@ =~= rest_on(before, id, price));
                }
            },
        }
    }

    /// Crosses an incoming order of `quantity` and limit price `limit`
    /// against this side. The trades are appended to `fills`; what is left
    /// of the incoming quantity is returned.
    pub fn cross(
        &mut self,
        orders: &mut OrderTable,
        limit: u64,
        quantity: u64,
        fills: &mut Vec<Fill>,
    ) -> (remaining: u64)
        requires
            old(self).wf(),
            old(orders).wf(),
        ensures
            final(self).wf(),
            final(orders).wf(),
            final(self).spec_side() == old(self).spec_side(),
            final(orders)@ == cross(
                old(orders)@,
                old(self)@,
                old(self).spec_side(),
                limit,
                quantity,
            ).orders,
            final(self)@ == cross(
                old(orders)@,
                old(self)@,
                old(self).spec_side(),
                limit,
                quantity,
            ).side,
            remaining == cross(
                old(orders)@,
                old(self)@,
                old(self).spec_side(),
                limit,
                quantity,
            ).remaining,
            final(fills)@ == old(fills)@ + cross(
                old(orders)@,
                old(self)@,
                old(self).spec_side(),
                limit,
                quantity,
            ).fills,
    {
        let side = self.tracker.side();
        let ghost target = cross(old(orders)@, old(self)@, side, limit, quantity);
        let mut remaining: u64 = quantity;
        let mut crossing = true;
        while crossing
            invariant
                self.wf(),
                orders.wf(),
                side == self.spec_side(),
                side == old(self).spec_side(),
                cross(orders@, self@, side, limit, remaining).orders == target.orders,
                cross(orders@, self@, side, limit, remaining).side == target.side,
                cross(orders@, self@, side, limit, remaining).remaining == target.remaining,
                fills@ + cross(orders@, self@, side, limit, remaining).fills == old(fills)@
                    + target.fills,
                !crossing ==> cross(orders@, self@, side, limit, remaining) == (Crossing {
                    orders: orders@,
                    side: self@,
                    remaining,
                    fills: Seq::empty(),
                }),
            decreases
                    (if crossing {
                        1int
                    } else {
                        0int
                    }),
                    self@.prices.len(),
        {
            let ghost ahead = cross(orders@, self@, side, limit, remaining);
            let ghost before = self@;
            let ghost orders_before = orders@;
            let ghost fills_before = fills@;
            match self.tracker.peek() {
                None => {
                    crossing = false;
                },
                Some(price) => {
                    if remaining == 0 || !ranks_before(side, price, limit) {
                        crossing = false;
                    } else {
                        proof {
                            assert(is_best(side, before.prices, price));
                            lemma_take_out_one(before.prices, price);
                        }
                        match self.levels.take(price) {
                            None => {
                                self.tracker.pop();
                                proof {
                                    assert(self@.levels =~= before.levels);
                                    assert(self@ =~= SideModel {
                                        levels: before.levels,
                                        prices: before.prices.remove(price),
                                    });
                                }
                            },
                            Some(mut level) => {
                                let ghost queue = level@;
                                let ghost incoming = remaining;
                                remaining = sweep(orders, &mut level, remaining, fills);
                                proof {
                                    lemma_sweep_stops_when_used_up(
                                        orders_before,
                                        queue,
                                        price,
                                        incoming,
                                    );
                                }
                                if level.is_empty() {
                                    self.tracker.pop();
                                    proof {
                                        assert(self@ =~= SideModel {
                                            levels: before.levels.remove(price),
                                            prices: before.prices.remove(price),
                                        });
                                        let rest = cross(orders@, self@, side, limit, remaining);
                                        assert(fills@ + rest.fills =~= fills_before + ahead.fills);
                                    }
                                } else {
                                    let ghost left = level@;
                                    self.levels.put(level);
                                    crossing = false;
                                    proof {
                                        assert(self@.levels =~= before.levels.insert(price, left));
                                        assert(self@ =~= SideModel {
                                            levels: before.levels.insert(price, left),
                                            prices: before.prices,
                                        });
                                        assert(fills@ + Seq::<Fill>::empty() =~= fills@);
                                    }
                                }
                            },
                        }
                    }
                },
            }
        }
        proof {
            assert(fills@ + Seq::<Fill>::empty() =~= fills@);
        }
        remaining
    }
}

} // verus!
