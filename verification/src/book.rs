//! The order book: the resting orders of both sides, and the three
//! requests that change them.

use crate::errors::OrderError;
use crate::laws::{
    lemma_cancel_keeps_order, lemma_execute_keeps_order, lemma_place_keeps_order,
    lemma_replace_keeps_order,
};
use crate::levels::PriceLevel;
use crate::matching::{cross, levels_are_tracked, rest_on, BookSide, Fill, SideModel};
use crate::orders::{OrderContent, Side};
use crate::table::{all_can_rest, lookup, OrderTable};
use crate::tracker::best_price;
use vstd::multiset::Multiset;
use vstd::prelude::*;

verus! {

/// The book as a value: the table of resting orders and the two sides.
#[verifier::ext_equal]
pub struct BookModel {
    /// The terms of each resting order, by id.
    pub orders: Map<u64, OrderContent>,
    /// The side of the resting buy orders.
    pub bids: SideModel,
    /// The side of the resting sell orders.
    pub asks: SideModel,
}

impl BookModel {
    /// The levels and prices of `side`.
    pub open spec fn side(self, side: Side) -> SideModel {
        match side {
            Side::Bid => self.bids,
            Side::Ask => self.asks,
        }
    }

    /// The book with `orders` for its table and `book` for its `side`.
    pub open spec fn with(
        self,
        orders: Map<u64, OrderContent>,
        side: Side,
        book: SideModel,
    ) -> BookModel {
        match side {
            Side::Bid => BookModel { orders, bids: book, asks: self.asks },
            Side::Ask => BookModel { orders, bids: self.bids, asks: book },
        }
    }

    /// Whether the order `id` stands in the queue of its own side at its
    /// own price.
    pub open spec fn holds_in_queue(self, id: u64) -> bool {
        match self.orders[id].spec_side() {
            Some(side) => {
                &&& self.side(side).levels.dom().contains(self.orders[id].spec_price())
                &&& self.side(side).levels[self.orders[id].spec_price()].contains(id)
            },
            None => false,
        }
    }

    /// Every resting order has a side and a positive quantity and stands in
    /// the queue of its side at its price, and every level has its price in
    /// the tracker of its side.
    pub open spec fn wf(self) -> bool {
        &&& all_can_rest(self.orders)
        &&& levels_are_tracked(self.bids)
        &&& levels_are_tracked(self.asks)
        &&& forall|id: u64| #[trigger] self.orders.dom().contains(id) ==> self.holds_in_queue(id)
    }
}

/// What crossing an incoming order leaves behind.
#[verifier::ext_equal]
pub struct ExecutionModel {
    /// The book afterwards.
    pub book: BookModel,
    /// What is left of the incoming quantity.
    pub remaining: u64,
    /// The trades made, first first.
    pub fills: Seq<Fill>,
}

/// Crosses an incoming order of `side` against the opposite side of `book`.
pub open spec fn execute(book: BookModel, side: Side, limit: u64, quantity: u64) -> ExecutionModel {
    let crossing = cross(
        book.orders,
        book.side(side.spec_opposite()),
        side.spec_opposite(),
        limit,
        quantity,
    );
    ExecutionModel {
        book: book.with(crossing.orders, side.spec_opposite(), crossing.side),
        remaining: crossing.remaining,
        fills: crossing.fills,
    }
}

/// The book after a create request for `id` with `content`.
///
/// A request for an id that rests already changes nothing, and neither does
/// content without terms. Otherwise the order crosses the opposite side, and
/// what is left of it comes to rest on its own side.
pub open spec fn place(book: BookModel, id: u64, content: OrderContent) -> BookModel {
    if book.orders.dom().contains(id) {
        book
    } else {
        match content.spec_side() {
            None => book,
            Some(side) => {
                let executed = execute(book, side, content.spec_price(), content.spec_quantity());
                if executed.remaining == 0 {
                    executed.book
                } else {
                    executed.book.with(
                        executed.book.orders.insert(
                            id,
                            content.spec_with_quantity(executed.remaining),
                        ),
                        side,
                        rest_on(executed.book.side(side), id, content.spec_price()),
                    )
                }
            },
        }
    }
}

/// Whether the order `id` may take the terms of `content`: it must rest in
/// the book, on the same side and at the same price.
pub open spec fn replace_check(book: BookModel, id: u64, content: OrderContent) -> Result<
    (),
    OrderError,
> {
    if !book.orders.dom().contains(id) {
        Err(OrderError::NotFound)
    } else if content.spec_side() != book.orders[id].spec_side() || content.spec_price()
        != book.orders[id].spec_price() {
        Err(OrderError::InvalidReplace)
    } else {
        Ok(())
    }
}

/// The book after a replace request for `id` with `content`.
///
/// A request that passes `replace_check` sets the open quantity of the
/// order and nothing else; a quantity of zero takes the order out of the
/// table. Any other request changes nothing.
pub open spec fn replace(book: BookModel, id: u64, content: OrderContent) -> BookModel {
    if replace_check(book, id, content) is Ok {
        BookModel {
            orders: if content.spec_quantity() == 0 {
                book.orders.remove(id)
            } else {
                book.orders.insert(id, book.orders[id].spec_with_quantity(content.spec_quantity()))
            },
            bids: book.bids,
            asks: book.asks,
        }
    } else {
        book
    }
}

/// The book after a cancel request for `id`: the order leaves the table.
/// Its id stays in the queue of its level.
pub open spec fn cancel(book: BookModel, id: u64) -> BookModel {
    BookModel { orders: book.orders.remove(id), bids: book.bids, asks: book.asks }
}

/// What crossing an incoming order gave.
#[derive(Clone, Debug, PartialEq, Eq)]
pub struct Execution {
    /// What is left of the incoming quantity.
    pub remaining: u64,
    /// The trades made, first first.
    pub fills: Vec<Fill>,
}

/// What became of a create request.
#[derive(Clone, Debug, PartialEq, Eq)]
pub enum CreateOutcome {
    /// An order with this id rests already; the request was ignored.
    Duplicate,
    /// The order crossed the book. What is left of it, if anything, rests
    /// now.
    Executed(Execution),
}

/// A limit order book for one asset.
pub struct OrderBook {
    orders: OrderTable,
    bids: BookSide,
    asks: BookSide,
}

impl View for OrderBook {
    type V = BookModel;

    /// The table and the two sides as values.
    closed spec fn view(&self) -> BookModel {
        BookModel { orders: self.orders@, bids: self.bids@, asks: self.asks@ }
    }
}

impl OrderBook {
    /// The parts of the book are in order, each side holding its own.
    pub closed spec fn parts_wf(&self) -> bool {
        &&& self.bids.parts_wf()
        &&& self.asks.parts_wf()
        &&& self.bids.spec_side() == Side::Bid
        &&& self.asks.spec_side() == Side::Ask
    }

    /// The book is in order.
    pub open spec fn wf(&self) -> bool {
        &&& self.parts_wf()
        &&& self@.wf()
    }

    /// An empty book.
    pub fn new() -> (book: OrderBook)
        ensures
            book.wf(),
            book@.orders == crate::table::no_orders(),
            book@.bids.levels == crate::levels::no_levels(),
            book@.asks.levels == crate::levels::no_levels(),
            book@.bids.prices == Multiset::<u64>::empty(),
            book@.asks.prices == Multiset::<u64>::empty(),
    {
        OrderBook {
            orders: OrderTable::new(),
            bids: BookSide::new(Side::Bid),
            asks: BookSide::new(Side::Ask),
        }
    }

    /// The current terms of the order `id`, if it rests in the book.
    pub fn order(&self, id: u64) -> (content: Option<OrderContent>)
        ensures
            content == lookup(self@.orders, id),
    {
        self.orders.get(id)
    }

    /// The best bid in the tracker: the highest price it holds.
    pub fn best_bid(&self) -> (price: Option<u64>)
        requires
            self.wf(),
        ensures
            price == best_price(Side::Bid, self@.bids.prices),
            price is None <==> self@.bids.prices.len() == 0,
    {
        self.bids.best()
    }

    /// The best ask in the tracker: the lowest price it holds.
    pub fn best_ask(&self) -> (price: Option<u64>)
        requires
            self.wf(),
        ensures
            price == best_price(Side::Ask, self@.asks.prices),
            price is None <==> self@.asks.prices.len() == 0,
    {
        self.asks.best()
    }

    /// A copy of the level of `side` at `price`.
    pub fn level(&self, side: Side, price: u64) -> (level: Option<PriceLevel>)
        requires
            self.wf(),
        ensures
            level is Some <==> self@.side(side).levels.dom().contains(price),
            level is Some ==> {
                &&& level->0@ == self@.side(side).levels[price]
                &&& level->0.spec_price() == price
                &&& level->0.spec_side() == side
            },
    {
        match side {
            Side::Bid => self.bids.level(price),
            Side::Ask => self.asks.level(price),
        }
    }

    /// The prices of `side` that have a level, each once, in no particular
    /// order.
    pub fn level_prices(&self, side: Side) -> (prices: Vec<u64>)
        ensures
            prices@.no_duplicates(),
            forall|price: u64| #[trigger]
                prices@.contains(price) <==> self@.side(side).levels.dom().contains(price),
    {
        match side {
            Side::Bid => self.bids.level_prices(),
            Side::Ask => self.asks.level_prices(),
        }
    }

    /// Crosses an incoming order of `side` with limit price `limit` and
    /// `quantity` against the opposite side of the book. Nothing of the
    /// incoming order comes to rest.
    pub fn execute_order(&mut self, side: Side, limit: u64, quantity: u64) -> (execution: Execution)
        requires
            old(self).wf(),
        ensures
            final(self).wf(),
            final(self)@ == execute(old(self)@, side, limit, quantity).book,
            execution.remaining == execute(old(self)@, side, limit, quantity).remaining,
            execution.fills@ == execute(old(self)@, side, limit, quantity).fills,
    {
        let mut fills: Vec<Fill> = Vec::new();
        let remaining = match side {
            Side::Bid => self.asks.cross(&mut self.orders, limit, quantity, &mut fills),
            Side::Ask => self.bids.cross(&mut self.orders, limit, quantity, &mut fills),
        };
        proof {
            let target = execute(old(self)@, side, limit, quantity);
            assert(Seq::<Fill>::empty() + target.fills =~= target.fills);
            assert(self@ =~= target.book);
            lemma_execute_keeps_order(old(self)@, side, limit, quantity);
        }
        Execution { remaining, fills }
    }

    /// Handles a create request.
    ///
    /// A request for an id that rests already is ignored and reported as
    /// `Duplicate`. Content without terms is turned down with
    /// `InvariantViolation`. Any other order crosses the opposite side;
    /// what is left of it comes to rest behind the orders at its price.
    pub fn new_order(&mut self, id: u64, content: OrderContent) -> (result: Result<
        CreateOutcome,
        OrderError,
    >)
        requires
            old(self).wf(),
        ensures
            final(self).wf(),
            final(self)@ == place(old(self)@, id, content),
            match result {
                Ok(CreateOutcome::Duplicate) => old(self)@.orders.dom().contains(id),
                Err(error) => {
                    &&& !old(self)@.orders.dom().contains(id)
                    &&& content.spec_side() is None
                    &&& error == OrderError::InvariantViolation
                },
                Ok(CreateOutcome::Executed(execution)) => {
                    &&& !old(self)@.orders.dom().contains(id)
                    &&& content.spec_side() is Some
                    &&& execution.remaining == execute(
                        old(self)@,
                        content.spec_side()->0,
                        content.spec_price(),
                        content.spec_quantity(),
                    ).remaining
                    &&& execution.fills@ == execute(
                        old(self)@,
                        content.spec_side()->0,
                        content.spec_price(),
                        content.spec_quantity(),
                    ).fills
                },
            },
    {
        if self.orders.contains(id) {
            return Ok(CreateOutcome::Duplicate);
        }
        let side = match content.side() {
            Some(side) => side,
            None => {
                return Err(OrderError::InvariantViolation);
            },
        };
        let execution = self.execute_order(side, content.price(), content.quantity());
        if execution.remaining > 0 {
            self.orders.insert(id, content.with_quantity(execution.remaining));
            match side {
                Side::Bid => self.bids.rest(id, content.price()),
                Side::Ask => self.asks.rest(id, content.price()),
            }
            proof {
                assert(self@ =~= place(old(self)@, id, content));
            }
        }
        proof {
            lemma_place_keeps_order(old(self)@, id, content);
        }
        Ok(CreateOutcome::Executed(execution))
    }

    /// Handles a replace request: sets the open quantity of the resting
    /// order `id` to that of `content`. The order keeps its place in the
    /// queue of its level. A quantity of zero takes the order out of the
    /// table.
    ///
    /// Fails with `NotFound` when no order rests under `id`, and with
    /// `InvalidReplace` when `content` has another side or another price
    /// than the resting order. A request that fails changes nothing.
    pub fn replace_order(&mut self, id: u64, content: OrderContent) -> (result: Result<
        (),
        OrderError,
    >)
        requires
            old(self).wf(),
        ensures
            final(self).wf(),
            result == replace_check(old(self)@, id, content),
            final(self)@ == replace(old(self)@, id, content),
            result is Err ==> final(self)@ == old(self)@,
    {
        let resting = match self.orders.get(id) {
            Some(resting) => resting,
            None => {
                return Err(OrderError::NotFound);
            },
        };
        if content.side() != resting.side() || content.price() != resting.price() {
            return Err(OrderError::InvalidReplace);
        }
        let _ = self.orders.mutate_quantity(id, content.quantity());
        proof {
            assert(self@ =~= replace(old(self)@, id, content));
            lemma_replace_keeps_order(old(self)@, id, content);
        }
        Ok(())
    }

    /// Handles a cancel request: takes the order `id` out of the table. Its
    /// id stays queued at its level until an incoming order next walks that
    /// queue.
    ///
    /// Fails with `NotFound`, changing nothing, when no order rests under
    /// `id`.
    pub fn cancel_order(&mut self, id: u64) -> (result: Result<(), OrderError>)
        requires
            old(self).wf(),
        ensures
            final(self).wf(),
            result is Ok <==> old(self)@.orders.dom().contains(id),
            result is Err ==> result == Err::<(), OrderError>(OrderError::NotFound),
            final(self)@ == cancel(old(self)@, id),
            result is Err ==> final(self)@ == old(self)@,
    {
        let removed = self.orders.remove(id);
        proof {
            if removed is None {
                assert(old(self)@.orders.remove(id) =~= old(self)@.orders);
            }
            assert(self@ =~= cancel(old(self)@, id));
            lemma_cancel_keeps_order(old(self)@, id);
        }
        match removed {
            Some(_) => Ok(()),
            None => Err(OrderError::NotFound),
        }
    }
}

} // verus!
