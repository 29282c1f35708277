//! Price levels and the index of the levels of one side.
//!
//! A level is the queue of the orders that rest at one price on one side,
//! in the order in which they arrived. An id stays in its queue after the
//! order was cancelled; whoever next walks the queue drops it.

use crate::orders::Side;
use dashmap::DashMap;
use std::collections::VecDeque;
use vstd::prelude::*;

verus! {

/// The resting orders of one price on one side, first come first.
pub struct PriceLevel {
    price: u64,
    side: Side,
    orders: VecDeque<u64>,
}

impl View for PriceLevel {
    type V = Seq<u64>;

    /// The ids in the queue, front first.
    closed spec fn view(&self) -> Seq<u64> {
        self.orders@
    }
}

impl PriceLevel {
    /// The price of the level.
    pub closed spec fn spec_price(&self) -> u64 {
        self.price
    }

    /// The side of the level.
    pub closed spec fn spec_side(&self) -> Side {
        self.side
    }

    /// A level without orders.
    pub fn new(side: Side, price: u64) -> (level: PriceLevel)
        ensures
            level.spec_side() == side,
            level.spec_price() == price,
            level@ == Seq::<u64>::empty(),
    {
        PriceLevel { price, side, orders: VecDeque::new() }
    }

    /// The price of the level.
    #[verifier::when_used_as_spec(spec_price)]
    pub fn price(&self) -> (price: u64)
        ensures
            price == self.spec_price(),
    {
        self.price
    }

    /// The side of the level.
    #[verifier::when_used_as_spec(spec_side)]
    pub fn side(&self) -> (side: Side)
        ensures
            side == self.spec_side(),
    {
        self.side
    }

    /// How many ids are queued.
    pub fn len(&self) -> (n: usize)
        ensures
            n == self@.len(),
    {
        self.orders.len()
    }

    /// Whether no id is queued.
    pub fn is_empty(&self) -> (r: bool)
        ensures
            r == (self@.len() == 0),
    {
        self.orders.len() == 0
    }

    /// The id at the front of the queue.
    pub fn front(&self) -> (id: Option<u64>)
        ensures
            id == (if self@.len() > 0 {
                Some(self@[0])
            } else {
                None
            }),
    {
        if self.orders.len() > 0 {
            Some(self.orders[0])
        } else {
            None
        }
    }

    /// Queues `id` behind all others.
    pub fn push_back(&mut self, id: u64)
        ensures
            final(self)@ == old(self)@.push(id),
            final(self).spec_price() == old(self).spec_price(),
            final(self).spec_side() == old(self).spec_side(),
    {
        self.orders.push_back(id);
    }

    /// Takes the id at the front out of the queue.
    pub fn pop_front(&mut self) -> (id: Option<u64>)
        ensures
            id == (if old(self)@.len() > 0 {
                Some(old(self)@[0])
            } else {
                None
            }),
            final(self)@ == (if old(self)@.len() > 0 {
                old(self)@.drop_first()
            } else {
                old(self)@
            }),
            final(self).spec_price() == old(self).spec_price(),
            final(self).spec_side() == old(self).spec_side(),
    {
        self.orders.pop_front()
    }

    /// The queued ids, front first.
    pub fn order_ids(&self) -> (ids: Vec<u64>)
        ensures
            ids@ == self@,
    {
        let mut ids: Vec<u64> = Vec::new();
        let n: usize = self.orders.len();
        let mut i: usize = 0;
        while i < n
            invariant
                n == self.orders@.len(),
                i <= n,
                ids@ == self.orders@.subrange(0, i as int),
            decreases n - i,
        {
            ids.push(self.orders[i]);
            i += 1;
            assert(self.orders@.subrange(0, i as int) == self.orders@.subrange(0, i - 1).push(
                self.orders@[i - 1],
            ));
        }
        assert(self.orders@.subrange(0, n as int) == self.orders@);
        ids
    }
}

/// The queues that a `DashMap` of price levels holds, by price.
pub uninterp spec fn level_queues(queues: DashMap<u64, VecDeque<u64>>) -> Map<u64, Seq<u64>>;

/// The index without any level.
pub open spec fn no_levels() -> Map<u64, Seq<u64>> {
    Map::empty()
}

/// `DashMap::new`: the new map holds nothing.
#[verifier::external_body]
fn queues_new() -> (queues: DashMap<u64, VecDeque<u64>>)
    ensures
        level_queues(queues) == no_levels(),
{
    DashMap::new()
}

/// `DashMap::contains_key`: whether the map holds a queue under `price`.
#[verifier::external_body]
fn queues_contains_key(queues: &DashMap<u64, VecDeque<u64>>, price: u64) -> (found: bool)
    ensures
        found == level_queues(*queues).dom().contains(price),
{
    queues.contains_key(&price)
}

/// `DashMap::get`: a copy of the queue under `price`, `None` when there is
/// none.
#[verifier::external_body]
fn queues_get(queues: &DashMap<u64, VecDeque<u64>>, price: u64) -> (queue: Option<VecDeque<u64>>)
    ensures
        queue is Some <==> level_queues(*queues).dom().contains(price),
        queue is Some ==> queue->0@ == level_queues(*queues)[price],
{
    queues.get(&price).map(|entry| entry.value().clone())
}

/// `DashMap::insert`: afterwards the map holds `queue` under `price` and is
/// otherwise as before.
#[verifier::external_body]
fn queues_insert(queues: &mut DashMap<u64, VecDeque<u64>>, price: u64, queue: VecDeque<u64>)
    ensures
        level_queues(*final(queues)) == level_queues(*old(queues)).insert(price, queue@),
{
    queues.insert(price, queue);
}

/// `DashMap::remove`: afterwards the map holds nothing under `price` and is
/// otherwise as before; the queue that was there is returned.
#[verifier::external_body]
fn queues_remove(queues: &mut DashMap<u64, VecDeque<u64>>, price: u64) -> (queue: Option<
    VecDeque<u64>,
>)
    ensures
        level_queues(*final(queues)) == level_queues(*old(queues)).remove(price),
        queue is Some <==> level_queues(*old(queues)).dom().contains(price),
        queue is Some ==> queue->0@ == level_queues(*old(queues))[price],
{
    queues.remove(&price).map(|(_, queue)| queue)
}

/// `DashMap::iter`: the keys of the map, each once, in no particular order.
#[verifier::external_body]
fn queues_keys(queues: &DashMap<u64, VecDeque<u64>>) -> (prices: Vec<u64>)
    ensures
        prices@.no_duplicates(),
        forall|price: u64| #[trigger]
            prices@.contains(price) <==> level_queues(*queues).dom().contains(price),
{
    queues.iter().map(|entry| *entry.key()).collect()
}

/// The price levels of one side of the book, by price.
pub struct PriceLevelIndex {
    side: Side,
    queues: DashMap<u64, VecDeque<u64>>,
}

impl View for PriceLevelIndex {
    type V = Map<u64, Seq<u64>>;

    /// The queue of each level, by price.
    closed spec fn view(&self) -> Map<u64, Seq<u64>> {
        level_queues(self.queues)
    }
}

impl PriceLevelIndex {
    /// The side whose levels are indexed.
    pub closed spec fn spec_side(&self) -> Side {
        self.side
    }

    /// An index without levels.
    pub fn new(side: Side) -> (index: PriceLevelIndex)
        ensures
            index.spec_side() == side,
            index@ == no_levels(),
    {
        PriceLevelIndex { side, queues: queues_new() }
    }

    /// The side whose levels are indexed.
    #[verifier::when_used_as_spec(spec_side)]
    pub fn side(&self) -> (side: Side)
        ensures
            side == self.spec_side(),
    {
        self.side
    }

    /// Whether there is a level at `price`.
    pub fn contains(&self, price: u64) -> (found: bool)
        ensures
            found == self@.dom().contains(price),
    {
        queues_contains_key(&self.queues, price)
    }

    /// Takes the level at `price` out of the index.
    pub fn take(&mut self, price: u64) -> (level: Option<PriceLevel>)
        ensures
            final(self).spec_side() == old(self).spec_side(),
            final(self)@ == old(self)@.remove(price),
            level is Some <==> old(self)@.dom().contains(price),
            level is Some ==> {
                &&& level->0@ == old(self)@[price]
                &&& level->0.spec_price() == price
                &&& level->0.spec_side() == old(self).spec_side()
            },
    {
        match queues_remove(&mut self.queues, price) {
            Some(orders) => Some(PriceLevel { price, side: self.side, orders }),
            None => None,
        }
    }

    /// Puts `level` into the index under its price, in place of the level
    /// that was there.
    pub fn put(&mut self, level: PriceLevel)
        requires
            level.spec_side() == old(self).spec_side(),
        ensures
            final(self).spec_side() == old(self).spec_side(),
            final(self)@ == old(self)@.insert(level.spec_price(), level@),
    {
        queues_insert(&mut self.queues, level.price, level.orders);
    }

    /// A copy of the level at `price`.
    pub fn level(&self, price: u64) -> (level: Option<PriceLevel>)
        ensures
            level is Some <==> self@.dom().contains(price),
            level is Some ==> {
                &&& level->0@ == self@[price]
                &&& level->0.spec_price() == price
                &&& level->0.spec_side() == self.spec_side()
            },
    {
        match queues_get(&self.queues, price) {
            Some(orders) => Some(PriceLevel { price, side: self.side, orders }),
            None => None,
        }
    }

    /// The prices that have a level, each once, in no particular order.
    pub fn prices(&self) -> (prices: Vec<u64>)
        ensures
            prices@.no_duplicates(),
            forall|price: u64| #[trigger] prices@.contains(price) <==> self@.dom().contains(price),
    {
        queues_keys(&self.queues)
    }
}

} // verus!
