//! The table of resting orders.
//!
//! The table maps the id of every order that rests in the book to its
//! current terms. It is the one place where an order's open quantity is
//! kept, and the one structure of the book that is built for readers on
//! other threads: it is a `DashMap`, whose operations lock one shard each.

use crate::errors::OrderError;
use crate::orders::OrderContent;
use dashmap::DashMap;
use vstd::prelude::*;

verus! {

/// `dashmap::DashMap`, a hash map whose operations take `&self` and lock
/// one shard each. Nothing is said of what is inside a value of it: what a
/// map holds is named apart, for the maps that the book uses.
#[verifier::external_type_specification]
#[verifier::external_body]
#[verifier::reject_recursive_types(K)]
#[verifier::reject_recursive_types(V)]
#[verifier::reject_recursive_types(S)]
pub struct ExDashMap<K, V, S>(DashMap<K, V, S>);

/// The entries that a `DashMap` of orders holds.
pub uninterp spec fn order_entries(entries: DashMap<u64, OrderContent>) -> Map<u64, OrderContent>;

/// The table without any order.
pub open spec fn no_orders() -> Map<u64, OrderContent> {
    Map::empty()
}

/// What `entries` holds under `id`, if anything.
pub open spec fn lookup(entries: Map<u64, OrderContent>, id: u64) -> Option<OrderContent> {
    if entries.dom().contains(id) {
        Some(entries[id])
    } else {
        None
    }
}

/// `DashMap::new`: the new map holds nothing.
#[verifier::external_body]
fn entries_new() -> (entries: DashMap<u64, OrderContent>)
    ensures
        order_entries(entries) == no_orders(),
{
    DashMap::new()
}

/// `DashMap::contains_key`: whether the map holds an entry under `id`.
#[verifier::external_body]
fn entries_contains_key(entries: &DashMap<u64, OrderContent>, id: u64) -> (found: bool)
    ensures
        found == order_entries(*entries).dom().contains(id),
{
    entries.contains_key(&id)
}

/// `DashMap::get`: a copy of the value under `id`, `None` when there is no
/// such entry.
#[verifier::external_body]
fn entries_get(entries: &DashMap<u64, OrderContent>, id: u64) -> (content: Option<OrderContent>)
    ensures
        content == lookup(order_entries(*entries), id),
{
    entries.get(&id).map(|entry| *entry.value())
}

/// `DashMap::insert`: afterwards the map holds `content` under `id` and is
/// otherwise as before; the value that was there before is returned.
#[verifier::external_body]
fn entries_insert(
    entries: &mut DashMap<u64, OrderContent>,
    id: u64,
    content: OrderContent,
) -> (previous: Option<OrderContent>)
    ensures
        order_entries(*final(entries)) == order_entries(*old(entries)).insert(id, content),
        previous == lookup(order_entries(*old(entries)), id),
{
    entries.insert(id, content)
}

/// `DashMap::remove`: afterwards the map holds nothing under `id` and is
/// otherwise as before; the value that was there is returned.
#[verifier::external_body]
fn entries_remove(entries: &mut DashMap<u64, OrderContent>, id: u64) -> (removed: Option<
    OrderContent,
>)
    ensures
        order_entries(*final(entries)) == order_entries(*old(entries)).remove(id),
        removed == lookup(order_entries(*old(entries)), id),
{
    entries.remove(&id).map(|(_, content)| content)
}

/// `DashMap::remove_if`, with the test "the open quantity is at most
/// `limit`": where the map holds an entry under `id` that passes the test,
/// the entry is removed and its value returned; otherwise the map is left
/// as it is and `None` is returned. Test and removal happen under one lock.
#[verifier::external_body]
fn entries_remove_if_at_most(
    entries: &mut DashMap<u64, OrderContent>,
    id: u64,
    limit: u64,
) -> (removed: Option<OrderContent>)
    ensures
        removed == (match lookup(order_entries(*old(entries)), id) {
            Some(content) => if content.spec_quantity() <= limit {
                Some(content)
            } else {
                None
            },
            None => None,
        }),
        order_entries(*final(entries)) == (if removed is Some {
            order_entries(*old(entries)).remove(id)
        } else {
            order_entries(*old(entries))
        }),
{
    entries.remove_if(&id, |_, content| content.quantity_at_most(limit)).map(|(_, content)| content)
}

/// The resting orders by id.
pub struct OrderTable {
    entries: DashMap<u64, OrderContent>,
}

impl View for OrderTable {
    type V = Map<u64, OrderContent>;

    /// The terms of each resting order, by id.
    closed spec fn view(&self) -> Map<u64, OrderContent> {
        order_entries(self.entries)
    }
}

/// Every order in `entries` has a side and a positive quantity.
pub open spec fn all_can_rest(entries: Map<u64, OrderContent>) -> bool {
    forall|id: u64| #[trigger] entries.dom().contains(id) ==> entries[id].spec_can_rest()
}

impl OrderTable {
    /// Every order in the table has a side and a positive quantity.
    pub open spec fn wf(&self) -> bool {
        all_can_rest(self@)
    }

    /// An empty table.
    pub fn new() -> (table: OrderTable)
        ensures
            table.wf(),
            table@ == no_orders(),
    {
        OrderTable { entries: entries_new() }
    }

    /// Whether an order rests under `id`.
    pub fn contains(&self, id: u64) -> (found: bool)
        ensures
            found == self@.dom().contains(id),
    {
        entries_contains_key(&self.entries, id)
    }

    /// The current terms of the order under `id`.
    pub fn get(&self, id: u64) -> (content: Option<OrderContent>)
        ensures
            content == lookup(self@, id),
    {
        entries_get(&self.entries, id)
    }

    /// Puts `content` under `id`, in place of what was there.
    pub fn insert(&mut self, id: u64, content: OrderContent)
        requires
            old(self).wf(),
            content.spec_can_rest(),
        ensures
            final(self).wf(),
            final(self)@ == old(self)@.insert(id, content),
    {
        entries_insert(&mut self.entries, id, content);
    }

    /// Removes the order under `id` if its open quantity is at most `limit`,
    /// and returns it. An order with more open quantity, or no order, leaves
    /// the table as it is and gives `None`.
    pub fn compare_and_remove(&mut self, id: u64, limit: u64) -> (removed: Option<OrderContent>)
        ensures
            old(self).wf() ==> final(self).wf(),
            removed == (match lookup(old(self)@, id) {
                Some(content) => if content.spec_quantity() <= limit {
                    Some(content)
                } else {
                    None
                },
                None => None,
            }),
            final(self)@ == (if removed is Some {
                old(self)@.remove(id)
            } else {
                old(self)@
            }),
    {
        entries_remove_if_at_most(&mut self.entries, id, limit)
    }

    /// Sets the open quantity of the order under `id`. A quantity of zero
    /// takes the order out of the table: the table keeps no order without
    /// open quantity. Fails with `NotFound` when no order rests under `id`.
    pub fn mutate_quantity(&mut self, id: u64, quantity: u64) -> (result: Result<(), OrderError>)
        requires
            old(self).wf(),
        ensures
            final(self).wf(),
            result is Ok <==> old(self)@.dom().contains(id),
            result is Err ==> result == Err::<(), OrderError>(OrderError::NotFound),
            final(self)@ == (if !old(self)@.dom().contains(id) {
                old(self)@
            } else if quantity == 0 {
                old(self)@.remove(id)
            } else {
                old(self)@.insert(id, old(self)@[id].spec_with_quantity(quantity))
            }),
    {
        match entries_get(&self.entries, id) {
            None => Err(OrderError::NotFound),
            Some(content) => {
                if quantity == 0 {
                    entries_remove(&mut self.entries, id);
                } else {
                    entries_insert(&mut self.entries, id, content.with_quantity(quantity));
                }
                Ok(())
            },
        }
    }

    /// Takes the order under `id` out of the table and returns it.
    pub fn remove(&mut self, id: u64) -> (removed: Option<OrderContent>)
        ensures
            old(self).wf() ==> final(self).wf(),
            removed == lookup(old(self)@, id),
            final(self)@ == old(self)@.remove(id),
    {
        entries_remove(&mut self.entries, id)
    }
}

} // verus!
