//! Best-price tracking for one side of the book.
//!
//! A tracker is a binary heap of prices ordered by how good they are for
//! its side. It may hold a price more than once, and it may hold prices at
//! which nothing rests any more: the book discards those when they surface.

use crate::orders::{ranks_before, spec_ranks_before, Side};
use vstd::multiset::*;
use vstd::prelude::*;
use vstd::seq_lib::*;

verus! {

/// Whether `price` occurs in `prices` and no price in `prices` is better on
/// `side`.
pub open spec fn is_best(side: Side, prices: Multiset<u64>, price: u64) -> bool {
    &&& prices.count(price) > 0
    &&& forall|other: u64| #[trigger] prices.count(other) > 0 ==> ranks_before(side, price, other)
}

/// The best price of `prices` on `side`: the highest bid or the lowest ask.
pub open spec fn best_price(side: Side, prices: Multiset<u64>) -> Option<u64> {
    if exists|price: u64| is_best(side, prices, price) {
        Some(choose|price: u64| is_best(side, prices, price))
    } else {
        None
    }
}

/// A best price is the only one.
pub proof fn lemma_best_is_unique(side: Side, prices: Multiset<u64>, price: u64)
    requires
        is_best(side, prices, price),
    ensures
        best_price(side, prices) == Some(price),
{
    let chosen = choose|p: u64| is_best(side, prices, p);
    assert(is_best(side, prices, chosen));
    assert(ranks_before(side, price, chosen));
    assert(ranks_before(side, chosen, price));
}

/// Nothing is best among no prices.
pub proof fn lemma_no_best_when_empty(side: Side, prices: Multiset<u64>)
    requires
        prices.len() == 0,
    ensures
        best_price(side, prices) is None,
{
    broadcast use group_multiset_axioms;

    assert forall|p: u64| !is_best(side, prices, p) by {
        assert(prices.count(p) <= prices.len());
    }
}

/// Taking one occurrence of a price out leaves one price fewer and touches
/// no other price.
pub proof fn lemma_take_out_one(prices: Multiset<u64>, price: u64)
    requires
        prices.count(price) > 0,
    ensures
        prices.remove(price).len() == prices.len() - 1,
        prices.remove(price).count(price) == prices.count(price) - 1,
        forall|other: u64|
            other != price ==> #[trigger] prices.remove(price).count(other) == prices.count(other),
{
    broadcast use group_multiset_axioms;

    assert(Multiset::singleton(price).subset_of(prices)) by {
        assert forall|v: u64|
            #[trigger] Multiset::singleton(price).count(v) <= prices.count(v) by {}
    }
}

/// The heap slot above slot `i`.
spec fn parent(i: int) -> int {
    (i - 1) / 2
}

/// Every slot but the root holds a price no better than the one above it.
spec fn is_heap(side: Side, s: Seq<u64>) -> bool {
    forall|j: int| 0 < j < s.len() ==> ranks_before(side, s[parent(j)], #[trigger] s[j])
}

/// In a heap the root is at least as good as every slot.
proof fn lemma_root_ranks_first(side: Side, s: Seq<u64>, j: int)
    requires
        is_heap(side, s),
        0 <= j < s.len(),
    ensures
        ranks_before(side, s[0], s[j]),
    decreases j,
{
    if j > 0 {
        lemma_root_ranks_first(side, s, parent(j));
        assert(ranks_before(side, s[parent(j)], s[j]));
    }
}

/// The root of a non-empty heap is the best of its prices.
proof fn lemma_root_is_best(side: Side, s: Seq<u64>)
    requires
        is_heap(side, s),
        s.len() > 0,
    ensures
        is_best(side, s.to_multiset(), s[0]),
{
    broadcast use group_to_multiset_ensures;

    assert(s.contains(s[0]));
    assert forall|other: u64| #[trigger] s.to_multiset().count(other) > 0 implies ranks_before(
        side,
        s[0],
        other,
    ) by {
        assert(s.contains(other));
        let j = choose|j: int| 0 <= j < s.len() && s[j] == other;
        lemma_root_ranks_first(side, s, j);
    }
}

/// Exchanging two slots keeps the prices.
proof fn lemma_swap_keeps_prices(s: Seq<u64>, i: int, j: int)
    requires
        0 <= i < s.len(),
        0 <= j < s.len(),
    ensures
        s.update(i, s[j]).update(j, s[i]).to_multiset() == s.to_multiset(),
{
    broadcast use group_multiset_axioms;

    to_multiset_update(s, i, s[j]);
    to_multiset_update(s.update(i, s[j]), j, s[i]);
    to_multiset_contains(s, s[i]);
    to_multiset_contains(s, s[j]);
    assert(s.contains(s[i]));
    assert(s.contains(s[j]));
    assert(s.update(i, s[j]).update(j, s[i]).to_multiset() =~= s.to_multiset());
}

/// The prices of one side of the book, best first.
pub struct PriceTracker {
    side: Side,
    heap: Vec<u64>,
}

impl View for PriceTracker {
    type V = Multiset<u64>;

    /// The prices held, each as often as it was pushed and not yet popped.
    closed spec fn view(&self) -> Multiset<u64> {
        self.heap@.to_multiset()
    }
}

impl PriceTracker {
    /// The side whose prices are tracked.
    pub closed spec fn spec_side(&self) -> Side {
        self.side
    }

    /// The prices are kept in heap order.
    pub closed spec fn wf(&self) -> bool {
        is_heap(self.side, self.heap@)
    }

    /// An empty tracker for `side`.
    pub fn new(side: Side) -> (tracker: PriceTracker)
        ensures
            tracker.wf(),
            tracker.spec_side() == side,
            tracker@ == Multiset::<u64>::empty(),
    {
        let tracker = PriceTracker { side, heap: Vec::new() };
        assert(tracker.heap@.to_multiset() =~= Multiset::<u64>::empty()) by {
            broadcast use group_to_multiset_ensures, group_multiset_axioms;

            assert forall|p: u64| tracker.heap@.to_multiset().count(p) == 0 by {
                assert(tracker.heap@.to_multiset().count(p) <= tracker.heap@.to_multiset().len());
            }
        }
        tracker
    }

    /// The side whose prices are tracked.
    #[verifier::when_used_as_spec(spec_side)]
    pub fn side(&self) -> (side: Side)
        ensures
            side == self.spec_side(),
    {
        self.side
    }

    /// How many prices are held, counting repeats.
    pub fn len(&self) -> (n: usize)
        ensures
            n == self@.len(),
    {
        proof {
            to_multiset_len(self.heap@);
        }
        self.heap.len()
    }

    /// Whether no price is held.
    pub fn is_empty(&self) -> (r: bool)
        ensures
            r == (self@.len() == 0),
    {
        proof {
            to_multiset_len(self.heap@);
        }
        self.heap.len() == 0
    }

    /// The best price held, if any. The tracker is left as it is.
    pub fn peek(&self) -> (best: Option<u64>)
        requires
            self.wf(),
        ensures
            best == best_price(self.spec_side(), self@),
            best is None <==> self@.len() == 0,
    {
        proof {
            to_multiset_len(self.heap@);
        }
        if self.heap.len() == 0 {
            proof {
                lemma_no_best_when_empty(self.side, self@);
            }
            None
        } else {
            proof {
                lemma_root_is_best(self.side, self.heap@);
                lemma_best_is_unique(self.side, self@, self.heap@[0]);
            }
            Some(self.heap[0])
        }
    }

    /// Adds one occurrence of `price`.
    pub fn push(&mut self, price: u64)
        requires
            old(self).wf(),
        ensures
            final(self).wf(),
            final(self).spec_side() == old(self).spec_side(),
            final(self)@ == old(self)@.insert(price),
    {
        let side = self.side;
        self.heap.push(price);
        proof {
            to_multiset_build(old(self).heap@, price);
        }
        let mut i: usize = self.heap.len() - 1;
        while i > 0 && !ranks_before(side, self.heap[(i - 1) / 2], self.heap[i])
            invariant
                i < self.heap.len(),
                side == self.side,
                self.side == old(self).side,
                self.heap@.to_multiset() == old(self).heap@.to_multiset().insert(price),
                forall|j: int|
                    0 < j < self.heap.len() && j != i ==> ranks_before(
                        side,
                        self.heap@[parent(j)],
                        #[trigger] self.heap@[j],
                    ),
                forall|j: int|
                    0 < j < self.heap.len() && i > 0 && parent(j) == i ==> ranks_before(
                        side,
                        self.heap@[parent(i as int)],
                        #[trigger] self.heap@[j],
                    ),
            decreases i,
        {
            let up: usize = (i - 1) / 2;
            let ghost before = self.heap@;
            let below: u64 = self.heap[i];
            let above: u64 = self.heap[up];
            self.heap.set(up, below);
            self.heap.set(i, above);
            proof {
                lemma_swap_keeps_prices(before, up as int, i as int);
                assert(self.heap@ =~= before.update(up as int, before[i as int]).update(
                    i as int,
                    before[up as int],
                ));
                assert forall|j: int| 0 < j < self.heap.len() && j != up implies ranks_before(
                    side,
                    self.heap@[parent(j)],
                    #[trigger] self.heap@[j],
                ) by {
                    if j != i {
                        assert(ranks_before(side, before[parent(j)], before[j]));
                    }
                }
                assert forall|j: int|
                    0 < j < self.heap.len() && up > 0 && parent(j) == up implies ranks_before(
                    side,
                    self.heap@[parent(up as int)],
                    #[trigger] self.heap@[j],
                ) by {
                    assert(ranks_before(side, before[parent(up as int)], before[up as int]));
                    if j != i {
                        assert(ranks_before(side, before[parent(j)], before[j]));
                    }
                }
            }
            i = up;
        }
    }

    /// Takes out one occurrence of the best price and returns it; `None`
    /// when no price is held.
    pub fn pop(&mut self) -> (best: Option<u64>)
        requires
            old(self).wf(),
        ensures
            final(self).wf(),
            final(self).spec_side() == old(self).spec_side(),
            best == best_price(old(self).spec_side(), old(self)@),
            best is None <==> old(self)@.len() == 0,
            match best {
                Some(price) => final(self)@ == old(self)@.remove(price),
                None => final(self)@ == old(self)@,
            },
    {
        let side = self.side;
        let n: usize = self.heap.len();
        proof {
            to_multiset_len(self.heap@);
        }
        if n == 0 {
            proof {
                lemma_no_best_when_empty(self.side, self@);
            }
            return None;
        }
        let top: u64 = self.heap[0];
        proof {
            lemma_root_is_best(self.side, self.heap@);
            lemma_best_is_unique(self.side, self@, top);
        }
        let last: u64 = self.heap[n - 1];
        self.heap.pop();
        proof {
            let shorter = old(self).heap@.subrange(0, n - 1);
            assert(old(self).heap@ =~= shorter.push(last));
            to_multiset_build(shorter, last);
            assert(shorter.to_multiset().insert(last).remove(last) =~= shorter.to_multiset()) by {
                broadcast use group_multiset_axioms;

            }
        }
        if n == 1 {
            return Some(top);
        }
        let ghost shorter = self.heap@;
        self.heap.set(0, last);
        proof {
            to_multiset_update(shorter, 0, last);
            assert(shorter[0] == top);
            assert(self.heap@.to_multiset() =~= old(self).heap@.to_multiset().remove(top));
        }
        let len: usize = n - 1;
        let mut i: usize = 0;
        let mut settled = false;
        while !settled && i < len / 2
            invariant
                len == self.heap.len(),
                0 < len,
                i < len,
                side == self.side,
                self.side == old(self).side,
                self.heap@.to_multiset() == old(self).heap@.to_multiset().remove(top),
                forall|j: int|
                    0 < j < len && parent(j) != i ==> ranks_before(
                        side,
                        self.heap@[parent(j)],
                        #[trigger] self.heap@[j],
                    ),
                forall|j: int|
                    0 < j < len && i > 0 && parent(j) == i ==> ranks_before(
                        side,
                        self.heap@[parent(i as int)],
                        #[trigger] self.heap@[j],
                    ),
                settled ==> is_heap(side, self.heap@),
            decreases (if settled { 0int } else { 1int }), len - i,
        {
            let left: usize = 2 * i + 1;
            let right: usize = left + 1;
            let child: usize = if right < len && !ranks_before(
                side,
                self.heap[left],
                self.heap[right],
            ) {
                right
            } else {
                left
            };
            if ranks_before(side, self.heap[i], self.heap[child]) {
                settled = true;
                proof {
                    assert forall|j: int| 0 < j < len implies ranks_before(
                        side,
                        self.heap@[parent(j)],
                        #[trigger] self.heap@[j],
                    ) by {
                        if parent(j) == i {
                            assert(j == left || j == right);
                        }
                    }
                }
            } else {
                let ghost before = self.heap@;
                let above: u64 = self.heap[i];
                let below: u64 = self.heap[child];
                self.heap.set(i, below);
                self.heap.set(child, above);
                proof {
                    lemma_swap_keeps_prices(before, i as int, child as int);
                    assert(self.heap@ =~= before.update(i as int, before[child as int]).update(
                        child as int,
                        before[i as int],
                    ));
                    assert forall|j: int| 0 < j < len && parent(j) != child implies ranks_before(
                        side,
                        self.heap@[parent(j)],
                        #[trigger] self.heap@[j],
                    ) by {
                        if parent(j) == i {
                            assert(j == left || j == right);
                        } else if j == i {
                            assert(ranks_before(
                                side,
                                before[parent(i as int)],
                                before[child as int],
                            ));
                        } else {
                            assert(ranks_before(side, before[parent(j)], before[j]));
                        }
                    }
                    assert forall|j: int| 0 < j < len && parent(j) == child implies ranks_before(
                        side,
                        self.heap@[parent(child as int)],
                        #[trigger] self.heap@[j],
                    ) by {
                        assert(ranks_before(side, before[parent(j)], before[j]));
                    }
                }
                i = child;
            }
        }
        proof {
            if !settled {
                assert forall|j: int| 0 < j < len implies ranks_before(
                    side,
                    self.heap@[parent(j)],
                    #[trigger] self.heap@[j],
                ) by {
                    assert(parent(j) != i);
                }
            }
        }
        Some(top)
    }
}

} // verus!
