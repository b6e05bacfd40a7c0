use vstd::prelude::*;

use crate::order::Order;
use crate::order::Side;
use vstd::math::min;

verus! {

/// True when the levels of `s` carry strictly decreasing prices, the order
/// in which the bid side of a book is kept (best bid first).
pub open spec fn prices_strictly_decreasing(s: Seq<(u64, u64)>) -> bool {
    forall|i: int, j: int| 0 <= i < j < s.len() ==> s[i].0 > s[j].0
}

/// True when the levels of `s` carry strictly increasing prices, the order
/// in which the ask side of a book is kept (best ask first).
pub open spec fn prices_strictly_increasing(s: Seq<(u64, u64)>) -> bool {
    forall|i: int, j: int| 0 <= i < j < s.len() ==> s[i].0 < s[j].0
}

/// True when adding `qty` to the level of `s` at `price`, if one exists,
/// stays within `u64`. Submission demands this machine-level bound.
pub open spec fn quantity_fits(s: Seq<(u64, u64)>, price: u64, qty: u64) -> bool {
    forall|i: int| 0 <= i < s.len() && s[i].0 == price ==> s[i].1 + qty <= u64::MAX
}

/// The bid side after one submission of `qty` at `price`: the level already
/// at that price gains `qty`, or a fresh level takes its place in the
/// descending order. The sum is truncated in the model; `quantity_fits`
/// rules truncation out wherever the model describes an executable step.
pub open spec fn place_bid(s: Seq<(u64, u64)>, price: u64, qty: u64) -> Seq<(u64, u64)>
    decreases s.len(),
{
    if s.len() == 0 {
        seq![(price, qty)]
    } else if price > s[0].0 {
        seq![(price, qty)] + s
    } else if price == s[0].0 {
        seq![(price, (s[0].1 + qty) as u64)] + s.drop_first()
    } else {
        seq![s[0]] + place_bid(s.drop_first(), price, qty)
    }
}

/// The ask side after one submission of `qty` at `price`, the mirror image
/// of `place_bid` for an ascending side.
pub open spec fn place_ask(s: Seq<(u64, u64)>, price: u64, qty: u64) -> Seq<(u64, u64)>
    decreases s.len(),
{
    if s.len() == 0 {
        seq![(price, qty)]
    } else if price < s[0].0 {
        seq![(price, qty)] + s
    } else if price == s[0].0 {
        seq![(price, (s[0].1 + qty) as u64)] + s.drop_first()
    } else {
        seq![s[0]] + place_ask(s.drop_first(), price, qty)
    }
}

/// Pins `place_bid` down at the split index `i` of a strictly descending
/// side: every level before `i` is priced above `price`, none after. The
/// submission then either tops up the level at `i` or inserts there.
proof fn lemma_place_bid_splits(s: Seq<(u64, u64)>, price: u64, qty: u64, i: int)
    requires
        prices_strictly_decreasing(s),
        0 <= i <= s.len(),
        forall|k: int| 0 <= k < i ==> s[k].0 > price,
        forall|k: int| i <= k < s.len() ==> s[k].0 <= price,
    ensures
        i < s.len() && s[i].0 == price ==> place_bid(s, price, qty) == s.update(
            i,
            (price, (s[i].1 + qty) as u64),
        ),
        i == s.len() || s[i].0 < price ==> place_bid(s, price, qty) == s.insert(
            i,
            (price, qty),
        ),
    decreases s.len(),
{
    if s.len() == 0 {
        assert(place_bid(s, price, qty) =~= s.insert(0, (price, qty)));
    } else if i == 0 {
        if s[0].0 == price {
            assert(place_bid(s, price, qty) =~= s.update(0, (price, (s[0].1 + qty) as u64)));
        } else {
            assert(place_bid(s, price, qty) =~= s.insert(0, (price, qty)));
        }
    } else {
        let t = s.drop_first();
        assert(forall|k: int| 0 <= k < t.len() ==> t[k] == s[k + 1]);
        lemma_place_bid_splits(t, price, qty, i - 1);
        if i < s.len() && s[i].0 == price {
            assert(place_bid(s, price, qty) =~= s.update(i, (price, (s[i].1 + qty) as u64)));
        } else {
            assert(place_bid(s, price, qty) =~= s.insert(i, (price, qty)));
        }
    }
}

/// Pins `place_ask` down at the split index `i` of a strictly ascending
/// side, the mirror image of `lemma_place_bid_splits`.
proof fn lemma_place_ask_splits(s: Seq<(u64, u64)>, price: u64, qty: u64, i: int)
    requires
        prices_strictly_increasing(s),
        0 <= i <= s.len(),
        forall|k: int| 0 <= k < i ==> s[k].0 < price,
        forall|k: int| i <= k < s.len() ==> s[k].0 >= price,
    ensures
        i < s.len() && s[i].0 == price ==> place_ask(s, price, qty) == s.update(
            i,
            (price, (s[i].1 + qty) as u64),
        ),
        i == s.len() || s[i].0 > price ==> place_ask(s, price, qty) == s.insert(
            i,
            (price, qty),
        ),
    decreases s.len(),
{
    if s.len() == 0 {
        assert(place_ask(s, price, qty) =~= s.insert(0, (price, qty)));
    } else if i == 0 {
        if s[0].0 == price {
            assert(place_ask(s, price, qty) =~= s.update(0, (price, (s[0].1 + qty) as u64)));
        } else {
            assert(place_ask(s, price, qty) =~= s.insert(0, (price, qty)));
        }
    } else {
        let t = s.drop_first();
        assert(forall|k: int| 0 <= k < t.len() ==> t[k] == s[k + 1]);
        lemma_place_ask_splits(t, price, qty, i - 1);
        if i < s.len() && s[i].0 == price {
            assert(place_ask(s, price, qty) =~= s.update(i, (price, (s[i].1 + qty) as u64)));
        } else {
            assert(place_ask(s, price, qty) =~= s.insert(i, (price, qty)));
        }
    }
}

/// Place `qty` at `price` in a strictly descending side: binary search for
/// the first level priced at or below `price`, then top it up or insert.
fn insert_bid_level(levels: &mut Vec<(u64, u64)>, price: u64, qty: u64)
    requires
        prices_strictly_decreasing(old(levels)@),
        quantity_fits(old(levels)@, price, qty),
    ensures
        final(levels)@ == place_bid(old(levels)@, price, qty),
        prices_strictly_decreasing(final(levels)@),
{
    let ghost s = levels@;
    let mut lo: usize = 0;
    let mut hi: usize = levels.len();
    while lo < hi
        invariant
            levels@ == s,
            prices_strictly_decreasing(s),
            lo <= hi <= s.len(),
            forall|k: int| 0 <= k < lo ==> s[k].0 > price,
            forall|k: int| hi <= k < s.len() ==> s[k].0 <= price,
        decreases hi - lo,
    {
        let mid: usize = lo + (hi - lo) / 2;
        if levels[mid].0 > price {
            lo = mid + 1;
        } else {
            hi = mid;
        }
    }
    proof {
        lemma_place_bid_splits(s, price, qty, lo as int);
    }
    if lo < levels.len() && levels[lo].0 == price {
        let aggregate: u64 = levels[lo].1;
        assert(s[lo as int].1 + qty <= u64::MAX);
        levels[lo] = (price, aggregate + qty);
        assert forall|i: int, j: int| 0 <= i < j < levels@.len() implies levels@[i].0
            > levels@[j].0 by {
            assert(levels@[i].0 == s[i].0);
            assert(levels@[j].0 == s[j].0);
        }
    } else {
        levels.insert(lo, (price, qty));
        assert forall|i: int, j: int| 0 <= i < j < levels@.len() implies levels@[i].0
            > levels@[j].0 by {
            assert(levels@ == s.insert(lo as int, (price, qty)));
        }
    }
}

/// Place `qty` at `price` in a strictly ascending side, the mirror image of
/// `insert_bid_level`.
fn insert_ask_level(levels: &mut Vec<(u64, u64)>, price: u64, qty: u64)
    requires
        prices_strictly_increasing(old(levels)@),
        quantity_fits(old(levels)@, price, qty),
    ensures
        final(levels)@ == place_ask(old(levels)@, price, qty),
        prices_strictly_increasing(final(levels)@),
{
    let ghost s = levels@;
    let mut lo: usize = 0;
    let mut hi: usize = levels.len();
    while lo < hi
        invariant
            levels@ == s,
            prices_strictly_increasing(s),
            lo <= hi <= s.len(),
            forall|k: int| 0 <= k < lo ==> s[k].0 < price,
            forall|k: int| hi <= k < s.len() ==> s[k].0 >= price,
        decreases hi - lo,
    {
        let mid: usize = lo + (hi - lo) / 2;
        if levels[mid].0 < price {
            lo = mid + 1;
        } else {
            hi = mid;
        }
    }
    proof {
        lemma_place_ask_splits(s, price, qty, lo as int);
    }
    if lo < levels.len() && levels[lo].0 == price {
        let aggregate: u64 = levels[lo].1;
        assert(s[lo as int].1 + qty <= u64::MAX);
        levels[lo] = (price, aggregate + qty);
        assert forall|i: int, j: int| 0 <= i < j < levels@.len() implies levels@[i].0
            < levels@[j].0 by {
            assert(levels@[i].0 == s[i].0);
            assert(levels@[j].0 == s[j].0);
        }
    } else {
        levels.insert(lo, (price, qty));
        assert forall|i: int, j: int| 0 <= i < j < levels@.len() implies levels@[i].0
            < levels@[j].0 by {
            assert(levels@ == s.insert(lo as int, (price, qty)));
        }
    }
}

/// A two-sided, price-aggregated order book. Each side holds at most one
/// level per distinct price; a level's quantity is the running sum of every
/// quantity submitted at that price on that side.
pub struct OrderBook {
    /// Bid levels `(price, aggregate quantity)`, strictly descending by price.
    pub bids: Vec<(u64, u64)>,
    /// Ask levels `(price, aggregate quantity)`, strictly ascending by price.
    pub asks: Vec<(u64, u64)>,
}

impl OrderBook {
    /// The book's invariant: each side is strictly sorted by price, bids
    /// descending and asks ascending. Strictness also gives at most one
    /// level per distinct price on a side.
    pub open spec fn well_formed(self) -> bool {
        prices_strictly_decreasing(self.bids@) && prices_strictly_increasing(self.asks@)
    }

    /// An order book with both sides empty.
    pub fn new() -> (book: OrderBook)
        ensures
            book.well_formed(),
            book.bids@ == Seq::<(u64, u64)>::empty(),
            book.asks@ == Seq::<(u64, u64)>::empty(),
    {
        OrderBook { bids: Vec::new(), asks: Vec::new() }
    }

    /// Submit one order: on the side the order names, add its quantity to
    /// the level at its price or open a new level there, keeping the side's
    /// sort order. The opposite side is never touched, even by a price that
    /// would cross it. Aggregation must stay within `u64`, the book's fixed
    /// numeric representation. A zero quantity is accepted and aggregated
    /// like any other: it opens (or leaves) a level whose aggregate may be
    /// zero; negative quantities are not expressible in `u64`.
    pub fn proceed_order(&mut self, new_order: Order)
        requires
            old(self).well_formed(),
            new_order.side is Buy ==> quantity_fits(
                old(self).bids@,
                new_order.price,
                new_order.quantity,
            ),
            new_order.side is Sell ==> quantity_fits(
                old(self).asks@,
                new_order.price,
                new_order.quantity,
            ),
        ensures
            final(self).well_formed(),
            new_order.side is Buy ==> final(self).bids@ == place_bid(
                old(self).bids@,
                new_order.price,
                new_order.quantity,
            ),
            new_order.side is Buy ==> final(self).asks@ == old(self).asks@,
            new_order.side is Sell ==> final(self).asks@ == place_ask(
                old(self).asks@,
                new_order.price,
                new_order.quantity,
            ),
            new_order.side is Sell ==> final(self).bids@ == old(self).bids@,
    {
        match new_order.side {
            Side::Buy => insert_bid_level(&mut self.bids, new_order.price, new_order.quantity),
            Side::Sell => insert_ask_level(&mut self.asks, new_order.price, new_order.quantity),
        }
    }

    /// A point-in-time copy of the top of the book: exactly
    /// `min(depth, level count)` levels of each side, bids highest price
    /// first, asks lowest price first. Later mutation of the book leaves a
    /// returned snapshot as it was.
    pub fn snapshot(&self, depth: usize) -> (levels: (Vec<(u64, u64)>, Vec<(u64, u64)>))
        ensures
            levels.0@ == self.bids@.take(min(depth as int, self.bids@.len() as int)),
            levels.1@ == self.asks@.take(min(depth as int, self.asks@.len() as int)),
    {
        (copy_prefix(&self.bids, depth), copy_prefix(&self.asks, depth))
    }

    /// Best ask price minus best bid price, and no value exactly when either
    /// side is empty. A crossed book yields a negative spread, not an error;
    /// the difference of two `u64` prices always fits in `i128`.
    pub fn spread(&self) -> (diff: Option<i128>)
        ensures
            match diff {
                Some(d) => self.bids@.len() > 0 && self.asks@.len() > 0 && d == self.asks@[0].0
                    - self.bids@[0].0,
                None => self.bids@.len() == 0 || self.asks@.len() == 0,
            },
    {
        if self.bids.is_empty() || self.asks.is_empty() {
            None
        } else {
            Some(self.asks[0].0 as i128 - self.bids[0].0 as i128)
        }
    }
}

/// Aggregation law for the bid side: submitting `qty1` and then `qty2` at
/// one price yields the same side as a single submission of `qty1 + qty2`,
/// as long as the combined aggregate stays within `u64`.
pub proof fn lemma_bid_aggregation(s: Seq<(u64, u64)>, price: u64, qty1: u64, qty2: u64)
    requires
        qty1 + qty2 <= u64::MAX,
        quantity_fits(s, price, (qty1 + qty2) as u64),
    ensures
        place_bid(place_bid(s, price, qty1), price, qty2) == place_bid(
            s,
            price,
            (qty1 + qty2) as u64,
        ),
    decreases s.len(),
{
    if s.len() == 0 {
        assert(place_bid(place_bid(s, price, qty1), price, qty2) =~= place_bid(
            s,
            price,
            (qty1 + qty2) as u64,
        ));
    } else if price > s[0].0 {
        assert((seq![(price, qty1)] + s).drop_first() =~= s);
        assert(place_bid(place_bid(s, price, qty1), price, qty2) =~= place_bid(
            s,
            price,
            (qty1 + qty2) as u64,
        ));
    } else if price == s[0].0 {
        assert(s[0].1 + qty1 + qty2 <= u64::MAX);
        assert((seq![(price, (s[0].1 + qty1) as u64)] + s.drop_first()).drop_first()
            =~= s.drop_first());
        assert(place_bid(place_bid(s, price, qty1), price, qty2) =~= place_bid(
            s,
            price,
            (qty1 + qty2) as u64,
        ));
    } else {
        let t = s.drop_first();
        assert(forall|k: int| 0 <= k < t.len() ==> t[k] == s[k + 1]);
        lemma_bid_aggregation(t, price, qty1, qty2);
        assert((seq![s[0]] + place_bid(t, price, qty1)).drop_first() =~= place_bid(
            t,
            price,
            qty1,
        ));
        assert(place_bid(place_bid(s, price, qty1), price, qty2) =~= place_bid(
            s,
            price,
            (qty1 + qty2) as u64,
        ));
    }
}

/// Aggregation law for the ask side, the mirror image of
/// `lemma_bid_aggregation`.
pub proof fn lemma_ask_aggregation(s: Seq<(u64, u64)>, price: u64, qty1: u64, qty2: u64)
    requires
        qty1 + qty2 <= u64::MAX,
        quantity_fits(s, price, (qty1 + qty2) as u64),
    ensures
        place_ask(place_ask(s, price, qty1), price, qty2) == place_ask(
            s,
            price,
            (qty1 + qty2) as u64,
        ),
    decreases s.len(),
{
    if s.len() == 0 {
        assert(place_ask(place_ask(s, price, qty1), price, qty2) =~= place_ask(
            s,
            price,
            (qty1 + qty2) as u64,
        ));
    } else if price < s[0].0 {
        assert((seq![(price, qty1)] + s).drop_first() =~= s);
        assert(place_ask(place_ask(s, price, qty1), price, qty2) =~= place_ask(
            s,
            price,
            (qty1 + qty2) as u64,
        ));
    } else if price == s[0].0 {
        assert(s[0].1 + qty1 + qty2 <= u64::MAX);
        assert((seq![(price, (s[0].1 + qty1) as u64)] + s.drop_first()).drop_first()
            =~= s.drop_first());
        assert(place_ask(place_ask(s, price, qty1), price, qty2) =~= place_ask(
            s,
            price,
            (qty1 + qty2) as u64,
        ));
    } else {
        let t = s.drop_first();
        assert(forall|k: int| 0 <= k < t.len() ==> t[k] == s[k + 1]);
        lemma_ask_aggregation(t, price, qty1, qty2);
        assert((seq![s[0]] + place_ask(t, price, qty1)).drop_first() =~= place_ask(
            t,
            price,
            qty1,
        ));
        assert(place_ask(place_ask(s, price, qty1), price, qty2) =~= place_ask(
            s,
            price,
            (qty1 + qty2) as u64,
        ));
    }
}

/// In a well-formed book the first bid level carries the side's highest
/// price and the first ask level its lowest: the levels `spread` subtracts
/// are the best of each side.
pub proof fn lemma_first_level_is_best(book: OrderBook)
    requires
        book.well_formed(),
    ensures
        forall|i: int| 0 <= i < book.bids@.len() ==> (#[trigger] book.bids@[i]).0
            <= book.bids@[0].0,
        forall|i: int| 0 <= i < book.asks@.len() ==> book.asks@[0].0
            <= (#[trigger] book.asks@[i]).0,
{
}

/// Strict ordering leaves room for at most one level per price: two levels
/// of one strictly sorted side with equal prices sit at the same index.
pub proof fn lemma_unique_price_levels(s: Seq<(u64, u64)>, i: int, j: int)
    requires
        prices_strictly_decreasing(s) || prices_strictly_increasing(s),
        0 <= i < s.len(),
        0 <= j < s.len(),
        s[i].0 == s[j].0,
    ensures
        i == j,
{
}

/// Copy the first `min(depth, levels.len())` entries of a side.
fn copy_prefix(levels: &Vec<(u64, u64)>, depth: usize) -> (prefix: Vec<(u64, u64)>)
    ensures
        prefix@ == levels@.take(min(depth as int, levels@.len() as int)),
{
    let count: usize = if depth < levels.len() {
        depth
    } else {
        levels.len()
    };
    let mut prefix: Vec<(u64, u64)> = Vec::new();
    let mut i: usize = 0;
    while i < count
        invariant
            i <= count <= levels@.len(),
            prefix@ == levels@.take(i as int),
        decreases count - i,
    {
        prefix.push(levels[i]);
        i = i + 1;
        assert(levels@.take(i as int) =~= levels@.take(i - 1).push(levels@[i - 1]));
    }
    prefix
}

} // verus!
