//! The mathematics of one side of the book: priority order, what a taker
//! sweeps off the opposing side, and where a residual comes to rest.

use vstd::prelude::*;
use crate::types::{PriceLevel, Side, Trade};

verus! {

/// The side whose resting levels an order on `side` trades against.
pub open spec fn opposite(side: Side) -> Side {
    match side {
        Side::Buy => Side::Sell,
        Side::Sell => Side::Buy,
    }
}

/// The `i`-th level that a sweep of `n` levels reports changed was either
/// consumed (reported with quantity zero) or is the reduced level now first.
pub open spec fn consumed_or_reduced(f: Fill, n: nat, i: int) -> bool {
    ||| (i < n - f.rest.len() && f.changed[i].qty == 0)
    ||| (i == n - f.rest.len() && f.rest.len() > 0 && f.changed[i] == f.rest[0] && f.changed[i].qty > 0)
}

/// A taker on `side` with limit `price` trades against a resting level at
/// `level_price`: a buyer takes asks at or below its limit, a seller takes
/// bids at or above it.
pub open spec fn crosses(side: Side, price: u64, level_price: u64) -> bool {
    match side {
        Side::Buy => level_price <= price,
        Side::Sell => price <= level_price,
    }
}

/// Among the levels where `side` orders rest, a level at price `a` ranks
/// strictly ahead of one at price `b`: the higher bid, the lower ask.
pub open spec fn ahead(side: Side, a: u64, b: u64) -> bool {
    match side {
        Side::Buy => a > b,
        Side::Sell => a < b,
    }
}

/// The levels of the book side where `side` orders rest are in strict
/// priority order (best first); in particular no price occurs twice.
pub open spec fn in_priority_order(side: Side, levels: Seq<PriceLevel>) -> bool {
    forall|i: int, j: int|
        0 <= i < j < levels.len() ==> ahead(side, #[trigger] levels[i].price, #[trigger] levels[j].price)
}

/// Every level has a positive price and a positive quantity.
pub open spec fn all_live(levels: Seq<PriceLevel>) -> bool {
    forall|i: int| #![trigger levels[i]] 0 <= i < levels.len() ==> levels[i].price > 0 && levels[i].qty > 0
}

/// Adding `q` to the level at `price`, if there is one, fits in a `u64`.
pub open spec fn room(levels: Seq<PriceLevel>, price: u64, q: nat) -> bool {
    forall|i: int|
        #![trigger levels[i]]
        0 <= i < levels.len() && levels[i].price == price ==> levels[i].qty + q <= u64::MAX
}

/// The sum of the quantities of `levels`.
pub open spec fn total(levels: Seq<PriceLevel>) -> int
    decreases levels.len(),
{
    if levels.len() == 0 {
        0
    } else {
        levels[0].qty + total(levels.drop_first())
    }
}

/// The sum of the quantities of `trades`.
pub open spec fn traded(trades: Seq<Trade>) -> int
    decreases trades.len(),
{
    if trades.len() == 0 {
        0
    } else {
        trades[0].qty + traded(trades.drop_first())
    }
}

/// What a taker does to the opposing side: the trades in execution order,
/// the levels it changed (a consumed level with quantity zero), the levels
/// that remain, and the quantity it has left.
pub struct Fill {
    pub trades: Seq<Trade>,
    pub changed: Seq<PriceLevel>,
    pub rest: Seq<PriceLevel>,
    pub left: nat,
}

/// A taker on `side` with limit `price` and quantity `left` walks the
/// opposing `levels` from the best one, trading at each level's own price,
/// until it is filled, the next level does not cross, or the side is empty.
pub open spec fn sweep(side: Side, levels: Seq<PriceLevel>, price: u64, left: nat) -> Fill
    decreases levels.len(),
{
    if levels.len() == 0 || left == 0 || !crosses(side, price, levels[0].price) {
        Fill { trades: Seq::empty(), changed: Seq::empty(), rest: levels, left }
    } else if levels[0].qty <= left {
        let head = levels[0];
        let f = sweep(side, levels.drop_first(), price, (left - head.qty) as nat);
        Fill {
            trades: seq![Trade { price: head.price, qty: head.qty, taker_side: side }] + f.trades,
            changed: seq![PriceLevel { price: head.price, qty: 0 }] + f.changed,
            rest: f.rest,
            left: f.left,
        }
    } else {
        let head = levels[0];
        let reduced = PriceLevel { price: head.price, qty: (head.qty - left) as u64 };
        Fill {
            trades: seq![Trade { price: head.price, qty: left as u64, taker_side: side }],
            changed: seq![reduced],
            rest: levels.update(0, reduced),
            left: 0,
        }
    }
}

/// The position of the first level that does not rank ahead of `price`
/// (`levels.len()` when every level does).
pub open spec fn slot(side: Side, levels: Seq<PriceLevel>, price: u64) -> int
    decreases levels.len(),
{
    if levels.len() == 0 || !ahead(side, levels[0].price, price) {
        0
    } else {
        1 + slot(side, levels.drop_first(), price)
    }
}

/// A residual of `q` on `side` at `price` comes to rest: it is added to the
/// level at that price if there is one, else a new level is inserted in
/// priority order. Gives the new levels and the level that changed.
pub open spec fn rest_level(side: Side, levels: Seq<PriceLevel>, price: u64, q: nat) -> (Seq<PriceLevel>, PriceLevel) {
    let k = slot(side, levels, price);
    if k < levels.len() && levels[k].price == price {
        let level = PriceLevel { price, qty: (levels[k].qty + q) as u64 };
        (levels.update(k, level), level)
    } else {
        let level = PriceLevel { price, qty: q as u64 };
        (levels.insert(k, level), level)
    }
}

/// `a` holds the prices of a suffix of `b`, position for position.
pub open spec fn price_suffix(a: Seq<PriceLevel>, b: Seq<PriceLevel>) -> bool {
    &&& a.len() <= b.len()
    &&& forall|k: int|
        #![trigger a[k]]
        0 <= k < a.len() ==> a[k].price == b[k + (b.len() - a.len())].price
}

pub proof fn lemma_slot(side: Side, levels: Seq<PriceLevel>, price: u64)
    ensures
        0 <= slot(side, levels, price) <= levels.len(),
        forall|j: int| 0 <= j < slot(side, levels, price) ==> ahead(side, #[trigger] levels[j].price, price),
        slot(side, levels, price) < levels.len() ==> !ahead(side, levels[slot(side, levels, price)].price, price),
    decreases levels.len(),
{
    if levels.len() > 0 && ahead(side, levels[0].price, price) {
        let tail = levels.drop_first();
        lemma_slot(side, tail, price);
        assert forall|j: int| 0 <= j < slot(side, levels, price) implies ahead(side, #[trigger] levels[j].price, price) by {
            if j > 0 {
                assert(tail[j - 1] == levels[j]);
            }
        }
    }
}

/// The shape of a sweep: what is left of the opposing side is a priority
/// ordered, live suffix of it (its first level possibly reduced); the i-th
/// trade and the i-th change are at the i-th level's price.
pub proof fn lemma_sweep_shape(side: Side, levels: Seq<PriceLevel>, price: u64, left: nat)
    requires
        in_priority_order(opposite(side), levels),
        all_live(levels),
    ensures
        ({
            let f = sweep(side, levels, price, left);
            &&& f.left <= left
            &&& price_suffix(f.rest, levels)
            &&& in_priority_order(opposite(side), f.rest)
            &&& all_live(f.rest)
            &&& f.left > 0 ==> f.rest == levels.subrange(levels.len() - f.rest.len(), levels.len() as int)
            &&& f.left > 0 ==> (f.rest.len() == 0 || !crosses(side, price, f.rest[0].price))
            &&& f.trades.len() == f.changed.len()
            &&& f.trades.len() <= levels.len()
            &&& forall|i: int|
                #![trigger f.changed[i]]
                0 <= i < f.changed.len() ==> consumed_or_reduced(f, levels.len(), i)
            &&& forall|i: int|
                #![trigger f.trades[i]]
                0 <= i < f.trades.len() ==> {
                    &&& f.trades[i].price == levels[i].price
                    &&& f.changed[i].price == levels[i].price
                    &&& f.trades[i].qty > 0
                    &&& f.trades[i].taker_side == side
                    &&& crosses(side, price, f.trades[i].price)
                }
        }),
    decreases levels.len(),
{
    let f = sweep(side, levels, price, left);
    if levels.len() == 0 || left == 0 || !crosses(side, price, levels[0].price) {
        assert(levels.subrange(0, levels.len() as int) =~= levels);
    } else if levels[0].qty <= left {
        let head = levels[0];
        let tail = levels.drop_first();
        assert(in_priority_order(opposite(side), tail)) by {
            assert forall|i: int, j: int| 0 <= i < j < tail.len() implies ahead(opposite(side), #[trigger] tail[i].price, #[trigger] tail[j].price) by {
                assert(tail[i] == levels[i + 1]);
                assert(tail[j] == levels[j + 1]);
            }
        }
        assert(all_live(tail)) by {
            assert forall|i: int| 0 <= i < tail.len() implies #[trigger] tail[i].price > 0 && tail[i].qty > 0 by {
                assert(tail[i] == levels[i + 1]);
            }
        }
        lemma_sweep_shape(side, tail, price, (left - head.qty) as nat);
        let g = sweep(side, tail, price, (left - head.qty) as nat);
        assert forall|k: int| 0 <= k < f.rest.len() implies #[trigger] f.rest[k].price == levels[k + (levels.len() - f.rest.len())].price by {
            assert(g.rest[k].price == tail[k + (tail.len() - g.rest.len())].price);
        }
        if f.left > 0 {
            assert(f.rest =~= levels.subrange(levels.len() - f.rest.len(), levels.len() as int));
        }
        assert forall|i: int| 0 <= i < f.changed.len() implies #[trigger] consumed_or_reduced(f, levels.len(), i) by {
            let d = levels.len() - f.rest.len();
            if i > 0 {
                assert(f.changed[i] == g.changed[i - 1]);
                assert(consumed_or_reduced(g, tail.len(), i - 1));
            } else {
                assert(f.changed[0].qty == 0);
                assert(0 < d);
            }
        }
        assert forall|i: int| #![trigger f.trades[i]] 0 <= i < f.trades.len() implies {
            &&& f.trades[i].price == levels[i].price
            &&& f.changed[i].price == levels[i].price
            &&& f.trades[i].qty > 0
            &&& f.trades[i].taker_side == side
            &&& crosses(side, price, f.trades[i].price)
        } by {
            if i > 0 {
                assert(f.trades[i] == g.trades[i - 1]);
                assert(f.changed[i] == g.changed[i - 1]);
                assert(tail[i - 1] == levels[i]);
            }
        }
    } else {
        let head = levels[0];
        let reduced = PriceLevel { price: head.price, qty: (head.qty - left) as u64 };
        assert(f.rest =~= levels.update(0, reduced));
        assert(f.changed[0] == f.rest[0]);
        assert(f.changed.len() == 1);
        assert forall|i: int| #![trigger f.changed[i]] 0 <= i < f.changed.len() implies consumed_or_reduced(f, levels.len(), i) by {
            assert(i == 0);
            assert(f.rest.len() == levels.len());
        }
        assert forall|i: int, j: int| 0 <= i < j < f.rest.len() implies ahead(opposite(side), #[trigger] f.rest[i].price, #[trigger] f.rest[j].price) by {
            assert(f.rest[i].price == levels[i].price);
            assert(f.rest[j].price == levels[j].price);
        }
    }
}

/// A sweep conserves quantity: what leaves the opposing side is what the
/// taker traded, and what it traded plus what it has left is what it brought.
pub proof fn lemma_sweep_totals(side: Side, levels: Seq<PriceLevel>, price: u64, left: nat)
    ensures
        ({
            let f = sweep(side, levels, price, left);
            &&& total(levels) == total(f.rest) + traded(f.trades)
            &&& traded(f.trades) + f.left == left
        }),
    decreases levels.len(),
{
    let f = sweep(side, levels, price, left);
    if levels.len() == 0 || left == 0 || !crosses(side, price, levels[0].price) {
    } else if levels[0].qty <= left {
        let head = levels[0];
        lemma_sweep_totals(side, levels.drop_first(), price, (left - head.qty) as nat);
        let g = sweep(side, levels.drop_first(), price, (left - head.qty) as nat);
        assert(f.trades.drop_first() =~= g.trades);
        assert(traded(f.trades) == head.qty + traded(g.trades));
    } else {
        let head = levels[0];
        let reduced = PriceLevel { price: head.price, qty: (head.qty - left) as u64 };
        assert(levels.update(0, reduced).drop_first() =~= levels.drop_first());
        assert(total(f.rest) == reduced.qty + total(levels.drop_first()));
        assert(f.trades.drop_first() =~= Seq::<Trade>::empty());
        assert(f.trades[0].qty == left);
        assert(traded(f.trades.drop_first()) == 0);
        assert(traded(f.trades) == left);
    }
}

pub proof fn lemma_total_update(levels: Seq<PriceLevel>, k: int, level: PriceLevel)
    requires
        0 <= k < levels.len(),
    ensures
        total(levels.update(k, level)) == total(levels) - levels[k].qty + level.qty,
    decreases levels.len(),
{
    if k > 0 {
        lemma_total_update(levels.drop_first(), k - 1, level);
        assert(levels.update(k, level).drop_first() =~= levels.drop_first().update(k - 1, level));
    } else {
        assert(levels.update(k, level).drop_first() =~= levels.drop_first());
    }
}

pub proof fn lemma_total_insert(levels: Seq<PriceLevel>, k: int, level: PriceLevel)
    requires
        0 <= k <= levels.len(),
    ensures
        total(levels.insert(k, level)) == total(levels) + level.qty,
    decreases levels.len(),
{
    if k > 0 {
        lemma_total_insert(levels.drop_first(), k - 1, level);
        assert(levels.insert(k, level).drop_first() =~= levels.drop_first().insert(k - 1, level));
    } else {
        assert(levels.insert(k, level).drop_first() =~= levels);
    }
}

/// Where a residual comes to rest: the side stays in priority order and
/// live, the changed level is at the order's price and holds at least the
/// residual, the side's quantity grows by exactly the residual, and every
/// level is at the order's price or at a price the side already had, at the
/// same position or one further.
pub proof fn lemma_rest_level(side: Side, levels: Seq<PriceLevel>, price: u64, q: nat)
    requires
        in_priority_order(side, levels),
        all_live(levels),
        price > 0,
        0 < q <= u64::MAX,
        room(levels, price, q),
    ensures
        ({
            let (new_levels, level) = rest_level(side, levels, price, q);
            &&& in_priority_order(side, new_levels)
            &&& all_live(new_levels)
            &&& level.price == price
            &&& level.qty >= q
            &&& total(new_levels) == total(levels) + q
            &&& new_levels.len() <= levels.len() + 1
            &&& forall|k: int|
                #![trigger new_levels[k]]
                0 <= k < new_levels.len() ==> {
                    ||| new_levels[k].price == price
                    ||| (k < levels.len() && new_levels[k].price == levels[k].price)
                    ||| (0 <= k - 1 < levels.len() && new_levels[k].price == levels[k - 1].price)
                }
        }),
{
    lemma_slot(side, levels, price);
    let k = slot(side, levels, price);
    let (new_levels, level) = rest_level(side, levels, price, q);
    if k < levels.len() && levels[k].price == price {
        lemma_total_update(levels, k, level);
        assert forall|i: int, j: int| 0 <= i < j < new_levels.len() implies ahead(side, #[trigger] new_levels[i].price, #[trigger] new_levels[j].price) by {
            assert(new_levels[i].price == levels[i].price);
            assert(new_levels[j].price == levels[j].price);
        }
    } else {
        lemma_total_insert(levels, k, level);
        assert forall|i: int, j: int| 0 <= i < j < new_levels.len() implies ahead(side, #[trigger] new_levels[i].price, #[trigger] new_levels[j].price) by {
            if j < k {
                assert(new_levels[i] == levels[i]);
                assert(new_levels[j] == levels[j]);
            } else if j == k {
                assert(new_levels[i] == levels[i]);
                assert(ahead(side, levels[i].price, price));
            } else {
                assert(new_levels[j] == levels[j - 1]);
                assert(!ahead(side, levels[k].price, price));
                if k < j - 1 {
                    assert(ahead(side, levels[k].price, levels[j - 1].price));
                }
                if i < k {
                    assert(new_levels[i] == levels[i]);
                    assert(ahead(side, levels[i].price, price));
                } else if i > k {
                    assert(new_levels[i] == levels[i - 1]);
                }
            }
        }
        assert forall|i: int| #![trigger new_levels[i]] 0 <= i < new_levels.len() implies new_levels[i].price > 0 && new_levels[i].qty > 0 by {
            if i < k {
                assert(new_levels[i] == levels[i]);
            } else if i > k {
                assert(new_levels[i] == levels[i - 1]);
            }
        }
    }
}

/// A sweep level by level: the i-th trade and the i-th change are against
/// the i-th best level, which crosses the limit; what the trade took plus
/// what the change reports left is the level's quantity; every touched level
/// but the last was consumed; the side left is the untouched levels, behind
/// the last touched one if it was only reduced (and then the taker is
/// filled); and the sweep stops only when the taker is filled, the side is
/// exhausted, or the next level does not cross.
pub proof fn lemma_sweep_steps(side: Side, levels: Seq<PriceLevel>, price: u64, left: nat)
    ensures
        ({
            let f = sweep(side, levels, price, left);
            let n = f.trades.len() as int;
            &&& f.changed.len() == n
            &&& n <= levels.len()
            &&& forall|i: int|
                #![trigger f.trades[i]]
                0 <= i < n ==> {
                    &&& f.trades[i].price == levels[i].price
                    &&& f.changed[i].price == levels[i].price
                    &&& f.trades[i].qty + f.changed[i].qty == levels[i].qty
                    &&& f.trades[i].taker_side == side
                    &&& crosses(side, price, levels[i].price)
                }
            &&& forall|i: int| #![trigger f.changed[i]] 0 <= i < n - 1 ==> f.changed[i].qty == 0
            &&& (n > 0 && f.changed[n - 1].qty > 0) ==> (f.rest == seq![f.changed[n - 1]] + levels.skip(n) && f.left == 0)
            &&& !(n > 0 && f.changed[n - 1].qty > 0) ==> f.rest == levels.skip(n)
            &&& (f.left == 0 || n == levels.len() || !crosses(side, price, levels[n].price))
        }),
    decreases levels.len(),
{
    let f = sweep(side, levels, price, left);
    if levels.len() == 0 || left == 0 || !crosses(side, price, levels[0].price) {
        assert(levels.skip(0) =~= levels);
    } else if levels[0].qty <= left {
        let head = levels[0];
        let tail = levels.drop_first();
        lemma_sweep_steps(side, tail, price, (left - head.qty) as nat);
        let g = sweep(side, tail, price, (left - head.qty) as nat);
        let n = f.trades.len() as int;
        assert(n == g.trades.len() + 1);
        assert(tail.skip(n - 1) =~= levels.skip(n));
        assert forall|i: int| #![trigger f.trades[i]] 0 <= i < n implies {
            &&& f.trades[i].price == levels[i].price
            &&& f.changed[i].price == levels[i].price
            &&& f.trades[i].qty + f.changed[i].qty == levels[i].qty
            &&& f.trades[i].taker_side == side
            &&& crosses(side, price, levels[i].price)
        } by {
            if i > 0 {
                assert(f.trades[i] == g.trades[i - 1]);
                assert(f.changed[i] == g.changed[i - 1]);
                assert(tail[i - 1] == levels[i]);
            }
        }
        assert forall|i: int| #![trigger f.changed[i]] 0 <= i < n - 1 implies f.changed[i].qty == 0 by {
            if i > 0 {
                assert(f.changed[i] == g.changed[i - 1]);
            }
        }
        if n > 1 {
            assert(f.changed[n - 1] == g.changed[n - 2]);
        }
        if n - 1 < tail.len() {
            assert(tail[n - 1] == levels[n]);
        }
    } else {
        let head = levels[0];
        let reduced = PriceLevel { price: head.price, qty: (head.qty - left) as u64 };
        assert(f.rest =~= seq![reduced] + levels.skip(1));
        assert(f.changed[0] == reduced);
    }
}

} // verus!
