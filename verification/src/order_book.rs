//! The order book: resting bids and asks, the identifiers it has seen, and
//! the placement of limit orders with crossing.

use vstd::prelude::*;
use crate::matching::{
    ahead, all_live, crosses, in_priority_order, lemma_rest_level, lemma_slot, lemma_sweep_shape,
    opposite, rest_level, room, slot, sweep, Fill,
};
use crate::types::{BookSnapshot, OrderResult, OrderStatus, PriceLevel, Side, Trade};

verus! {

/// What an order book holds, as mathematics: bids best (highest) first, asks
/// best (lowest) first, and every order identifier it has accepted, in order.
pub struct BookState {
    pub bids: Seq<PriceLevel>,
    pub asks: Seq<PriceLevel>,
    pub order_ids: Seq<Seq<char>>,
}

/// What one placement reports, as mathematics.
pub struct Report {
    pub status: OrderStatus,
    pub trades: Seq<Trade>,
    pub bids_changed: Seq<PriceLevel>,
    pub asks_changed: Seq<PriceLevel>,
}

impl OrderResult {
    /// The status, trades and snapshot of a result, as mathematics.
    pub open spec fn summary(&self) -> Report {
        Report {
            status: self.status,
            trades: self.trades@,
            bids_changed: self.book_snap.bids_changed@,
            asks_changed: self.book_snap.asks_changed@,
        }
    }
}

/// Bids and asks do not overlap: every bid is below every ask.
pub open spec fn uncrossed(bids: Seq<PriceLevel>, asks: Seq<PriceLevel>) -> bool {
    forall|i: int, j: int|
        0 <= i < bids.len() && 0 <= j < asks.len() ==> #[trigger] bids[i].price < #[trigger] asks[j].price
}

/// No identifier occurs twice and none is empty.
pub open spec fn distinct_ids(ids: Seq<Seq<char>>) -> bool {
    &&& forall|i: int| #![trigger ids[i]] 0 <= i < ids.len() ==> ids[i].len() > 0
    &&& forall|i: int, j: int| 0 <= i < j < ids.len() ==> #[trigger] ids[i] != #[trigger] ids[j]
}

impl BookState {
    /// The invariant of the book: each side is in strict priority order and
    /// holds no empty level, the book is not crossed, and identifiers are
    /// distinct and non-empty.
    pub open spec fn wf(self) -> bool {
        &&& in_priority_order(Side::Buy, self.bids)
        &&& in_priority_order(Side::Sell, self.asks)
        &&& all_live(self.bids)
        &&& all_live(self.asks)
        &&& uncrossed(self.bids, self.asks)
        &&& distinct_ids(self.order_ids)
    }

    /// The levels where orders on `side` rest.
    pub open spec fn levels(self, side: Side) -> Seq<PriceLevel> {
        match side {
            Side::Buy => self.bids,
            Side::Sell => self.asks,
        }
    }

    /// The book takes an order: positive price and quantity, and a non-empty
    /// identifier that it has not accepted before (on either side).
    pub open spec fn accepts(self, id: Seq<char>, price: u64, qty: u64) -> bool {
        &&& price > 0
        &&& qty > 0
        &&& id.len() > 0
        &&& !self.order_ids.contains(id)
    }

    /// An accepted order's residual fits the `u64` quantity of its level.
    pub open spec fn has_room(self, side: Side, id: Seq<char>, price: u64, qty: u64) -> bool {
        self.accepts(id, price, qty) ==> room(self.levels(side), price, qty as nat)
    }

    /// What an order on `side` takes from the opposing side.
    pub open spec fn fill(self, side: Side, price: u64, qty: u64) -> Fill {
        sweep(side, self.levels(opposite(side)), price, qty as nat)
    }

    /// The levels of `side` once the residual, if any, has come to rest.
    pub open spec fn own_levels_after(self, side: Side, price: u64, qty: u64) -> Seq<PriceLevel> {
        let f = self.fill(side, price, qty);
        if f.left > 0 {
            rest_level(side, self.levels(side), price, f.left).0
        } else {
            self.levels(side)
        }
    }

    /// The levels of `side` that the residual changed: none when the order
    /// was filled completely, else the one level at its price.
    pub open spec fn own_changed(self, side: Side, price: u64, qty: u64) -> Seq<PriceLevel> {
        let f = self.fill(side, price, qty);
        if f.left > 0 {
            seq![rest_level(side, self.levels(side), price, f.left).1]
        } else {
            Seq::empty()
        }
    }

    /// The book after an order on `side`: unchanged when refused; else the
    /// opposing side as the sweep left it, the residual at rest on the
    /// order's side, and the identifier recorded.
    pub open spec fn apply(self, side: Side, id: Seq<char>, price: u64, qty: u64) -> BookState {
        if !self.accepts(id, price, qty) {
            self
        } else {
            let f = self.fill(side, price, qty);
            let own = self.own_levels_after(side, price, qty);
            match side {
                Side::Buy => BookState { bids: own, asks: f.rest, order_ids: self.order_ids.push(id) },
                Side::Sell => BookState { bids: f.rest, asks: own, order_ids: self.order_ids.push(id) },
            }
        }
    }

    /// What the book answers to an order on `side`: a refusal reports no
    /// trade and no change; an acceptance reports the sweep's trades, the
    /// opposing levels it changed, and the own level the residual changed.
    pub open spec fn report(self, side: Side, id: Seq<char>, price: u64, qty: u64) -> Report {
        if !self.accepts(id, price, qty) {
            Report {
                status: OrderStatus::Rejected,
                trades: Seq::empty(),
                bids_changed: Seq::empty(),
                asks_changed: Seq::empty(),
            }
        } else {
            let f = self.fill(side, price, qty);
            let own = self.own_changed(side, price, qty);
            match side {
                Side::Buy => Report {
                    status: OrderStatus::Accepted,
                    trades: f.trades,
                    bids_changed: own,
                    asks_changed: f.changed,
                },
                Side::Sell => Report {
                    status: OrderStatus::Accepted,
                    trades: f.trades,
                    bids_changed: f.changed,
                    asks_changed: own,
                },
            }
        }
    }
}

/// Every placement keeps the book's invariant: both sides in strict
/// priority order with no empty level, bids below asks, identifiers distinct.
pub proof fn lemma_apply_wf(book: BookState, side: Side, id: Seq<char>, price: u64, qty: u64)
    requires
        book.wf(),
        book.has_room(side, id, price, qty),
    ensures
        book.apply(side, id, price, qty).wf(),
{
    if book.accepts(id, price, qty) {
        let opp = book.levels(opposite(side));
        let own = book.levels(side);
        lemma_sweep_shape(side, opp, price, qty as nat);
        let f = book.fill(side, price, qty);
        let new_own = book.own_levels_after(side, price, qty);
        if f.left > 0 {
            assert(room(own, price, f.left)) by {
                assert forall|i: int| #![trigger own[i]] 0 <= i < own.len() && own[i].price == price implies own[i].qty + f.left <= u64::MAX by {
                }
            }
            lemma_rest_level(side, own, price, f.left);
        }
        let new = book.apply(side, id, price, qty);
        let d = opp.len() - f.rest.len();
        assert forall|i: int, j: int| 0 <= i < new.bids.len() && 0 <= j < new.asks.len() implies #[trigger] new.bids[i].price < #[trigger] new.asks[j].price by {
            match side {
                Side::Buy => {
                    assert(f.rest[j].price == opp[j + d].price);
                    if j > 0 {
                        assert(ahead(Side::Sell, f.rest[0].price, f.rest[j].price));
                    }
                    if f.left > 0 {
                        assert(new_own[i].price == price || (i < own.len() && new_own[i].price == own[i].price) || (0 <= i - 1 < own.len() && new_own[i].price == own[i - 1].price));
                        if new_own[i].price == price {
                            assert(!crosses(side, price, f.rest[0].price));
                        } else if i < own.len() && new_own[i].price == own[i].price {
                            assert(own[i].price < opp[j + d].price);
                        } else {
                            assert(own[i - 1].price < opp[j + d].price);
                        }
                    } else {
                        assert(own[i].price < opp[j + d].price);
                    }
                },
                Side::Sell => {
                    assert(f.rest[i].price == opp[i + d].price);
                    if i > 0 {
                        assert(ahead(Side::Buy, f.rest[0].price, f.rest[i].price));
                    }
                    if f.left > 0 {
                        assert(new_own[j].price == price || (j < own.len() && new_own[j].price == own[j].price) || (0 <= j - 1 < own.len() && new_own[j].price == own[j - 1].price));
                        if new_own[j].price == price {
                            assert(!crosses(side, price, f.rest[0].price));
                        } else if j < own.len() && new_own[j].price == own[j].price {
                            assert(opp[i + d].price < own[j].price);
                        } else {
                            assert(opp[i + d].price < own[j - 1].price);
                        }
                    } else {
                        assert(opp[i + d].price < own[j].price);
                    }
                },
            }
        }
        let ids = book.order_ids;
        assert forall|k: int| 0 <= k < ids.len() implies #[trigger] ids[k] != id by {
            if ids[k] == id {
                assert(ids.contains(id));
            }
        }
        assert forall|a: int, b: int| 0 <= a < b < new.order_ids.len() implies #[trigger] new.order_ids[a] != #[trigger] new.order_ids[b] by {
            if b == ids.len() {
                assert(new.order_ids[a] == ids[a]);
            } else {
                assert(new.order_ids[a] == ids[a]);
                assert(new.order_ids[b] == ids[b]);
            }
        }
        assert forall|k: int| #![trigger new.order_ids[k]] 0 <= k < new.order_ids.len() implies new.order_ids[k].len() > 0 by {
            if k < ids.len() {
                assert(new.order_ids[k] == ids[k]);
            }
        }
    }
}

/// A limit order book for one trading pair.
pub struct OrderBook {
    bids: Vec<PriceLevel>,
    asks: Vec<PriceLevel>,
    order_ids: Vec<String>,
    trades_buf: Vec<Trade>,
}

impl View for OrderBook {
    type V = BookState;

    closed spec fn view(&self) -> BookState {
        BookState {
            bids: self.bids@,
            asks: self.asks@,
            order_ids: self.order_ids@.map_values(|s: String| s@),
        }
    }
}

fn side_crosses(side: Side, price: u64, level_price: u64) -> (b: bool)
    ensures
        b == crosses(side, price, level_price),
{
    match side {
        Side::Buy => level_price <= price,
        Side::Sell => price <= level_price,
    }
}

fn side_ahead(side: Side, a: u64, b: u64) -> (r: bool)
    ensures
        r == ahead(side, a, b),
{
    match side {
        Side::Buy => a > b,
        Side::Sell => a < b,
    }
}

impl OrderBook {
    /// An empty book.
    pub fn new() -> (book: Self)
        ensures
            book@.bids == Seq::<PriceLevel>::empty(),
            book@.asks == Seq::<PriceLevel>::empty(),
            book@.order_ids == Seq::<Seq<char>>::empty(),
            book@.wf(),
    {
        let book = OrderBook {
            bids: Vec::with_capacity(128),
            asks: Vec::with_capacity(128),
            order_ids: Vec::with_capacity(128),
            trades_buf: Vec::with_capacity(128),
        };
        assert(book@.order_ids =~= Seq::<Seq<char>>::empty());
        book
    }

    /// Places a limit buy: refused (book unchanged, nothing reported) when
    /// the price or quantity is zero or the identifier is empty or already
    /// used; else it takes asks from the lowest up at their own prices while
    /// they are at or below its limit, and any residual rests on the bids at
    /// its limit price.
    pub fn place_limit_buy(&mut self, order_id: String, price: u64, qty: u64) -> (result: OrderResult)
        requires
            old(self)@.wf(),
            old(self)@.has_room(Side::Buy, order_id@, price, qty),
        ensures
            final(self)@.wf(),
            final(self)@ == old(self)@.apply(Side::Buy, order_id@, price, qty),
            result.order_id@ == order_id@,
            result.summary() == old(self)@.report(Side::Buy, order_id@, price, qty),
    {
        self.place_limit(Side::Buy, order_id, price, qty)
    }

    /// Places a limit sell: refused (book unchanged, nothing reported) when
    /// the price or quantity is zero or the identifier is empty or already
    /// used; else it takes bids from the highest down at their own prices
    /// while they are at or above its limit, and any residual rests on the
    /// asks at its limit price.
    pub fn place_limit_sell(&mut self, order_id: String, price: u64, qty: u64) -> (result: OrderResult)
        requires
            old(self)@.wf(),
            old(self)@.has_room(Side::Sell, order_id@, price, qty),
        ensures
            final(self)@.wf(),
            final(self)@ == old(self)@.apply(Side::Sell, order_id@, price, qty),
            result.order_id@ == order_id@,
            result.summary() == old(self)@.report(Side::Sell, order_id@, price, qty),
    {
        self.place_limit(Side::Sell, order_id, price, qty)
    }

    /// A residual of `q` on `side` at `price` comes to rest in `levels` (the
    /// order's own side); gives the level that changed.
    fn rest(levels: &mut Vec<PriceLevel>, side: Side, price: u64, q: u64) -> (level: PriceLevel)
        requires
            room(old(levels)@, price, q as nat),
        ensures
            (final(levels)@, level) == rest_level(side, old(levels)@, price, q as nat),
    {
        let mut i: usize = 0;
        while i < levels.len() && side_ahead(side, levels[i].price, price)
            invariant
                0 <= i <= levels@.len(),
                levels@ == old(levels)@,
                forall|j: int| 0 <= j < i ==> ahead(side, #[trigger] levels@[j].price, price),
            decreases levels@.len() - i,
        {
            i = i + 1;
        }
        proof {
            lemma_slot(side, levels@, price);
            let k = slot(side, levels@, price);
            if (i as int) < k {
                assert(ahead(side, levels@[i as int].price, price));
            } else if k < (i as int) {
                assert(ahead(side, levels@[k].price, price));
            }
            assert(i as int == k);
        }
        if i < levels.len() && levels[i].price == price {
            let level = PriceLevel { price, qty: levels[i].qty + q };
            levels[i] = level;
            level
        } else {
            let level = PriceLevel { price, qty: q };
            levels.insert(i, level);
            level
        }
    }

    /// Whether the book has accepted an order with identifier `id`.
    fn knows(&self, id: &String) -> (found: bool)
        ensures
            found == self@.order_ids.contains(id@),
    {
        let mut i: usize = 0;
        while i < self.order_ids.len()
            invariant
                0 <= i <= self.order_ids@.len(),
                forall|j: int| 0 <= j < i ==> #[trigger] self.order_ids@[j]@ != id@,
            decreases self.order_ids@.len() - i,
        {
            if self.order_ids[i] == *id {
                proof {
                    assert(self@.order_ids[i as int] == id@);
                }
                return true;
            }
            i = i + 1;
        }
        proof {
            if self@.order_ids.contains(id@) {
                let k = choose|k: int| 0 <= k < self@.order_ids.len() && self@.order_ids[k] == id@;
                assert(self.order_ids@[k]@ == id@);
            }
        }
        false
    }

    /// An exact copy of the trades of the current placement.
    fn copy_trades(trades: &Vec<Trade>) -> (copy: Vec<Trade>)
        ensures
            copy@ == trades@,
    {
        let mut copy: Vec<Trade> = Vec::with_capacity(trades.len());
        let mut i: usize = 0;
        while i < trades.len()
            invariant
                0 <= i <= trades@.len(),
                copy@ == trades@.subrange(0, i as int),
            decreases trades@.len() - i,
        {
            copy.push(trades[i]);
            i = i + 1;
            proof {
                assert(copy@ =~= trades@.subrange(0, i as int));
            }
        }
        proof {
            assert(trades@.subrange(0, trades@.len() as int) =~= trades@);
        }
        copy
    }

    /// Places a limit order on `side`: refuses it if the price or quantity
    /// is zero or the identifier is empty or already used; else sweeps the
    /// opposing side and rests the residual on its own side.
    fn place_limit(&mut self, side: Side, order_id: String, price: u64, qty: u64) -> (result: OrderResult)
        requires
            old(self)@.wf(),
            old(self)@.has_room(side, order_id@, price, qty),
        ensures
            final(self)@ == old(self)@.apply(side, order_id@, price, qty),
            final(self)@.wf(),
            result.order_id@ == order_id@,
            result.summary() == old(self)@.report(side, order_id@, price, qty),
    {
        proof {
            lemma_apply_wf(self@, side, order_id@, price, qty);
        }
        if price == 0 || qty == 0 || order_id.as_str().is_empty() || self.knows(&order_id) {
            let result = OrderResult {
                order_id,
                status: OrderStatus::Rejected,
                trades: Vec::new(),
                book_snap: BookSnapshot { bids_changed: Vec::new(), asks_changed: Vec::new() },
            };
            proof {
                assert(result.summary().trades =~= Seq::<Trade>::empty());
                assert(result.summary().bids_changed =~= Seq::<PriceLevel>::empty());
                assert(result.summary().asks_changed =~= Seq::<PriceLevel>::empty());
            }
            return result;
        }
        let ghost before = self@;
        proof {
            lemma_sweep_shape(side, before.levels(opposite(side)), price, qty as nat);
        }
        self.trades_buf.clear();
        let mut opposite_changed: Vec<PriceLevel> = Vec::new();
        let remaining = match side {
            Side::Buy => Self::cross(&mut self.asks, side, price, qty, &mut self.trades_buf, &mut opposite_changed),
            Side::Sell => Self::cross(&mut self.bids, side, price, qty, &mut self.trades_buf, &mut opposite_changed),
        };
        proof {
            assert(opposite_changed@ =~= before.fill(side, price, qty).changed);
            assert(self.trades_buf@ =~= before.fill(side, price, qty).trades);
        }
        let mut own_changed: Vec<PriceLevel> = Vec::new();
        if remaining > 0 {
            proof {
                assert forall|i: int| #![trigger before.levels(side)[i]] 0 <= i < before.levels(side).len() && before.levels(side)[i].price == price implies before.levels(side)[i].qty + remaining <= u64::MAX by {
                }
            }
            let level = match side {
                Side::Buy => Self::rest(&mut self.bids, side, price, remaining),
                Side::Sell => Self::rest(&mut self.asks, side, price, remaining),
            };
            own_changed.push(level);
        }
        proof {
            assert(own_changed@ =~= before.own_changed(side, price, qty));
        }
        self.order_ids.push(order_id.clone());
        proof {
            assert(self@.order_ids =~= before.order_ids.push(order_id@));
        }
        let trades = Self::copy_trades(&self.trades_buf);
        let book_snap = match side {
            Side::Buy => BookSnapshot { bids_changed: own_changed, asks_changed: opposite_changed },
            Side::Sell => BookSnapshot { bids_changed: opposite_changed, asks_changed: own_changed },
        };
        OrderResult { order_id, status: OrderStatus::Accepted, trades, book_snap }
    }

    /// A taker on `side` with limit `price` and quantity `qty` sweeps
    /// `levels` (the opposing side), appending its trades and the levels it
    /// changed; gives the quantity it has left.
    fn cross(
        levels: &mut Vec<PriceLevel>,
        side: Side,
        price: u64,
        qty: u64,
        trades: &mut Vec<Trade>,
        changed: &mut Vec<PriceLevel>,
    ) -> (left: u64)
        ensures
            ({
                let f = sweep(side, old(levels)@, price, qty as nat);
                &&& final(levels)@ == f.rest
                &&& final(trades)@ == old(trades)@ + f.trades
                &&& final(changed)@ == old(changed)@ + f.changed
                &&& left == f.left
            }),
    {
        let ghost f0 = sweep(side, levels@, price, qty as nat);
        let ghost trades0 = trades@;
        let ghost changed0 = changed@;
        let mut remaining = qty;
        proof {
            assert(trades@ =~= trades@ + Seq::<Trade>::empty());
        }
        while levels.len() > 0 && side_crosses(side, price, levels[0].price) && remaining > 0
            invariant
                ({
                    let f = sweep(side, levels@, price, remaining as nat);
                    &&& f0.trades == trades@.subrange(trades0.len() as int, trades@.len() as int) + f.trades
                    &&& f0.changed == changed@.subrange(changed0.len() as int, changed@.len() as int) + f.changed
                    &&& f0.rest == f.rest
                    &&& f0.left == f.left
                }),
                trades0.len() <= trades@.len(),
                trades@.subrange(0, trades0.len() as int) == trades0,
                changed0.len() <= changed@.len(),
                changed@.subrange(0, changed0.len() as int) == changed0,
            decreases levels@.len() + (if remaining > 0 { 1int } else { 0int }),
        {
            let head = levels[0];
            let ghost done_trades = trades@.subrange(trades0.len() as int, trades@.len() as int);
            let ghost done_changed = changed@.subrange(changed0.len() as int, changed@.len() as int);
            let ghost before = levels@;
            if head.qty <= remaining {
                let t = Trade { price: head.price, qty: head.qty, taker_side: side };
                let c = PriceLevel { price: head.price, qty: 0 };
                trades.push(t);
                changed.push(c);
                remaining = remaining - head.qty;
                let _ = levels.remove(0);
                proof {
                    assert(levels@ =~= before.drop_first());
                    let g = sweep(side, levels@, price, remaining as nat);
                    assert(trades@.subrange(trades0.len() as int, trades@.len() as int) =~= done_trades.push(t));
                    assert(changed@.subrange(changed0.len() as int, changed@.len() as int) =~= done_changed.push(c));
                    assert(done_trades + (seq![t] + g.trades) =~= done_trades.push(t) + g.trades);
                    assert(done_changed + (seq![c] + g.changed) =~= done_changed.push(c) + g.changed);
                    assert(trades@.subrange(0, trades0.len() as int) =~= trades0);
                    assert(changed@.subrange(0, changed0.len() as int) =~= changed0);
                }
            } else {
                let t = Trade { price: head.price, qty: remaining, taker_side: side };
                let reduced = PriceLevel { price: head.price, qty: head.qty - remaining };
                trades.push(t);
                levels[0] = reduced;
                changed.push(reduced);
                remaining = 0;
                proof {
                    assert(trades@.subrange(trades0.len() as int, trades@.len() as int) =~= done_trades.push(t));
                    assert(changed@.subrange(changed0.len() as int, changed@.len() as int) =~= done_changed.push(reduced));
                    assert(done_trades + seq![t] =~= done_trades.push(t) + Seq::<Trade>::empty());
                    assert(done_changed + seq![reduced] =~= done_changed.push(reduced) + Seq::<PriceLevel>::empty());
                    assert(trades@.subrange(0, trades0.len() as int) =~= trades0);
                    assert(changed@.subrange(0, changed0.len() as int) =~= changed0);
                }
            }
        }
        proof {
            assert(trades@ =~= trades0 + trades@.subrange(trades0.len() as int, trades@.len() as int));
            assert(changed@ =~= changed0 + changed@.subrange(changed0.len() as int, changed@.len() as int));
            assert(f0.trades =~= trades@.subrange(trades0.len() as int, trades@.len() as int));
            assert(f0.changed =~= changed@.subrange(changed0.len() as int, changed@.len() as int));
        }
        remaining
    }
}

} // verus!
