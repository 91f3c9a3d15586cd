//! What holds of every placement, stated over the book's mathematical model
//! (`BookState::apply` and `BookState::report`, which the placements follow).

use vstd::prelude::*;
use crate::matching::{
    ahead, consumed_or_reduced, crosses, lemma_rest_level, lemma_slot, lemma_sweep_shape,
    lemma_sweep_steps, lemma_sweep_totals, opposite, rest_level, room, slot, total, traded,
};
use crate::order_book::{BookState, Report};
use crate::types::{OrderStatus, PriceLevel, Side};

verus! {

/// The levels of `side` that a report lists as changed.
pub open spec fn changed_on(r: Report, side: Side) -> Seq<PriceLevel> {
    match side {
        Side::Buy => r.bids_changed,
        Side::Sell => r.asks_changed,
    }
}

/// A refused order leaves the book as it was and reports no trade and no
/// changed level.
pub proof fn law_refusal_changes_nothing(book: BookState, side: Side, id: Seq<char>, price: u64, qty: u64)
    requires
        !book.accepts(id, price, qty),
    ensures
        book.apply(side, id, price, qty) == book,
        book.report(side, id, price, qty).status == OrderStatus::Rejected,
        book.report(side, id, price, qty).trades.len() == 0,
        book.report(side, id, price, qty).bids_changed.len() == 0,
        book.report(side, id, price, qty).asks_changed.len() == 0,
{
}

/// An order is accepted exactly when its price and quantity are positive and
/// its identifier is non-empty and new to the book, whatever its side.
pub proof fn law_acceptance(book: BookState, side: Side, id: Seq<char>, price: u64, qty: u64)
    ensures
        (book.report(side, id, price, qty).status == OrderStatus::Accepted) <==> (price > 0 && qty > 0
            && id.len() > 0 && !book.order_ids.contains(id)),
{
}

/// Identifiers are only ever added, and an identifier once accepted is
/// refused afterwards, on either side and at any price and quantity.
pub proof fn law_identifier_used_once(
    book: BookState,
    side: Side,
    id: Seq<char>,
    price: u64,
    qty: u64,
    later_side: Side,
    later_price: u64,
    later_qty: u64,
)
    ensures
        book.order_ids.is_prefix_of(book.apply(side, id, price, qty).order_ids),
        book.accepts(id, price, qty) ==> book.apply(side, id, price, qty).report(
            later_side,
            id,
            later_price,
            later_qty,
        ).status == OrderStatus::Rejected,
{
    let after = book.apply(side, id, price, qty);
    if book.accepts(id, price, qty) {
        assert(after.order_ids[book.order_ids.len() as int] == id);
        assert(after.order_ids.contains(id));
    }
}

/// Quantity is conserved: what the order traded left the opposing side, and
/// what it traded plus what came to rest on its own side is its quantity.
pub proof fn law_quantity_conserved(book: BookState, side: Side, id: Seq<char>, price: u64, qty: u64)
    requires
        book.wf(),
        book.has_room(side, id, price, qty),
        book.accepts(id, price, qty),
    ensures
        ({
            let after = book.apply(side, id, price, qty);
            let r = book.report(side, id, price, qty);
            &&& total(book.levels(opposite(side))) == total(after.levels(opposite(side))) + traded(r.trades)
            &&& traded(r.trades) + (total(after.levels(side)) - total(book.levels(side))) == qty
        }),
{
    let opp = book.levels(opposite(side));
    let own = book.levels(side);
    lemma_sweep_shape(side, opp, price, qty as nat);
    lemma_sweep_totals(side, opp, price, qty as nat);
    let f = book.fill(side, price, qty);
    if f.left > 0 {
        assert(room(own, price, f.left)) by {
            assert forall|i: int| #![trigger own[i]] 0 <= i < own.len() && own[i].price == price implies own[i].qty + f.left <= u64::MAX by {
            }
        }
        lemma_rest_level(side, own, price, f.left);
    }
}

/// Every trade is at the price of a resting level, never worse than the
/// order's limit, for a positive quantity, with the order as taker; the
/// i-th trade is against the i-th best opposing level, so trades come in
/// priority order (ascending asks for a buy, descending bids for a sell).
pub proof fn law_trades_at_maker_prices(book: BookState, side: Side, id: Seq<char>, price: u64, qty: u64)
    requires
        book.wf(),
    ensures
        ({
            let r = book.report(side, id, price, qty);
            let opp = book.levels(opposite(side));
            &&& r.trades.len() <= opp.len()
            &&& forall|i: int|
                #![trigger r.trades[i]]
                0 <= i < r.trades.len() ==> {
                    &&& r.trades[i].price == opp[i].price
                    &&& crosses(side, price, r.trades[i].price)
                    &&& r.trades[i].qty > 0
                    &&& r.trades[i].taker_side == side
                }
            &&& forall|i: int, j: int|
                0 <= i < j < r.trades.len() ==> ahead(opposite(side), #[trigger] r.trades[i].price, #[trigger] r.trades[j].price)
        }),
{
    let opp = book.levels(opposite(side));
    lemma_sweep_shape(side, opp, price, qty as nat);
    let r = book.report(side, id, price, qty);
    assert forall|i: int, j: int| 0 <= i < j < r.trades.len() implies ahead(opposite(side), #[trigger] r.trades[i].price, #[trigger] r.trades[j].price) by {
        assert(r.trades[i].price == opp[i].price);
        assert(r.trades[j].price == opp[j].price);
    }
}

/// An order whose limit does not reach the best opposing level trades
/// nothing, leaves the opposing side alone, and rests in full.
pub proof fn law_no_trade_without_cross(book: BookState, side: Side, id: Seq<char>, price: u64, qty: u64)
    requires
        book.accepts(id, price, qty),
        book.levels(opposite(side)).len() == 0 || !crosses(side, price, book.levels(opposite(side))[0].price),
    ensures
        ({
            let after = book.apply(side, id, price, qty);
            let r = book.report(side, id, price, qty);
            &&& r.trades.len() == 0
            &&& changed_on(r, opposite(side)).len() == 0
            &&& after.levels(opposite(side)) == book.levels(opposite(side))
            &&& after.levels(side) == rest_level(side, book.levels(side), price, qty as nat).0
            &&& changed_on(r, side) == seq![rest_level(side, book.levels(side), price, qty as nat).1]
        }),
{
}

/// A completely filled order leaves its own side unchanged and reports no
/// change there; a partly filled one rests its residual at its limit price,
/// in the one level it reports changed, which is on the book afterwards.
pub proof fn law_residual_rests_at_limit(book: BookState, side: Side, id: Seq<char>, price: u64, qty: u64)
    requires
        book.wf(),
        book.has_room(side, id, price, qty),
        book.accepts(id, price, qty),
    ensures
        ({
            let after = book.apply(side, id, price, qty);
            let r = book.report(side, id, price, qty);
            &&& traded(r.trades) == qty ==> (after.levels(side) == book.levels(side) && changed_on(r, side).len() == 0)
            &&& traded(r.trades) < qty ==> {
                &&& changed_on(r, side).len() == 1
                &&& changed_on(r, side)[0].price == price
                &&& changed_on(r, side)[0].qty >= qty - traded(r.trades)
                &&& after.levels(side).contains(changed_on(r, side)[0])
            }
        }),
{
    let opp = book.levels(opposite(side));
    let own = book.levels(side);
    lemma_sweep_shape(side, opp, price, qty as nat);
    lemma_sweep_totals(side, opp, price, qty as nat);
    let f = book.fill(side, price, qty);
    if f.left > 0 {
        assert(room(own, price, f.left)) by {
            assert forall|i: int| #![trigger own[i]] 0 <= i < own.len() && own[i].price == price implies own[i].qty + f.left <= u64::MAX by {
            }
        }
        lemma_rest_level(side, own, price, f.left);
        lemma_slot(side, own, price);
        let k = slot(side, own, price);
        let (new_own, level) = rest_level(side, own, price, f.left);
        assert(new_own[k] == level);
    }
}

/// A level that the order consumed is reported with quantity zero and is
/// gone from the book; any other opposing level reported changed is the one
/// the order reduced, reported with its new quantity, now best on its side.
pub proof fn law_consumed_levels_reported_and_removed(book: BookState, side: Side, id: Seq<char>, price: u64, qty: u64)
    requires
        book.wf(),
        book.accepts(id, price, qty),
    ensures
        ({
            let after = book.apply(side, id, price, qty);
            let changed = changed_on(book.report(side, id, price, qty), opposite(side));
            let opp_after = after.levels(opposite(side));
            forall|i: int|
                #![trigger changed[i]]
                0 <= i < changed.len() ==> {
                    ||| (changed[i].qty == 0 && forall|k: int| 0 <= k < opp_after.len() ==> #[trigger] opp_after[k].price != changed[i].price)
                    ||| (changed[i].qty > 0 && opp_after.len() > 0 && changed[i] == opp_after[0])
                }
        }),
{
    let opp = book.levels(opposite(side));
    lemma_sweep_shape(side, opp, price, qty as nat);
    let f = book.fill(side, price, qty);
    let after = book.apply(side, id, price, qty);
    let opp_after = after.levels(opposite(side));
    assert(opp_after == f.rest) by {
        match side {
            Side::Buy => {},
            Side::Sell => {},
        }
    }
    let changed = changed_on(book.report(side, id, price, qty), opposite(side));
    assert(changed == f.changed) by {
        match side {
            Side::Buy => {},
            Side::Sell => {},
        }
    }
    let d = opp.len() - f.rest.len();
    assert forall|i: int| #![trigger changed[i]] 0 <= i < changed.len() implies {
        ||| (changed[i].qty == 0 && forall|k: int| 0 <= k < opp_after.len() ==> #[trigger] opp_after[k].price != changed[i].price)
        ||| (changed[i].qty > 0 && opp_after.len() > 0 && changed[i] == opp_after[0])
    } by {
        assert(consumed_or_reduced(f, opp.len(), i));
        if i < d && changed[i].qty == 0 {
            assert(changed[i].price == opp[i].price) by {
                assert(f.trades[i].price == opp[i].price);
            }
            assert forall|k: int| 0 <= k < opp_after.len() implies #[trigger] opp_after[k].price != changed[i].price by {
                assert(opp_after[k].price == opp[k + d].price);
                assert(ahead(opposite(side), opp[i].price, opp[k + d].price));
            }
        }
    }
}

/// An accepted order trades once per opposing level it touches, best level
/// first: the i-th trade and the i-th reported change of the opposing side
/// are at the i-th best opposing level's price, which reaches the order's
/// limit, and the trade took exactly what that level lost (the reported
/// quantity is what the level keeps, zero when consumed). Every touched
/// level but the last is consumed; the opposing side afterwards is the
/// untouched levels, behind the last touched one only if that was reduced,
/// which happens only when the order is filled. The order never trades more
/// than its quantity, and stops short of it only when the opposing side is
/// exhausted or its next level does not reach the limit.
pub proof fn law_one_trade_per_touched_level(book: BookState, side: Side, id: Seq<char>, price: u64, qty: u64)
    requires
        book.accepts(id, price, qty),
    ensures
        ({
            let r = book.report(side, id, price, qty);
            let opp = book.levels(opposite(side));
            let opp_after = book.apply(side, id, price, qty).levels(opposite(side));
            let changed = changed_on(r, opposite(side));
            let n = r.trades.len() as int;
            &&& changed.len() == n
            &&& n <= opp.len()
            &&& forall|i: int|
                #![trigger r.trades[i]]
                0 <= i < n ==> {
                    &&& r.trades[i].price == opp[i].price
                    &&& changed[i].price == opp[i].price
                    &&& r.trades[i].qty + changed[i].qty == opp[i].qty
                    &&& r.trades[i].taker_side == side
                    &&& crosses(side, price, opp[i].price)
                }
            &&& forall|i: int| #![trigger changed[i]] 0 <= i < n - 1 ==> changed[i].qty == 0
            &&& (n > 0 && changed[n - 1].qty > 0) ==> (opp_after == seq![changed[n - 1]] + opp.skip(n)
                && traded(r.trades) == qty)
            &&& !(n > 0 && changed[n - 1].qty > 0) ==> opp_after == opp.skip(n)
            &&& traded(r.trades) <= qty
            &&& (traded(r.trades) == qty || n == opp.len() || !crosses(side, price, opp[n].price))
        }),
{
    let opp = book.levels(opposite(side));
    lemma_sweep_steps(side, opp, price, qty as nat);
    lemma_sweep_totals(side, opp, price, qty as nat);
    let f = book.fill(side, price, qty);
    let r = book.report(side, id, price, qty);
    let after = book.apply(side, id, price, qty);
    assert(changed_on(r, opposite(side)) == f.changed && after.levels(opposite(side)) == f.rest && r.trades == f.trades) by {
        match side {
            Side::Buy => {},
            Side::Sell => {},
        }
    }
}

} // verus!
