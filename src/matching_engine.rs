use vstd::prelude::*;
use crate::levels::{
    lemma_appended_best, lemma_queued_front, lemma_take_head, lemma_taken_out_best, opposite, qty_at,
    queued_ids,
};
use crate::orderbook::OrderBook;
use crate::types::{BookError, Order, OrderId, Price, Quantity, Side, INVALID_PRICE};

verus! {

/// One execution between an incoming order and a resting one.
#[derive(Debug, Clone, Copy, PartialEq, Eq, Structural)]
pub struct Trade {
    pub aggressive_order_id: OrderId,
    pub passive_order_id: OrderId,
    /// The resting order's price.
    pub price: Price,
    pub quantity: Quantity,
    pub aggressor_side: Side,
    /// Position of this trade in the engine's issuance order.
    pub sequence: u64,
}

/// An incoming order of `side` with limit `limit` may trade at price `p`.
pub open spec fn reaches(side: Side, limit: Price, p: Price) -> bool {
    match side {
        Side::Buy => limit >= p,
        Side::Sell => limit <= p,
    }
}

/// No bid is at or above the best ask.
pub open spec fn uncrossed(b: OrderBook) -> bool {
    b.levels(Side::Buy).len() > 0 && b.levels(Side::Sell).len() > 0 ==> b.levels(Side::Buy)[0].0
        < b.levels(Side::Sell)[0].0
}

/// Sum of the quantities of `ts`.
pub open spec fn traded(ts: Seq<Trade>) -> int
    decreases ts.len(),
{
    if ts.len() == 0 {
        0
    } else {
        traded(ts.drop_last()) + ts.last().quantity
    }
}

/// Continuous double auction over one order book, with price-time priority.
pub struct MatchingEngine {
    book: OrderBook,
    next_sequence: u64,
}

impl MatchingEngine {
    pub closed spec fn book_spec(&self) -> OrderBook {
        self.book
    }

    pub closed spec fn sequence_spec(&self) -> u64 {
        self.next_sequence
    }

    pub open spec fn wf(&self) -> bool {
        self.book_spec().wf() && uncrossed(self.book_spec())
    }

    pub fn new() -> (r: Self)
        ensures
            r.wf(),
            r.book_spec().index() == Map::<OrderId, Order>::empty(),
            r.book_spec().levels(Side::Buy).len() == 0,
            r.book_spec().levels(Side::Sell).len() == 0,
            r.sequence_spec() == 0,
    {
        MatchingEngine { book: OrderBook::new(), next_sequence: 0 }
    }

    /// The book that the engine matches against.
    pub fn book(&self) -> (r: &OrderBook)
        ensures
            *r == self.book_spec(),
    {
        &self.book
    }

    /// The sequence number that the next trade will carry.
    pub fn next_sequence(&self) -> (r: u64)
        ensures
            r == self.sequence_spec(),
    {
        self.next_sequence
    }

    /// What `submit` refuses up front: the first rule that the request breaks, if any.
    pub open spec fn submit_check(&self, id: OrderId, side: Side, price: Price, quantity: Quantity) -> Result<(), BookError> {
        let b = self.book_spec();
        if b.index().contains_key(id) {
            Err(BookError::DuplicateOrderId)
        } else if price == INVALID_PRICE {
            Err(BookError::InvalidPrice)
        } else if quantity == 0 {
            Err(BookError::InvalidQuantity)
        } else if qty_at(b.levels(side), b.index(), price) + quantity > 4294967295 {
            Err(BookError::QuantityOverflow)
        } else {
            Ok(())
        }
    }

    /// Crosses an incoming order against the opposite side, best level first and
    /// oldest order first within a level, and rests what is left of it.
    pub fn submit(&mut self, id: OrderId, side: Side, price: Price, quantity: Quantity) -> (r: Result<Vec<Trade>, BookError>)
        requires
            old(self).wf(),
            old(self).sequence_spec() + quantity <= 18446744073709551615,
        ensures
            final(self).wf(),
            r is Err ==> *final(self) == *old(self),
            r is Err <==> old(self).submit_check(id, side, price, quantity) is Err,
            r is Err ==> r->Err_0 == old(self).submit_check(id, side, price, quantity)->Err_0,
            r is Ok ==> ({
                let ts = r->Ok_0@;
                let ob = old(self).book_spec();
                let nb = final(self).book_spec();
                let queued = queued_ids(ob.levels(opposite(side)));
                &&& traded(ts) <= quantity
                &&& final(self).sequence_spec() == old(self).sequence_spec() + ts.len()
                &&& ts.len() <= queued.len()
                &&& forall|j: int| 0 <= j < ts.len() ==> {
                    let t = #[trigger] ts[j];
                    &&& t.passive_order_id == queued[j]
                    &&& t.quantity == ob.index()[queued[j]].quantity || (j == ts.len() - 1 && traded(ts) == quantity
                        && t.quantity < ob.index()[queued[j]].quantity)
                }
                &&& forall|j: int| 0 <= j < ts.len() ==> {
                    let t = #[trigger] ts[j];
                    &&& t.aggressive_order_id == id
                    &&& t.aggressor_side == side
                    &&& t.sequence == old(self).sequence_spec() + j
                    &&& t.quantity > 0
                    &&& ob.index().contains_key(t.passive_order_id)
                    &&& ob.index()[t.passive_order_id].side == opposite(side)
                    &&& t.price == ob.index()[t.passive_order_id].price
                    &&& reaches(side, price, t.price)
                }
                &&& traded(ts) == quantity ==> !nb.index().contains_key(id)
                &&& traded(ts) < quantity ==> {
                    &&& nb.index().contains_key(id)
                    &&& nb.index()[id] == (Order { id, price, quantity: (quantity - traded(ts)) as Quantity, side })
                    &&& nb.levels(opposite(side)).len() > 0 ==> !reaches(side, price, nb.levels(opposite(side))[0].0)
                }
            }),
    {
        if self.book.index_contains(id) {
            return Err(BookError::DuplicateOrderId);
        }
        if price == INVALID_PRICE {
            return Err(BookError::InvalidPrice);
        }
        if quantity == 0 {
            return Err(BookError::InvalidQuantity);
        }
        let resting = self.book.quantity_at(side, price);
        if resting > 4294967295 - quantity {
            return Err(BookError::QuantityOverflow);
        }
        let ghost ob = self.book;
        let ghost seq0 = self.next_sequence;
        let other = match side {
            Side::Buy => Side::Sell,
            Side::Sell => Side::Buy,
        };
        let mut trades: Vec<Trade> = Vec::new();
        let mut remaining: Quantity = quantity;
        let mut done = false;
        while remaining > 0 && !done
            invariant
                other == opposite(side),
                self.book.wf(),
                uncrossed(self.book),
                self.book.levels(side) == ob.levels(side),
                !self.book.index().contains_key(id),
                forall|x: OrderId| #[trigger] self.book.index().contains_key(x) ==> {
                    &&& ob.index().contains_key(x)
                    &&& self.book.index()[x].price == ob.index()[x].price
                    &&& self.book.index()[x].side == ob.index()[x].side
                    &&& ob.index()[x].side == side ==> self.book.index()[x] == ob.index()[x]
                },
                remaining <= quantity,
                traded(trades@) + remaining == quantity,
                trades@.len() <= quantity - remaining,
                self.next_sequence == seq0 + trades@.len(),
                seq0 + quantity <= 18446744073709551615,
                forall|j: int| 0 <= j < trades@.len() ==> {
                    let t = #[trigger] trades@[j];
                    &&& t.aggressive_order_id == id
                    &&& t.aggressor_side == side
                    &&& t.sequence == seq0 + j
                    &&& t.quantity > 0
                    &&& ob.index().contains_key(t.passive_order_id)
                    &&& ob.index()[t.passive_order_id].side == opposite(side)
                    &&& t.price == ob.index()[t.passive_order_id].price
                    &&& reaches(side, price, t.price)
                },
                done ==> self.book.levels(other).len() > 0 ==> !reaches(side, price, self.book.levels(other)[0].0),
                done ==> remaining > 0,
                trades@.len() <= queued_ids(ob.levels(other)).len(),
                remaining > 0 ==> queued_ids(self.book.levels(other)) == queued_ids(ob.levels(other)).skip(trades@.len() as int),
                remaining > 0 ==> forall|x: OrderId| #[trigger] self.book.index().contains_key(x) ==> self.book.index()[x] == ob.index()[x],
                forall|j: int| 0 <= j < trades@.len() ==> {
                    let t = #[trigger] trades@[j];
                    &&& t.passive_order_id == queued_ids(ob.levels(other))[j]
                    &&& t.quantity == ob.index()[t.passive_order_id].quantity || (j == trades@.len() - 1 && remaining == 0
                        && t.quantity < ob.index()[t.passive_order_id].quantity)
                },
            decreases remaining as int + (if done { 0int } else { 1int }),
        {
            let head = match self.book.best_order(other) {
                Some(o) => o,
                None => {
                    done = true;
                    continue;
                },
            };
            proof {
                self.book.lemma_wf();
                let x = self.book.levels(other)[0].1[0];
                assert(self.book.index().contains_key(x));
                lemma_queued_front(self.book.levels(other));
                assert(queued_ids(self.book.levels(other))[0] == x);
                assert(queued_ids(self.book.levels(other)).len() > 0);
                assert(trades@.len() < queued_ids(ob.levels(other)).len());
                assert(queued_ids(ob.levels(other)).skip(trades@.len() as int)[0] == x);
                assert(head.id == x);
                assert(head.side == other);
                assert(head.price == self.book.levels(other)[0].0);
            }
            let crosses = match side {
                Side::Buy => price >= head.price,
                Side::Sell => price <= head.price,
            };
            if !crosses {
                done = true;
                continue;
            }
            let fill = if remaining < head.quantity { remaining } else { head.quantity };
            let t = Trade {
                aggressive_order_id: id,
                passive_order_id: head.id,
                price: head.price,
                quantity: fill,
                aggressor_side: side,
                sequence: self.next_sequence,
            };
            let ghost before = self.book;
            let ghost old_trades = trades@;
            trades.push(t);
            self.next_sequence = self.next_sequence + 1;
            self.book.execute_order(head.id, fill);
            remaining = remaining - fill;
            proof {
                assert(trades@.drop_last() =~= old_trades);
                before.lemma_wf();
                if fill >= head.quantity {
                    lemma_taken_out_best(before.levels(other), self.book.levels(other), other, head.price, head.id);
                    assert(opposite(other) == side);
                    lemma_take_head(before.levels(other), self.book.levels(other), other);
                    assert(queued_ids(ob.levels(other)).skip(old_trades.len() as int).skip(1) =~= queued_ids(ob.levels(other)).skip(
                        trades@.len() as int,
                    ));
                }
                assert(trades@[old_trades.len() as int] == t);
                assert forall|x: OrderId| #[trigger] self.book.index().contains_key(x) implies before.index().contains_key(x) && self.book.index()[x].price == before.index()[x].price
                    && self.book.index()[x].side == before.index()[x].side
                    && (before.index()[x].side == side ==> self.book.index()[x] == before.index()[x]) by {
                }
                assert forall|x: OrderId| #[trigger] self.book.index().contains_key(x) implies ob.index().contains_key(x) by {
                    assert(before.index().contains_key(x));
                }
            }
        }
        let ghost mid = self.book;
        if remaining > 0 {
            proof {
                mid.lemma_qty_at_frame(&ob, side, price);
            }
            let added = self.book.add_order(id, side, price, remaining);
            proof {
                assert(added is Ok);
                mid.lemma_wf();
                lemma_appended_best(mid.levels(side), self.book.levels(side), side, price, id);
                assert(opposite(side) == other);
            }
        }
        Ok(trades)
    }

    /// Cancels a resting order, as `OrderBook::cancel_order` does.
    pub fn cancel(&mut self, id: OrderId) -> (r: bool)
        requires
            old(self).wf(),
        ensures
            final(self).wf(),
            final(self).sequence_spec() == old(self).sequence_spec(),
            r == old(self).book_spec().index().contains_key(id),
            r ==> old(self).book_spec().without_order(final(self).book_spec(), id),
            !r ==> *final(self) == *old(self),
    {
        let ghost before = self.book;
        let r = self.book.cancel_order(id);
        proof {
            if r {
                before.lemma_wf();
                let o = before.index()[id];
                lemma_taken_out_best(before.levels(o.side), self.book.levels(o.side), o.side, o.price, id);
            }
        }
        r
    }

    /// Fills part or all of a resting order, as `OrderBook::execute_order` does.
    pub fn execute(&mut self, id: OrderId, quantity: Quantity) -> (r: bool)
        requires
            old(self).wf(),
        ensures
            final(self).wf(),
            final(self).sequence_spec() == old(self).sequence_spec(),
            r == old(self).book_spec().index().contains_key(id),
            !r ==> *final(self) == *old(self),
            r && quantity >= old(self).book_spec().index()[id].quantity ==> old(self).book_spec().without_order(
                final(self).book_spec(),
                id,
            ),
            r && quantity < old(self).book_spec().index()[id].quantity ==> {
                &&& final(self).book_spec().index() == old(self).book_spec().index().insert(
                    id,
                    crate::levels::with_quantity(
                        old(self).book_spec().index()[id],
                        (old(self).book_spec().index()[id].quantity - quantity) as Quantity,
                    ),
                )
                &&& final(self).book_spec().levels(Side::Buy) == old(self).book_spec().levels(Side::Buy)
                &&& final(self).book_spec().levels(Side::Sell) == old(self).book_spec().levels(Side::Sell)
            },
    {
        let ghost before = self.book;
        let r = self.book.execute_order(id, quantity);
        proof {
            if r && quantity >= before.index()[id].quantity {
                before.lemma_wf();
                let o = before.index()[id];
                lemma_taken_out_best(before.levels(o.side), self.book.levels(o.side), o.side, o.price, id);
            }
        }
        r
    }
}

} // verus!
