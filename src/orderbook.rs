use vstd::prelude::*;
use crate::levels::{
    appended, best_of, better, has_level, lemma_appended_best, lemma_appended_rests, lemma_qty_at_level,
    lemma_qty_frame, lemma_qty_nonneg, lemma_qty_remove, lemma_queued_contains, lemma_queued_no_duplicates,
    lemma_sum_prefix, lemma_taken_out_rests, opposite, qty_at, queue_qty, queued_ids, rests_in, sorted_levels,
    sum_at_level_prices, taken_out, with_quantity, LevelView,
};
use crate::types::{BookError, Order, OrderId, Price, Quantity, Side, INVALID_PRICE};
use std::collections::HashMap;

verus! {

broadcast use vstd::std_specs::hash::group_hash_axioms;

/// All resting orders at one price, in arrival order.
struct PriceLevel {
    price: Price,
    total_quantity: Quantity,
    orders: Vec<OrderId>,
}

spec fn view_levels(v: Seq<PriceLevel>) -> Seq<LevelView> {
    v.map_values(|l: PriceLevel| (l.price, l.orders@))
}

spec fn cache_of(v: Seq<PriceLevel>) -> Option<Price> {
    if v.len() == 0 {
        None
    } else {
        Some(v[0].price)
    }
}

/// The levels of one side agree with the index `m`.
spec fn side_wf(v: Seq<PriceLevel>, side: Side, m: Map<OrderId, Order>) -> bool {
    &&& sorted_levels(view_levels(v), side)
    &&& forall|i: int|
        0 <= i < v.len() ==> {
            &&& #[trigger] v[i].price != INVALID_PRICE
            &&& v[i].orders@.len() > 0
            &&& v[i].orders@.no_duplicates()
            &&& v[i].total_quantity as int == queue_qty(v[i].orders@, m)
        }
    &&& forall|i: int, k: int|
        #![trigger v[i].orders@[k]]
        0 <= i < v.len() && 0 <= k < v[i].orders@.len() ==> {
            &&& m.contains_key(v[i].orders@[k])
            &&& m[v[i].orders@[k]].side == side
            &&& m[v[i].orders@[k]].price == v[i].price
        }
}

/// Levels that agree with `m` still agree with it after an order is indexed
/// under an id that no level holds.
proof fn lemma_side_wf_insert(v: Seq<PriceLevel>, side: Side, m: Map<OrderId, Order>, id: OrderId, o: Order)
    requires
        side_wf(v, side, m),
        !m.contains_key(id),
    ensures
        side_wf(v, side, m.insert(id, o)),
{
    let m2 = m.insert(id, o);
    assert forall|j: int| 0 <= j < v.len() implies queue_qty(v[j].orders@, m2) == queue_qty(
        v[j].orders@,
        m,
    ) by {
        assert forall|k: int| 0 <= k < v[j].orders@.len() implies m[
            #[trigger] v[j].orders@[k]].quantity == m2[v[j].orders@[k]].quantity by {
            assert(m.contains_key(v[j].orders@[k]));
        }
        lemma_qty_frame(v[j].orders@, m, m2);
    }
}

/// Levels that agree with `m` agree with any `m2` that differs from `m` only at
/// an id that no level holds.
proof fn lemma_side_wf_frame(v: Seq<PriceLevel>, side: Side, m: Map<OrderId, Order>, m2: Map<OrderId, Order>, id: OrderId)
    requires
        side_wf(v, side, m),
        forall|i: int, t: int| 0 <= i < v.len() && 0 <= t < v[i].orders@.len() ==> #[trigger] v[i].orders@[t] != id,
        forall|x: OrderId| x != id ==> (#[trigger] m2.contains_key(x) == m.contains_key(x) && m2[x] == m[x]),
    ensures
        side_wf(v, side, m2),
{
    assert forall|j: int| 0 <= j < v.len() implies queue_qty(v[j].orders@, m2) == queue_qty(
        v[j].orders@,
        m,
    ) by {
        assert forall|k: int| 0 <= k < v[j].orders@.len() implies m[
            #[trigger] v[j].orders@[k]].quantity == m2[v[j].orders@[k]].quantity by {
            assert(v[j].orders@[k] != id);
            assert(m2.contains_key(v[j].orders@[k]) == m.contains_key(v[j].orders@[k]));
        }
        lemma_qty_frame(v[j].orders@, m, m2);
    }
    assert forall|j: int, t: int|
        #![trigger v[j].orders@[t]]
        0 <= j < v.len() && 0 <= t < v[j].orders@.len() implies {
            &&& m2.contains_key(v[j].orders@[t])
            &&& m2[v[j].orders@[t]].side == side
            &&& m2[v[j].orders@[t]].price == v[j].price
        } by {
        assert(v[j].orders@[t] != id);
        assert(m2.contains_key(v[j].orders@[t]) == m.contains_key(v[j].orders@[t]));
    }
}

/// On well-formed levels an id stands only in the level at its own price.
proof fn lemma_only_level(v: Seq<PriceLevel>, side: Side, m: Map<OrderId, Order>, id: OrderId, i: int)
    requires
        side_wf(v, side, m),
        0 <= i < v.len(),
        m.contains_key(id) ==> v[i].price == m[id].price,
    ensures
        forall|j: int, t: int|
            0 <= j < v.len() && j != i && 0 <= t < v[j].orders@.len() ==> #[trigger] v[j].orders@[t] != id,
{
    let lv = view_levels(v);
    assert forall|j: int, t: int|
        0 <= j < v.len() && j != i && 0 <= t < v[j].orders@.len() implies #[trigger] v[j].orders@[t] != id by {
        if v[j].orders@[t] == id {
            if j < i {
                assert(better(side, lv[j].0 as int, lv[i].0 as int));
            } else {
                assert(better(side, lv[i].0 as int, lv[j].0 as int));
            }
        }
    }
}

/// In-memory limit order book of one instrument: resting orders indexed by id,
/// bid levels best (highest) first, ask levels best (lowest) first, and the best
/// price of each side kept at hand.
pub struct OrderBook {
    orders: HashMap<OrderId, Order>,
    bid_levels: Vec<PriceLevel>,
    ask_levels: Vec<PriceLevel>,
    best_bid: Option<Price>,
    best_ask: Option<Price>,
}

impl OrderBook {
    /// Every resting order, by id.
    pub closed spec fn index(&self) -> Map<OrderId, Order> {
        self.orders@
    }

    /// The price levels of `side`, best first.
    pub closed spec fn levels(&self, side: Side) -> Seq<LevelView> {
        match side {
            Side::Buy => view_levels(self.bid_levels@),
            Side::Sell => view_levels(self.ask_levels@),
        }
    }

    pub closed spec fn wf(&self) -> bool {
        &&& side_wf(self.bid_levels@, Side::Buy, self.orders@)
        &&& side_wf(self.ask_levels@, Side::Sell, self.orders@)
        &&& self.best_bid == cache_of(self.bid_levels@)
        &&& self.best_ask == cache_of(self.ask_levels@)
        &&& forall|id: OrderId|
            #[trigger] self.orders@.contains_key(id) ==> {
                let o = self.orders@[id];
                &&& o.id == id
                &&& o.quantity > 0
                &&& o.price != INVALID_PRICE
                &&& match o.side {
                    Side::Buy => rests_in(view_levels(self.bid_levels@), id, o.price),
                    Side::Sell => rests_in(view_levels(self.ask_levels@), id, o.price),
                }
            }
    }

    pub fn new() -> (r: Self)
        ensures
            r.wf(),
            r.index() == Map::<OrderId, Order>::empty(),
            r.levels(Side::Buy).len() == 0,
            r.levels(Side::Sell).len() == 0,
    {
        let r = OrderBook {
            orders: HashMap::with_capacity(1024),
            bid_levels: Vec::with_capacity(64),
            ask_levels: Vec::with_capacity(64),
            best_bid: None,
            best_ask: None,
        };
        proof {
            assert(view_levels(r.bid_levels@) =~= Seq::<LevelView>::empty());
            assert(view_levels(r.ask_levels@) =~= Seq::<LevelView>::empty());
        }
        r
    }

    /// What `add_order` answers: the first rule that the request breaks, if any.
    pub open spec fn add_result(&self, id: OrderId, side: Side, price: Price, quantity: Quantity) -> Result<(), BookError> {
        if self.index().contains_key(id) {
            Err(BookError::DuplicateOrderId)
        } else if price == INVALID_PRICE {
            Err(BookError::InvalidPrice)
        } else if quantity == 0 {
            Err(BookError::InvalidQuantity)
        } else if qty_at(self.levels(side), self.index(), price) + quantity > 4294967295 {
            Err(BookError::QuantityOverflow)
        } else {
            Ok(())
        }
    }

    /// Rests a new order at the back of the queue at its price.
    pub fn add_order(&mut self, id: OrderId, side: Side, price: Price, quantity: Quantity) -> (r: Result<(), BookError>)
        requires
            old(self).wf(),
        ensures
            final(self).wf(),
            r == old(self).add_result(id, side, price, quantity),
            r is Ok ==> final(self).index() == old(self).index().insert(id, Order { id, price, quantity, side }),
            r is Ok ==> appended(old(self).levels(side), final(self).levels(side), side, price, id),
            r is Ok ==> final(self).levels(opposite(side)) == old(self).levels(opposite(side)),
            r is Err ==> *final(self) == *old(self),
    {
        if self.orders.contains_key(&id) {
            return Err(BookError::DuplicateOrderId);
        }
        if price == INVALID_PRICE {
            return Err(BookError::InvalidPrice);
        }
        if quantity == 0 {
            return Err(BookError::InvalidQuantity);
        }
        let ghost m = self.orders@;
        let ghost old_bids = self.bid_levels@;
        let ghost old_asks = self.ask_levels@;
        let ok = match side {
            Side::Buy => add_to_side(&mut self.bid_levels, side, id, price, quantity, Ghost(m)),
            Side::Sell => add_to_side(&mut self.ask_levels, side, id, price, quantity, Ghost(m)),
        };
        if !ok {
            return Err(BookError::QuantityOverflow);
        }
        self.orders.insert(id, Order::new(id, side, price, quantity));
        match side {
            Side::Buy => {
                self.best_bid = match self.best_bid {
                    Some(b) => if price > b { Some(price) } else { Some(b) },
                    None => Some(price),
                };
            },
            Side::Sell => {
                self.best_ask = match self.best_ask {
                    Some(b) => if price < b { Some(price) } else { Some(b) },
                    None => Some(price),
                };
            },
        }
        proof {
            let o = Order { id, price, quantity, side };
            let m2 = m.insert(id, o);
            assert(self.orders@ == m2);
            let (ov, nv) = match side {
                Side::Buy => (view_levels(old_bids), view_levels(self.bid_levels@)),
                Side::Sell => (view_levels(old_asks), view_levels(self.ask_levels@)),
            };
            lemma_appended_best(ov, nv, side, price, id);
            match side {
                Side::Buy => lemma_side_wf_insert(self.ask_levels@, Side::Sell, m, id, o),
                Side::Sell => lemma_side_wf_insert(self.bid_levels@, Side::Buy, m, id, o),
            }
            assert forall|x: OrderId| #[trigger] m2.contains_key(x) implies ({
                let ox = m2[x];
                &&& ox.id == x
                &&& ox.quantity > 0
                &&& ox.price != INVALID_PRICE
                &&& match ox.side {
                    Side::Buy => rests_in(view_levels(self.bid_levels@), x, ox.price),
                    Side::Sell => rests_in(view_levels(self.ask_levels@), x, ox.price),
                }
            }) by {
                lemma_appended_rests(ov, nv, side, price, id, x, m2[x].price);
            }
        }
        Ok(())
    }

    /// `new` is this book without resting order `id`: gone from the index and
    /// from the queue at its price, the other side untouched.
    pub open spec fn without_order(&self, new: OrderBook, id: OrderId) -> bool {
        let o = self.index()[id];
        &&& new.index() == self.index().remove(id)
        &&& taken_out(self.levels(o.side), new.levels(o.side), o.price, id)
        &&& new.levels(opposite(o.side)) == self.levels(opposite(o.side))
    }

    /// Removes resting order `id`; answers whether it was there.
    pub fn cancel_order(&mut self, id: OrderId) -> (r: bool)
        requires
            old(self).wf(),
        ensures
            final(self).wf(),
            r == old(self).index().contains_key(id),
            r ==> old(self).without_order(*final(self), id),
            !r ==> *final(self) == *old(self),
    {
        let ghost m = self.orders@;
        let ghost old_bids = self.bid_levels@;
        let ghost old_asks = self.ask_levels@;
        let o = match self.orders.get(&id) {
            Some(o) => *o,
            None => {
                return false;
            },
        };
        match o.side {
            Side::Buy => {
                remove_from_side(&mut self.bid_levels, Side::Buy, id, o.price, o.quantity, Ghost(m));
                self.best_bid = first_price(&self.bid_levels);
            },
            Side::Sell => {
                remove_from_side(&mut self.ask_levels, Side::Sell, id, o.price, o.quantity, Ghost(m));
                self.best_ask = first_price(&self.ask_levels);
            },
        }
        self.orders.remove(&id);
        proof {
            let m2 = m.remove(id);
            match o.side {
                Side::Buy => {
                    assert forall|i: int, t: int| 0 <= i < old_asks.len() && 0 <= t < old_asks[i].orders@.len() implies #[trigger] old_asks[i].orders@[t] != id by {}
                    lemma_side_wf_frame(old_asks, Side::Sell, m, m2, id);
                },
                Side::Sell => {
                    assert forall|i: int, t: int| 0 <= i < old_bids.len() && 0 <= t < old_bids[i].orders@.len() implies #[trigger] old_bids[i].orders@[t] != id by {}
                    lemma_side_wf_frame(old_bids, Side::Buy, m, m2, id);
                },
            }
            assert forall|x: OrderId| #[trigger] m2.contains_key(x) implies ({
                let ox = m2[x];
                &&& ox.id == x
                &&& ox.quantity > 0
                &&& ox.price != INVALID_PRICE
                &&& match ox.side {
                    Side::Buy => rests_in(view_levels(self.bid_levels@), x, ox.price),
                    Side::Sell => rests_in(view_levels(self.ask_levels@), x, ox.price),
                }
            }) by {
                assert(m.contains_key(x));
                if m[x].side == o.side {
                    match o.side {
                        Side::Buy => lemma_taken_out_rests(view_levels(old_bids), view_levels(self.bid_levels@), o.price, id, x, m[x].price),
                        Side::Sell => lemma_taken_out_rests(view_levels(old_asks), view_levels(self.ask_levels@), o.price, id, x, m[x].price),
                    }
                }
            }
        }
        true
    }

    /// Fills up to `quantity` of resting order `id`: an order filled entirely
    /// leaves the book as on cancel, otherwise it keeps its place with less
    /// remaining. Answers whether the order was there.
    pub fn execute_order(&mut self, id: OrderId, quantity: Quantity) -> (r: bool)
        requires
            old(self).wf(),
        ensures
            final(self).wf(),
            r == old(self).index().contains_key(id),
            !r ==> *final(self) == *old(self),
            r && quantity >= old(self).index()[id].quantity ==> old(self).without_order(*final(self), id),
            r && quantity < old(self).index()[id].quantity ==> {
                &&& final(self).index() == old(self).index().insert(
                    id,
                    with_quantity(old(self).index()[id], (old(self).index()[id].quantity - quantity) as Quantity),
                )
                &&& final(self).levels(Side::Buy) == old(self).levels(Side::Buy)
                &&& final(self).levels(Side::Sell) == old(self).levels(Side::Sell)
            },
    {
        let ghost m = self.orders@;
        let ghost old_bids = self.bid_levels@;
        let ghost old_asks = self.ask_levels@;
        let o = match self.orders.get(&id) {
            Some(o) => *o,
            None => {
                return false;
            },
        };
        if quantity >= o.quantity {
            return self.cancel_order(id);
        }
        match o.side {
            Side::Buy => reduce_on_side(&mut self.bid_levels, Side::Buy, id, o.price, quantity, Ghost(m)),
            Side::Sell => reduce_on_side(&mut self.ask_levels, Side::Sell, id, o.price, quantity, Ghost(m)),
        }
        self.orders.insert(id, Order::new(id, o.side, o.price, o.quantity - quantity));
        proof {
            let m2 = m.insert(id, with_quantity(o, (o.quantity - quantity) as Quantity));
            assert(self.orders@ == m2);
            match o.side {
                Side::Buy => {
                    assert forall|i: int, t: int| 0 <= i < old_asks.len() && 0 <= t < old_asks[i].orders@.len() implies #[trigger] old_asks[i].orders@[t] != id by {}
                    lemma_side_wf_frame(old_asks, Side::Sell, m, m2, id);
                },
                Side::Sell => {
                    assert forall|i: int, t: int| 0 <= i < old_bids.len() && 0 <= t < old_bids[i].orders@.len() implies #[trigger] old_bids[i].orders@[t] != id by {}
                    lemma_side_wf_frame(old_bids, Side::Buy, m, m2, id);
                },
            }
            assert forall|x: OrderId| #[trigger] m2.contains_key(x) implies ({
                let ox = m2[x];
                &&& ox.id == x
                &&& ox.quantity > 0
                &&& ox.price != INVALID_PRICE
                &&& match ox.side {
                    Side::Buy => rests_in(view_levels(self.bid_levels@), x, ox.price),
                    Side::Sell => rests_in(view_levels(self.ask_levels@), x, ox.price),
                }
            }) by {
                assert(m.contains_key(x));
            }
        }
        true
    }

    /// Facts that every well-formed book offers its callers.
    pub proof fn lemma_wf(&self)
        requires
            self.wf(),
        ensures
            sorted_levels(self.levels(Side::Buy), Side::Buy),
            sorted_levels(self.levels(Side::Sell), Side::Sell),
            forall|id: OrderId| #[trigger] self.index().contains_key(id) ==> {
                &&& self.index()[id].id == id
                &&& self.index()[id].quantity > 0
                &&& self.index()[id].price != INVALID_PRICE
                &&& rests_in(self.levels(self.index()[id].side), id, self.index()[id].price)
            },
            forall|side: Side, i: int| 0 <= i < self.levels(side).len() ==> #[trigger] self.levels(side)[i].1.len() > 0,
            forall|side: Side, i: int| 0 <= i < self.levels(side).len() ==> (#[trigger] self.levels(side)[i]).1.no_duplicates(),
            forall|side: Side, i: int, k: int|
                0 <= i < self.levels(side).len() && 0 <= k < self.levels(side)[i].1.len() ==> {
                    let x = #[trigger] self.levels(side)[i].1[k];
                    &&& self.index().contains_key(x)
                    &&& self.index()[x].side == side
                    &&& self.index()[x].price == self.levels(side)[i].0
                },
    {
        assert forall|side: Side, i: int, k: int|
            0 <= i < self.levels(side).len() && 0 <= k < self.levels(side)[i].1.len() implies {
                let x = #[trigger] self.levels(side)[i].1[k];
                &&& self.index().contains_key(x)
                &&& self.index()[x].side == side
                &&& self.index()[x].price == self.levels(side)[i].0
            } by {
            match side {
                Side::Buy => assert(self.bid_levels@[i].orders@[k] == self.levels(side)[i].1[k]),
                Side::Sell => assert(self.ask_levels@[i].orders@[k] == self.levels(side)[i].1[k]),
            }
        }
        assert forall|side: Side, i: int| 0 <= i < self.levels(side).len() implies (#[trigger] self.levels(side)[i]).1.len() > 0
            && self.levels(side)[i].1.no_duplicates() by {
            match side {
                Side::Buy => assert(self.bid_levels@[i].price != INVALID_PRICE),
                Side::Sell => assert(self.ask_levels@[i].price != INVALID_PRICE),
            }
        }
    }

    /// The cached best price of a side is the best price among the resting
    /// orders of that side, and the "no price" value exactly when it has none.
    pub proof fn lemma_best_is_extreme(&self, side: Side)
        requires
            self.wf(),
        ensures
            best_of(self.levels(side)) == INVALID_PRICE <==> forall|id: OrderId|
                #[trigger] self.index().contains_key(id) ==> self.index()[id].side != side,
            forall|id: OrderId|
                #[trigger] self.index().contains_key(id) && self.index()[id].side == side ==> !better(
                    side,
                    self.index()[id].price as int,
                    best_of(self.levels(side)) as int,
                ),
            best_of(self.levels(side)) != INVALID_PRICE ==> exists|id: OrderId|
                #[trigger] self.index().contains_key(id) && self.index()[id].side == side
                    && self.index()[id].price == best_of(self.levels(side)),
    {
        self.lemma_wf();
        let lv = self.levels(side);
        assert forall|id: OrderId|
            #[trigger] self.index().contains_key(id) && self.index()[id].side == side implies lv.len() > 0 && !better(
                side,
                self.index()[id].price as int,
                best_of(lv) as int,
            ) by {
            let o = self.index()[id];
            let i = choose|i: int| 0 <= i < lv.len() && lv[i].0 == o.price && #[trigger] lv[i].1.contains(id);
            if i > 0 {
                assert(better(side, lv[0].0 as int, lv[i].0 as int));
            }
        }
        if lv.len() > 0 {
            let x = lv[0].1[0];
            assert(self.index().contains_key(x));
            match side {
                Side::Buy => assert(self.bid_levels@[0].price != INVALID_PRICE),
                Side::Sell => assert(self.ask_levels@[0].price != INVALID_PRICE),
            }
        }
    }

    /// Quantity is conserved: summing `qty_at` over the distinct level prices of
    /// `side` gives the remaining quantities of that side's resting orders, each
    /// counted once.
    #[verifier::rlimit(40)]
    pub proof fn lemma_quantity_conserved(&self, side: Side)
        requires
            self.wf(),
        ensures
            sum_at_level_prices(self.levels(side), self.index(), self.levels(side).len() as int) == queue_qty(
                queued_ids(self.levels(side)),
                self.index(),
            ),
            queued_ids(self.levels(side)).no_duplicates(),
            forall|id: OrderId|
                #[trigger] queued_ids(self.levels(side)).contains(id) <==> self.index().contains_key(id)
                    && self.index()[id].side == side,
    {
        self.lemma_wf();
        let lv = self.levels(side);
        let m = self.index();
        lemma_sum_prefix(lv, side, m, lv.len() as int);
        assert(lv.take(lv.len() as int) =~= lv);
        assert forall|i: int| 0 <= i < lv.len() implies (#[trigger] lv[i]).1.no_duplicates() by {
            match side {
                Side::Buy => assert(self.bid_levels@[i].price != INVALID_PRICE),
                Side::Sell => assert(self.ask_levels@[i].price != INVALID_PRICE),
            }
        }
        lemma_queued_no_duplicates(lv, side, m);
        assert forall|id: OrderId| #[trigger] queued_ids(lv).contains(id) <==> m.contains_key(id) && m[id].side == side by {
            lemma_queued_contains(lv, id);
            if queued_ids(lv).contains(id) {
                let i = choose|i: int| 0 <= i < lv.len() && #[trigger] lv[i].1.contains(id);
                let k = choose|k: int| 0 <= k < lv[i].1.len() && lv[i].1[k] == id;
                assert(m.contains_key(lv[i].1[k]));
            }
            if m.contains_key(id) && m[id].side == side {
                let i = choose|i: int| 0 <= i < lv.len() && lv[i].0 == m[id].price && #[trigger] lv[i].1.contains(id);
            }
        }
    }

    /// The oldest order at the best price of `side`, if that side is not empty.
    pub fn best_order(&self, side: Side) -> (r: Option<Order>)
        requires
            self.wf(),
        ensures
            self.levels(side).len() == 0 ==> r is None,
            self.levels(side).len() > 0 ==> r == Some(self.index()[self.levels(side)[0].1[0]]),
    {
        let levels = match side {
            Side::Buy => &self.bid_levels,
            Side::Sell => &self.ask_levels,
        };
        if levels.len() == 0 {
            return None;
        }
        let id = levels[0].orders[0];
        proof {
            assert(self.levels(side)[0].1[0] == id);
        }
        match self.orders.get(&id) {
            Some(o) => Some(*o),
            None => None,
        }
    }

    /// Total remaining quantity resting on `side` at exactly `price`; zero where there is no such level.
    pub fn quantity_at(&self, side: Side, price: Price) -> (r: Quantity)
        requires
            self.wf(),
        ensures
            r == qty_at(self.levels(side), self.index(), price),
    {
        match side {
            Side::Buy => self.bid_quantity_at(price),
            Side::Sell => self.ask_quantity_at(price),
        }
    }

    /// The quantity resting at a price of `side` depends only on the orders of that side.
    pub proof fn lemma_qty_at_frame(&self, other: &OrderBook, side: Side, p: Price)
        requires
            self.wf(),
            other.wf(),
            self.levels(side) == other.levels(side),
            forall|x: OrderId|
                #[trigger] self.index().contains_key(x) && self.index()[x].side == side ==> other.index().contains_key(x)
                    && other.index()[x] == self.index()[x],
        ensures
            qty_at(self.levels(side), self.index(), p) == qty_at(other.levels(side), other.index(), p),
    {
        self.lemma_wf();
        let lv = self.levels(side);
        if has_level(lv, p) {
            let i = choose|i: int| 0 <= i < lv.len() && lv[i].0 == p;
            let q = lv[i].1;
            assert forall|k: int| 0 <= k < q.len() implies self.index()[#[trigger] q[k]].quantity == other.index()[q[k]].quantity by {
                assert(lv[i].1[k] == q[k]);
                assert(self.index().contains_key(q[k]));
            }
            lemma_qty_frame(q, self.index(), other.index());
        }
    }

    /// Whether an order with id `id` rests in the book.
    pub fn index_contains(&self, id: OrderId) -> (r: bool)
        ensures
            r == self.index().contains_key(id),
    {
        self.orders.contains_key(&id)
    }

    pub fn best_bid(&self) -> (r: Price)
        requires
            self.wf(),
        ensures
            r == best_of(self.levels(Side::Buy)),
    {
        match self.best_bid {
            Some(p) => p,
            None => INVALID_PRICE,
        }
    }

    pub fn best_ask(&self) -> (r: Price)
        requires
            self.wf(),
        ensures
            r == best_of(self.levels(Side::Sell)),
    {
        match self.best_ask {
            Some(p) => p,
            None => INVALID_PRICE,
        }
    }

    pub fn bid_quantity_at(&self, price: Price) -> (r: Quantity)
        requires
            self.wf(),
        ensures
            r == qty_at(self.levels(Side::Buy), self.index(), price),
    {
        level_total(&self.bid_levels, Side::Buy, price, Ghost(self.orders@))
    }

    pub fn ask_quantity_at(&self, price: Price) -> (r: Quantity)
        requires
            self.wf(),
        ensures
            r == qty_at(self.levels(Side::Sell), self.index(), price),
    {
        level_total(&self.ask_levels, Side::Sell, price, Ghost(self.orders@))
    }
}

impl Default for OrderBook {
    fn default() -> (r: Self)
        ensures
            r.wf(),
            r.index().is_empty(),
            r.levels(Side::Buy).len() == 0,
            r.levels(Side::Sell).len() == 0,
    {
        OrderBook::new()
    }
}

/// Position of the level at `price`, if there is one.
fn find_level(levels: &Vec<PriceLevel>, price: Price) -> (r: Option<usize>)
    ensures
        match r {
            Some(i) => i < levels@.len() && levels@[i as int].price == price,
            None => forall|i: int| 0 <= i < levels@.len() ==> levels@[i].price != price,
        },
{
    let mut i: usize = 0;
    while i < levels.len()
        invariant
            i <= levels@.len(),
            forall|j: int| 0 <= j < i ==> levels@[j].price != price,
        decreases levels@.len() - i,
    {
        if levels[i].price == price {
            return Some(i);
        }
        i = i + 1;
    }
    None
}

fn level_total(levels: &Vec<PriceLevel>, side: Side, price: Price, Ghost(m): Ghost<Map<OrderId, Order>>) -> (r: Quantity)
    requires
        side_wf(levels@, side, m),
    ensures
        r == qty_at(view_levels(levels@), m, price),
{
    match find_level(levels, price) {
        Some(i) => {
            proof {
                lemma_qty_at_level(view_levels(levels@), side, m, i as int);
            }
            levels[i].total_quantity
        },
        None => {
            proof {
                assert(!has_level(view_levels(levels@), price));
            }
            0
        },
    }
}

fn is_better(side: Side, a: Price, b: Price) -> (r: bool)
    ensures
        r == better(side, a as int, b as int),
{
    match side {
        Side::Buy => a > b,
        Side::Sell => a < b,
    }
}

/// Index at which a new level at `price` keeps `levels` sorted.
fn insert_position(levels: &Vec<PriceLevel>, side: Side, price: Price) -> (r: usize)
    ensures
        r <= levels@.len(),
        forall|j: int| 0 <= j < r ==> !better(side, price as int, #[trigger] levels@[j].price as int),
        r < levels@.len() ==> better(side, price as int, levels@[r as int].price as int),
{
    let mut i: usize = 0;
    while i < levels.len()
        invariant
            i <= levels@.len(),
            forall|j: int| 0 <= j < i ==> !better(side, price as int, #[trigger] levels@[j].price as int),
        decreases levels@.len() - i,
    {
        if is_better(side, price, levels[i].price) {
            return i;
        }
        i = i + 1;
    }
    i
}

/// Appends `id` to the queue at `price`, creating the level in sorted position
/// if needed; refuses (and changes nothing) when the level's total would overflow.
fn add_to_side(
    levels: &mut Vec<PriceLevel>,
    side: Side,
    id: OrderId,
    price: Price,
    quantity: Quantity,
    Ghost(m): Ghost<Map<OrderId, Order>>,
) -> (ok: bool)
    requires
        side_wf(old(levels)@, side, m),
        price != INVALID_PRICE,
        quantity > 0,
        !m.contains_key(id),
    ensures
        ok == (qty_at(view_levels(old(levels)@), m, price) + quantity <= 4294967295),
        ok ==> appended(view_levels(old(levels)@), view_levels(final(levels)@), side, price, id),
        ok ==> side_wf(final(levels)@, side, m.insert(id, Order { id, price, quantity, side })),
        !ok ==> *final(levels) == *old(levels),
{
    let ghost m2 = m.insert(id, Order { id, price, quantity, side });
    let ghost ov = view_levels(levels@);
    let ghost old_v = levels@;
    match find_level(levels, price) {
        Some(i) => {
            let total = levels[i].total_quantity;
            proof {
                lemma_qty_at_level(ov, side, m, i as int);
            }
            if total > 4294967295 - quantity {
                return false;
            }
            levels[i].orders.push(id);
            levels[i].total_quantity = total + quantity;
            proof {
                let q = old_v[i as int].orders@;
                assert(view_levels(levels@) =~= ov.update(i as int, (price, q.push(id))));
                assert(!q.contains(id)) by {
                    if q.contains(id) {
                        let k = choose|k: int| 0 <= k < q.len() && q[k] == id;
                        assert(m.contains_key(old_v[i as int].orders@[k]));
                    }
                }
                assert forall|j: int| 0 <= j < levels@.len() implies queue_qty(
                    old_v[j].orders@,
                    m2,
                ) == queue_qty(old_v[j].orders@, m) by {
                    assert forall|k: int| 0 <= k < old_v[j].orders@.len() implies m[
                        #[trigger] old_v[j].orders@[k]].quantity == m2[old_v[j].orders@[k]].quantity by {
                        assert(m.contains_key(old_v[j].orders@[k]));
                    }
                    lemma_qty_frame(old_v[j].orders@, m, m2);
                }
                assert(q.push(id).drop_last() =~= q);
                assert(queue_qty(q.push(id), m2) == queue_qty(q, m2) + quantity);
                assert forall|j: int, k: int|
                    #![trigger levels@[j].orders@[k]]
                    0 <= j < levels@.len() && 0 <= k < levels@[j].orders@.len() implies {
                        &&& m2.contains_key(levels@[j].orders@[k])
                        &&& m2[levels@[j].orders@[k]].side == side
                        &&& m2[levels@[j].orders@[k]].price == levels@[j].price
                    } by {
                    if j == i && k == q.len() {
                    } else {
                        assert(levels@[j].orders@[k] == old_v[j].orders@[k]);
                    }
                }
                assert(appended(ov, view_levels(levels@), side, price, id));
                assert(side_wf(levels@, side, m2));
            }
            true
        },
        None => {
            let pos = insert_position(levels, side, price);
            let level = PriceLevel { price, total_quantity: quantity, orders: vec![id] };
            proof {
                assert(level.orders@ =~= seq![id]);
            }
            levels.insert(pos, level);
            proof {
                assert(!has_level(ov, price));
                assert(qty_at(ov, m, price) == 0);
                let nv = view_levels(levels@);
                assert(levels@[pos as int].orders@ == seq![id]);
                assert(nv =~= ov.insert(pos as int, (price, seq![id])));
                assert(seq![id].drop_last() =~= Seq::<OrderId>::empty());
                assert(seq![id].last() == id);
                assert(queue_qty(seq![id].drop_last(), m2) == 0);
                assert(m2[id].quantity == quantity);
                assert(queue_qty(seq![id], m2) == quantity);
                assert forall|a: int, b: int|
                    0 <= a < b < nv.len() implies better(side, #[trigger] nv[a].0 as int, #[trigger] nv[b].0 as int) by {
                    if a < pos && b > pos {
                        assert(better(side, ov[a].0 as int, ov[b - 1].0 as int));
                    } else if a < pos && b < pos {
                        assert(better(side, ov[a].0 as int, ov[b].0 as int));
                    } else if a > pos {
                        assert(better(side, ov[a - 1].0 as int, ov[b - 1].0 as int));
                    } else if a < pos && b == pos {
                        assert(ov[a].0 != price);
                    } else {
                        if b - 1 > pos {
                            assert(better(side, ov[pos as int].0 as int, ov[b - 1].0 as int));
                        }
                    }
                }
                assert forall|j: int| 0 <= j < old_v.len() implies queue_qty(
                    old_v[j].orders@,
                    m2,
                ) == queue_qty(old_v[j].orders@, m) by {
                    assert forall|k: int| 0 <= k < old_v[j].orders@.len() implies m[
                        #[trigger] old_v[j].orders@[k]].quantity == m2[old_v[j].orders@[k]].quantity by {
                        assert(m.contains_key(old_v[j].orders@[k]));
                    }
                    lemma_qty_frame(old_v[j].orders@, m, m2);
                }
                assert forall|j: int|
                    0 <= j < levels@.len() implies {
                        &&& #[trigger] levels@[j].price != INVALID_PRICE
                        &&& levels@[j].orders@.len() > 0
                        &&& levels@[j].orders@.no_duplicates()
                        &&& levels@[j].total_quantity as int == queue_qty(levels@[j].orders@, m2)
                    } by {
                    if j < pos {
                        assert(levels@[j] == old_v[j]);
                    } else if j > pos {
                        assert(levels@[j] == old_v[j - 1]);
                    }
                }
                assert forall|j: int, k: int|
                    #![trigger levels@[j].orders@[k]]
                    0 <= j < levels@.len() && 0 <= k < levels@[j].orders@.len() implies {
                        &&& m2.contains_key(levels@[j].orders@[k])
                        &&& m2[levels@[j].orders@[k]].side == side
                        &&& m2[levels@[j].orders@[k]].price == levels@[j].price
                    } by {
                    if j < pos {
                        assert(levels@[j] == old_v[j]);
                        assert(levels@[j].orders@[k] == old_v[j].orders@[k]);
                    } else if j > pos {
                        assert(levels@[j] == old_v[j - 1]);
                        assert(levels@[j].orders@[k] == old_v[j - 1].orders@[k]);
                    }
                }
                assert(appended(ov, nv, side, price, id));
                assert(side_wf(levels@, side, m2));
            }
            true
        },
    }
}

/// Position of `id` in `q`, if present.
fn find_id(q: &Vec<OrderId>, id: OrderId) -> (r: Option<usize>)
    ensures
        match r {
            Some(k) => k < q@.len() && q@[k as int] == id,
            None => !q@.contains(id),
        },
{
    let mut k: usize = 0;
    while k < q.len()
        invariant
            k <= q@.len(),
            forall|t: int| 0 <= t < k ==> q@[t] != id,
        decreases q@.len() - k,
    {
        if q[k] == id {
            return Some(k);
        }
        k = k + 1;
    }
    None
}

/// Takes the resting order `id` out of its level, removing the level once its queue is empty.
fn remove_from_side(
    levels: &mut Vec<PriceLevel>,
    side: Side,
    id: OrderId,
    price: Price,
    quantity: Quantity,
    Ghost(m): Ghost<Map<OrderId, Order>>,
)
    requires
        side_wf(old(levels)@, side, m),
        m.contains_key(id),
        m[id].side == side,
        m[id].price == price,
        m[id].quantity == quantity,
        rests_in(view_levels(old(levels)@), id, m[id].price),
    ensures
        taken_out(view_levels(old(levels)@), view_levels(final(levels)@), m[id].price, id),
        side_wf(final(levels)@, side, m.remove(id)),
{
    let ghost ov = view_levels(levels@);
    let ghost old_v = levels@;
    let ghost p = m[id].price;
    let ghost m2 = m.remove(id);
    let ghost qty = m[id].quantity;
    let i = match find_level(levels, price) {
        Some(i) => i,
        None => {
            proof {
                let j = choose|j: int| 0 <= j < ov.len() && ov[j].0 == p && #[trigger] ov[j].1.contains(id);
                assert(ov[j].0 == old_v[j].price);
            }
            return ;
        },
    };
    proof {
        let j = choose|j: int| 0 <= j < ov.len() && ov[j].0 == p && #[trigger] ov[j].1.contains(id);
        if j != i {
            if j < i {
                assert(better(side, ov[j].0 as int, ov[i as int].0 as int));
            } else {
                assert(better(side, ov[i as int].0 as int, ov[j].0 as int));
            }
        }
        assert(old_v[i as int].orders@.contains(id));
    }
    let k = match find_id(&levels[i].orders, id) {
        Some(k) => k,
        None => {
            return ;
        },
    };
    let ghost q = old_v[i as int].orders@;
    proof {
        lemma_qty_remove(q, m, k as int);
        lemma_qty_nonneg(q.remove(k as int), m);
    }
    let total = levels[i].total_quantity;
    levels[i].orders.remove(k);
    levels[i].total_quantity = total - quantity;
    proof {
        let q2 = q.remove(k as int);
        assert(levels@[i as int].orders@ == q2);
        assert forall|a: int, b: int| 0 <= a < q2.len() && 0 <= b < q2.len() && a != b implies q2[a] != q2[b] by {
            let a2 = if a < k { a } else { a + 1 };
            let b2 = if b < k { b } else { b + 1 };
            assert(q2[a] == q[a2] && q2[b] == q[b2]);
        }
        assert forall|t: int| 0 <= t < q2.len() implies #[trigger] q2[t] != id by {
            let t2 = if t < k { t } else { t + 1 };
            assert(q2[t] == q[t2]);
        }
        // quantities of every other queued id are unchanged
        assert forall|j: int| 0 <= j < old_v.len() && j != i implies queue_qty(old_v[j].orders@, m2) == queue_qty(
            old_v[j].orders@,
            m,
        ) by {
            assert forall|t: int| 0 <= t < old_v[j].orders@.len() implies m[
                #[trigger] old_v[j].orders@[t]].quantity == m2[old_v[j].orders@[t]].quantity by {
                if old_v[j].orders@[t] == id {
                    if j < i {
                        assert(better(side, ov[j].0 as int, ov[i as int].0 as int));
                    } else {
                        assert(better(side, ov[i as int].0 as int, ov[j].0 as int));
                    }
                }
            }
            lemma_qty_frame(old_v[j].orders@, m, m2);
        }
        assert forall|t: int| 0 <= t < q2.len() implies m[#[trigger] q2[t]].quantity == m2[q2[t]].quantity by {}
        lemma_qty_frame(q2, m, m2);
    }
    if levels[i].orders.len() == 0 {
        levels.remove(i);
        proof {
            assert(view_levels(levels@) =~= ov.remove(i as int));
            assert forall|j: int|
                0 <= j < levels@.len() implies {
                    &&& #[trigger] levels@[j].price != INVALID_PRICE
                    &&& levels@[j].orders@.len() > 0
                    &&& levels@[j].orders@.no_duplicates()
                    &&& levels@[j].total_quantity as int == queue_qty(levels@[j].orders@, m2)
                } by {
                let j2 = if j >= i { j + 1 } else { j };
                assert(levels@[j] == old_v[j2]);
                assert(queue_qty(old_v[j2].orders@, m2) == queue_qty(old_v[j2].orders@, m));
                assert(old_v[j2].price != INVALID_PRICE);
                assert(old_v[j2].orders@.len() > 0);
                assert(old_v[j2].orders@.no_duplicates());
                assert(old_v[j2].total_quantity as int == queue_qty(old_v[j2].orders@, m));
            }
            assert forall|j: int, t: int|
                #![trigger levels@[j].orders@[t]]
                0 <= j < levels@.len() && 0 <= t < levels@[j].orders@.len() implies {
                    &&& m2.contains_key(levels@[j].orders@[t])
                    &&& m2[levels@[j].orders@[t]].side == side
                    &&& m2[levels@[j].orders@[t]].price == levels@[j].price
                } by {
                let j2 = if j >= i { j + 1 } else { j };
                assert(levels@[j] == old_v[j2]);
                assert(levels@[j].orders@[t] == old_v[j2].orders@[t]);
                if old_v[j2].orders@[t] == id {
                    if j2 < i {
                        assert(better(side, ov[j2].0 as int, ov[i as int].0 as int));
                    } else {
                        assert(better(side, ov[i as int].0 as int, ov[j2].0 as int));
                    }
                }
            }
            assert(sorted_levels(view_levels(levels@), side)) by {
                assert forall|a: int, b: int| 0 <= a < b < view_levels(levels@).len() implies better(
                    side,
                    #[trigger] view_levels(levels@)[a].0 as int,
                    #[trigger] view_levels(levels@)[b].0 as int,
                ) by {
                    let a2 = if a >= i { a + 1 } else { a };
                    let b2 = if b >= i { b + 1 } else { b };
                    assert(better(side, ov[a2].0 as int, ov[b2].0 as int));
                }
            }
            assert(taken_out(ov, view_levels(levels@), p, id));
            assert(side_wf(levels@, side, m2));
        }
    } else {
        proof {
            assert(view_levels(levels@) =~= ov.update(i as int, (p, q.remove(k as int))));
            assert forall|j: int|
                0 <= j < levels@.len() implies {
                    &&& #[trigger] levels@[j].price != INVALID_PRICE
                    &&& levels@[j].orders@.len() > 0
                    &&& levels@[j].orders@.no_duplicates()
                    &&& levels@[j].total_quantity as int == queue_qty(levels@[j].orders@, m2)
                } by {
                if j != i {
                    assert(levels@[j] == old_v[j]);
                    assert(queue_qty(old_v[j].orders@, m2) == queue_qty(old_v[j].orders@, m));
                }
            }
            assert forall|j: int, t: int|
                #![trigger levels@[j].orders@[t]]
                0 <= j < levels@.len() && 0 <= t < levels@[j].orders@.len() implies {
                    &&& m2.contains_key(levels@[j].orders@[t])
                    &&& m2[levels@[j].orders@[t]].side == side
                    &&& m2[levels@[j].orders@[t]].price == levels@[j].price
                } by {
                if j == i {
                    let t2 = if t < k { t } else { t + 1 };
                    assert(levels@[j].orders@[t] == q[t2]);
                    assert(q[t2] != id);
                } else {
                    assert(levels@[j] == old_v[j]);
                    assert(levels@[j].orders@[t] == old_v[j].orders@[t]);
                    if old_v[j].orders@[t] == id {
                        if j < i {
                            assert(better(side, ov[j].0 as int, ov[i as int].0 as int));
                        } else {
                            assert(better(side, ov[i as int].0 as int, ov[j].0 as int));
                        }
                    }
                }
            }
            assert(taken_out(ov, view_levels(levels@), p, id));
            assert(side_wf(levels@, side, m2));
        }
    }
}

/// Lowers by `amount` the remaining quantity of resting order `id`, which keeps its place.
fn reduce_on_side(
    levels: &mut Vec<PriceLevel>,
    side: Side,
    id: OrderId,
    price: Price,
    amount: Quantity,
    Ghost(m): Ghost<Map<OrderId, Order>>,
)
    requires
        side_wf(old(levels)@, side, m),
        m.contains_key(id),
        m[id].side == side,
        m[id].price == price,
        amount < m[id].quantity,
        rests_in(view_levels(old(levels)@), id, price),
    ensures
        view_levels(final(levels)@) == view_levels(old(levels)@),
        cache_of(final(levels)@) == cache_of(old(levels)@),
        side_wf(final(levels)@, side, m.insert(id, with_quantity(m[id], (m[id].quantity - amount) as Quantity))),
{
    let ghost ov = view_levels(levels@);
    let ghost old_v = levels@;
    let ghost m2 = m.insert(id, with_quantity(m[id], (m[id].quantity - amount) as Quantity));
    let i = match find_level(levels, price) {
        Some(i) => i,
        None => {
            proof {
                let j = choose|j: int| 0 <= j < ov.len() && ov[j].0 == price && #[trigger] ov[j].1.contains(id);
                assert(ov[j].0 == old_v[j].price);
            }
            return ;
        },
    };
    let ghost q = old_v[i as int].orders@;
    proof {
        lemma_only_level(old_v, side, m, id, i as int);
        let j = choose|j: int| 0 <= j < ov.len() && ov[j].0 == price && #[trigger] ov[j].1.contains(id);
        let t = choose|t: int| 0 <= t < ov[j].1.len() && ov[j].1[t] == id;
        assert(old_v[j].orders@[t] == id);
        assert(q.contains(id));
        let k = choose|k: int| 0 <= k < q.len() && q[k] == id;
        lemma_qty_remove(q, m, k);
        lemma_qty_remove(q, m2, k);
        lemma_qty_nonneg(q.remove(k), m);
        let q2 = q.remove(k);
        assert forall|t2: int| 0 <= t2 < q2.len() implies m[#[trigger] q2[t2]].quantity == m2[q2[t2]].quantity by {
            let t3 = if t2 < k { t2 } else { t2 + 1 };
            assert(q2[t2] == q[t3]);
        }
        lemma_qty_frame(q2, m, m2);
    }
    let total = levels[i].total_quantity;
    levels[i].total_quantity = total - amount;
    proof {
        assert(view_levels(levels@) =~= ov);
        if levels@.len() > 0 {
            assert(levels@[0].price == ov[0].0);
        }
        assert forall|j: int| 0 <= j < old_v.len() && j != i implies queue_qty(old_v[j].orders@, m2) == queue_qty(
            old_v[j].orders@,
            m,
        ) by {
            assert forall|t: int| 0 <= t < old_v[j].orders@.len() implies m[
                #[trigger] old_v[j].orders@[t]].quantity == m2[old_v[j].orders@[t]].quantity by {
                assert(old_v[j].orders@[t] != id);
            }
            lemma_qty_frame(old_v[j].orders@, m, m2);
        }
        assert forall|j: int|
            0 <= j < levels@.len() implies {
                &&& #[trigger] levels@[j].price != INVALID_PRICE
                &&& levels@[j].orders@.len() > 0
                &&& levels@[j].orders@.no_duplicates()
                &&& levels@[j].total_quantity as int == queue_qty(levels@[j].orders@, m2)
            } by {
            if j != i {
                assert(levels@[j] == old_v[j]);
                assert(queue_qty(old_v[j].orders@, m2) == queue_qty(old_v[j].orders@, m));
                assert(old_v[j].price != INVALID_PRICE);
            }
        }
        assert forall|j: int, t: int|
            #![trigger levels@[j].orders@[t]]
            0 <= j < levels@.len() && 0 <= t < levels@[j].orders@.len() implies {
                &&& m2.contains_key(levels@[j].orders@[t])
                &&& m2[levels@[j].orders@[t]].side == side
                &&& m2[levels@[j].orders@[t]].price == levels@[j].price
            } by {
            assert(levels@[j].orders@[t] == old_v[j].orders@[t]);
        }
    }
}

fn first_price(levels: &Vec<PriceLevel>) -> (r: Option<Price>)
    ensures
        r == cache_of(levels@),
{
    if levels.len() > 0 {
        Some(levels[0].price)
    } else {
        None
    }
}

} // verus!
