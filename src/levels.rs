use vstd::prelude::*;
use crate::types::{Order, OrderId, Price, Quantity, Side, INVALID_PRICE};

verus! {

/// One price level as contracts see it: its price and its queue of order ids, oldest first.
pub type LevelView = (Price, Seq<OrderId>);

/// `a` is a strictly better price than `b` for resting orders of `side`.
pub open spec fn better(side: Side, a: int, b: int) -> bool {
    match side {
        Side::Buy => a > b,
        Side::Sell => a < b,
    }
}

/// Sum of the remaining quantities of the orders whose ids are in `q`.
pub open spec fn queue_qty(q: Seq<OrderId>, m: Map<OrderId, Order>) -> int
    decreases q.len(),
{
    if q.len() == 0 {
        0
    } else {
        queue_qty(q.drop_last(), m) + m[q.last()].quantity
    }
}

/// Levels ordered best first, with no price twice.
pub open spec fn sorted_levels(lv: Seq<LevelView>, side: Side) -> bool {
    forall|i: int, j: int|
        0 <= i < j < lv.len() ==> better(side, #[trigger] lv[i].0 as int, #[trigger] lv[j].0 as int)
}

pub open spec fn has_level(lv: Seq<LevelView>, p: Price) -> bool {
    exists|i: int| 0 <= i < lv.len() && lv[i].0 == p
}

/// Total remaining quantity resting at price `p`; zero where no level has that price.
pub open spec fn qty_at(lv: Seq<LevelView>, m: Map<OrderId, Order>, p: Price) -> int {
    if has_level(lv, p) {
        queue_qty(lv[choose|i: int| 0 <= i < lv.len() && lv[i].0 == p].1, m)
    } else {
        0
    }
}

/// Price of the best level, or the "no price" value on an empty side.
pub open spec fn best_of(lv: Seq<LevelView>) -> Price {
    if lv.len() == 0 {
        INVALID_PRICE
    } else {
        lv[0].0
    }
}

/// `new` is `old` with `id` appended to the queue at price `p`; where no level has
/// that price, a level holding only `id` is inserted where it keeps `new` sorted.
pub open spec fn appended(
    old_lv: Seq<LevelView>,
    new_lv: Seq<LevelView>,
    side: Side,
    p: Price,
    id: OrderId,
) -> bool {
    ||| exists|i: int|
        0 <= i < old_lv.len() && old_lv[i].0 == p && new_lv == old_lv.update(
            i,
            (p, old_lv[i].1.push(id)),
        )
    ||| !has_level(old_lv, p) && sorted_levels(new_lv, side) && exists|k: int|
        0 <= k <= old_lv.len() && new_lv == old_lv.insert(k, (p, seq![id]))
}

/// `new` is `old` with `id` taken out of the queue at price `p`; a level left
/// with an empty queue is removed.
pub open spec fn taken_out(
    old_lv: Seq<LevelView>,
    new_lv: Seq<LevelView>,
    p: Price,
    id: OrderId,
) -> bool {
    exists|i: int, k: int|
        0 <= i < old_lv.len() && old_lv[i].0 == p && 0 <= k < old_lv[i].1.len() && old_lv[i].1[k]
            == id && ({
            let q = old_lv[i].1.remove(k);
            if q.len() == 0 {
                new_lv == old_lv.remove(i)
            } else {
                new_lv == old_lv.update(i, (p, q))
            }
        })
}

pub open spec fn opposite(side: Side) -> Side {
    match side {
        Side::Buy => Side::Sell,
        Side::Sell => Side::Buy,
    }
}

/// Id `id` stands in the queue of a level at price `p`.
pub open spec fn rests_in(lv: Seq<LevelView>, id: OrderId, p: Price) -> bool {
    exists|i: int| 0 <= i < lv.len() && lv[i].0 == p && #[trigger] lv[i].1.contains(id)
}

/// Order `o` with its remaining quantity replaced by `q`.
pub open spec fn with_quantity(o: Order, q: Quantity) -> Order {
    Order { id: o.id, price: o.price, quantity: q, side: o.side }
}

/// Ids queued on levels `lv`, level by level, each queue oldest first.
pub open spec fn queued_ids(lv: Seq<LevelView>) -> Seq<OrderId>
    decreases lv.len(),
{
    if lv.len() == 0 {
        Seq::empty()
    } else {
        queued_ids(lv.drop_last()) + lv.last().1
    }
}

/// Sum of `qty_at` over the prices of the first `n` levels of `lv`.
pub open spec fn sum_at_level_prices(lv: Seq<LevelView>, m: Map<OrderId, Order>, n: int) -> int
    decreases n,
{
    if n <= 0 {
        0
    } else {
        sum_at_level_prices(lv, m, n - 1) + qty_at(lv, m, lv[n - 1].0)
    }
}

pub proof fn lemma_qty_frame(q: Seq<OrderId>, m1: Map<OrderId, Order>, m2: Map<OrderId, Order>)
    requires
        forall|k: int| 0 <= k < q.len() ==> m1[#[trigger] q[k]].quantity == m2[q[k]].quantity,
    ensures
        queue_qty(q, m1) == queue_qty(q, m2),
    decreases q.len(),
{
    if q.len() > 0 {
        assert(q.last() == q[q.len() - 1]);
        lemma_qty_frame(q.drop_last(), m1, m2);
    }
}

pub proof fn lemma_qty_remove(q: Seq<OrderId>, m: Map<OrderId, Order>, k: int)
    requires
        0 <= k < q.len(),
    ensures
        queue_qty(q, m) == queue_qty(q.remove(k), m) + m[q[k]].quantity,
    decreases q.len(),
{
    if k < q.len() - 1 {
        let r = q.remove(k);
        assert(r.drop_last() =~= q.drop_last().remove(k));
        assert(r.last() == q.last());
        lemma_qty_remove(q.drop_last(), m, k);
    } else {
        assert(q.remove(k) =~= q.drop_last());
    }
}

pub proof fn lemma_qty_nonneg(q: Seq<OrderId>, m: Map<OrderId, Order>)
    ensures
        queue_qty(q, m) >= 0,
    decreases q.len(),
{
    if q.len() > 0 {
        lemma_qty_nonneg(q.drop_last(), m);
    }
}

pub proof fn lemma_qty_concat(a: Seq<OrderId>, b: Seq<OrderId>, m: Map<OrderId, Order>)
    ensures
        queue_qty(a + b, m) == queue_qty(a, m) + queue_qty(b, m),
    decreases b.len(),
{
    if b.len() == 0 {
        assert(a + b =~= a);
    } else {
        assert((a + b).drop_last() =~= a + b.drop_last());
        assert((a + b).last() == b.last());
        lemma_qty_concat(a, b.drop_last(), m);
    }
}

pub proof fn lemma_qty_at_level(lv: Seq<LevelView>, side: Side, m: Map<OrderId, Order>, i: int)
    requires
        sorted_levels(lv, side),
        0 <= i < lv.len(),
    ensures
        has_level(lv, lv[i].0),
        qty_at(lv, m, lv[i].0) == queue_qty(lv[i].1, m),
{
    let p = lv[i].0;
    assert(has_level(lv, p));
    let j = choose|j: int| 0 <= j < lv.len() && lv[j].0 == p;
    if j != i {
        if j < i {
            assert(better(side, lv[j].0 as int, lv[i].0 as int));
        } else {
            assert(better(side, lv[i].0 as int, lv[j].0 as int));
        }
    }
}

pub proof fn lemma_appended_rests(
    ov: Seq<LevelView>,
    nv: Seq<LevelView>,
    side: Side,
    p: Price,
    id: OrderId,
    x: OrderId,
    px: Price,
)
    requires
        appended(ov, nv, side, p, id),
    ensures
        rests_in(nv, id, p),
        rests_in(ov, x, px) ==> rests_in(nv, x, px),
{
    if exists|i: int|
        0 <= i < ov.len() && ov[i].0 == p && nv == ov.update(i, (p, ov[i].1.push(id))) {
        let i = choose|i: int|
            0 <= i < ov.len() && ov[i].0 == p && nv == ov.update(i, (p, ov[i].1.push(id)));
        assert(nv[i].1[ov[i].1.len() as int] == id);
        assert(nv[i].1.contains(id));
        if rests_in(ov, x, px) {
            let j = choose|j: int| 0 <= j < ov.len() && ov[j].0 == px && #[trigger] ov[j].1.contains(x);
            let t = choose|t: int| 0 <= t < ov[j].1.len() && ov[j].1[t] == x;
            assert(nv[j].1[t] == x);
            assert(nv[j].1.contains(x));
        }
    } else {
        let k = choose|k: int| 0 <= k <= ov.len() && nv == ov.insert(k, (p, seq![id]));
        assert(nv[k].1[0] == id);
        assert(nv[k].1.contains(id));
        if rests_in(ov, x, px) {
            let j = choose|j: int| 0 <= j < ov.len() && ov[j].0 == px && #[trigger] ov[j].1.contains(x);
            if j < k {
                assert(nv[j] == ov[j]);
                assert(nv[j].1.contains(x));
            } else {
                assert(nv[j + 1] == ov[j]);
                assert(nv[j + 1].1.contains(x));
            }
        }
    }
}

pub proof fn lemma_appended_best(ov: Seq<LevelView>, nv: Seq<LevelView>, side: Side, p: Price, id: OrderId)
    requires
        appended(ov, nv, side, p, id),
        sorted_levels(ov, side),
    ensures
        nv.len() > 0,
        nv[0].0 == (if ov.len() == 0 || better(side, p as int, ov[0].0 as int) { p } else { ov[0].0 }),
{
    if exists|i: int|
        0 <= i < ov.len() && ov[i].0 == p && nv == ov.update(i, (p, ov[i].1.push(id))) {
        let i = choose|i: int|
            0 <= i < ov.len() && ov[i].0 == p && nv == ov.update(i, (p, ov[i].1.push(id)));
        if i > 0 {
            assert(better(side, ov[0].0 as int, ov[i].0 as int));
        }
    } else {
        let k = choose|k: int| 0 <= k <= ov.len() && nv == ov.insert(k, (p, seq![id]));
        if k > 0 {
            assert(better(side, nv[0].0 as int, nv[k].0 as int));
        } else if ov.len() > 0 {
            assert(better(side, nv[0].0 as int, nv[1].0 as int));
        }
    }
}

pub proof fn lemma_taken_out_rests(ov: Seq<LevelView>, nv: Seq<LevelView>, p: Price, id: OrderId, x: OrderId, px: Price)
    requires
        taken_out(ov, nv, p, id),
        x != id,
        rests_in(ov, x, px),
    ensures
        rests_in(nv, x, px),
{
    let (i, k) = choose|i: int, k: int|
        0 <= i < ov.len() && ov[i].0 == p && 0 <= k < ov[i].1.len() && ov[i].1[k] == id && ({
            let q = ov[i].1.remove(k);
            if q.len() == 0 {
                nv == ov.remove(i)
            } else {
                nv == ov.update(i, (p, q))
            }
        });
    let j = choose|j: int| 0 <= j < ov.len() && ov[j].0 == px && #[trigger] ov[j].1.contains(x);
    let t = choose|t: int| 0 <= t < ov[j].1.len() && ov[j].1[t] == x;
    let q = ov[i].1.remove(k);
    if j == i {
        let t2 = if t < k { t } else { t - 1 };
        assert(q[t2] == x);
        assert(q.contains(x));
        assert(nv[i].1.contains(x));
    } else if q.len() == 0 && j > i {
        assert(nv[j - 1] == ov[j]);
        assert(nv[j - 1].1.contains(x));
    } else {
        assert(nv[j] == ov[j]);
        assert(nv[j].1.contains(x));
    }
}

/// Taking an order out of sorted levels never makes the best price better.
pub proof fn lemma_taken_out_best(ov: Seq<LevelView>, nv: Seq<LevelView>, side: Side, p: Price, id: OrderId)
    requires
        taken_out(ov, nv, p, id),
        sorted_levels(ov, side),
    ensures
        ov.len() > 0,
        nv.len() > 0 ==> nv[0].0 == ov[0].0 || better(side, ov[0].0 as int, nv[0].0 as int),
{
    let (i, k) = choose|i: int, k: int|
        0 <= i < ov.len() && ov[i].0 == p && 0 <= k < ov[i].1.len() && ov[i].1[k] == id && ({
            let q = ov[i].1.remove(k);
            if q.len() == 0 {
                nv == ov.remove(i)
            } else {
                nv == ov.update(i, (p, q))
            }
        });
    if nv.len() > 0 && i == 0 && ov[i].1.remove(k).len() == 0 {
        assert(nv[0] == ov[1]);
        assert(better(side, ov[0].0 as int, ov[1].0 as int));
    }
}

pub proof fn lemma_sum_prefix(lv: Seq<LevelView>, side: Side, m: Map<OrderId, Order>, n: int)
    requires
        sorted_levels(lv, side),
        0 <= n <= lv.len(),
    ensures
        sum_at_level_prices(lv, m, n) == queue_qty(queued_ids(lv.take(n)), m),
    decreases n,
{
    if n == 0 {
        assert(lv.take(0) =~= Seq::<LevelView>::empty());
    } else {
        lemma_sum_prefix(lv, side, m, n - 1);
        assert(lv.take(n).drop_last() =~= lv.take(n - 1));
        assert(lv.take(n).last() == lv[n - 1]);
        lemma_qty_at_level(lv, side, m, n - 1);
        lemma_qty_concat(queued_ids(lv.take(n - 1)), lv[n - 1].1, m);
    }
}

pub proof fn lemma_queued_contains(lv: Seq<LevelView>, x: OrderId)
    ensures
        queued_ids(lv).contains(x) <==> exists|i: int| 0 <= i < lv.len() && #[trigger] lv[i].1.contains(x),
    decreases lv.len(),
{
    if lv.len() > 0 {
        let init = lv.drop_last();
        lemma_queued_contains(init, x);
        let a = queued_ids(init);
        let b = lv.last().1;
        if queued_ids(lv).contains(x) {
            let t = choose|t: int| 0 <= t < (a + b).len() && (a + b)[t] == x;
            if t < a.len() {
                assert(a[t] == x);
                let i = choose|i: int| 0 <= i < init.len() && #[trigger] init[i].1.contains(x);
                assert(lv[i] == init[i]);
            } else {
                assert(b[t - a.len()] == x);
                assert(lv[lv.len() - 1].1.contains(x));
            }
        }
        if exists|i: int| 0 <= i < lv.len() && #[trigger] lv[i].1.contains(x) {
            let i = choose|i: int| 0 <= i < lv.len() && #[trigger] lv[i].1.contains(x);
            if i < lv.len() - 1 {
                assert(init[i] == lv[i]);
                assert(init[i].1.contains(x));
                let t = choose|t: int| 0 <= t < a.len() && a[t] == x;
                assert((a + b)[t] == x);
            } else {
                let t = choose|t: int| 0 <= t < b.len() && b[t] == x;
                assert((a + b)[a.len() + t] == x);
            }
        }
    }
}

pub proof fn lemma_queued_no_duplicates(lv: Seq<LevelView>, side: Side, m: Map<OrderId, Order>)
    requires
        sorted_levels(lv, side),
        forall|i: int| 0 <= i < lv.len() ==> (#[trigger] lv[i]).1.no_duplicates(),
        forall|i: int, k: int| 0 <= i < lv.len() && 0 <= k < lv[i].1.len() ==> m[#[trigger] lv[i].1[k]].price == lv[i].0,
    ensures
        queued_ids(lv).no_duplicates(),
    decreases lv.len(),
{
    if lv.len() > 0 {
        let init = lv.drop_last();
        assert forall|i: int| 0 <= i < init.len() implies (#[trigger] init[i]).1.no_duplicates() by {
            assert(init[i] == lv[i]);
        }
        assert forall|i: int, k: int| 0 <= i < init.len() && 0 <= k < init[i].1.len() implies m[#[trigger] init[i].1[k]].price == init[i].0 by {
            assert(init[i] == lv[i]);
            assert(lv[i].1[k] == init[i].1[k]);
        }
        lemma_queued_no_duplicates(init, side, m);
        let a = queued_ids(init);
        let b = lv.last().1;
        let last = lv.len() - 1;
        assert(lv[last] == lv.last());
        assert forall|s: int, t: int| 0 <= s < (a + b).len() && 0 <= t < (a + b).len() && s != t implies (a + b)[s] != (a + b)[t] by {
            if s < a.len() && t >= a.len() {
                let x = a[s];
                if x == b[t - a.len()] {
                    assert(a.contains(x));
                    lemma_queued_contains(init, x);
                    let i = choose|i: int| 0 <= i < init.len() && #[trigger] init[i].1.contains(x);
                    let k = choose|k: int| 0 <= k < init[i].1.len() && init[i].1[k] == x;
                    assert(init[i] == lv[i]);
                    assert(lv[i].1[k] == x);
                    assert(lv[last].1[t - a.len()] == x);
                    assert(better(side, lv[i].0 as int, lv[last].0 as int));
                }
            } else if s >= a.len() && t < a.len() {
                let x = a[t];
                if x == b[s - a.len()] {
                    assert(a.contains(x));
                    lemma_queued_contains(init, x);
                    let i = choose|i: int| 0 <= i < init.len() && #[trigger] init[i].1.contains(x);
                    let k = choose|k: int| 0 <= k < init[i].1.len() && init[i].1[k] == x;
                    assert(init[i] == lv[i]);
                    assert(lv[i].1[k] == x);
                    assert(lv[last].1[s - a.len()] == x);
                    assert(better(side, lv[i].0 as int, lv[last].0 as int));
                }
            } else if s >= a.len() && t >= a.len() {
                assert(b.no_duplicates());
            }
        }
    }
}

/// The ids queued on non-empty levels start with the queue of the first level.
pub proof fn lemma_queued_front(lv: Seq<LevelView>)
    requires
        lv.len() > 0,
    ensures
        queued_ids(lv) == lv[0].1 + queued_ids(lv.skip(1)),
    decreases lv.len(),
{
    if lv.len() == 1 {
        assert(lv.drop_last() =~= Seq::<LevelView>::empty());
        assert(lv.skip(1) =~= Seq::<LevelView>::empty());
        assert(queued_ids(lv.drop_last()) == Seq::<OrderId>::empty());
        assert(lv.last() == lv[0]);
        assert(queued_ids(lv) =~= lv[0].1);
        assert(lv[0].1 + Seq::<OrderId>::empty() =~= lv[0].1);
    } else {
        let init = lv.drop_last();
        lemma_queued_front(init);
        assert(lv.skip(1).drop_last() =~= init.skip(1));
        assert(lv.skip(1).last() == lv.last());
        assert(init[0] == lv[0]);
        assert(queued_ids(lv) =~= lv[0].1 + queued_ids(lv.skip(1)));
    }
}

/// Taking out the oldest order of the best level drops the first of the queued ids.
pub proof fn lemma_take_head(ov: Seq<LevelView>, nv: Seq<LevelView>, side: Side)
    requires
        sorted_levels(ov, side),
        ov.len() > 0,
        ov[0].1.len() > 0,
        ov[0].1.no_duplicates(),
        taken_out(ov, nv, ov[0].0, ov[0].1[0]),
    ensures
        queued_ids(nv) == queued_ids(ov).skip(1),
{
    let p = ov[0].0;
    let id = ov[0].1[0];
    let (i, k) = choose|i: int, k: int|
        0 <= i < ov.len() && ov[i].0 == p && 0 <= k < ov[i].1.len() && ov[i].1[k] == id && ({
            let q = ov[i].1.remove(k);
            if q.len() == 0 {
                nv == ov.remove(i)
            } else {
                nv == ov.update(i, (p, q))
            }
        });
    if i > 0 {
        assert(better(side, ov[0].0 as int, ov[i].0 as int));
    }
    assert(i == 0);
    assert(k == 0);
    lemma_queued_front(ov);
    let q = ov[0].1.remove(0);
    assert(q =~= ov[0].1.skip(1));
    if q.len() == 0 {
        assert(nv =~= ov.skip(1));
        assert(ov[0].1.len() == 1);
        assert(queued_ids(ov).skip(1) =~= queued_ids(ov.skip(1)));
    } else {
        lemma_queued_front(nv);
        assert(nv.skip(1) =~= ov.skip(1));
        assert(queued_ids(ov).skip(1) =~= q + queued_ids(ov.skip(1)));
    }
}

} // verus!
