//! The engine's general properties, stated and proved once and for all:
//! conservation of quantity, the no-cross invariant of a settled book,
//! idempotence of settlement, and time priority at equal price.

use vstd::prelude::*;

use crate::book::ask_before;
use crate::book::ask_insert_pos;
use crate::book::asks_sorted;
use crate::book::bid_before;
use crate::book::bid_insert_pos;
use crate::book::bids_sorted;
use crate::book::lemma_ask_insert_pos;
use crate::book::lemma_bid_insert_pos;
use crate::book::sum_qty;
use crate::engine::crossable;
use crate::engine::min_qty;
use crate::engine::reduced;
use crate::engine::settle_spec;
use crate::engine::submit_spec;
use crate::engine::take_spec;
use crate::engine::Mode;
use crate::order::Entry;
use crate::order::Order;
use crate::order::Side;
use crate::order::Trade;

verus! {

/// Total quantity filled across a sequence of trades.
pub open spec fn sum_trades(ts: Seq<Trade>) -> int
    decreases ts.len(),
{
    if ts.len() == 0 {
        0
    } else {
        ts[0].quantity + sum_trades(ts.drop_first())
    }
}

/// Total quantity of the buy orders among the submitted events.
pub open spec fn buy_qty_sum(orders: Seq<Order>) -> int
    decreases orders.len(),
{
    if orders.len() == 0 {
        0
    } else {
        (if orders[0].side == Side::Buy {
            orders[0].quantity as int
        } else {
            0
        }) + buy_qty_sum(orders.drop_first())
    }
}

/// Total quantity of the sell orders among the submitted events.
pub open spec fn sell_qty_sum(orders: Seq<Order>) -> int
    decreases orders.len(),
{
    if orders.len() == 0 {
        0
    } else {
        (if orders[0].side == Side::Sell {
            orders[0].quantity as int
        } else {
            0
        }) + sell_qty_sum(orders.drop_first())
    }
}

/// The whole run: the book and the accumulated trades after submitting
/// `orders` in turn to a fresh engine under `mode`, each event numbered by
/// its position.
pub open spec fn run_spec(mode: Mode, orders: Seq<Order>) -> (Seq<Entry>, Seq<Entry>, Seq<Trade>)
    decreases orders.len(),
{
    if orders.len() == 0 {
        (Seq::<Entry>::empty(), Seq::<Entry>::empty(), Seq::<Trade>::empty())
    } else {
        let prev = run_spec(mode, orders.drop_last());
        let r = submit_spec(mode, prev.0, prev.1, (orders.len() - 1) as u64, orders.last());
        (r.0, r.1, prev.2 + r.2)
    }
}

/// Filled sums add over concatenation of trade logs.
pub proof fn lemma_sum_trades_concat(x: Seq<Trade>, y: Seq<Trade>)
    ensures
        sum_trades(x + y) == sum_trades(x) + sum_trades(y),
    decreases x.len(),
{
    if x.len() == 0 {
        assert(x + y =~= y);
    } else {
        lemma_sum_trades_concat(x.drop_first(), y);
        assert((x + y).drop_first() =~= x.drop_first() + y);
    }
}

/// Inserting an entry anywhere adds exactly its quantity to the side's sum.
pub proof fn lemma_sum_qty_insert(s: Seq<Entry>, pos: int, e: Entry)
    requires
        0 <= pos <= s.len(),
    ensures
        sum_qty(s.insert(pos, e)) == sum_qty(s) + e.quantity,
    decreases s.len(),
{
    if pos == 0 {
        assert(s.insert(0, e)[0] == e);
        assert(s.insert(0, e).drop_first() =~= s);
    } else {
        lemma_sum_qty_insert(s.drop_first(), pos - 1, e);
        assert(s.insert(pos, e)[0] == s[0]);
        assert(s.insert(pos, e).drop_first() =~= s.drop_first().insert(pos - 1, e));
    }
}

/// Replacing the head with its reduced self takes exactly the fill out of
/// the side's sum.
pub proof fn lemma_sum_qty_reduce_head(s: Seq<Entry>, fill: u32)
    requires
        s.len() > 0,
        fill <= s[0].quantity,
    ensures
        sum_qty(s.update(0, reduced(s[0], fill))) == sum_qty(s) - fill,
{
    assert(s.update(0, reduced(s[0], fill)).drop_first() =~= s.drop_first());
}

/// Conservation across one settlement: on each side, what still rests plus
/// what the emitted trades filled is exactly what rested before.
pub proof fn lemma_settle_conserves(bids: Seq<Entry>, asks: Seq<Entry>)
    ensures
        sum_qty(settle_spec(bids, asks).0) + sum_trades(settle_spec(bids, asks).2) == sum_qty(bids),
        sum_qty(settle_spec(bids, asks).1) + sum_trades(settle_spec(bids, asks).2) == sum_qty(asks),
    decreases bids.len() + asks.len(),
{
    if crossable(bids, asks) {
        let b = bids[0];
        let a = asks[0];
        let fill = min_qty(b.quantity, a.quantity);
        let t = Trade {
            buyer_order_id: b.id,
            seller_order_id: a.id,
            price: a.price,
            quantity: fill,
        };
        let bids2 = if b.quantity == fill {
            bids.drop_first()
        } else {
            bids.update(0, reduced(b, fill))
        };
        let asks2 = if a.quantity == fill {
            asks.drop_first()
        } else {
            asks.update(0, reduced(a, fill))
        };
        lemma_settle_conserves(bids2, asks2);
        if b.quantity != fill {
            lemma_sum_qty_reduce_head(bids, fill);
        }
        if a.quantity != fill {
            lemma_sum_qty_reduce_head(asks, fill);
        }
        let r = settle_spec(bids2, asks2);
        assert(settle_spec(bids, asks).2 == seq![t] + r.2);
        assert((seq![t] + r.2).drop_first() =~= r.2);
        assert(sum_trades(seq![t] + r.2) == fill + sum_trades(r.2));
    }
}

/// Splitting off the last event splits both per-side quantity totals.
pub proof fn lemma_qty_sum_snoc(orders: Seq<Order>)
    requires
        orders.len() > 0,
    ensures
        buy_qty_sum(orders) == buy_qty_sum(orders.drop_last()) + (if orders.last().side
            == Side::Buy {
            orders.last().quantity as int
        } else {
            0
        }),
        sell_qty_sum(orders) == sell_qty_sum(orders.drop_last()) + (if orders.last().side
            == Side::Sell {
            orders.last().quantity as int
        } else {
            0
        }),
    decreases orders.len(),
{
    if orders.len() == 1 {
        assert(orders.drop_last() =~= Seq::<Order>::empty());
        assert(orders.drop_first() =~= Seq::<Order>::empty());
    } else {
        lemma_qty_sum_snoc(orders.drop_first());
        assert(orders.drop_last().drop_first() =~= orders.drop_first().drop_last());
        assert(orders.drop_first().last() == orders.last());
    }
}

/// Conservation across one taking (single-sided mode): what still rests plus
/// what the trades filled is exactly what rested before, and the trades never
/// fill more than the taker asked for.
pub proof fn lemma_take_conserves(asks: Seq<Entry>, buy: Order)
    ensures
        sum_qty(take_spec(asks, buy).0) + sum_trades(take_spec(asks, buy).1) == sum_qty(asks),
        sum_trades(take_spec(asks, buy).1) <= buy.quantity,
    decreases asks.len(),
{
    if !(asks.len() == 0 || buy.quantity == 0 || asks[0].price > buy.price) {
        let a = asks[0];
        let fill = min_qty(buy.quantity, a.quantity);
        let t = Trade {
            buyer_order_id: buy.id,
            seller_order_id: a.id,
            price: a.price,
            quantity: fill,
        };
        if a.quantity > buy.quantity {
            lemma_sum_qty_reduce_head(asks, fill);
            assert(take_spec(asks, buy).0 == asks.update(0, reduced(a, fill)));
            assert(take_spec(asks, buy).1 == seq![t]);
            assert(seq![t].len() == 1);
            assert(seq![t][0] == t);
            assert(seq![t].drop_first() =~= Seq::<Trade>::empty());
            assert(sum_trades(Seq::<Trade>::empty()) == 0);
            assert(sum_trades(seq![t]) == fill);
        } else {
            let rest = Order {
                id: buy.id,
                side: buy.side,
                price: buy.price,
                quantity: (buy.quantity - a.quantity) as u32,
            };
            lemma_take_conserves(asks.drop_first(), rest);
            let r = take_spec(asks.drop_first(), rest);
            assert((seq![t] + r.1).drop_first() =~= r.1);
            assert(sum_trades(seq![t] + r.1) == fill + sum_trades(r.1));
        }
    }
}

/// Conservation (two-sided mode): after any sequence of events, on each side,
/// what rests in the book plus what all trades so far have filled is exactly
/// what was submitted on that side — no quantity is created or destroyed.
/// Applied to every prefix of an event sequence, it holds at every point in
/// time.
pub proof fn lemma_conservation(orders: Seq<Order>)
    ensures
        sum_qty(run_spec(Mode::TwoSided, orders).0) + sum_trades(
            run_spec(Mode::TwoSided, orders).2,
        ) == buy_qty_sum(orders),
        sum_qty(run_spec(Mode::TwoSided, orders).1) + sum_trades(
            run_spec(Mode::TwoSided, orders).2,
        ) == sell_qty_sum(orders),
    decreases orders.len(),
{
    if orders.len() > 0 {
        lemma_conservation(orders.drop_last());
        lemma_qty_sum_snoc(orders);
        let prev = run_spec(Mode::TwoSided, orders.drop_last());
        let o = orders.last();
        let n = (orders.len() - 1) as u64;
        let r = submit_spec(Mode::TwoSided, prev.0, prev.1, n, o);
        lemma_sum_trades_concat(prev.2, r.2);
        if o.side == Side::Buy {
            let pos = bid_insert_pos(prev.0, o.price);
            lemma_bid_insert_pos(prev.0, o.price);
            lemma_sum_qty_insert(prev.0, pos, o.to_entry(n));
            lemma_settle_conserves(prev.0.insert(pos, o.to_entry(n)), prev.1);
        } else {
            let pos = ask_insert_pos(prev.1, o.price);
            lemma_ask_insert_pos(prev.1, o.price);
            lemma_sum_qty_insert(prev.1, pos, o.to_entry(n));
            lemma_settle_conserves(prev.0, prev.1.insert(pos, o.to_entry(n)));
        }
    }
}

/// Conservation (single-sided mode): no bid ever rests; on the ask side the
/// exact balance holds, and the trades never fill more buy quantity than was
/// submitted — the shortfall is the takers' discarded remainders.
pub proof fn lemma_conservation_single(orders: Seq<Order>)
    ensures
        run_spec(Mode::SingleSided, orders).0.len() == 0,
        sum_qty(run_spec(Mode::SingleSided, orders).1) + sum_trades(
            run_spec(Mode::SingleSided, orders).2,
        ) == sell_qty_sum(orders),
        sum_trades(run_spec(Mode::SingleSided, orders).2) <= buy_qty_sum(orders),
    decreases orders.len(),
{
    if orders.len() > 0 {
        lemma_conservation_single(orders.drop_last());
        lemma_qty_sum_snoc(orders);
        let prev = run_spec(Mode::SingleSided, orders.drop_last());
        let o = orders.last();
        let n = (orders.len() - 1) as u64;
        let r = submit_spec(Mode::SingleSided, prev.0, prev.1, n, o);
        lemma_sum_trades_concat(prev.2, r.2);
        if o.side == Side::Buy {
            lemma_take_conserves(prev.1, o);
        } else {
            let pos = ask_insert_pos(prev.1, o.price);
            lemma_ask_insert_pos(prev.1, o.price);
            lemma_sum_qty_insert(prev.1, pos, o.to_entry(n));
        }
    }
}

/// After the crossing loop settles, either one side is empty or the best ask
/// quotes strictly above the best bid: the book never rests a matchable
/// pair.
pub proof fn lemma_no_cross(bids: Seq<Entry>, asks: Seq<Entry>)
    ensures
        !crossable(settle_spec(bids, asks).0, settle_spec(bids, asks).1),
    decreases bids.len() + asks.len(),
{
    if crossable(bids, asks) {
        let b = bids[0];
        let a = asks[0];
        let fill = min_qty(b.quantity, a.quantity);
        let bids2 = if b.quantity == fill {
            bids.drop_first()
        } else {
            bids.update(0, reduced(b, fill))
        };
        let asks2 = if a.quantity == fill {
            asks.drop_first()
        } else {
            asks.update(0, reduced(a, fill))
        };
        lemma_no_cross(bids2, asks2);
    }
}

/// At no point in a run does the book rest a matchable pair: after every
/// submission, under either mode, one side is empty or the best ask quotes
/// strictly above the best bid.
pub proof fn lemma_run_no_cross(mode: Mode, orders: Seq<Order>)
    ensures
        !crossable(run_spec(mode, orders).0, run_spec(mode, orders).1),
{
    if orders.len() > 0 {
        let prev = run_spec(mode, orders.drop_last());
        let o = orders.last();
        let n = (orders.len() - 1) as u64;
        if mode == Mode::TwoSided {
            if o.side == Side::Buy {
                lemma_no_cross(
                    prev.0.insert(bid_insert_pos(prev.0, o.price), o.to_entry(n)),
                    prev.1,
                );
            } else {
                lemma_no_cross(
                    prev.0,
                    prev.1.insert(ask_insert_pos(prev.1, o.price), o.to_entry(n)),
                );
            }
        } else {
            lemma_conservation_single(orders);
        }
    }
}

/// Settlement is idempotent: running the crossing loop again on a settled
/// book moves nothing and emits zero further trades.
pub proof fn lemma_settle_idempotent(bids: Seq<Entry>, asks: Seq<Entry>)
    ensures
        settle_spec(settle_spec(bids, asks).0, settle_spec(bids, asks).1) == (
            settle_spec(bids, asks).0,
            settle_spec(bids, asks).1,
            Seq::<Trade>::empty(),
        ),
{
    lemma_no_cross(bids, asks);
}

/// `x` is `y` after zero or more partial fills: same identity, price and
/// arrival number, and no more quantity.
pub open spec fn shrunk(x: Entry, y: Entry) -> bool {
    x.id == y.id && x.price == y.price && x.seq == y.seq && x.quantity <= y.quantity
}

/// Some entry of `s` is exactly `e`, untouched.
pub open spec fn rests_unchanged(s: Seq<Entry>, e: Entry) -> bool {
    exists|k: int| 0 <= k < s.len() && #[trigger] s[k] == e
}

/// Some entry of `s` is `e`, possibly partially filled.
pub open spec fn rests_some_of(s: Seq<Entry>, e: Entry) -> bool {
    exists|k: int| 0 <= k < s.len() && shrunk(#[trigger] s[k], e)
}

/// The crossing loop consumes the bid side from the front: what it leaves is
/// a suffix of the original bids, with at most the first remaining entry
/// partially filled. The returned value is how many leading bids were wholly
/// consumed.
pub proof fn lemma_settle_prefix_bids(bids: Seq<Entry>, asks: Seq<Entry>) -> (n: int)
    ensures
        0 <= n <= bids.len(),
        settle_spec(bids, asks).0.len() == bids.len() - n,
        forall|k: int| 1 <= k < bids.len() - n ==> settle_spec(bids, asks).0[k] == bids[n + k],
        bids.len() - n > 0 ==> shrunk(settle_spec(bids, asks).0[0], bids[n as int]),
    decreases bids.len() + asks.len(),
{
    if !crossable(bids, asks) {
        0
    } else {
        let b = bids[0];
        let a = asks[0];
        let fill = min_qty(b.quantity, a.quantity);
        let bids2 = if b.quantity == fill {
            bids.drop_first()
        } else {
            bids.update(0, reduced(b, fill))
        };
        let asks2 = if a.quantity == fill {
            asks.drop_first()
        } else {
            asks.update(0, reduced(a, fill))
        };
        let m = lemma_settle_prefix_bids(bids2, asks2);
        let res = settle_spec(bids, asks).0;
        assert(res == settle_spec(bids2, asks2).0);
        if b.quantity == fill {
            assert forall|k: int| 1 <= k < bids.len() - (m + 1) implies res[k] == bids[m + 1 + k] by {
                assert(res[k] == bids2[m + k]);
                assert(bids2[m + k] == bids[m + 1 + k]);
            }
            if res.len() > 0 {
                assert(bids2[m as int] == bids[m + 1]);
            }
            m + 1
        } else {
            assert forall|k: int| 1 <= k < bids.len() - m implies res[k] == bids[m + k] by {
                assert(res[k] == bids2[m + k]);
                assert(bids2[m + k] == bids[m + k]);
            }
            if res.len() > 0 {
                if m == 0 {
                    assert(shrunk(res[0], bids2[0]) && shrunk(bids2[0], bids[0]));
                } else {
                    assert(bids2[m as int] == bids[m as int]);
                }
            }
            m
        }
    }
}

/// The crossing loop consumes the ask side from the front: what it leaves is
/// a suffix of the original asks, with at most the first remaining entry
/// partially filled. The returned value is how many leading asks were wholly
/// consumed.
pub proof fn lemma_settle_prefix_asks(bids: Seq<Entry>, asks: Seq<Entry>) -> (n: int)
    ensures
        0 <= n <= asks.len(),
        settle_spec(bids, asks).1.len() == asks.len() - n,
        forall|k: int| 1 <= k < asks.len() - n ==> settle_spec(bids, asks).1[k] == asks[n + k],
        asks.len() - n > 0 ==> shrunk(settle_spec(bids, asks).1[0], asks[n as int]),
    decreases bids.len() + asks.len(),
{
    if !crossable(bids, asks) {
        0
    } else {
        let b = bids[0];
        let a = asks[0];
        let fill = min_qty(b.quantity, a.quantity);
        let bids2 = if b.quantity == fill {
            bids.drop_first()
        } else {
            bids.update(0, reduced(b, fill))
        };
        let asks2 = if a.quantity == fill {
            asks.drop_first()
        } else {
            asks.update(0, reduced(a, fill))
        };
        let m = lemma_settle_prefix_asks(bids2, asks2);
        let res = settle_spec(bids, asks).1;
        assert(res == settle_spec(bids2, asks2).1);
        if a.quantity == fill {
            assert forall|k: int| 1 <= k < asks.len() - (m + 1) implies res[k] == asks[m + 1 + k] by {
                assert(res[k] == asks2[m + k]);
                assert(asks2[m + k] == asks[m + 1 + k]);
            }
            if res.len() > 0 {
                assert(asks2[m as int] == asks[m + 1]);
            }
            m + 1
        } else {
            assert forall|k: int| 1 <= k < asks.len() - m implies res[k] == asks[m + k] by {
                assert(res[k] == asks2[m + k]);
                assert(asks2[m + k] == asks[m + k]);
            }
            if res.len() > 0 {
                if m == 0 {
                    assert(shrunk(res[0], asks2[0]) && shrunk(asks2[0], asks[0]));
                } else {
                    assert(asks2[m as int] == asks[m as int]);
                }
            }
            m
        }
    }
}

/// Time priority on the bid side: of two bids resting at the same price, the
/// one that arrived first carries the smaller arrival number, and if the
/// crossing loop touched the later one at all — filled it even partially —
/// it has already wholly consumed the earlier one.
pub proof fn lemma_time_priority_bids(bids: Seq<Entry>, asks: Seq<Entry>, i: int, j: int)
    requires
        bids_sorted(bids),
        0 <= i < j < bids.len(),
        bids[i].price == bids[j].price,
    ensures
        bids[i].seq < bids[j].seq,
        !rests_unchanged(settle_spec(bids, asks).0, bids[j]) ==> !rests_some_of(
            settle_spec(bids, asks).0,
            bids[i],
        ),
{
    assert(bid_before(bids[i], bids[j]));
    let res = settle_spec(bids, asks).0;
    let n = lemma_settle_prefix_bids(bids, asks);
    if !rests_unchanged(res, bids[j]) {
        if n < j {
            assert(res[j - n] == bids[j]);
            assert(rests_unchanged(res, bids[j]));
        }
        if n == j && res.len() > 0 && res[0].quantity == bids[j].quantity {
            assert(res[0] == bids[j]);
            assert(rests_unchanged(res, bids[j]));
        }
        assert forall|k: int| 0 <= k < res.len() implies !shrunk(#[trigger] res[k], bids[i]) by {
            if k == 0 {
                assert(shrunk(res[0], bids[n as int]));
                assert(bid_before(bids[i], bids[n as int]));
            } else {
                assert(res[k] == bids[n + k]);
                assert(bid_before(bids[i], bids[n + k]));
            }
        }
    }
}

/// Time priority on the ask side: of two asks resting at the same price, the
/// one that arrived first carries the smaller arrival number, and if the
/// crossing loop touched the later one at all — filled it even partially —
/// it has already wholly consumed the earlier one.
pub proof fn lemma_time_priority_asks(bids: Seq<Entry>, asks: Seq<Entry>, i: int, j: int)
    requires
        asks_sorted(asks),
        0 <= i < j < asks.len(),
        asks[i].price == asks[j].price,
    ensures
        asks[i].seq < asks[j].seq,
        !rests_unchanged(settle_spec(bids, asks).1, asks[j]) ==> !rests_some_of(
            settle_spec(bids, asks).1,
            asks[i],
        ),
{
    assert(ask_before(asks[i], asks[j]));
    let res = settle_spec(bids, asks).1;
    let n = lemma_settle_prefix_asks(bids, asks);
    if !rests_unchanged(res, asks[j]) {
        if n < j {
            assert(res[j - n] == asks[j]);
            assert(rests_unchanged(res, asks[j]));
        }
        if n == j && res.len() > 0 && res[0].quantity == asks[j].quantity {
            assert(res[0] == asks[j]);
            assert(rests_unchanged(res, asks[j]));
        }
        assert forall|k: int| 0 <= k < res.len() implies !shrunk(#[trigger] res[k], asks[i]) by {
            if k == 0 {
                assert(shrunk(res[0], asks[n as int]));
                assert(ask_before(asks[i], asks[n as int]));
            } else {
                assert(res[k] == asks[n + k]);
                assert(ask_before(asks[i], asks[n + k]));
            }
        }
    }
}

} // verus!
