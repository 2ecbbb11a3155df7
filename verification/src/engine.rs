//! The matching engine: the continuous crossing loop over a two-sided book,
//! the degenerate single-sided (ask-resting, buy-taker) variant, and the
//! engine state that dispatches each incoming order to one of the two.
//!
//! Trades are both returned per submission (streaming emission) and
//! accumulated in arrival order on the engine (batched emission); either
//! policy can be had by the caller.

use vstd::prelude::*;

use crate::book::ask_before;
use crate::book::ask_insert_pos;
use crate::book::bid_before;
use crate::book::bid_insert_pos;
use crate::book::Book;
use crate::order::Entry;
use crate::order::Order;
use crate::order::Side;
use crate::order::Trade;

verus! {

/// The smaller of two quantities: how much one crossing step can fill.
pub open spec fn min_qty(x: u32, y: u32) -> u32 {
    if x <= y {
        x
    } else {
        y
    }
}

/// A match exists: both sides rest at least one order and the best ask does
/// not quote above the best bid.
pub open spec fn crossable(bids: Seq<Entry>, asks: Seq<Entry>) -> bool {
    bids.len() > 0 && asks.len() > 0 && asks[0].price <= bids[0].price
}

/// `e` with `fill` units taken out.
pub open spec fn reduced(e: Entry, fill: u32) -> Entry
    recommends
        fill <= e.quantity,
{
    Entry { id: e.id, price: e.price, quantity: (e.quantity - fill) as u32, seq: e.seq }
}

/// What the crossing loop leaves of a book and what it emits. While a match
/// exists, the best bid and best ask trade `min` of their remaining
/// quantities at the resting ask's price; an order whose quantity reaches
/// zero is removed at once. The first missed match ends the loop.
pub open spec fn settle_spec(bids: Seq<Entry>, asks: Seq<Entry>) -> (Seq<Entry>, Seq<Entry>, Seq<
    Trade,
>)
    decreases bids.len() + asks.len(),
{
    if !crossable(bids, asks) {
        (bids, asks, Seq::<Trade>::empty())
    } else {
        let b = bids[0];
        let a = asks[0];
        let fill = min_qty(b.quantity, a.quantity);
        let t = Trade {
            buyer_order_id: b.id,
            seller_order_id: a.id,
            price: a.price,
            quantity: fill,
        };
        let bids2 = if b.quantity == fill {
            bids.drop_first()
        } else {
            bids.update(0, reduced(b, fill))
        };
        let asks2 = if a.quantity == fill {
            asks.drop_first()
        } else {
            asks.update(0, reduced(a, fill))
        };
        let r = settle_spec(bids2, asks2);
        (r.0, r.1, seq![t] + r.2)
    }
}

/// What an aggressive buy takes from the resting asks in single-sided mode:
/// while the buy still wants quantity and the cheapest ask asks no more than
/// it bids, they trade `min` of the remaining quantities at the ask's price;
/// whatever the buy could not fill is discarded, never rested.
pub open spec fn take_spec(asks: Seq<Entry>, buy: Order) -> (Seq<Entry>, Seq<Trade>)
    decreases asks.len(),
{
    if asks.len() == 0 || buy.quantity == 0 || asks[0].price > buy.price {
        (asks, Seq::<Trade>::empty())
    } else {
        let a = asks[0];
        let fill = min_qty(buy.quantity, a.quantity);
        let t = Trade {
            buyer_order_id: buy.id,
            seller_order_id: a.id,
            price: a.price,
            quantity: fill,
        };
        if a.quantity > buy.quantity {
            (asks.update(0, reduced(a, fill)), seq![t])
        } else {
            let rest = Order {
                id: buy.id,
                side: buy.side,
                price: buy.price,
                quantity: (buy.quantity - a.quantity) as u32,
            };
            let r = take_spec(asks.drop_first(), rest);
            (r.0, seq![t] + r.1)
        }
    }
}

/// Runs the continuous crossing loop (two-sided mode) until no further match
/// is possible, returning the trades in the order they were struck. The
/// settled book never rests a matchable pair.
pub fn cross(book: &mut Book) -> (trades: Vec<Trade>)
    requires
        old(book).wf(),
    ensures
        final(book).wf(),
        final(book).next_seq == old(book).next_seq,
        final(book).bids@ == settle_spec(old(book).bids@, old(book).asks@).0,
        final(book).asks@ == settle_spec(old(book).bids@, old(book).asks@).1,
        trades@ == settle_spec(old(book).bids@, old(book).asks@).2,
        !crossable(final(book).bids@, final(book).asks@),
{
    let ghost b0 = book.bids@;
    let ghost a0 = book.asks@;
    let ghost n0 = book.next_seq;
    let mut trades: Vec<Trade> = Vec::new();
    while book.bids.len() > 0 && book.asks.len() > 0 && book.asks[0].price <= book.bids[0].price
        invariant
            book.wf(),
            book.next_seq == n0,
            settle_spec(b0, a0).0 == settle_spec(book.bids@, book.asks@).0,
            settle_spec(b0, a0).1 == settle_spec(book.bids@, book.asks@).1,
            settle_spec(b0, a0).2 == trades@ + settle_spec(book.bids@, book.asks@).2,
        decreases book.bids@.len() + book.asks@.len(),
    {
        let ghost bs = book.bids@;
        let ghost as_ = book.asks@;
        let b = book.bids[0];
        let a = book.asks[0];
        let fill = if b.quantity <= a.quantity {
            b.quantity
        } else {
            a.quantity
        };
        trades.push(
            Trade { buyer_order_id: b.id, seller_order_id: a.id, price: a.price, quantity: fill },
        );
        if b.quantity == fill {
            book.remove_head(Side::Buy);
        } else {
            reduce_head_bids(book, fill);
        }
        if a.quantity == fill {
            book.remove_head(Side::Sell);
        } else {
            reduce_head_asks(book, fill);
        }
        proof {
            assert(crossable(bs, as_));
            assert(settle_spec(bs, as_).2 == seq![trades@.last()] + settle_spec(
                book.bids@,
                book.asks@,
            ).2);
            assert(trades@ + settle_spec(book.bids@, book.asks@).2 == trades@.drop_last() + (seq![
                trades@.last(),
            ] + settle_spec(book.bids@, book.asks@).2));
        }
    }
    proof {
        assert(settle_spec(book.bids@, book.asks@) == (
            book.bids@,
            book.asks@,
            Seq::<Trade>::empty(),
        ));
        assert(trades@ + Seq::<Trade>::empty() == trades@);
    }
    trades
}

/// Matches an aggressive buy against the resting asks (single-sided mode).
/// The buy is never rested: any quantity it could not fill is discarded.
pub fn take(book: &mut Book, buy: Order) -> (trades: Vec<Trade>)
    requires
        old(book).wf(),
        buy.side == Side::Buy,
    ensures
        final(book).wf(),
        final(book).next_seq == old(book).next_seq,
        final(book).bids@ == old(book).bids@,
        final(book).asks@ == take_spec(old(book).asks@, buy).0,
        trades@ == take_spec(old(book).asks@, buy).1,
{
    let ghost a0 = book.asks@;
    let ghost n0 = book.next_seq;
    let mut trades: Vec<Trade> = Vec::new();
    let mut remaining: u32 = buy.quantity;
    while remaining > 0 && book.asks.len() > 0 && book.asks[0].price <= buy.price
        invariant
            book.wf(),
            book.next_seq == n0,
            book.bids@ == old(book).bids@,
            buy.side == Side::Buy,
            take_spec(a0, buy).0 == take_spec(
                book.asks@,
                (Order { id: buy.id, side: buy.side, price: buy.price, quantity: remaining }),
            ).0,
            take_spec(a0, buy).1 == trades@ + take_spec(
                book.asks@,
                (Order { id: buy.id, side: buy.side, price: buy.price, quantity: remaining }),
            ).1,
        decreases book.asks@.len(), remaining,
    {
        let ghost as_ = book.asks@;
        let ghost cur = Order {
            id: buy.id,
            side: buy.side,
            price: buy.price,
            quantity: remaining,
        };
        let a = book.asks[0];
        let fill = if remaining <= a.quantity {
            remaining
        } else {
            a.quantity
        };
        trades.push(
            Trade { buyer_order_id: buy.id, seller_order_id: a.id, price: a.price, quantity: fill },
        );
        if a.quantity > remaining {
            reduce_head_asks(book, fill);
            remaining = 0;
        } else {
            book.remove_head(Side::Sell);
            remaining = remaining - a.quantity;
        }
        proof {
            let nxt = Order { id: buy.id, side: buy.side, price: buy.price, quantity: remaining };
            assert(take_spec(as_, cur).1 == seq![trades@.last()] + take_spec(book.asks@, nxt).1);
            assert(trades@ + take_spec(book.asks@, nxt).1 == trades@.drop_last() + (seq![
                trades@.last(),
            ] + take_spec(book.asks@, nxt).1));
        }
    }
    proof {
        let cur = Order { id: buy.id, side: buy.side, price: buy.price, quantity: remaining };
        assert(take_spec(book.asks@, cur) == (book.asks@, Seq::<Trade>::empty()));
        assert(trades@ + Seq::<Trade>::empty() == trades@);
    }
    trades
}

/// Takes `fill` units out of the partially filled best bid.
fn reduce_head_bids(book: &mut Book, fill: u32)
    requires
        old(book).wf(),
        old(book).bids@.len() > 0,
        fill < old(book).bids@[0].quantity,
    ensures
        final(book).wf(),
        final(book).bids@ == old(book).bids@.update(0, reduced(old(book).bids@[0], fill)),
        final(book).asks@ == old(book).asks@,
        final(book).next_seq == old(book).next_seq,
{
    let ghost s = book.bids@;
    let mut e = book.bids.remove(0);
    e.quantity = e.quantity - fill;
    book.bids.insert(0, e);
    proof {
        assert(book.bids@ =~= s.update(0, reduced(s[0], fill)));
        assert forall|i: int, j: int|
            0 <= i < j < book.bids@.len() implies bid_before(book.bids@[i], book.bids@[j]) by {
            assert(bid_before(s[i], s[j]));
        }
    }
}

/// Takes `fill` units out of the partially filled best ask.
fn reduce_head_asks(book: &mut Book, fill: u32)
    requires
        old(book).wf(),
        old(book).asks@.len() > 0,
        fill < old(book).asks@[0].quantity,
    ensures
        final(book).wf(),
        final(book).asks@ == old(book).asks@.update(0, reduced(old(book).asks@[0], fill)),
        final(book).bids@ == old(book).bids@,
        final(book).next_seq == old(book).next_seq,
{
    let ghost s = book.asks@;
    let mut e = book.asks.remove(0);
    e.quantity = e.quantity - fill;
    book.asks.insert(0, e);
    proof {
        assert(book.asks@ =~= s.update(0, reduced(s[0], fill)));
        assert forall|i: int, j: int|
            0 <= i < j < book.asks@.len() implies ask_before(book.asks@[i], book.asks@[j]) by {
            assert(ask_before(s[i], s[j]));
        }
    }
}

/// Which liquidity policy the engine runs.
#[derive(Clone, Copy, Debug, PartialEq, Eq, Structural)]
pub enum Mode {
    /// Both sides rest; every insertion re-runs the crossing loop.
    TwoSided,
    /// Only sells rest; buys take against the asks and any remainder is
    /// discarded.
    SingleSided,
}

/// The engine: a mode, the book it owns, and every trade struck so far, in
/// the order it was struck.
pub struct Engine {
    pub mode: Mode,
    pub book: Book,
    pub trades: Vec<Trade>,
}

/// What one submission does to the book: the resting sides it leaves and the
/// trades it strikes, given the arrival sequence number the order would
/// receive if it rests.
pub open spec fn submit_spec(mode: Mode, bids: Seq<Entry>, asks: Seq<Entry>, seq: u64, o: Order) -> (
    Seq<Entry>,
    Seq<Entry>,
    Seq<Trade>,
) {
    if mode == Mode::TwoSided {
        if o.side == Side::Buy {
            settle_spec(bids.insert(bid_insert_pos(bids, o.price), o.to_entry(seq)), asks)
        } else {
            settle_spec(bids, asks.insert(ask_insert_pos(asks, o.price), o.to_entry(seq)))
        }
    } else {
        if o.side == Side::Buy {
            let r = take_spec(asks, o);
            (bids, r.0, r.1)
        } else {
            (bids, asks.insert(ask_insert_pos(asks, o.price), o.to_entry(seq)), Seq::<
                Trade,
            >::empty())
        }
    }
}

impl Engine {
    /// The book is well formed, and in single-sided mode no bid ever rests.
    pub open spec fn wf(self) -> bool {
        &&& self.book.wf()
        &&& self.mode == Mode::SingleSided ==> self.book.bids@.len() == 0
    }

    /// A fresh engine running under the given mode.
    pub fn new(mode: Mode) -> (r: Engine)
        ensures
            r.wf(),
            r.mode == mode,
            r.book.bids@ == Seq::<Entry>::empty(),
            r.book.asks@ == Seq::<Entry>::empty(),
            r.book.next_seq == 0,
            r.trades@ == Seq::<Trade>::empty(),
    {
        Engine { mode, book: Book::new(), trades: Vec::new() }
    }

    /// Applies one incoming order: rests it per the mode, runs the matching
    /// loop it triggers, and returns the trades this submission struck. The
    /// same trades are appended to the engine's accumulated log.
    pub fn submit(&mut self, order: Order) -> (new_trades: Vec<Trade>)
        requires
            old(self).wf(),
            order.quantity > 0,
            old(self).book.next_seq < u64::MAX,
        ensures
            final(self).wf(),
            final(self).mode == old(self).mode,
            final(self).book.bids@ == submit_spec(
                old(self).mode,
                old(self).book.bids@,
                old(self).book.asks@,
                old(self).book.next_seq,
                order,
            ).0,
            final(self).book.asks@ == submit_spec(
                old(self).mode,
                old(self).book.bids@,
                old(self).book.asks@,
                old(self).book.next_seq,
                order,
            ).1,
            new_trades@ == submit_spec(
                old(self).mode,
                old(self).book.bids@,
                old(self).book.asks@,
                old(self).book.next_seq,
                order,
            ).2,
            final(self).trades@ == old(self).trades@ + new_trades@,
            final(self).book.next_seq == old(self).book.next_seq + 1,
            !crossable(final(self).book.bids@, final(self).book.asks@),
    {
        let new_trades: Vec<Trade> = match self.mode {
            Mode::TwoSided => {
                self.book.insert(order);
                cross(&mut self.book)
            },
            Mode::SingleSided => {
                match order.side {
                    Side::Buy => {
                        // The taker never rests, but it still consumes an
                        // arrival sequence number, so that the counter
                        // numbers every submission.
                        self.book.next_seq = self.book.next_seq + 1;
                        take(&mut self.book, order)
                    },
                    Side::Sell => {
                        self.book.insert(order);
                        Vec::new()
                    },
                }
            },
        };
        append_copies(&mut self.trades, &new_trades);
        proof {
            if self.mode == Mode::SingleSided && order.side == Side::Sell {
                assert(self.trades@ + Seq::<Trade>::empty() == self.trades@);
            }
        }
        new_trades
    }
}

/// Appends a copy of every element of `src` to `dst`, in order.
pub(crate) fn append_copies<T: Copy>(dst: &mut Vec<T>, src: &Vec<T>)
    ensures
        final(dst)@ == old(dst)@ + src@,
{
    let ghost d0 = dst@;
    let mut i: usize = 0;
    while i < src.len()
        invariant
            0 <= i <= src@.len(),
            dst@ == d0 + src@.take(i as int),
        decreases src@.len() - i,
    {
        dst.push(src[i]);
        proof {
            assert(src@.take(i + 1) == src@.take(i as int).push(src@[i as int]));
            assert(d0 + src@.take(i + 1) == (d0 + src@.take(i as int)).push(src@[i as int]));
        }
        i = i + 1;
    }
    proof {
        assert(src@.take(src@.len() as int) == src@);
    }
}

} // verus!
