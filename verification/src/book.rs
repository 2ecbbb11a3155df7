//! The order book: two independently price-ordered collections of resting
//! orders. Asks are kept lowest price first, bids highest price first, and at
//! equal price the entry with the smaller arrival sequence number stands
//! earlier, so the head of each collection is always the best order of its
//! side and ties are broken by arrival order.

use vstd::prelude::*;

use crate::order::Entry;
use crate::order::Order;
use crate::order::Side;

verus! {

/// Strict priority on the ask side: `a` stands before `b` when it quotes a
/// lower price, or the same price but arrived earlier.
pub open spec fn ask_before(a: Entry, b: Entry) -> bool {
    a.price < b.price || (a.price == b.price && a.seq < b.seq)
}

/// Strict priority on the bid side: `a` stands before `b` when it quotes a
/// higher price, or the same price but arrived earlier.
pub open spec fn bid_before(a: Entry, b: Entry) -> bool {
    a.price > b.price || (a.price == b.price && a.seq < b.seq)
}

/// Every earlier entry keeps ask priority over every later one.
pub open spec fn asks_sorted(s: Seq<Entry>) -> bool {
    forall|i: int, j: int| 0 <= i < j < s.len() ==> ask_before(s[i], s[j])
}

/// Every earlier entry keeps bid priority over every later one.
pub open spec fn bids_sorted(s: Seq<Entry>) -> bool {
    forall|i: int, j: int| 0 <= i < j < s.len() ==> bid_before(s[i], s[j])
}

/// No resting order has quantity zero.
pub open spec fn all_positive(s: Seq<Entry>) -> bool {
    forall|i: int| 0 <= i < s.len() ==> s[i].quantity > 0
}

/// Every arrival sequence number in `s` lies below `bound`.
pub open spec fn seqs_below(s: Seq<Entry>, bound: int) -> bool {
    forall|i: int| 0 <= i < s.len() ==> s[i].seq < bound
}

/// Total resting quantity of a side.
pub open spec fn sum_qty(s: Seq<Entry>) -> int
    decreases s.len(),
{
    if s.len() == 0 {
        0
    } else {
        s[0].quantity + sum_qty(s.drop_first())
    }
}

/// Where a new ask at price `p` is inserted: after every resting ask whose
/// price is at most `p` (arrival order is kept at equal price), before the
/// first one quoting strictly more.
pub open spec fn ask_insert_pos(s: Seq<Entry>, p: u32) -> int
    decreases s.len(),
{
    if s.len() == 0 {
        0
    } else if s[0].price <= p {
        1 + ask_insert_pos(s.drop_first(), p)
    } else {
        0
    }
}

/// Where a new bid at price `p` is inserted: after every resting bid whose
/// price is at least `p`, before the first one quoting strictly less.
pub open spec fn bid_insert_pos(s: Seq<Entry>, p: u32) -> int
    decreases s.len(),
{
    if s.len() == 0 {
        0
    } else if s[0].price >= p {
        1 + bid_insert_pos(s.drop_first(), p)
    } else {
        0
    }
}

/// The insertion point for an ask is the unique boundary: everything before
/// it prices at most `p`, and the entry at it (if any) prices above `p`.
pub proof fn lemma_ask_insert_pos(s: Seq<Entry>, p: u32)
    ensures
        0 <= ask_insert_pos(s, p) <= s.len(),
        forall|k: int| 0 <= k < ask_insert_pos(s, p) ==> s[k].price <= p,
        ask_insert_pos(s, p) < s.len() ==> s[ask_insert_pos(s, p)].price > p,
    decreases s.len(),
{
    if s.len() > 0 && s[0].price <= p {
        lemma_ask_insert_pos(s.drop_first(), p);
        assert forall|k: int| 0 <= k < ask_insert_pos(s, p) implies s[k].price <= p by {
            if k > 0 {
                assert(s.drop_first()[k - 1] == s[k]);
            }
        }
        if ask_insert_pos(s, p) < s.len() {
            assert(s.drop_first()[ask_insert_pos(s.drop_first(), p)] == s[ask_insert_pos(s, p)]);
        }
    }
}

/// The insertion point for a bid is the unique boundary: everything before
/// it prices at least `p`, and the entry at it (if any) prices below `p`.
pub proof fn lemma_bid_insert_pos(s: Seq<Entry>, p: u32)
    ensures
        0 <= bid_insert_pos(s, p) <= s.len(),
        forall|k: int| 0 <= k < bid_insert_pos(s, p) ==> s[k].price >= p,
        bid_insert_pos(s, p) < s.len() ==> s[bid_insert_pos(s, p)].price < p,
    decreases s.len(),
{
    if s.len() > 0 && s[0].price >= p {
        lemma_bid_insert_pos(s.drop_first(), p);
        assert forall|k: int| 0 <= k < bid_insert_pos(s, p) implies s[k].price >= p by {
            if k > 0 {
                assert(s.drop_first()[k - 1] == s[k]);
            }
        }
        if bid_insert_pos(s, p) < s.len() {
            assert(s.drop_first()[bid_insert_pos(s.drop_first(), p)] == s[bid_insert_pos(s, p)]);
        }
    }
}

/// The book. `next_seq` is the arrival sequence number the next insertion
/// will receive; every resting entry carries a smaller one.
pub struct Book {
    pub bids: Vec<Entry>,
    pub asks: Vec<Entry>,
    pub next_seq: u64,
}

impl Book {
    /// Both sides are priority-sorted, hold only positive quantities, and
    /// every resting sequence number lies below `next_seq`.
    pub open spec fn wf(self) -> bool {
        &&& bids_sorted(self.bids@)
        &&& asks_sorted(self.asks@)
        &&& all_positive(self.bids@)
        &&& all_positive(self.asks@)
        &&& seqs_below(self.bids@, self.next_seq as int)
        &&& seqs_below(self.asks@, self.next_seq as int)
    }

    /// An empty book.
    pub fn new() -> (r: Book)
        ensures
            r.wf(),
            r.bids@ == Seq::<Entry>::empty(),
            r.asks@ == Seq::<Entry>::empty(),
            r.next_seq == 0,
    {
        Book { bids: Vec::new(), asks: Vec::new(), next_seq: 0 }
    }

    /// Places the order on its side at the position that keeps the side
    /// priority-sorted, assigning it the next arrival sequence number. Equal
    /// prices keep arrival order: the new entry goes after every resting
    /// entry of the same price.
    pub fn insert(&mut self, order: Order)
        requires
            old(self).wf(),
            order.quantity > 0,
            old(self).next_seq < u64::MAX,
        ensures
            final(self).wf(),
            final(self).next_seq == old(self).next_seq + 1,
            order.side == Side::Buy ==> final(self).asks@ == old(self).asks@ && final(self).bids@ == old(self).bids@.insert(
                bid_insert_pos(old(self).bids@, order.price),
                order.to_entry(old(self).next_seq),
            ),
            order.side == Side::Sell ==> final(self).bids@ == old(self).bids@ && final(self).asks@ == old(self).asks@.insert(
                ask_insert_pos(old(self).asks@, order.price),
                order.to_entry(old(self).next_seq),
            ),
    {
        let e = Entry {
            id: order.id,
            price: order.price,
            quantity: order.quantity,
            seq: self.next_seq,
        };
        self.next_seq = self.next_seq + 1;
        match order.side {
            Side::Buy => insert_bid(&mut self.bids, e),
            Side::Sell => insert_ask(&mut self.asks, e),
        }
    }

    /// Returns the best order of the given side — head of the bids for `Buy`,
    /// head of the asks for `Sell` — without removing it.
    pub fn peek_best(&self, side: Side) -> (r: Option<Entry>)
        ensures
            side == Side::Buy ==> r == (if self.bids@.len() == 0 {
                Option::<Entry>::None
            } else {
                Option::<Entry>::Some(self.bids@[0])
            }),
            side == Side::Sell ==> r == (if self.asks@.len() == 0 {
                Option::<Entry>::None
            } else {
                Option::<Entry>::Some(self.asks@[0])
            }),
    {
        match side {
            Side::Buy => if self.bids.len() == 0 {
                None
            } else {
                Some(self.bids[0])
            },
            Side::Sell => if self.asks.len() == 0 {
                None
            } else {
                Some(self.asks[0])
            },
        }
    }

    /// Removes and discards the best order of the given side.
    pub fn remove_head(&mut self, side: Side)
        requires
            old(self).wf(),
            side == Side::Buy ==> old(self).bids@.len() > 0,
            side == Side::Sell ==> old(self).asks@.len() > 0,
        ensures
            final(self).wf(),
            final(self).next_seq == old(self).next_seq,
            side == Side::Buy ==> final(self).bids@ == old(self).bids@.drop_first() && final(self).asks@ == old(self).asks@,
            side == Side::Sell ==> final(self).asks@ == old(self).asks@.drop_first() && final(self).bids@ == old(self).bids@,
    {
        match side {
            Side::Buy => {
                self.bids.remove(0);
            },
            Side::Sell => {
                self.asks.remove(0);
            },
        }
    }
}

/// Inserts `e` into an ask-sorted sequence at its priority position. The new
/// entry's sequence number is fresh, so at equal price it goes last.
fn insert_ask(v: &mut Vec<Entry>, e: Entry)
    requires
        asks_sorted(old(v)@),
        all_positive(old(v)@),
        e.quantity > 0,
        seqs_below(old(v)@, e.seq as int),
    ensures
        final(v)@ == old(v)@.insert(ask_insert_pos(old(v)@, e.price), e),
        asks_sorted(final(v)@),
        all_positive(final(v)@),
        seqs_below(final(v)@, e.seq + 1),
{
    let ghost s = v@;
    let mut i: usize = 0;
    while i < v.len() && v[i].price <= e.price
        invariant
            0 <= i <= s.len(),
            v@ == s,
            forall|k: int| 0 <= k < i ==> s[k].price <= e.price,
        decreases s.len() - i,
    {
        i = i + 1;
    }
    proof {
        lemma_ask_insert_pos(s, e.price);
        // Both `i` and the spec position satisfy the same unique boundary
        // characterisation.
        let p = ask_insert_pos(s, e.price);
        if i < p {
            assert(s[i as int].price <= e.price);
        }
        if p < i {
            assert(s[p].price <= e.price);
        }
        assert(i == p);
    }
    v.insert(i, e);
    proof {
        let t = v@;
        let p = i as int;
        s.insert_ensures(p, e);
        assert forall|a: int, b: int| 0 <= a < b < t.len() implies ask_before(t[a], t[b]) by {
            if b < p {
                assert(t[a] == s[a] && t[b] == s[b]);
            } else if a < p && b == p {
                assert(t[a] == s[a] && t[b] == e);
                assert(s[a].price <= e.price && s[a].seq < e.seq);
            } else if a < p && b > p {
                assert(t[a] == s[a] && t[b] == s[b - 1]);
            } else if a == p {
                assert(t[a] == e && t[b] == s[b - 1]);
                assert(s[p].price > e.price);
                if b - 1 > p {
                    assert(ask_before(s[p], s[b - 1]));
                }
            } else {
                assert(t[a] == s[a - 1] && t[b] == s[b - 1]);
            }
        }
        assert forall|k: int| 0 <= k < t.len() implies t[k].quantity > 0 && t[k].seq < e.seq + 1 by {
            if k < p {
                assert(t[k] == s[k]);
            } else if k > p {
                assert(t[k] == s[k - 1]);
            }
        }
    }
}

/// Inserts `e` into a bid-sorted sequence at its priority position. The new
/// entry's sequence number is fresh, so at equal price it goes last.
fn insert_bid(v: &mut Vec<Entry>, e: Entry)
    requires
        bids_sorted(old(v)@),
        all_positive(old(v)@),
        e.quantity > 0,
        seqs_below(old(v)@, e.seq as int),
    ensures
        final(v)@ == old(v)@.insert(bid_insert_pos(old(v)@, e.price), e),
        bids_sorted(final(v)@),
        all_positive(final(v)@),
        seqs_below(final(v)@, e.seq + 1),
{
    let ghost s = v@;
    let mut i: usize = 0;
    while i < v.len() && v[i].price >= e.price
        invariant
            0 <= i <= s.len(),
            v@ == s,
            forall|k: int| 0 <= k < i ==> s[k].price >= e.price,
        decreases s.len() - i,
    {
        i = i + 1;
    }
    proof {
        lemma_bid_insert_pos(s, e.price);
        let p = bid_insert_pos(s, e.price);
        if i < p {
            assert(s[i as int].price >= e.price);
        }
        if p < i {
            assert(s[p].price >= e.price);
        }
        assert(i == p);
    }
    v.insert(i, e);
    proof {
        let t = v@;
        let p = i as int;
        s.insert_ensures(p, e);
        assert forall|a: int, b: int| 0 <= a < b < t.len() implies bid_before(t[a], t[b]) by {
            if b < p {
                assert(t[a] == s[a] && t[b] == s[b]);
            } else if a < p && b == p {
                assert(t[a] == s[a] && t[b] == e);
                assert(s[a].price >= e.price && s[a].seq < e.seq);
            } else if a < p && b > p {
                assert(t[a] == s[a] && t[b] == s[b - 1]);
            } else if a == p {
                assert(t[a] == e && t[b] == s[b - 1]);
                assert(s[p].price < e.price);
                if b - 1 > p {
                    assert(bid_before(s[p], s[b - 1]));
                }
            } else {
                assert(t[a] == s[a - 1] && t[b] == s[b - 1]);
            }
        }
        assert forall|k: int| 0 <= k < t.len() implies t[k].quantity > 0 && t[k].seq < e.seq + 1 by {
            if k < p {
                assert(t[k] == s[k]);
            } else if k > p {
                assert(t[k] == s[k - 1]);
            }
        }
    }
}

} // verus!
