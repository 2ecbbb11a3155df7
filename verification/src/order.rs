//! The records the engine works with: incoming orders, resting book entries,
//! and the trades a match produces.

use vstd::prelude::*;

verus! {

/// Which side of the market an incoming order belongs to.
#[derive(Clone, Copy, Debug, PartialEq, Eq, Structural)]
pub enum Side {
    Buy,
    Sell,
}

/// An order as it arrives: an externally assigned identifier (assumed unique,
/// not validated), a side, a tick-denominated price and a quantity.
#[derive(Clone, Copy, Debug, PartialEq, Eq, Structural)]
pub struct Order {
    pub id: u64,
    pub side: Side,
    pub price: u32,
    pub quantity: u32,
}

/// An order resting in the book. The side is given by which collection holds
/// the entry, so it is not repeated here; `seq` is the arrival sequence number
/// the book assigned on insertion, the explicit time-priority tie-break for
/// entries of equal price.
#[derive(Clone, Copy, Debug, PartialEq, Eq, Structural)]
pub struct Entry {
    pub id: u64,
    pub price: u32,
    pub quantity: u32,
    pub seq: u64,
}

/// One fill event: `quantity` units changed hands at `price` (the resting
/// ask's quoted price) between the orders named by the two identifiers.
/// Immutable once created.
#[derive(Clone, Copy, Debug, PartialEq, Eq, Structural)]
pub struct Trade {
    pub buyer_order_id: u64,
    pub seller_order_id: u64,
    pub price: u32,
    pub quantity: u32,
}

impl Order {
    /// The book entry this order becomes when it rests, under arrival
    /// sequence number `seq`.
    pub open spec fn to_entry(self, seq: u64) -> Entry {
        Entry { id: self.id, price: self.price, quantity: self.quantity, seq: seq }
    }
}

} // verus!
