use vstd::prelude::*;

verus! {

/// The side of an order: buying or selling the venue's single instrument.
#[derive(Clone, Copy, Debug, PartialEq, Eq, Structural)]
pub enum Side {
    Buy,
    Sell,
}

/// An order as a participant submits it.
#[derive(Clone, Debug, PartialEq, Eq)]
pub struct Order {
    pub price: u64,
    pub amount: u64,
    pub side: Side,
    pub signer: String,
}

/// An order as the engine records it: resting on a book, or consumed in a match.
#[derive(Clone, Debug, PartialEq, Eq)]
pub struct PartialOrder {
    pub price: u64,
    /// The order's current working quantity (for a match record: the quantity traded).
    pub amount: u64,
    /// What is left after the latest fill; zero in a match record.
    pub remaining: u64,
    pub side: Side,
    pub signer: String,
    /// The sequence number given to the order when it entered the engine.
    pub ordinal: u64,
}

/// What one call of the engine produced: the taker's ordinal and the makers it consumed.
#[derive(Clone, Debug, PartialEq, Eq)]
pub struct Receipt {
    pub ordinal: u64,
    pub matches: Vec<PartialOrder>,
}

impl Order {
    /// Lifts a submitted order into the engine's record, with `amount == remaining`.
    pub fn into_partial_order(self, ordinal: u64, remaining: u64) -> (r: PartialOrder)
        ensures
            r == (PartialOrder {
                price: self.price,
                amount: remaining,
                remaining,
                side: self.side,
                signer: self.signer,
                ordinal,
            }),
    {
        PartialOrder {
            price: self.price,
            amount: remaining,
            remaining,
            side: self.side,
            signer: self.signer,
            ordinal,
        }
    }
}

impl PartialOrder {
    /// A field-by-field copy.
    pub fn copied(&self) -> (r: PartialOrder)
        ensures
            r == *self,
    {
        PartialOrder {
            price: self.price,
            amount: self.amount,
            remaining: self.remaining,
            side: self.side,
            signer: self.signer.clone(),
            ordinal: self.ordinal,
        }
    }
}

/// Copies a sequence of orders element by element.
pub fn copy_orders(v: &Vec<PartialOrder>) -> (r: Vec<PartialOrder>)
    ensures
        r@ == v@,
{
    let mut r: Vec<PartialOrder> = Vec::new();
    let mut i: usize = 0;
    while i < v.len()
        invariant
            i <= v@.len(),
            r@ == v@.subrange(0, i as int),
        decreases v@.len() - i,
    {
        r.push(v[i].copied());
        i = i + 1;
        assert(r@ =~= v@.subrange(0, i as int));
    }
    assert(r@ =~= v@);
    r
}

impl Receipt {
    /// A deep copy.
    pub fn copied(&self) -> (r: Receipt)
        ensures
            r.ordinal == self.ordinal,
            r.matches@ == self.matches@,
    {
        Receipt { ordinal: self.ordinal, matches: copy_orders(&self.matches) }
    }
}

} // verus!
