//! What the brokerage charges for a fill.
use crate::decimal::Decimal;
use crate::position::Lot;
use vstd::prelude::*;

verus! {

/// A commission schedule: what a fill costs. The charge is a function of the
/// schedule and the lot; `None` stands for a charge that does not fit in a
/// decimal.
pub trait Commission {
    spec fn spec_calculate(&self, lot: Lot) -> Option<Decimal>;

    fn calculate(&self, lot: &Lot) -> (r: Option<Decimal>)
        ensures
            r == self.spec_calculate(*lot),
    ;
}

/// The larger of a charge and the minimum, where there is one; of the charge
/// and zero, where there is none.
pub open spec fn at_least(charge: Decimal, minimum: Option<Decimal>) -> Decimal {
    let floor = match minimum {
        Some(m) => m,
        None => Decimal::spec_zero(),
    };
    if floor@ >= charge@ {
        floor
    } else {
        charge
    }
}

/// `rate` times the number of shares, whatever their sign.
pub open spec fn per_share_charge(rate: Decimal, lot: Lot) -> Option<Decimal> {
    rate.spec_checked_mul(Decimal::of_value(crate::decimal::magnitude(lot.quantity@)))
}

/// `rate` times the number of shares, whatever their sign, times the price.
pub open spec fn per_dollar_charge(rate: Decimal, lot: Lot) -> Option<Decimal> {
    match per_share_charge(rate, lot) {
        Some(c) => c.spec_checked_mul(lot.price),
        None => None,
    }
}

fn floor_at(charge: Decimal, minimum: Option<Decimal>) -> (r: Decimal)
    ensures
        r == at_least(charge, minimum),
{
    let floor = match minimum {
        Some(m) => m,
        None => Decimal::zero(),
    };
    if floor.ge(&charge) {
        floor
    } else {
        charge
    }
}

fn shares_of(lot: &Lot) -> (r: Decimal)
    ensures
        r == Decimal::of_value(crate::decimal::magnitude(lot.quantity@)),
{
    let r = lot.quantity.abs();
    proof {
        Decimal::lemma_of_value(r);
    }
    r
}

/// No charge.
#[derive(Clone, Copy, Debug, PartialEq, Eq, Structural)]
pub struct NoCommission;

impl Commission for NoCommission {
    open spec fn spec_calculate(&self, lot: Lot) -> Option<Decimal> {
        Some(Decimal::spec_zero())
    }

    fn calculate(&self, lot: &Lot) -> (r: Option<Decimal>) {
        Some(Decimal::zero())
    }
}

/// A charge per share, with an optional minimum per lot.
#[derive(Clone, Copy, Debug, PartialEq, Eq, Structural)]
pub struct PerShareCommission {
    amount: Decimal,
    min_lot_cost: Option<Decimal>,
}

impl PerShareCommission {
    pub closed spec fn rate(self) -> Decimal {
        self.amount
    }

    pub closed spec fn minimum(self) -> Option<Decimal> {
        self.min_lot_cost
    }

    pub fn new(amount: Decimal) -> (r: PerShareCommission)
        ensures
            r.rate() == amount,
            r.minimum() is None,
    {
        PerShareCommission { amount, min_lot_cost: None }
    }

    pub fn min_lot_cost(self, min_lot_cost: Decimal) -> (r: PerShareCommission)
        ensures
            r.rate() == self.rate(),
            r.minimum() == Some(min_lot_cost),
    {
        PerShareCommission { amount: self.amount, min_lot_cost: Some(min_lot_cost) }
    }
}

impl Commission for PerShareCommission {
    open spec fn spec_calculate(&self, lot: Lot) -> Option<Decimal> {
        match per_share_charge(self.rate(), lot) {
            Some(c) => Some(at_least(c, self.minimum())),
            None => None,
        }
    }

    fn calculate(&self, lot: &Lot) -> (r: Option<Decimal>) {
        match self.amount.checked_mul(shares_of(lot)) {
            Some(c) => Some(floor_at(c, self.min_lot_cost)),
            None => None,
        }
    }
}

/// The same charge for every lot.
#[derive(Clone, Copy, Debug, PartialEq, Eq, Structural)]
pub struct PerLotCommission {
    amount: Decimal,
}

impl PerLotCommission {
    pub closed spec fn charge(self) -> Decimal {
        self.amount
    }

    pub fn new(amount: Decimal) -> (r: PerLotCommission)
        ensures
            r.charge() == amount,
    {
        PerLotCommission { amount }
    }
}

impl Commission for PerLotCommission {
    open spec fn spec_calculate(&self, lot: Lot) -> Option<Decimal> {
        Some(self.charge())
    }

    fn calculate(&self, lot: &Lot) -> (r: Option<Decimal>) {
        Some(self.amount)
    }
}

/// A charge per dollar traded, with an optional minimum per lot.
#[derive(Clone, Copy, Debug, PartialEq, Eq, Structural)]
pub struct PerDollarCommission {
    amount: Decimal,
    min_lot_cost: Option<Decimal>,
}

impl PerDollarCommission {
    pub closed spec fn rate(self) -> Decimal {
        self.amount
    }

    pub closed spec fn minimum(self) -> Option<Decimal> {
        self.min_lot_cost
    }

    pub fn new(amount: Decimal) -> (r: PerDollarCommission)
        ensures
            r.rate() == amount,
            r.minimum() is None,
    {
        PerDollarCommission { amount, min_lot_cost: None }
    }

    pub fn min_lot_cost(self, min_lot_cost: Decimal) -> (r: PerDollarCommission)
        ensures
            r.rate() == self.rate(),
            r.minimum() == Some(min_lot_cost),
    {
        PerDollarCommission { amount: self.amount, min_lot_cost: Some(min_lot_cost) }
    }
}

impl Commission for PerDollarCommission {
    open spec fn spec_calculate(&self, lot: Lot) -> Option<Decimal> {
        match per_dollar_charge(self.rate(), lot) {
            Some(c) => Some(at_least(c, self.minimum())),
            None => None,
        }
    }

    fn calculate(&self, lot: &Lot) -> (r: Option<Decimal>) {
        match self.amount.checked_mul(shares_of(lot)) {
            Some(per_share) => match per_share.checked_mul(lot.price) {
                Some(c) => Some(floor_at(c, self.min_lot_cost)),
                None => None,
            },
            None => None,
        }
    }
}

} // verus!
