//! The per-wallet lot model.

use vstd::prelude::*;
use crate::decimal::Dec;
use crate::time::Timestamp;

verus! {

/// Extra basis information carried only by lots that originated from a gift,
/// to support the IRS dual-basis rule.
#[derive(Clone, Copy, Debug, PartialEq)]
pub struct GiftBasis {
    /// Fair-market value per unit at the time the gift was received.
    pub fmv_per_unit: Dec,
}

/// One open acquisition (or the unconsumed remainder of one), within a single
/// `(asset, wallet)` pool.
#[derive(Clone, Debug, PartialEq)]
pub struct Lot {
    /// Asset identifier.
    pub asset: String,
    /// Wallet holding the lot.
    pub wallet: String,
    /// Units remaining in this lot.
    pub quantity: Dec,
    /// Remaining cost basis for `quantity` (donor basis for gifted lots).
    pub cost_basis: Dec,
    /// Acquisition date (donor's date for gifted lots: tacked holding period).
    pub acquired_at: Timestamp,
    /// Stable id assigned in chronological acquisition order.
    pub lot_id: u64,
    /// Present only for gifted lots.
    pub gift: Option<GiftBasis>,
}

impl Lot {
    /// Remaining cost basis divided by remaining quantity.
    pub open spec fn unit_cost_spec(self) -> Option<Dec> {
        self.cost_basis.spec_div(self.quantity)
    }

    /// Remaining cost basis divided by remaining quantity; `None` when the
    /// division leaves the decimal range (or the quantity is zero).
    pub fn cost_basis_per_unit(&self) -> (r: Option<Dec>)
        ensures
            r == self.unit_cost_spec(),
    {
        self.cost_basis.checked_div(&self.quantity)
    }

    /// A copy of the lot.
    pub fn duplicate(&self) -> (r: Lot)
        ensures
            r == *self,
    {
        Lot {
            asset: self.asset.clone(),
            wallet: self.wallet.clone(),
            quantity: self.quantity,
            cost_basis: self.cost_basis,
            acquired_at: self.acquired_at,
            lot_id: self.lot_id,
            gift: self.gift,
        }
    }
}

} // verus!
