//! Public output types: realized gains, income, holdings, valuations, reports.

use vstd::prelude::*;
use crate::decimal::Dec;
use crate::time::Timestamp;
use crate::transaction::IncomeSource;

verus! {

/// Days held strictly above which a holding period is long-term.
pub const LONG_TERM_DAYS: i64 = 365;

/// Capital-gain holding period. Short: held 365 days or fewer; Long: more.
///
/// The 365-day cutoff approximates the IRS "more than one year" rule (it
/// ignores leap-year edge days).
#[derive(Clone, Copy, Debug, PartialEq, Eq, Structural)]
pub enum Term {
    /// Held 365 days or fewer.
    Short,
    /// Held more than 365 days.
    Long,
}

impl Term {
    /// The term of a holding from `acquired_at` to `disposed_at`.
    pub open spec fn classify_spec(acquired_at: Timestamp, disposed_at: Timestamp) -> Term {
        if Timestamp::held_more_than(acquired_at, disposed_at, LONG_TERM_DAYS as int) {
            Term::Long
        } else {
            Term::Short
        }
    }

    /// Classify a holding period from acquisition to disposal: `Long` exactly
    /// when more than 365 days elapsed.
    pub fn classify(acquired_at: Timestamp, disposed_at: Timestamp) -> (r: Term)
        ensures
            r == Self::classify_spec(acquired_at, disposed_at),
    {
        if Timestamp::held_longer_than(&acquired_at, &disposed_at, LONG_TERM_DAYS) {
            Term::Long
        } else {
            Term::Short
        }
    }
}

/// One realized capital-gain row (one matched lot). Under `Average`,
/// `acquired_at` and `term` are `None`.
#[derive(Clone, Debug, PartialEq)]
pub struct RealizedGain {
    /// Asset disposed.
    pub asset: String,
    /// Wallet disposed from.
    pub wallet: String,
    /// Disposal time.
    pub disposed_at: Timestamp,
    /// Matched lot's acquisition date; `None` under `Average`.
    pub acquired_at: Option<Timestamp>,
    /// Units in this row.
    pub quantity: Dec,
    /// Proceeds allocated to this row (net of disposal fee).
    pub proceeds: Dec,
    /// Cost basis applied (donor/lesser-of for gifted lots).
    pub cost_basis: Dec,
    /// `proceeds - cost_basis` (0 in the gift dead zone).
    pub gain: Dec,
    /// Holding-period term; `None` under `Average`.
    pub term: Option<Term>,
}

impl RealizedGain {
    /// A copy of the row.
    pub fn duplicate(&self) -> (r: RealizedGain)
        ensures
            r == *self,
    {
        RealizedGain {
            asset: self.asset.clone(),
            wallet: self.wallet.clone(),
            disposed_at: self.disposed_at,
            acquired_at: self.acquired_at,
            quantity: self.quantity,
            proceeds: self.proceeds,
            cost_basis: self.cost_basis,
            gain: self.gain,
            term: self.term,
        }
    }
}

/// One ordinary-income receipt.
#[derive(Clone, Debug, PartialEq)]
pub struct IncomeEvent {
    /// Asset received.
    pub asset: String,
    /// Wallet it landed in.
    pub wallet: String,
    /// Receipt time.
    pub received_at: Timestamp,
    /// Units received.
    pub quantity: Dec,
    /// Fair-market value at receipt (= ordinary income).
    pub value: Dec,
    /// Income classification.
    pub source: IncomeSource,
}

impl IncomeEvent {
    /// A copy of the event.
    pub fn duplicate(&self) -> (r: IncomeEvent)
        ensures
            r == *self,
    {
        IncomeEvent {
            asset: self.asset.clone(),
            wallet: self.wallet.clone(),
            received_at: self.received_at,
            quantity: self.quantity,
            value: self.value,
            source: self.source,
        }
    }
}

/// A current open position within one wallet.
#[derive(Clone, Debug, PartialEq)]
pub struct Holding {
    /// Asset held.
    pub asset: String,
    /// Wallet holding it.
    pub wallet: String,
    /// Open units.
    pub quantity: Dec,
    /// Remaining cost basis.
    pub cost_basis: Dec,
    /// `cost_basis / quantity`.
    pub average_cost: Dec,
}

/// Valuation of one asset aggregated across wallets.
#[derive(Clone, Debug, PartialEq)]
pub struct AssetValuation {
    /// Asset.
    pub asset: String,
    /// Total open units across wallets.
    pub quantity: Dec,
    /// Total remaining cost basis.
    pub cost_basis: Dec,
    /// Supplied current price.
    pub price: Dec,
    /// `quantity * price`.
    pub market_value: Dec,
    /// `market_value - cost_basis`.
    pub unrealized: Dec,
    /// `market_value / portfolio market_value` (0 when the portfolio value is 0).
    pub allocation: Dec,
}

/// Whole-portfolio valuation at supplied prices.
#[derive(Clone, Debug, PartialEq)]
pub struct PortfolioReport {
    /// Per-asset valuations (priced assets only).
    pub assets: Vec<AssetValuation>,
    /// Sum of cost basis of priced assets.
    pub total_cost: Dec,
    /// Sum of market value of priced assets.
    pub total_value: Dec,
    /// `total_value - total_cost`.
    pub total_unrealized: Dec,
    /// `total_unrealized / total_cost` (0 when `total_cost` is 0).
    pub total_return: Dec,
    /// Held assets with no supplied price (excluded from totals).
    pub missing_prices: Vec<String>,
}

/// Form-8949-shaped capital-gains report for one calendar tax year (UTC).
///
/// Under `Average`, rows have no `term`, so `short_term_gain + long_term_gain`
/// may be less than `total_gain`.
#[derive(Clone, Debug, PartialEq)]
pub struct CapitalGainsReport {
    /// The calendar year covered.
    pub tax_year: i32,
    /// Disposals settled in this year.
    pub rows: Vec<RealizedGain>,
    /// Sum of gains on short-term rows.
    pub short_term_gain: Dec,
    /// Sum of gains on long-term rows.
    pub long_term_gain: Dec,
    /// Sum of gains on all rows.
    pub total_gain: Dec,
}

/// Ordinary-income report for one calendar tax year (UTC).
#[derive(Clone, Debug, PartialEq)]
pub struct IncomeReport {
    /// The calendar year covered.
    pub tax_year: i32,
    /// Income events received in this year.
    pub events: Vec<IncomeEvent>,
    /// Sum of `value` across events.
    pub total_income: Dec,
}

} // verus!
