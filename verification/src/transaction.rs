//! The transaction event model fed into a [`crate::portfolio::Portfolio`].
//!
//! [`Transaction`] is the single input type: each variant is one ledger event
//! (buy, sell, crypto-to-crypto trade, income, spend, wallet transfer, or
//! gift). All monetary fields are [`Dec`] in one quote currency (USD by
//! convention). [`Transaction::validate`] checks field-level invariants;
//! lot-availability errors surface later during replay.

use vstd::prelude::*;
use crate::decimal::Dec;
use crate::error::PortfolioError;
use crate::time::Timestamp;

verus! {

/// The kind of ordinary-income event.
#[derive(Clone, Copy, Debug, PartialEq, Eq, Structural)]
pub enum IncomeSource {
    /// Staking rewards.
    Staking,
    /// Mining rewards.
    Mining,
    /// Airdropped tokens.
    Airdrop,
    /// Lending/interest income.
    Interest,
    /// Any other ordinary-income receipt.
    Other,
}

/// A single ledger event. All monetary fields are in the quote currency.
#[derive(Clone, Debug, PartialEq)]
pub enum Transaction {
    /// Fiat -> crypto. Non-taxable; sets cost basis (incl. `fee`).
    Buy {
        /// When it happened.
        timestamp: Timestamp,
        /// Wallet/account the asset lands in.
        wallet: String,
        /// Asset identifier.
        asset: String,
        /// Units acquired.
        quantity: Dec,
        /// Price per unit.
        unit_price: Dec,
        /// Acquisition fee.
        fee: Dec,
    },
    /// Crypto -> fiat. Taxable disposal; proceeds net of `fee`.
    Sell {
        /// When it happened.
        timestamp: Timestamp,
        /// Wallet disposed from.
        wallet: String,
        /// Asset identifier.
        asset: String,
        /// Units disposed.
        quantity: Dec,
        /// Price per unit.
        unit_price: Dec,
        /// Disposal fee.
        fee: Dec,
    },
    /// Crypto -> crypto. Disposal of `from_*` at `value` (FMV) AND acquisition of
    /// `to_*` with basis = `value` + `fee`.
    Trade {
        /// When it happened.
        timestamp: Timestamp,
        /// Wallet both legs occur in.
        wallet: String,
        /// Asset given up.
        from_asset: String,
        /// Units given up.
        from_quantity: Dec,
        /// Asset received.
        to_asset: String,
        /// Units received.
        to_quantity: Dec,
        /// Fair-market value of the disposed leg.
        value: Dec,
        /// Fee (added to the acquired lot's basis).
        fee: Dec,
    },
    /// Staking/mining/airdrop/interest. Ordinary income at `value` (FMV); also
    /// opens a lot with basis = `value`.
    Income {
        /// When it happened.
        timestamp: Timestamp,
        /// Wallet the asset lands in.
        wallet: String,
        /// Asset identifier.
        asset: String,
        /// Units received.
        quantity: Dec,
        /// Fair-market value at receipt (= ordinary income).
        value: Dec,
        /// Income classification.
        source: IncomeSource,
    },
    /// Paying for goods/services with crypto. Taxable disposal at `value` (FMV).
    Spend {
        /// When it happened.
        timestamp: Timestamp,
        /// Wallet disposed from.
        wallet: String,
        /// Asset identifier.
        asset: String,
        /// Units spent.
        quantity: Dec,
        /// Fair-market value of the spend.
        value: Dec,
        /// Disposal fee.
        fee: Dec,
    },
    /// Move between your own wallets. The moved `quantity` is non-taxable and
    /// preserves basis + acquisition date. A network `fee` (units) paid in the
    /// asset is a taxable disposal at `fee_value` (FMV). Total debited from
    /// `from_wallet` = `quantity` + `fee`; `quantity` arrives in `to_wallet`.
    Transfer {
        /// When it happened.
        timestamp: Timestamp,
        /// Asset identifier.
        asset: String,
        /// Units that arrive in `to_wallet`.
        quantity: Dec,
        /// Source wallet.
        from_wallet: String,
        /// Destination wallet.
        to_wallet: String,
        /// Fee units burned (0 if none).
        fee: Dec,
        /// FMV of the fee units (ignored when `fee` is 0).
        fee_value: Dec,
    },
    /// Crypto given away as a gift. Non-taxable for the giver: lots are removed
    /// (FIFO order) from `wallet` with NO realized gain. Under `Average` the
    /// pool is averaged instead, as every removal under that method is: the
    /// units left keep the pool's average cost.
    GiftSent {
        /// When it happened.
        timestamp: Timestamp,
        /// Wallet the gift leaves from.
        wallet: String,
        /// Asset identifier.
        asset: String,
        /// Units gifted away.
        quantity: Dec,
    },
    /// Crypto received as a gift, under the IRS dual-basis rule: `donor_basis`
    /// carries over for gains; `min(donor_basis, fmv_at_receipt)` applies for
    /// losses; sales between realize no gain/loss. Holding period tacks from
    /// `donor_acquired_at`.
    GiftReceived {
        /// When it happened.
        timestamp: Timestamp,
        /// Wallet the asset lands in.
        wallet: String,
        /// Asset identifier.
        asset: String,
        /// Units received.
        quantity: Dec,
        /// Donor's total adjusted basis for `quantity`.
        donor_basis: Dec,
        /// Total fair-market value of `quantity` at receipt.
        fmv_at_receipt: Dec,
        /// Donor's acquisition date (holding period tacks from here).
        donor_acquired_at: Timestamp,
    },
}

/// `NonPositiveQuantity` unless `q > 0`.
pub open spec fn check_quantity(asset: String, q: Dec) -> Result<(), PortfolioError> {
    if q.is_pos_spec() {
        Ok(())
    } else {
        Err(PortfolioError::NonPositiveQuantity { asset, quantity: q })
    }
}

/// `NegativeValue` when `v < 0`.
pub open spec fn check_value(asset: String, v: Dec) -> Result<(), PortfolioError> {
    if v.is_neg_spec() {
        Err(PortfolioError::NegativeValue { asset })
    } else {
        Ok(())
    }
}

/// `NegativeFee` when `f < 0`.
pub open spec fn check_fee(asset: String, f: Dec) -> Result<(), PortfolioError> {
    if f.is_neg_spec() {
        Err(PortfolioError::NegativeFee { asset, fee: f })
    } else {
        Ok(())
    }
}

/// The first failing check of a sequence of checks, or `Ok(())`.
pub open spec fn first_failure(checks: Seq<Result<(), PortfolioError>>) -> Result<(), PortfolioError>
    decreases checks.len(),
{
    if checks.len() == 0 {
        Ok(())
    } else if checks[0] is Err {
        checks[0]
    } else {
        first_failure(checks.drop_first())
    }
}

impl Transaction {
    /// The event's timestamp.
    pub open spec fn timestamp_spec(self) -> Timestamp {
        match self {
            Transaction::Buy { timestamp, .. } => timestamp,
            Transaction::Sell { timestamp, .. } => timestamp,
            Transaction::Trade { timestamp, .. } => timestamp,
            Transaction::Income { timestamp, .. } => timestamp,
            Transaction::Spend { timestamp, .. } => timestamp,
            Transaction::Transfer { timestamp, .. } => timestamp,
            Transaction::GiftSent { timestamp, .. } => timestamp,
            Transaction::GiftReceived { timestamp, .. } => timestamp,
        }
    }

    /// The field checks of an event, in the order they are made.
    pub open spec fn checks(self) -> Seq<Result<(), PortfolioError>> {
        match self {
            Transaction::Buy { asset, quantity, unit_price, fee, .. } => seq![
                check_quantity(asset, quantity),
                check_value(asset, unit_price),
                check_fee(asset, fee),
            ],
            Transaction::Sell { asset, quantity, unit_price, fee, .. } => seq![
                check_quantity(asset, quantity),
                check_value(asset, unit_price),
                check_fee(asset, fee),
            ],
            Transaction::Trade { from_asset, from_quantity, to_asset, to_quantity, value, fee, .. } =>
                seq![
                check_quantity(from_asset, from_quantity),
                check_quantity(to_asset, to_quantity),
                check_value(from_asset, value),
                check_fee(from_asset, fee),
            ],
            Transaction::Income { asset, quantity, value, .. } => seq![
                check_quantity(asset, quantity),
                check_value(asset, value),
            ],
            Transaction::Spend { asset, quantity, value, fee, .. } => seq![
                check_quantity(asset, quantity),
                check_value(asset, value),
                check_fee(asset, fee),
            ],
            Transaction::Transfer { asset, quantity, fee, fee_value, .. } => seq![
                check_quantity(asset, quantity),
                check_fee(asset, fee),
                check_value(asset, fee_value),
            ],
            Transaction::GiftSent { asset, quantity, .. } => seq![check_quantity(asset, quantity)],
            Transaction::GiftReceived { asset, quantity, donor_basis, fmv_at_receipt, .. } => seq![
                check_quantity(asset, quantity),
                check_value(asset, donor_basis),
                check_value(asset, fmv_at_receipt),
            ],
        }
    }

    /// What `validate` returns: the first failing field check.
    pub open spec fn validate_spec(self) -> Result<(), PortfolioError> {
        first_failure(self.checks())
    }

    /// The event's timestamp.
    pub fn timestamp(&self) -> (r: Timestamp)
        ensures
            r == self.timestamp_spec(),
    {
        match self {
            Transaction::Buy { timestamp, .. } => *timestamp,
            Transaction::Sell { timestamp, .. } => *timestamp,
            Transaction::Trade { timestamp, .. } => *timestamp,
            Transaction::Income { timestamp, .. } => *timestamp,
            Transaction::Spend { timestamp, .. } => *timestamp,
            Transaction::Transfer { timestamp, .. } => *timestamp,
            Transaction::GiftSent { timestamp, .. } => *timestamp,
            Transaction::GiftReceived { timestamp, .. } => *timestamp,
        }
    }

    /// Validate field-level invariants (positive quantities, non-negative
    /// values/fees). Lot-availability errors surface later, during replay.
    pub fn validate(&self) -> (r: Result<(), PortfolioError>)
        ensures
            r == self.validate_spec(),
            r is Ok <==> (forall|i: int| 0 <= i < self.checks().len() ==> self.checks()[i] is Ok),
    {
        proof {
            lemma_first_failure(self.checks());
            reveal_with_fuel(first_failure, 5);
        }
        match self {
            Transaction::Buy { asset, quantity, unit_price, fee, .. }
            | Transaction::Sell { asset, quantity, unit_price, fee, .. } => {
                let ghost cs = self.checks();
                positive_quantity(asset, quantity)?;
                non_negative_value(asset, unit_price)?;
                assert(cs.drop_first().drop_first() =~= seq![cs[2]]);
                non_negative_fee(asset, fee)
            },
            Transaction::Trade { from_asset, from_quantity, to_asset, to_quantity, value, fee, .. } => {
                let ghost cs = self.checks();
                positive_quantity(from_asset, from_quantity)?;
                positive_quantity(to_asset, to_quantity)?;
                non_negative_value(from_asset, value)?;
                assert(cs.drop_first().drop_first().drop_first() =~= seq![cs[3]]);
                non_negative_fee(from_asset, fee)
            },
            Transaction::Income { asset, quantity, value, .. } => {
                let ghost cs = self.checks();
                positive_quantity(asset, quantity)?;
                assert(cs.drop_first() =~= seq![cs[1]]);
                non_negative_value(asset, value)
            },
            Transaction::Spend { asset, quantity, value, fee, .. } => {
                let ghost cs = self.checks();
                positive_quantity(asset, quantity)?;
                non_negative_value(asset, value)?;
                assert(cs.drop_first().drop_first() =~= seq![cs[2]]);
                non_negative_fee(asset, fee)
            },
            Transaction::Transfer { asset, quantity, fee, fee_value, .. } => {
                let ghost cs = self.checks();
                positive_quantity(asset, quantity)?;
                non_negative_fee(asset, fee)?;
                assert(cs.drop_first().drop_first() =~= seq![cs[2]]);
                non_negative_value(asset, fee_value)
            },
            Transaction::GiftSent { asset, quantity, .. } => {
                let ghost cs = self.checks();
                assert(cs =~= seq![cs[0]]);
                positive_quantity(asset, quantity)
            },
            Transaction::GiftReceived { asset, quantity, donor_basis, fmv_at_receipt, .. } => {
                let ghost cs = self.checks();
                positive_quantity(asset, quantity)?;
                non_negative_value(asset, donor_basis)?;
                assert(cs.drop_first().drop_first() =~= seq![cs[2]]);
                non_negative_value(asset, fmv_at_receipt)
            },
        }
    }

    /// A copy of the event.
    pub fn duplicate(&self) -> (r: Transaction)
        ensures
            r == *self,
    {
        match self {
            Transaction::Buy { timestamp, wallet, asset, quantity, unit_price, fee } =>
                Transaction::Buy {
                timestamp: *timestamp,
                wallet: wallet.clone(),
                asset: asset.clone(),
                quantity: *quantity,
                unit_price: *unit_price,
                fee: *fee,
            },
            Transaction::Sell { timestamp, wallet, asset, quantity, unit_price, fee } =>
                Transaction::Sell {
                timestamp: *timestamp,
                wallet: wallet.clone(),
                asset: asset.clone(),
                quantity: *quantity,
                unit_price: *unit_price,
                fee: *fee,
            },
            Transaction::Trade {
                timestamp,
                wallet,
                from_asset,
                from_quantity,
                to_asset,
                to_quantity,
                value,
                fee,
            } => Transaction::Trade {
                timestamp: *timestamp,
                wallet: wallet.clone(),
                from_asset: from_asset.clone(),
                from_quantity: *from_quantity,
                to_asset: to_asset.clone(),
                to_quantity: *to_quantity,
                value: *value,
                fee: *fee,
            },
            Transaction::Income { timestamp, wallet, asset, quantity, value, source } =>
                Transaction::Income {
                timestamp: *timestamp,
                wallet: wallet.clone(),
                asset: asset.clone(),
                quantity: *quantity,
                value: *value,
                source: *source,
            },
            Transaction::Spend { timestamp, wallet, asset, quantity, value, fee } =>
                Transaction::Spend {
                timestamp: *timestamp,
                wallet: wallet.clone(),
                asset: asset.clone(),
                quantity: *quantity,
                value: *value,
                fee: *fee,
            },
            Transaction::Transfer {
                timestamp,
                asset,
                quantity,
                from_wallet,
                to_wallet,
                fee,
                fee_value,
            } => Transaction::Transfer {
                timestamp: *timestamp,
                asset: asset.clone(),
                quantity: *quantity,
                from_wallet: from_wallet.clone(),
                to_wallet: to_wallet.clone(),
                fee: *fee,
                fee_value: *fee_value,
            },
            Transaction::GiftSent { timestamp, wallet, asset, quantity } => Transaction::GiftSent {
                timestamp: *timestamp,
                wallet: wallet.clone(),
                asset: asset.clone(),
                quantity: *quantity,
            },
            Transaction::GiftReceived {
                timestamp,
                wallet,
                asset,
                quantity,
                donor_basis,
                fmv_at_receipt,
                donor_acquired_at,
            } => Transaction::GiftReceived {
                timestamp: *timestamp,
                wallet: wallet.clone(),
                asset: asset.clone(),
                quantity: *quantity,
                donor_basis: *donor_basis,
                fmv_at_receipt: *fmv_at_receipt,
                donor_acquired_at: *donor_acquired_at,
            },
        }
    }
}

/// `first_failure` is `Ok` exactly when every check is.
pub proof fn lemma_first_failure(checks: Seq<Result<(), PortfolioError>>)
    ensures
        first_failure(checks) is Ok <==> (forall|i: int| 0 <= i < checks.len() ==> checks[i] is Ok),
        first_failure(checks) is Err ==> first_failure(checks) == checks[0] || (checks[0] is Ok),
        checks.len() > 0 && checks[0] is Err ==> first_failure(checks) == checks[0],
        checks.len() > 0 && checks[0] is Ok ==> first_failure(checks) == first_failure(checks.drop_first()),
    decreases checks.len(),
{
    if checks.len() > 0 {
        lemma_first_failure(checks.drop_first());
        if checks[0] is Ok {
            assert forall|i: int| 0 < i < checks.len() implies checks[i] == checks.drop_first()[i - 1] by {}
        }
    }
}

fn positive_quantity(asset: &String, q: &Dec) -> (r: Result<(), PortfolioError>)
    ensures
        r == check_quantity(*asset, *q),
{
    if q.is_positive() {
        Ok(())
    } else {
        Err(PortfolioError::NonPositiveQuantity { asset: asset.clone(), quantity: *q })
    }
}

fn non_negative_value(asset: &String, v: &Dec) -> (r: Result<(), PortfolioError>)
    ensures
        r == check_value(*asset, *v),
{
    if v.is_negative() {
        Err(PortfolioError::NegativeValue { asset: asset.clone() })
    } else {
        Ok(())
    }
}

fn non_negative_fee(asset: &String, f: &Dec) -> (r: Result<(), PortfolioError>)
    ensures
        r == check_fee(*asset, *f),
{
    if f.is_negative() {
        Err(PortfolioError::NegativeFee { asset: asset.clone(), fee: *f })
    } else {
        Ok(())
    }
}

} // verus!
