//! Error type for ledger validation and replay.

use vstd::prelude::*;
use crate::decimal::{decimal_display, Dec};

verus! {

/// Errors produced when validating a ledger or computing cost basis.
#[derive(Clone, Debug, PartialEq, Eq)]
pub enum PortfolioError {
    /// A disposal asked for more units than the wallet's pool holds.
    InsufficientLots {
        /// Asset identifier.
        asset: String,
        /// Wallet the disposal drew from.
        wallet: String,
        /// Units requested.
        attempted: Dec,
        /// Units available in that wallet.
        available: Dec,
    },
    /// A transfer's `quantity + fee` exceeds the source wallet's balance.
    InsufficientTransfer {
        /// Asset identifier.
        asset: String,
        /// Source wallet.
        wallet: String,
        /// Units to move.
        quantity: Dec,
        /// Fee units burned.
        fee: Dec,
        /// Units available.
        available: Dec,
    },
    /// An event carried a non-positive quantity.
    NonPositiveQuantity {
        /// Asset identifier.
        asset: String,
        /// The offending quantity.
        quantity: Dec,
    },
    /// An event carried a negative monetary value or price.
    NegativeValue {
        /// Asset identifier.
        asset: String,
    },
    /// An event carried a negative fee.
    NegativeFee {
        /// Asset identifier.
        asset: String,
        /// The offending fee.
        fee: Dec,
    },
    /// A Specific-ID disposal had no usable lot selection.
    MissingLotSelection {
        /// Asset identifier.
        asset: String,
        /// Original input index of the disposal.
        tx_index: usize,
    },
    /// A Specific-ID selection referenced an unknown or exhausted acquisition.
    InvalidLotSelection {
        /// The bad acquisition index.
        acquisition_index: usize,
    },
    /// `realized_gains`/etc. was called with `SpecificId`; use the `*_with_selection` API.
    SelectionRequired,
    /// A decimal operation of the replay left the range of `rust_decimal`
    /// (overflow, or a division by zero).
    ArithmeticOverflow,
}

/// The text of an error message, given the displayed text of each decimal and
/// index field.
pub open spec fn message_spec(e: PortfolioError, index_text: Seq<char>) -> Seq<char> {
    match e {
        PortfolioError::InsufficientLots { asset, wallet, attempted, available } => "disposed "@
            + decimal_display(attempted@) + " "@ + asset@ + " from wallet '"@ + wallet@
            + "' but only "@ + decimal_display(available@) + " held there"@,
        PortfolioError::InsufficientTransfer { asset, wallet, quantity, fee, available } =>
            "transfer of "@ + decimal_display(quantity@) + " (+fee "@ + decimal_display(fee@)
                + ") "@ + asset@ + " from '"@ + wallet@ + "' exceeds the "@ + decimal_display(
                available@,
            ) + " held there"@,
        PortfolioError::NonPositiveQuantity { asset, quantity } => "event for "@ + asset@
            + " has non-positive quantity "@ + decimal_display(quantity@),
        PortfolioError::NegativeValue { asset } => "event for "@ + asset@
            + " has a negative value or price"@,
        PortfolioError::NegativeFee { asset, fee } => "event for "@ + asset@
            + " has a negative fee "@ + decimal_display(fee@),
        PortfolioError::MissingLotSelection { asset, tx_index } => "Specific-ID disposal of "@
            + asset@ + " (input index "@ + index_text
            + ") lacks a valid, fully-covering lot selection"@,
        PortfolioError::InvalidLotSelection { acquisition_index } =>
            "Specific-ID selection references unknown or exhausted acquisition index "@
                + index_text,
        PortfolioError::SelectionRequired =>
            "SpecificId requires a lot selection; call the *_with_selection method"@,
        PortfolioError::ArithmeticOverflow => "decimal arithmetic overflowed"@,
    }
}

/// The index field of an error, where it has one.
pub open spec fn index_field(e: PortfolioError) -> Option<usize> {
    match e {
        PortfolioError::MissingLotSelection { tx_index, .. } => Some(tx_index),
        PortfolioError::InvalidLotSelection { acquisition_index } => Some(acquisition_index),
        _ => None,
    }
}

impl PortfolioError {
    /// The human-readable message of the error (what its `Display` writes).
    pub fn message(&self) -> (r: String)
        ensures
            exists|t: String|
                (index_field(*self) matches Some(i) ==> vstd::string::to_string_from_display_ensures::<usize>(&i, t))
                && r@ == message_spec(*self, t@),
    {
        let mut s = String::new();
        match self {
            PortfolioError::InsufficientLots { asset, wallet, attempted, available } => {
                s.append("disposed ");
                s.append(attempted.to_display().as_str());
                s.append(" ");
                s.append(asset.as_str());
                s.append(" from wallet '");
                s.append(wallet.as_str());
                s.append("' but only ");
                s.append(available.to_display().as_str());
                s.append(" held there");
                assert(s@ == message_spec(*self, s@));
                s
            },
            PortfolioError::InsufficientTransfer { asset, wallet, quantity, fee, available } => {
                s.append("transfer of ");
                s.append(quantity.to_display().as_str());
                s.append(" (+fee ");
                s.append(fee.to_display().as_str());
                s.append(") ");
                s.append(asset.as_str());
                s.append(" from '");
                s.append(wallet.as_str());
                s.append("' exceeds the ");
                s.append(available.to_display().as_str());
                s.append(" held there");
                assert(s@ == message_spec(*self, s@));
                s
            },
            PortfolioError::NonPositiveQuantity { asset, quantity } => {
                s.append("event for ");
                s.append(asset.as_str());
                s.append(" has non-positive quantity ");
                s.append(quantity.to_display().as_str());
                assert(s@ == message_spec(*self, s@));
                s
            },
            PortfolioError::NegativeValue { asset } => {
                s.append("event for ");
                s.append(asset.as_str());
                s.append(" has a negative value or price");
                assert(s@ == message_spec(*self, s@));
                s
            },
            PortfolioError::NegativeFee { asset, fee } => {
                s.append("event for ");
                s.append(asset.as_str());
                s.append(" has a negative fee ");
                s.append(fee.to_display().as_str());
                assert(s@ == message_spec(*self, s@));
                s
            },
            PortfolioError::MissingLotSelection { asset, tx_index } => {
                let t = tx_index.to_string();
                s.append("Specific-ID disposal of ");
                s.append(asset.as_str());
                s.append(" (input index ");
                s.append(t.as_str());
                s.append(") lacks a valid, fully-covering lot selection");
                assert(s@ == message_spec(*self, t@));
                s
            },
            PortfolioError::InvalidLotSelection { acquisition_index } => {
                let t = acquisition_index.to_string();
                s.append("Specific-ID selection references unknown or exhausted acquisition index ");
                s.append(t.as_str());
                assert(s@ == message_spec(*self, t@));
                s
            },
            PortfolioError::SelectionRequired => {
                s.append("SpecificId requires a lot selection; call the *_with_selection method");
                assert(s@ == message_spec(*self, s@));
                s
            },
            PortfolioError::ArithmeticOverflow => {
                s.append("decimal arithmetic overflowed");
                assert(s@ == message_spec(*self, s@));
                s
            },
        }
    }
}

} // verus!
