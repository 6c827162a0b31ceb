//! `coinbasis`: crypto tax-lot cost-basis accounting.
//!
//! Hand it a ledger of [`Transaction`]s and current prices; it returns
//! realized capital gains (with holding-period classification), ordinary
//! income, unrealized P/L, portfolio valuation, and tax-year reports. The
//! crate performs no network access and no file I/O: callers supply all data.
//!
//! - Disposals are matched to open lots by [`CostBasisMethod`]: `Fifo`,
//!   `Lifo`, `Hifo`, `Average`, or `SpecificId` (lots named through a
//!   [`LotSelection`]).
//! - Lots are pooled per `(asset, wallet)`; a disposal draws only from the
//!   wallet it names, and transfers move lots keeping their basis and
//!   acquisition date.
//! - Each realized lot is classified [`Term::Short`] or [`Term::Long`] at a
//!   365-day boundary.
//! - Received gifts follow the IRS dual-basis rule.
//!
//! Amounts are exact decimals ([`Dec`], computed by `rust_decimal`); instants
//! are UTC [`Timestamp`]s (computed by `chrono`).
//!
//! Not tax advice: a calculation library, provided "as is".

pub mod accounting;
pub mod conservation;
pub mod decimal;
pub mod engine;
pub mod error;
pub mod lot;
pub mod method;
pub mod portfolio;
pub mod prices;
pub mod report;
pub mod tax;
pub mod time;
pub mod transaction;

pub use decimal::Dec;
pub use error::PortfolioError;
pub use method::{CostBasisMethod, LotPick, LotSelection};
pub use portfolio::Portfolio;
pub use prices::PriceTable;
pub use report::{
    AssetValuation, CapitalGainsReport, Holding, IncomeEvent, IncomeReport, PortfolioReport,
    RealizedGain, Term,
};
pub use tax::{TaxBracket, TaxConfig, TaxEstimate};
pub use time::Timestamp;
pub use transaction::{IncomeSource, Transaction};
