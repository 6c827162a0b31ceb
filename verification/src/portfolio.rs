//! The public [`Portfolio`] facade: stores an immutable ledger and answers
//! cost-basis, income, holdings, valuation, and tax-report queries.
//!
//! Build one with [`Portfolio::from_transactions`], then call a query under a
//! chosen [`CostBasisMethod`]. Automatic methods use the plain query methods;
//! [`CostBasisMethod::SpecificId`] uses the `*_with_selection` variants (the
//! others return [`PortfolioError::SelectionRequired`]).

use vstd::prelude::*;
use std::collections::HashMap;
use crate::decimal::{dec_zero, Dec};
use crate::engine::{holdings_spec, replay_spec, run, ReplayState};
use crate::error::PortfolioError;
use crate::lot::Lot;
use crate::method::{CostBasisMethod, LotSelection};
use crate::prices::{lemma_text_less_order, string_less, text_less, PriceTable};
use crate::report::{
    AssetValuation,
    CapitalGainsReport,
    Holding,
    IncomeEvent,
    IncomeReport,
    PortfolioReport,
    RealizedGain,
    Term,
};
use crate::tax::{estimate, estimate_spec, threshold_fits, TaxConfig, TaxEstimate};
use crate::transaction::Transaction;

verus! {

// ---------------------------------------------------------------------------
// Specifications
// ---------------------------------------------------------------------------

/// The first field-validation error of the ledger from index `k` on.
pub open spec fn ledger_check_from(txs: Seq<Transaction>, k: int) -> Result<(), PortfolioError>
    decreases txs.len() - k,
{
    if k >= txs.len() || k < 0 {
        Ok(())
    } else {
        match txs[k].validate_spec() {
            Err(e) => Err(e),
            Ok(_) => ledger_check_from(txs, k + 1),
        }
    }
}

/// The replay of the ledger under a method with no selection.
pub open spec fn auto_replay(txs: Seq<Transaction>, method: CostBasisMethod) -> Result<ReplayState, PortfolioError> {
    if method == CostBasisMethod::SpecificId {
        Err(PortfolioError::SelectionRequired)
    } else {
        replay_spec(txs, method, Map::empty())
    }
}

/// The realized rows of a replay outcome.
pub open spec fn realized_of(s: Result<ReplayState, PortfolioError>) -> Result<Seq<RealizedGain>, PortfolioError> {
    match s {
        Ok(st) => Ok(st.realized),
        Err(e) => Err(e),
    }
}

/// The income events of the ledger, in input order.
pub open spec fn income_events_spec(txs: Seq<Transaction>) -> Seq<IncomeEvent>
    decreases txs.len(),
{
    if txs.len() == 0 {
        Seq::empty()
    } else {
        let r = income_events_spec(txs.drop_last());
        match txs.last() {
            Transaction::Income { timestamp, wallet, asset, quantity, value, source } => r.push(
                IncomeEvent { asset, wallet, received_at: timestamp, quantity, value, source },
            ),
            _ => r,
        }
    }
}

/// The holding rows of open lots; `None` when an average cost overflows.
pub open spec fn holding_rows(lots: Seq<Lot>) -> Option<Seq<Holding>>
    decreases lots.len(),
{
    if lots.len() == 0 {
        Some(Seq::empty())
    } else {
        match holding_rows(lots.drop_last()) {
            None => None,
            Some(r) => {
                let l = lots.last();
                match l.cost_basis.spec_div(l.quantity) {
                    None => None,
                    Some(avg) => Some(
                        r.push(
                            Holding {
                                asset: l.asset,
                                wallet: l.wallet,
                                quantity: l.quantity,
                                cost_basis: l.cost_basis,
                                average_cost: avg,
                            },
                        ),
                    ),
                }
            },
        }
    }
}

/// The holdings under a method.
pub open spec fn holdings_result(txs: Seq<Transaction>, method: CostBasisMethod) -> Result<Seq<Holding>, PortfolioError> {
    match auto_replay(txs, method) {
        Err(e) => Err(e),
        Ok(st) => match holding_rows(holdings_spec(st.lots)) {
            None => Err(PortfolioError::ArithmeticOverflow),
            Some(h) => Ok(h),
        },
    }
}

/// Per-asset aggregate: (asset, total units, total basis).
pub type AssetTotals = (String, Dec, Dec);

/// Index of the aggregate row of `asset`, if any.
pub open spec fn find_asset(rows: Seq<AssetTotals>, asset: Seq<char>, k: int) -> Option<int>
    decreases rows.len() - k,
{
    if k >= rows.len() || k < 0 {
        None
    } else if rows[k].0@ == asset {
        Some(k)
    } else {
        find_asset(rows, asset, k + 1)
    }
}

/// The position at which `asset` enters the name-sorted rows: before the
/// first row whose name does not sort below it.
pub open spec fn insert_position(rows: Seq<AssetTotals>, asset: String, k: int) -> int
    decreases rows.len() - k,
{
    if k >= rows.len() || k < 0 {
        rows.len() as int
    } else if !text_less(rows[k].0, asset) {
        k
    } else {
        insert_position(rows, asset, k + 1)
    }
}

/// Add one holding into the name-sorted per-asset totals (each starting from
/// zero).
pub open spec fn add_holding(rows: Seq<AssetTotals>, h: Holding) -> Option<Seq<AssetTotals>> {
    match find_asset(rows, h.asset@, 0) {
        Some(i) => match (rows[i].1.spec_add(h.quantity), rows[i].2.spec_add(h.cost_basis)) {
            (Some(q), Some(b)) => Some(rows.update(i, (rows[i].0, q, b))),
            _ => None,
        },
        None => match (dec_zero().spec_add(h.quantity), dec_zero().spec_add(h.cost_basis)) {
            (Some(q), Some(b)) => Some(rows.insert(insert_position(rows, h.asset, 0), (h.asset, q, b))),
            _ => None,
        },
    }
}

/// Per-asset totals of the holdings, sorted by asset name.
pub open spec fn asset_totals(holdings: Seq<Holding>) -> Option<Seq<AssetTotals>>
    decreases holdings.len(),
{
    if holdings.len() == 0 {
        Some(Seq::empty())
    } else {
        match asset_totals(holdings.drop_last()) {
            None => None,
            Some(r) => add_holding(r, holdings.last()),
        }
    }
}

/// The priced rows: (asset, units, basis, price), in row order.
pub open spec fn priced_rows(rows: Seq<AssetTotals>, prices: PriceTable) -> Seq<(String, Dec, Dec, Dec)>
    decreases rows.len(),
{
    if rows.len() == 0 {
        Seq::empty()
    } else {
        let r = priced_rows(rows.drop_last(), prices);
        let x = rows.last();
        match prices.price_spec(x.0@) {
            Some(p) => r.push((x.0, x.1, x.2, p)),
            None => r,
        }
    }
}

/// The held assets without a price, in row order.
pub open spec fn missing_rows(rows: Seq<AssetTotals>, prices: PriceTable) -> Seq<String>
    decreases rows.len(),
{
    if rows.len() == 0 {
        Seq::empty()
    } else {
        let r = missing_rows(rows.drop_last(), prices);
        let x = rows.last();
        match prices.price_spec(x.0@) {
            Some(_) => r,
            None => r.push(x.0),
        }
    }
}

/// Left-to-right sum from zero of the market values (`units * price`) or, with
/// `basis`, of the cost bases of priced rows.
pub open spec fn priced_sum(rows: Seq<(String, Dec, Dec, Dec)>, basis: bool) -> Option<Dec>
    decreases rows.len(),
{
    if rows.len() == 0 {
        Some(dec_zero())
    } else {
        match priced_sum(rows.drop_last(), basis) {
            None => None,
            Some(acc) => {
                let x = rows.last();
                if basis {
                    acc.spec_add(x.2)
                } else {
                    match x.1.spec_mul(x.3) {
                        None => None,
                        Some(v) => acc.spec_add(v),
                    }
                }
            },
        }
    }
}

/// The valuation row of one priced asset.
pub open spec fn asset_valuation(x: (String, Dec, Dec, Dec), total_value: Dec) -> Option<AssetValuation> {
    match x.1.spec_mul(x.3) {
        None => None,
        Some(market_value) => {
            let allocation = if total_value.is_zero_spec() {
                Some(dec_zero())
            } else {
                market_value.spec_div(total_value)
            };
            match (allocation, market_value.spec_sub(x.2)) {
                (Some(a), Some(u)) => Some(
                    AssetValuation {
                        asset: x.0,
                        quantity: x.1,
                        cost_basis: x.2,
                        price: x.3,
                        market_value,
                        unrealized: u,
                        allocation: a,
                    },
                ),
                _ => None,
            }
        },
    }
}

/// The valuation rows of all priced assets.
pub open spec fn asset_valuations(rows: Seq<(String, Dec, Dec, Dec)>, total_value: Dec) -> Option<Seq<AssetValuation>>
    decreases rows.len(),
{
    if rows.len() == 0 {
        Some(Seq::empty())
    } else {
        match (asset_valuations(rows.drop_last(), total_value), asset_valuation(rows.last(), total_value)) {
            (Some(r), Some(a)) => Some(r.push(a)),
            _ => None,
        }
    }
}

/// A whole-portfolio valuation, as plain sequences.
pub struct ValuationModel {
    /// Per-asset valuations.
    pub assets: Seq<AssetValuation>,
    /// Total basis of priced assets.
    pub total_cost: Dec,
    /// Total market value of priced assets.
    pub total_value: Dec,
    /// `total_value - total_cost`.
    pub total_unrealized: Dec,
    /// `total_unrealized / total_cost` (0 when the cost is 0).
    pub total_return: Dec,
    /// Held assets with no price.
    pub missing_prices: Seq<String>,
}

/// The valuation of holdings at the given prices.
pub open spec fn valuation_of(holdings: Seq<Holding>, prices: PriceTable) -> Result<ValuationModel, PortfolioError> {
    let overflow = PortfolioError::ArithmeticOverflow;
    match asset_totals(holdings) {
        None => Err(overflow),
        Some(rows) => {
            let priced = priced_rows(rows, prices);
            match (priced_sum(priced, false), priced_sum(priced, true)) {
                (Some(total_value), Some(total_cost)) => match (
                    asset_valuations(priced, total_value),
                    total_value.spec_sub(total_cost),
                ) {
                    (Some(assets), Some(total_unrealized)) => {
                        let total_return = if total_cost.is_zero_spec() {
                            Some(dec_zero())
                        } else {
                            total_unrealized.spec_div(total_cost)
                        };
                        match total_return {
                            None => Err(overflow),
                            Some(tr) => Ok(
                                ValuationModel {
                                    assets,
                                    total_cost,
                                    total_value,
                                    total_unrealized,
                                    total_return: tr,
                                    missing_prices: missing_rows(rows, prices),
                                },
                            ),
                        }
                    },
                    _ => Err(overflow),
                },
                _ => Err(overflow),
            }
        },
    }
}

/// A report against its model.
pub open spec fn report_matches(r: PortfolioReport, m: ValuationModel) -> bool {
    &&& r.assets@ == m.assets
    &&& r.total_cost == m.total_cost
    &&& r.total_value == m.total_value
    &&& r.total_unrealized == m.total_unrealized
    &&& r.total_return == m.total_return
    &&& r.missing_prices@ == m.missing_prices
}

/// The rows disposed in `tax_year` (UTC calendar year), in order.
pub open spec fn rows_in_year(rows: Seq<RealizedGain>, tax_year: int) -> Seq<RealizedGain>
    decreases rows.len(),
{
    if rows.len() == 0 {
        Seq::empty()
    } else {
        let r = rows_in_year(rows.drop_last(), tax_year);
        if rows.last().disposed_at.year_spec() == tax_year {
            r.push(rows.last())
        } else {
            r
        }
    }
}

/// Left-to-right sum from zero of the gains of rows whose term is `term`
/// (all rows when `term` is `None`).
pub open spec fn gain_sum(rows: Seq<RealizedGain>, term: Option<Term>) -> Option<Dec>
    decreases rows.len(),
{
    if rows.len() == 0 {
        Some(dec_zero())
    } else {
        match gain_sum(rows.drop_last(), term) {
            None => None,
            Some(acc) => if term is None || rows.last().term == term {
                acc.spec_add(rows.last().gain)
            } else {
                Some(acc)
            },
        }
    }
}

/// A capital-gains report against the realized rows it is built from.
pub open spec fn gains_report_matches(r: CapitalGainsReport, realized: Seq<RealizedGain>, tax_year: i32) -> bool {
    let rows = rows_in_year(realized, tax_year as int);
    &&& r.tax_year == tax_year
    &&& r.rows@ == rows
    &&& gain_sum(rows, None) == Some(r.total_gain)
    &&& gain_sum(rows, Some(Term::Short)) == Some(r.short_term_gain)
    &&& gain_sum(rows, Some(Term::Long)) == Some(r.long_term_gain)
}

/// Building a report from `realized` overflows.
pub open spec fn gains_report_overflows(realized: Seq<RealizedGain>, tax_year: i32) -> bool {
    let rows = rows_in_year(realized, tax_year as int);
    gain_sum(rows, None) is None || gain_sum(rows, Some(Term::Short)) is None || gain_sum(
        rows,
        Some(Term::Long),
    ) is None
}

/// The outcome of a report query against the realized rows behind it.
pub open spec fn gains_outcome(
    r: Result<CapitalGainsReport, PortfolioError>,
    realized: Result<Seq<RealizedGain>, PortfolioError>,
    tax_year: i32,
) -> bool {
    match realized {
        Err(e) => r == Err::<CapitalGainsReport, PortfolioError>(e),
        Ok(rows) => if gains_report_overflows(rows, tax_year) {
            r == Err::<CapitalGainsReport, PortfolioError>(PortfolioError::ArithmeticOverflow)
        } else {
            r matches Ok(rep) && gains_report_matches(rep, rows, tax_year)
        },
    }
}

/// The income events received in `tax_year`, in order.
pub open spec fn events_in_year(events: Seq<IncomeEvent>, tax_year: int) -> Seq<IncomeEvent>
    decreases events.len(),
{
    if events.len() == 0 {
        Seq::empty()
    } else {
        let r = events_in_year(events.drop_last(), tax_year);
        if events.last().received_at.year_spec() == tax_year {
            r.push(events.last())
        } else {
            r
        }
    }
}

/// Left-to-right sum from zero of the event values.
pub open spec fn income_sum(events: Seq<IncomeEvent>) -> Option<Dec>
    decreases events.len(),
{
    if events.len() == 0 {
        Some(dec_zero())
    } else {
        match income_sum(events.drop_last()) {
            None => None,
            Some(acc) => acc.spec_add(events.last().value),
        }
    }
}

} // verus!

verus! {

/// An immutable ledger you query under a chosen cost-basis method.
///
/// Construct with [`Portfolio::from_transactions`], then call query methods.
/// For [`CostBasisMethod::SpecificId`], use the `*_with_selection` variants.
#[derive(Clone, Debug)]
pub struct Portfolio {
    txs: Vec<Transaction>,
}

fn copy_transactions(txs: &[Transaction]) -> (r: Vec<Transaction>)
    ensures
        r@ == txs@,
{
    let mut r: Vec<Transaction> = Vec::new();
    let mut k: usize = 0;
    while k < txs.len()
        invariant
            k <= txs@.len(),
            r@ == txs@.take(k as int),
        decreases txs@.len() - k,
    {
        r.push(txs[k].duplicate());
        proof {
            assert(txs@.take(k + 1) =~= txs@.take(k as int).push(txs@[k as int]));
        }
        k = k + 1;
    }
    proof {
        assert(txs@.take(txs@.len() as int) =~= txs@);
    }
    r
}

fn holding_rows_exec(lots: &Vec<Lot>) -> (r: Option<Vec<Holding>>)
    ensures
        r matches Some(v) ==> holding_rows(lots@) == Some(v@),
        r is None ==> holding_rows(lots@) is None,
{
    let mut out: Vec<Holding> = Vec::new();
    let mut k: usize = 0;
    while k < lots.len()
        invariant
            k <= lots@.len(),
            holding_rows(lots@.take(k as int)) == Some(out@),
        decreases lots@.len() - k,
    {
        proof {
            assert(lots@.take(k + 1).drop_last() =~= lots@.take(k as int));
        }
        let l = &lots[k];
        match l.cost_basis.checked_div(&l.quantity) {
            Some(avg) => out.push(
                Holding {
                    asset: l.asset.clone(),
                    wallet: l.wallet.clone(),
                    quantity: l.quantity,
                    cost_basis: l.cost_basis,
                    average_cost: avg,
                },
            ),
            None => {
                proof {
                    lemma_holding_rows_none(lots@, k as int + 1);
                }
                return None;
            },
        }
        k = k + 1;
    }
    proof {
        assert(lots@.take(lots@.len() as int) =~= lots@);
    }
    Some(out)
}

proof fn lemma_holding_rows_none(lots: Seq<Lot>, k: int)
    requires
        0 <= k <= lots.len(),
        holding_rows(lots.take(k)) is None,
    ensures
        holding_rows(lots) is None,
    decreases lots.len() - k,
{
    if k < lots.len() {
        assert(lots.take(k + 1).drop_last() =~= lots.take(k));
        lemma_holding_rows_none(lots, k + 1);
    } else {
        assert(lots.take(k) =~= lots);
    }
}

fn find_asset_exec(rows: &Vec<(String, Dec, Dec)>, asset: &String) -> (r: Option<usize>)
    ensures
        r matches Some(i) ==> find_asset(rows@, asset@, 0) == Some(i as int) && i < rows@.len(),
        r is None ==> find_asset(rows@, asset@, 0) is None,
{
    let mut k: usize = 0;
    while k < rows.len()
        invariant
            k <= rows@.len(),
            find_asset(rows@, asset@, 0) == find_asset(rows@, asset@, k as int),
        decreases rows@.len() - k,
    {
        if rows[k].0 == *asset {
            return Some(k);
        }
        k = k + 1;
    }
    None
}

fn insert_position_exec(rows: &Vec<(String, Dec, Dec)>, asset: &String) -> (r: usize)
    ensures
        r == insert_position(rows@, *asset, 0),
        r <= rows@.len(),
{
    let mut k: usize = 0;
    while k < rows.len() && string_less(&rows[k].0, asset)
        invariant
            k <= rows@.len(),
            insert_position(rows@, *asset, 0) == insert_position(rows@, *asset, k as int),
        decreases rows@.len() - k,
    {
        k = k + 1;
    }
    k
}

fn asset_totals_exec(holdings: &Vec<Holding>) -> (r: Option<Vec<(String, Dec, Dec)>>)
    ensures
        r matches Some(v) ==> asset_totals(holdings@) == Some(v@),
        r is None ==> asset_totals(holdings@) is None,
{
    let mut rows: Vec<(String, Dec, Dec)> = Vec::new();
    let mut k: usize = 0;
    while k < holdings.len()
        invariant
            k <= holdings@.len(),
            asset_totals(holdings@.take(k as int)) == Some(rows@),
        decreases holdings@.len() - k,
    {
        proof {
            assert(holdings@.take(k + 1).drop_last() =~= holdings@.take(k as int));
        }
        let h = &holdings[k];
        match find_asset_exec(&rows, &h.asset) {
            Some(i) => {
                let q = rows[i].1.checked_add(&h.quantity);
                let b = rows[i].2.checked_add(&h.cost_basis);
                match (q, b) {
                    (Some(q), Some(b)) => {
                        let name = rows[i].0.clone();
                        rows.set(i, (name, q, b));
                    },
                    _ => {
                        proof {
                            lemma_asset_totals_none(holdings@, k as int + 1);
                        }
                        return None;
                    },
                }
            },
            None => {
                let q = Dec::zero().checked_add(&h.quantity);
                let b = Dec::zero().checked_add(&h.cost_basis);
                match (q, b) {
                    (Some(q), Some(b)) => {
                        let pos = insert_position_exec(&rows, &h.asset);
                        rows.insert(pos, (h.asset.clone(), q, b));
                    },
                    _ => {
                        proof {
                            lemma_asset_totals_none(holdings@, k as int + 1);
                        }
                        return None;
                    },
                }
            },
        }
        k = k + 1;
    }
    proof {
        assert(holdings@.take(holdings@.len() as int) =~= holdings@);
    }
    Some(rows)
}

proof fn lemma_asset_totals_none(holdings: Seq<Holding>, k: int)
    requires
        0 <= k <= holdings.len(),
        asset_totals(holdings.take(k)) is None,
    ensures
        asset_totals(holdings) is None,
    decreases holdings.len() - k,
{
    if k < holdings.len() {
        assert(holdings.take(k + 1).drop_last() =~= holdings.take(k));
        lemma_asset_totals_none(holdings, k + 1);
    } else {
        assert(holdings.take(k) =~= holdings);
    }
}

fn split_priced(rows: &Vec<(String, Dec, Dec)>, prices: &PriceTable) -> (r: (Vec<(String, Dec, Dec, Dec)>, Vec<String>))
    ensures
        r.0@ == priced_rows(rows@, *prices),
        r.1@ == missing_rows(rows@, *prices),
{
    let mut priced: Vec<(String, Dec, Dec, Dec)> = Vec::new();
    let mut missing: Vec<String> = Vec::new();
    let mut k: usize = 0;
    while k < rows.len()
        invariant
            k <= rows@.len(),
            priced@ == priced_rows(rows@.take(k as int), *prices),
            missing@ == missing_rows(rows@.take(k as int), *prices),
        decreases rows@.len() - k,
    {
        proof {
            assert(rows@.take(k + 1).drop_last() =~= rows@.take(k as int));
        }
        let x = &rows[k];
        match prices.get(&x.0) {
            Some(p) => priced.push((x.0.clone(), x.1, x.2, p)),
            None => missing.push(x.0.clone()),
        }
        k = k + 1;
    }
    proof {
        assert(rows@.take(rows@.len() as int) =~= rows@);
    }
    (priced, missing)
}

fn priced_sum_exec(rows: &Vec<(String, Dec, Dec, Dec)>, basis: bool) -> (r: Option<Dec>)
    ensures
        r == priced_sum(rows@, basis),
{
    let mut acc = Dec::zero();
    let mut k: usize = 0;
    while k < rows.len()
        invariant
            k <= rows@.len(),
            priced_sum(rows@.take(k as int), basis) == Some(acc),
        decreases rows@.len() - k,
    {
        proof {
            assert(rows@.take(k + 1).drop_last() =~= rows@.take(k as int));
        }
        let x = &rows[k];
        let v = if basis {
            Some(x.2)
        } else {
            x.1.checked_mul(&x.3)
        };
        let next = match v {
            Some(v) => acc.checked_add(&v),
            None => None,
        };
        match next {
            Some(a) => acc = a,
            None => {
                proof {
                    lemma_priced_sum_none(rows@, basis, k as int + 1);
                }
                return None;
            },
        }
        k = k + 1;
    }
    proof {
        assert(rows@.take(rows@.len() as int) =~= rows@);
    }
    Some(acc)
}

proof fn lemma_priced_sum_none(rows: Seq<(String, Dec, Dec, Dec)>, basis: bool, k: int)
    requires
        0 <= k <= rows.len(),
        priced_sum(rows.take(k), basis) is None,
    ensures
        priced_sum(rows, basis) is None,
    decreases rows.len() - k,
{
    if k < rows.len() {
        assert(rows.take(k + 1).drop_last() =~= rows.take(k));
        lemma_priced_sum_none(rows, basis, k + 1);
    } else {
        assert(rows.take(k) =~= rows);
    }
}

fn asset_valuations_exec(rows: &Vec<(String, Dec, Dec, Dec)>, total_value: Dec) -> (r: Option<Vec<AssetValuation>>)
    ensures
        r matches Some(v) ==> asset_valuations(rows@, total_value) == Some(v@),
        r is None ==> asset_valuations(rows@, total_value) is None,
{
    let mut out: Vec<AssetValuation> = Vec::new();
    let mut k: usize = 0;
    while k < rows.len()
        invariant
            k <= rows@.len(),
            asset_valuations(rows@.take(k as int), total_value) == Some(out@),
        decreases rows@.len() - k,
    {
        proof {
            assert(rows@.take(k + 1).drop_last() =~= rows@.take(k as int));
        }
        let x = &rows[k];
        let a = match x.1.checked_mul(&x.3) {
            None => None,
            Some(market_value) => {
                let allocation = if total_value.is_zero() {
                    Some(Dec::zero())
                } else {
                    market_value.checked_div(&total_value)
                };
                match (allocation, market_value.checked_sub(&x.2)) {
                    (Some(a), Some(u)) => Some(
                        AssetValuation {
                            asset: x.0.clone(),
                            quantity: x.1,
                            cost_basis: x.2,
                            price: x.3,
                            market_value,
                            unrealized: u,
                            allocation: a,
                        },
                    ),
                    _ => None,
                }
            },
        };
        match a {
            Some(a) => out.push(a),
            None => {
                proof {
                    lemma_asset_valuations_none(rows@, total_value, k as int + 1);
                }
                return None;
            },
        }
        k = k + 1;
    }
    proof {
        assert(rows@.take(rows@.len() as int) =~= rows@);
    }
    Some(out)
}

proof fn lemma_asset_valuations_none(rows: Seq<(String, Dec, Dec, Dec)>, total_value: Dec, k: int)
    requires
        0 <= k <= rows.len(),
        asset_valuations(rows.take(k), total_value) is None,
    ensures
        asset_valuations(rows, total_value) is None,
    decreases rows.len() - k,
{
    if k < rows.len() {
        assert(rows.take(k + 1).drop_last() =~= rows.take(k));
        lemma_asset_valuations_none(rows, total_value, k + 1);
    } else {
        assert(rows.take(k) =~= rows);
    }
}

fn gains_report(realized: &Vec<RealizedGain>, tax_year: i32) -> (r: Result<CapitalGainsReport, PortfolioError>)
    ensures
        gains_outcome(r, Ok(realized@), tax_year),
{
    let mut rows: Vec<RealizedGain> = Vec::new();
    let mut k: usize = 0;
    while k < realized.len()
        invariant
            k <= realized@.len(),
            rows@ == rows_in_year(realized@.take(k as int), tax_year as int),
        decreases realized@.len() - k,
    {
        proof {
            assert(realized@.take(k + 1).drop_last() =~= realized@.take(k as int));
        }
        if realized[k].disposed_at.year() == tax_year {
            rows.push(realized[k].duplicate());
        }
        k = k + 1;
    }
    proof {
        assert(realized@.take(realized@.len() as int) =~= realized@);
    }
    let ghost rs = rows@;
    let mut short = Dec::zero();
    let mut long = Dec::zero();
    let mut total = Dec::zero();
    let mut i: usize = 0;
    while i < rows.len()
        invariant
            i <= rs.len(),
            rs == rows@,
            rs == rows_in_year(realized@, tax_year as int),
            gain_sum(rs.take(i as int), None) == Some(total),
            gain_sum(rs.take(i as int), Some(Term::Short)) == Some(short),
            gain_sum(rs.take(i as int), Some(Term::Long)) == Some(long),
        decreases rs.len() - i,
    {
        proof {
            assert(rs.take(i + 1).drop_last() =~= rs.take(i as int));
        }
        let g = rows[i].gain;
        match total.checked_add(&g) {
            Some(t) => total = t,
            None => {
                proof {
                    lemma_gain_sum_none(rs, None, i as int + 1);
                }
                return Err(PortfolioError::ArithmeticOverflow);
            },
        }
        match rows[i].term {
            Some(Term::Short) => match short.checked_add(&g) {
                Some(t) => short = t,
                None => {
                    proof {
                        lemma_gain_sum_none(rs, Some(Term::Short), i as int + 1);
                    }
                    return Err(PortfolioError::ArithmeticOverflow);
                },
            },
            Some(Term::Long) => match long.checked_add(&g) {
                Some(t) => long = t,
                None => {
                    proof {
                        lemma_gain_sum_none(rs, Some(Term::Long), i as int + 1);
                    }
                    return Err(PortfolioError::ArithmeticOverflow);
                },
            },
            None => {},
        }
        i = i + 1;
    }
    proof {
        assert(rs.take(rs.len() as int) =~= rs);
    }
    Ok(CapitalGainsReport { tax_year, rows, short_term_gain: short, long_term_gain: long, total_gain: total })
}

proof fn lemma_gain_sum_none(rows: Seq<RealizedGain>, term: Option<Term>, k: int)
    requires
        0 <= k <= rows.len(),
        gain_sum(rows.take(k), term) is None,
    ensures
        gain_sum(rows, term) is None,
    decreases rows.len() - k,
{
    if k < rows.len() {
        assert(rows.take(k + 1).drop_last() =~= rows.take(k));
        lemma_gain_sum_none(rows, term, k + 1);
    } else {
        assert(rows.take(k) =~= rows);
    }
}

impl Portfolio {
    /// The ledger, in input order.
    pub closed spec fn ledger(self) -> Seq<Transaction> {
        self.txs@
    }

    /// Build a portfolio from a ledger, validating each event's fields. The
    /// original order is preserved (Specific-ID indices refer to it). The
    /// error is that of the first invalid event.
    pub fn from_transactions(txs: &[Transaction]) -> (r: Result<Portfolio, PortfolioError>)
        ensures
            r matches Ok(p) ==> p.ledger() == txs@,
            r is Ok <==> ledger_check_from(txs@, 0) is Ok,
            r matches Err(e) ==> ledger_check_from(txs@, 0) == Err::<(), PortfolioError>(e),
    {
        let mut k: usize = 0;
        while k < txs.len()
            invariant
                k <= txs@.len(),
                ledger_check_from(txs@, 0) == ledger_check_from(txs@, k as int),
            decreases txs@.len() - k,
        {
            match txs[k].validate() {
                Ok(()) => {},
                Err(e) => return Err(e),
            }
            k = k + 1;
        }
        Ok(Portfolio { txs: copy_transactions(txs) })
    }

    /// Realized capital-gain rows under an automatic method. Returns
    /// [`PortfolioError::SelectionRequired`] for `SpecificId`.
    pub fn realized_gains(&self, method: CostBasisMethod) -> (r: Result<Vec<RealizedGain>, PortfolioError>)
        ensures
            match r {
                Ok(v) => realized_of(auto_replay(self.ledger(), method)) == Ok::<Seq<RealizedGain>, PortfolioError>(v@),
                Err(e) => realized_of(auto_replay(self.ledger(), method)) == Err::<Seq<RealizedGain>, PortfolioError>(e),
            },
            method == CostBasisMethod::SpecificId ==> r == Err::<Vec<RealizedGain>, PortfolioError>(
                PortfolioError::SelectionRequired,
            ),
    {
        if method == CostBasisMethod::SpecificId {
            return Err(PortfolioError::SelectionRequired);
        }
        let empty: LotSelection = HashMap::new();
        match run(&self.txs, method, &empty) {
            Ok(out) => Ok(out.realized),
            Err(e) => Err(e),
        }
    }

    /// Realized capital-gain rows using a Specific-ID selection.
    pub fn realized_gains_with_selection(&self, selection: &LotSelection) -> (r: Result<Vec<RealizedGain>, PortfolioError>)
        ensures
            match r {
                Ok(v) => realized_of(replay_spec(self.ledger(), CostBasisMethod::SpecificId, selection@))
                    == Ok::<Seq<RealizedGain>, PortfolioError>(v@),
                Err(e) => realized_of(replay_spec(self.ledger(), CostBasisMethod::SpecificId, selection@))
                    == Err::<Seq<RealizedGain>, PortfolioError>(e),
            },
    {
        match run(&self.txs, CostBasisMethod::SpecificId, selection) {
            Ok(out) => Ok(out.realized),
            Err(e) => Err(e),
        }
    }

    /// Ordinary-income events (method-independent), in input order.
    pub fn income_events(&self) -> (r: Vec<IncomeEvent>)
        ensures
            r@ == income_events_spec(self.ledger()),
    {
        let mut out: Vec<IncomeEvent> = Vec::new();
        let mut k: usize = 0;
        while k < self.txs.len()
            invariant
                k <= self.txs@.len(),
                out@ == income_events_spec(self.txs@.take(k as int)),
            decreases self.txs@.len() - k,
        {
            proof {
                assert(self.txs@.take(k + 1).drop_last() =~= self.txs@.take(k as int));
            }
            match &self.txs[k] {
                Transaction::Income { timestamp, wallet, asset, quantity, value, source } => {
                    out.push(
                        IncomeEvent {
                            asset: asset.clone(),
                            wallet: wallet.clone(),
                            received_at: *timestamp,
                            quantity: *quantity,
                            value: *value,
                            source: *source,
                        },
                    );
                },
                _ => {},
            }
            k = k + 1;
        }
        proof {
            assert(self.txs@.take(self.txs@.len() as int) =~= self.txs@);
        }
        out
    }

    /// Current open positions (per wallet) under an automatic method, sorted
    /// by lot id.
    pub fn holdings(&self, method: CostBasisMethod) -> (r: Result<Vec<Holding>, PortfolioError>)
        ensures
            match r {
                Ok(v) => holdings_result(self.ledger(), method) == Ok::<Seq<Holding>, PortfolioError>(v@),
                Err(e) => holdings_result(self.ledger(), method) == Err::<Seq<Holding>, PortfolioError>(e),
            },
    {
        if method == CostBasisMethod::SpecificId {
            return Err(PortfolioError::SelectionRequired);
        }
        let empty: LotSelection = HashMap::new();
        let out = match run(&self.txs, method, &empty) {
            Ok(out) => out,
            Err(e) => return Err(e),
        };
        match holding_rows_exec(&out.holdings) {
            Some(h) => Ok(h),
            None => Err(PortfolioError::ArithmeticOverflow),
        }
    }

    /// Value current holdings at supplied prices, aggregating per asset across
    /// wallets (assets in name order). Held assets with no supplied price are
    /// excluded from totals and listed in `missing_prices`.
    pub fn valuation(&self, method: CostBasisMethod, prices: &PriceTable) -> (r: Result<PortfolioReport, PortfolioError>)
        ensures
            match holdings_result(self.ledger(), method) {
                Err(e) => r == Err::<PortfolioReport, PortfolioError>(e),
                Ok(h) => match valuation_of(h, *prices) {
                    Err(e) => r == Err::<PortfolioReport, PortfolioError>(e),
                    Ok(m) => r matches Ok(rep) && report_matches(rep, m),
                },
            },
    {
        let holdings = match self.holdings(method) {
            Ok(h) => h,
            Err(e) => return Err(e),
        };
        let rows = match asset_totals_exec(&holdings) {
            Some(r) => r,
            None => return Err(PortfolioError::ArithmeticOverflow),
        };
        let (priced, missing_prices) = split_priced(&rows, prices);
        let total_value = match priced_sum_exec(&priced, false) {
            Some(v) => v,
            None => return Err(PortfolioError::ArithmeticOverflow),
        };
        let total_cost = match priced_sum_exec(&priced, true) {
            Some(v) => v,
            None => return Err(PortfolioError::ArithmeticOverflow),
        };
        let assets = match asset_valuations_exec(&priced, total_value) {
            Some(a) => a,
            None => return Err(PortfolioError::ArithmeticOverflow),
        };
        let total_unrealized = match total_value.checked_sub(&total_cost) {
            Some(u) => u,
            None => return Err(PortfolioError::ArithmeticOverflow),
        };
        let total_return = if total_cost.is_zero() {
            Dec::zero()
        } else {
            match total_unrealized.checked_div(&total_cost) {
                Some(t) => t,
                None => return Err(PortfolioError::ArithmeticOverflow),
            }
        };
        Ok(PortfolioReport { assets, total_cost, total_value, total_unrealized, total_return, missing_prices })
    }

    /// Form-8949-shaped capital-gains report for one calendar tax year (UTC),
    /// under an automatic method. Use
    /// [`Portfolio::capital_gains_report_with_selection`] for Specific-ID.
    pub fn capital_gains_report(&self, method: CostBasisMethod, tax_year: i32) -> (r: Result<
        CapitalGainsReport,
        PortfolioError,
    >)
        ensures
            gains_outcome(r, realized_of(auto_replay(self.ledger(), method)), tax_year),
    {
        if method == CostBasisMethod::SpecificId {
            return Err(PortfolioError::SelectionRequired);
        }
        let realized = match self.realized_gains(method) {
            Ok(v) => v,
            Err(e) => return Err(e),
        };
        gains_report(&realized, tax_year)
    }

    /// Estimate tax for one tax year under `method` and a [`TaxConfig`]: the
    /// estimate of the year's capital-gains report.
    pub fn tax_estimate(&self, method: CostBasisMethod, tax_year: i32, config: &TaxConfig) -> (r: Result<
        TaxEstimate,
        PortfolioError,
    >)
        requires
            match realized_of(auto_replay(self.ledger(), method)) {
                Ok(rows) => !gains_report_overflows(rows, tax_year) ==> threshold_fits(
                    rows_in_year(rows, tax_year as int),
                    config.long_term_threshold_days as int,
                ),
                Err(_) => true,
            },
        ensures
            match realized_of(auto_replay(self.ledger(), method)) {
                Err(e) => r == Err::<TaxEstimate, PortfolioError>(e),
                Ok(rows) => if gains_report_overflows(rows, tax_year) {
                    r == Err::<TaxEstimate, PortfolioError>(PortfolioError::ArithmeticOverflow)
                } else {
                    forall|rep: CapitalGainsReport|
                        gains_report_matches(rep, rows, tax_year) ==> match estimate_spec(rep, *config) {
                            Some(e) => r == Ok::<TaxEstimate, PortfolioError>(e),
                            None => r == Err::<TaxEstimate, PortfolioError>(PortfolioError::ArithmeticOverflow),
                        }
                },
            },
    {
        let report = match self.capital_gains_report(method, tax_year) {
            Ok(r) => r,
            Err(e) => return Err(e),
        };
        match estimate(&report, config) {
            Some(e) => Ok(e),
            None => Err(PortfolioError::ArithmeticOverflow),
        }
    }

    /// Capital-gains report using a Specific-ID selection.
    pub fn capital_gains_report_with_selection(&self, selection: &LotSelection, tax_year: i32) -> (r: Result<
        CapitalGainsReport,
        PortfolioError,
    >)
        ensures
            gains_outcome(
                r,
                realized_of(replay_spec(self.ledger(), CostBasisMethod::SpecificId, selection@)),
                tax_year,
            ),
    {
        let realized = match self.realized_gains_with_selection(selection) {
            Ok(v) => v,
            Err(e) => return Err(e),
        };
        gains_report(&realized, tax_year)
    }

    /// Ordinary-income report for one calendar tax year (UTC); an error only
    /// when the total overflows.
    pub fn income_report(&self, tax_year: i32) -> (r: Result<IncomeReport, PortfolioError>)
        ensures
            ({
                let events = events_in_year(income_events_spec(self.ledger()), tax_year as int);
                match income_sum(events) {
                    None => r == Err::<IncomeReport, PortfolioError>(PortfolioError::ArithmeticOverflow),
                    Some(total) => r matches Ok(rep) && rep.tax_year == tax_year && rep.events@ == events
                        && rep.total_income == total,
                }
            }),
    {
        let all = self.income_events();
        let mut events: Vec<IncomeEvent> = Vec::new();
        let mut k: usize = 0;
        while k < all.len()
            invariant
                k <= all@.len(),
                events@ == events_in_year(all@.take(k as int), tax_year as int),
            decreases all@.len() - k,
        {
            proof {
                assert(all@.take(k + 1).drop_last() =~= all@.take(k as int));
            }
            if all[k].received_at.year() == tax_year {
                events.push(all[k].duplicate());
            }
            k = k + 1;
        }
        proof {
            assert(all@.take(all@.len() as int) =~= all@);
        }
        let ghost es = events@;
        let mut total = Dec::zero();
        let mut i: usize = 0;
        while i < events.len()
            invariant
                i <= es.len(),
                es == events@,
                es == events_in_year(income_events_spec(self.ledger()), tax_year as int),
                income_sum(es.take(i as int)) == Some(total),
            decreases es.len() - i,
        {
            proof {
                assert(es.take(i + 1).drop_last() =~= es.take(i as int));
            }
            match total.checked_add(&events[i].value) {
                Some(t) => total = t,
                None => {
                    proof {
                        lemma_income_sum_none(es, i as int + 1);
                    }
                    return Err(PortfolioError::ArithmeticOverflow);
                },
            }
            i = i + 1;
        }
        proof {
            assert(es.take(es.len() as int) =~= es);
        }
        Ok(IncomeReport { tax_year, events, total_income: total })
    }
}

proof fn lemma_income_sum_none(events: Seq<IncomeEvent>, k: int)
    requires
        0 <= k <= events.len(),
        income_sum(events.take(k)) is None,
    ensures
        income_sum(events) is None,
    decreases events.len() - k,
{
    if k < events.len() {
        assert(events.take(k + 1).drop_last() =~= events.take(k));
        lemma_income_sum_none(events, k + 1);
    } else {
        assert(events.take(k) =~= events);
    }
}

// ---------------------------------------------------------------------------
// Laws of the valuation
// ---------------------------------------------------------------------------

/// The rows' asset names are strictly ascending.
pub open spec fn names_ascending(rows: Seq<AssetTotals>) -> bool {
    forall|i: int, j: int| #![trigger rows[i], rows[j]] 0 <= i < j < rows.len() ==> text_less(rows[i].0, rows[j].0)
}

/// Left-to-right sum from zero of the units (or, with `basis`, the cost
/// bases) of the holdings of `asset`; `None` once an addition overflows.
pub open spec fn asset_sum(holdings: Seq<Holding>, asset: Seq<char>, basis: bool) -> Option<Dec>
    decreases holdings.len(),
{
    if holdings.len() == 0 {
        Some(dec_zero())
    } else {
        let h = holdings.last();
        match asset_sum(holdings.drop_last(), asset, basis) {
            None => None,
            Some(acc) => if h.asset@ == asset {
                acc.spec_add(
                    if basis {
                        h.cost_basis
                    } else {
                        h.quantity
                    },
                )
            } else {
                Some(acc)
            },
        }
    }
}

/// Some holding is of `asset`.
pub open spec fn holds_asset(holdings: Seq<Holding>, asset: Seq<char>) -> bool {
    exists|k: int| 0 <= k < holdings.len() && (#[trigger] holdings[k]).asset@ == asset
}

proof fn lemma_find_asset(rows: Seq<AssetTotals>, asset: Seq<char>, k: int)
    requires
        0 <= k,
    ensures
        find_asset(rows, asset, k) matches Some(i) ==> k <= i < rows.len() && rows[i].0@ == asset,
        find_asset(rows, asset, k) is None ==> forall|m: int| k <= m < rows.len() ==> (#[trigger] rows[m]).0@ != asset,
    decreases rows.len() - k,
{
    if k < rows.len() {
        lemma_find_asset(rows, asset, k + 1);
    }
}

proof fn lemma_insert_position(rows: Seq<AssetTotals>, asset: String, k: int)
    requires
        0 <= k <= rows.len(),
    ensures
        k <= insert_position(rows, asset, k) <= rows.len(),
        forall|m: int| k <= m < insert_position(rows, asset, k) ==> text_less((#[trigger] rows[m]).0, asset),
        insert_position(rows, asset, k) < rows.len() ==> !text_less(rows[insert_position(rows, asset, k)].0, asset),
    decreases rows.len() - k,
{
    if k < rows.len() {
        lemma_insert_position(rows, asset, k + 1);
    }
}

/// Distinct-name facts of ascending rows.
proof fn lemma_ascending_distinct(rows: Seq<AssetTotals>, i: int, j: int)
    requires
        names_ascending(rows),
        0 <= i < rows.len(),
        0 <= j < rows.len(),
        i != j,
    ensures
        rows[i].0@ != rows[j].0@,
{
    if i < j {
        assert(text_less(rows[i].0, rows[j].0));
        lemma_text_less_order(rows[i].0, rows[j].0, rows[j].0);
    } else {
        assert(text_less(rows[j].0, rows[i].0));
        lemma_text_less_order(rows[j].0, rows[i].0, rows[i].0);
    }
}

/// What the per-asset totals of the holdings are: one row per held asset,
/// in ascending name order, each with the asset's unit and basis sums.
pub open spec fn totals_describe(rows: Seq<AssetTotals>, holdings: Seq<Holding>) -> bool {
    &&& names_ascending(rows)
    &&& forall|i: int|
        0 <= i < rows.len() ==> asset_sum(holdings, (#[trigger] rows[i]).0@, false) == Some(rows[i].1)
            && asset_sum(holdings, rows[i].0@, true) == Some(rows[i].2) && holds_asset(holdings, rows[i].0@)
    &&& forall|k: int|
        0 <= k < holdings.len() ==> exists|i: int| 0 <= i < rows.len() && (#[trigger] rows[i]).0@ == (
        #[trigger] holdings[k]).asset@
    &&& forall|a: Seq<char>|
        (forall|i: int| 0 <= i < rows.len() ==> (#[trigger] rows[i]).0@ != a) ==> asset_sum(holdings, a, false)
            == Some(dec_zero()) && asset_sum(holdings, a, true) == Some(dec_zero())
}

proof fn lemma_asset_totals(holdings: Seq<Holding>)
    requires
        asset_totals(holdings) is Some,
    ensures
        totals_describe(asset_totals(holdings).unwrap(), holdings),
    decreases holdings.len(),
{
    if holdings.len() > 0 {
        let d = holdings.drop_last();
        let h = holdings.last();
        lemma_asset_totals(d);
        let rows = asset_totals(d).unwrap();
        lemma_find_asset(rows, h.asset@, 0);
        match find_asset(rows, h.asset@, 0) {
            Some(i) => lemma_totals_found(holdings, d, h, rows, i),
            None => lemma_totals_new(holdings, d, h, rows),
        }
    }
}

/// Adding a holding of an asset that already has a row.
#[verifier::rlimit(30)]
proof fn lemma_totals_found(holdings: Seq<Holding>, d: Seq<Holding>, h: Holding, rows: Seq<AssetTotals>, i: int)
    requires
        holdings.len() > 0,
        d == holdings.drop_last(),
        h == holdings.last(),
        rows == asset_totals(d).unwrap(),
        asset_totals(d) is Some,
        totals_describe(rows, d),
        asset_totals(holdings) is Some,
        find_asset(rows, h.asset@, 0) == Some(i),
        0 <= i < rows.len(),
        rows[i].0@ == h.asset@,
    ensures
        totals_describe(asset_totals(holdings).unwrap(), holdings),
{
    let r2 = asset_totals(holdings).unwrap();
    assert(holds_asset(holdings, h.asset@)) by {
        assert(holdings[holdings.len() - 1] == h);
    }
    assert(r2 == rows.update(i, (rows[i].0, rows[i].1.spec_add(h.quantity).unwrap(), rows[i].2.spec_add(h.cost_basis).unwrap())));
    assert forall|x: int, y: int| #![trigger r2[x], r2[y]] 0 <= x < y < r2.len() implies text_less(
        r2[x].0,
        r2[y].0,
    ) by {
        assert(r2[x].0 == rows[x].0 && r2[y].0 == rows[y].0);
        assert(text_less(rows[x].0, rows[y].0));
    }
    assert forall|j: int| 0 <= j < r2.len() implies asset_sum(holdings, (#[trigger] r2[j]).0@, false)
        == Some(r2[j].1) && asset_sum(holdings, r2[j].0@, true) == Some(r2[j].2) && holds_asset(
        holdings,
        r2[j].0@,
    ) by {
        if j != i {
            lemma_ascending_distinct(rows, i, j);
            assert(r2[j] == rows[j]);
        }
        let a = r2[j].0@;
        assert(holds_asset(d, a));
        let k = choose|k: int| 0 <= k < d.len() && (#[trigger] d[k]).asset@ == a;
        assert(d[k].asset@ == a);
        assert(holdings[k] == d[k]);
    }
    assert forall|k: int| 0 <= k < holdings.len() implies exists|j: int|
        0 <= j < r2.len() && (#[trigger] r2[j]).0@ == (#[trigger] holdings[k]).asset@ by {
        if k < d.len() {
            assert(holdings[k] == d[k]);
            let j = choose|j: int| 0 <= j < rows.len() && (#[trigger] rows[j]).0@ == d[k].asset@;
            assert(r2[j].0 == rows[j].0);
        } else {
            assert(r2[i].0@ == holdings[k].asset@);
        }
    }
    assert forall|a: Seq<char>|
        (forall|j: int| 0 <= j < r2.len() ==> (#[trigger] r2[j]).0@ != a) implies asset_sum(holdings, a, false)
        == Some(dec_zero()) && asset_sum(holdings, a, true) == Some(dec_zero()) by {
        assert forall|j: int| 0 <= j < rows.len() implies (#[trigger] rows[j]).0@ != a by {
            assert(r2[j].0 == rows[j].0);
        }
        assert(r2[i].0 == rows[i].0);
        assert(r2[i].0@ != a);
        assert(h.asset@ != a);
        assert(asset_sum(d, a, false) == Some(dec_zero()));
        assert(asset_sum(d, a, true) == Some(dec_zero()));
    }
}

/// Inserting a new name at its insertion position keeps the names ascending.
proof fn lemma_insert_sorted(rows: Seq<AssetTotals>, name: String, q: Dec, b: Dec)
    requires
        names_ascending(rows),
        forall|m: int| 0 <= m < rows.len() ==> (#[trigger] rows[m]).0@ != name@,
    ensures
        names_ascending(rows.insert(insert_position(rows, name, 0), (name, q, b))),
{
    let p = insert_position(rows, name, 0);
    lemma_insert_position(rows, name, 0);
    let r2 = rows.insert(p, (name, q, b));
    assert forall|x: int, y: int| #![trigger r2[x], r2[y]] 0 <= x < y < r2.len() implies text_less(
        r2[x].0,
        r2[y].0,
    ) by {
        if y < p {
            assert(r2[x] == rows[x] && r2[y] == rows[y]);
        } else if y == p {
            assert(r2[x] == rows[x]);
        } else if x > p {
            assert(r2[x] == rows[x - 1] && r2[y] == rows[y - 1]);
        } else if x == p {
            assert(r2[y] == rows[y - 1]);
            assert(!text_less(rows[p].0, name));
            lemma_text_less_order(rows[p].0, name, rows[y - 1].0);
            lemma_text_less_order(name, rows[p].0, rows[y - 1].0);
            if y - 1 > p {
                assert(text_less(rows[p].0, rows[y - 1].0));
            }
        } else {
            assert(r2[x] == rows[x] && r2[y] == rows[y - 1]);
            assert(text_less(rows[x].0, name));
            assert(!text_less(rows[p].0, name));
            lemma_text_less_order(rows[p].0, name, rows[y - 1].0);
            lemma_text_less_order(name, rows[p].0, rows[y - 1].0);
            lemma_text_less_order(rows[x].0, name, rows[y - 1].0);
            if y - 1 > p {
                assert(text_less(rows[p].0, rows[y - 1].0));
            }
        }
    }
}

/// Adding a holding of an asset that has no row yet.
#[verifier::rlimit(60)]
proof fn lemma_totals_new(holdings: Seq<Holding>, d: Seq<Holding>, h: Holding, rows: Seq<AssetTotals>)
    requires
        holdings.len() > 0,
        d == holdings.drop_last(),
        h == holdings.last(),
        rows == asset_totals(d).unwrap(),
        asset_totals(d) is Some,
        totals_describe(rows, d),
        asset_totals(holdings) is Some,
        find_asset(rows, h.asset@, 0) is None,
        forall|m: int| 0 <= m < rows.len() ==> (#[trigger] rows[m]).0@ != h.asset@,
    ensures
        totals_describe(asset_totals(holdings).unwrap(), holdings),
{
    let r2 = asset_totals(holdings).unwrap();
    assert(holds_asset(holdings, h.asset@)) by {
        assert(holdings[holdings.len() - 1] == h);
    }
    let p = insert_position(rows, h.asset, 0);
    lemma_insert_position(rows, h.asset, 0);
    let q = dec_zero().spec_add(h.quantity).unwrap();
    let b = dec_zero().spec_add(h.cost_basis).unwrap();
    assert(r2 == rows.insert(p, (h.asset, q, b)));
    lemma_insert_sorted(rows, h.asset, q, b);
    assert forall|j: int| 0 <= j < r2.len() implies asset_sum(holdings, (#[trigger] r2[j]).0@, false)
        == Some(r2[j].1) && asset_sum(holdings, r2[j].0@, true) == Some(r2[j].2) && holds_asset(
        holdings,
        r2[j].0@,
    ) by {
        if j == p {
            assert(r2[j] == (h.asset, q, b));
            assert(asset_sum(d, h.asset@, false) == Some(dec_zero()));
            assert(asset_sum(d, h.asset@, true) == Some(dec_zero()));
        } else {
            let jj = if j < p {
                j
            } else {
                j - 1
            };
            assert(r2[j] == rows[jj]);
            assert(rows[jj].0@ != h.asset@);
            assert(asset_sum(d, rows[jj].0@, false) == Some(rows[jj].1));
            let a = r2[j].0@;
            assert(holds_asset(d, a));
            let k = choose|k: int| 0 <= k < d.len() && (#[trigger] d[k]).asset@ == a;
            assert(d[k].asset@ == a);
            assert(holdings[k] == d[k]);
        assert(holdings[k] == d[k]);
        }
    }
    assert forall|k: int| 0 <= k < holdings.len() implies exists|j: int|
        0 <= j < r2.len() && (#[trigger] r2[j]).0@ == (#[trigger] holdings[k]).asset@ by {
        if k < d.len() {
            assert(holdings[k] == d[k]);
            let j = choose|j: int| 0 <= j < rows.len() && (#[trigger] rows[j]).0@ == d[k].asset@;
            if j < p {
                assert(r2[j] == rows[j]);
            } else {
                assert(r2[j + 1] == rows[j]);
            }
        } else {
            assert(r2[p].0@ == holdings[k].asset@);
        }
    }
    assert forall|a: Seq<char>|
        (forall|j: int| 0 <= j < r2.len() ==> (#[trigger] r2[j]).0@ != a) implies asset_sum(holdings, a, false)
        == Some(dec_zero()) && asset_sum(holdings, a, true) == Some(dec_zero()) by {
        assert forall|j: int| 0 <= j < rows.len() implies (#[trigger] rows[j]).0@ != a by {
            if j < p {
                assert(r2[j] == rows[j]);
            } else {
                assert(r2[j + 1] == rows[j]);
            }
        }
        assert(r2[p].0@ != a);
        assert(h.asset@ != a);
        assert(asset_sum(d, a, false) == Some(dec_zero()));
        assert(asset_sum(d, a, true) == Some(dec_zero()));
    }
}

proof fn lemma_priced_rows(rows: Seq<AssetTotals>, prices: PriceTable)
    requires
        names_ascending(rows),
    ensures
        ({
            let pr = priced_rows(rows, prices);
            &&& forall|i: int, j: int| #![trigger pr[i], pr[j]] 0 <= i < j < pr.len() ==> text_less(pr[i].0, pr[j].0)
            &&& forall|i: int|
                0 <= i < pr.len() ==> exists|k: int|
                    0 <= k < rows.len() && (#[trigger] rows[k]).0 == (#[trigger] pr[i]).0 && rows[k].1 == pr[i].1
                        && rows[k].2 == pr[i].2 && prices.price_spec(rows[k].0@) == Some(pr[i].3)
            &&& forall|k: int|
                0 <= k < rows.len() && (prices.price_spec((#[trigger] rows[k]).0@) is Some) ==> exists|i: int|
                    0 <= i < pr.len() && (#[trigger] pr[i]).0 == rows[k].0
        }),
    decreases rows.len(),
{
    if rows.len() > 0 {
        let d = rows.drop_last();
        assert forall|i: int, j: int| #![trigger d[i], d[j]] 0 <= i < j < d.len() implies text_less(d[i].0, d[j].0) by {
            assert(d[i] == rows[i] && d[j] == rows[j]);
        }
        lemma_priced_rows(d, prices);
        let p1 = priced_rows(d, prices);
        let pr = priced_rows(rows, prices);
        let x = rows.last();
        assert forall|i: int| 0 <= i < p1.len() implies exists|k: int|
            0 <= k < rows.len() - 1 && (#[trigger] rows[k]).0 == (#[trigger] p1[i]).0 by {
            let k = choose|k: int| 0 <= k < d.len() && (#[trigger] d[k]).0 == (#[trigger] p1[i]).0 && d[k].1 == p1[i].1
                && d[k].2 == p1[i].2 && prices.price_spec(d[k].0@) == Some(p1[i].3);
            assert(rows[k] == d[k]);
        }
        assert forall|i: int, j: int| #![trigger pr[i], pr[j]] 0 <= i < j < pr.len() implies text_less(pr[i].0, pr[j].0) by {
            if j < p1.len() {
                assert(pr[i] == p1[i] && pr[j] == p1[j]);
            } else {
                assert(pr[i] == p1[i]);
                assert(pr[j].0 == x.0);
                let k = choose|k: int| 0 <= k < rows.len() - 1 && (#[trigger] rows[k]).0 == (#[trigger] p1[i]).0;
                assert(text_less(rows[k].0, rows[rows.len() - 1].0));
            }
        }
        assert forall|i: int| 0 <= i < pr.len() implies exists|k: int|
            0 <= k < rows.len() && (#[trigger] rows[k]).0 == (#[trigger] pr[i]).0 && rows[k].1 == pr[i].1
                && rows[k].2 == pr[i].2 && prices.price_spec(rows[k].0@) == Some(pr[i].3) by {
            if i < p1.len() {
                assert(pr[i] == p1[i]);
                let k = choose|k: int| 0 <= k < d.len() && (#[trigger] d[k]).0 == (#[trigger] p1[i]).0 && d[k].1
                    == p1[i].1 && d[k].2 == p1[i].2 && prices.price_spec(d[k].0@) == Some(p1[i].3);
                assert(rows[k] == d[k]);
            } else {
                assert(rows[rows.len() - 1] == x);
            }
        }
        assert forall|k: int| 0 <= k < rows.len() && (prices.price_spec((#[trigger] rows[k]).0@) is Some) implies exists|
            i: int,
        | 0 <= i < pr.len() && (#[trigger] pr[i]).0 == rows[k].0 by {
            if k < d.len() {
                assert(d[k] == rows[k]);
                let i = choose|i: int| 0 <= i < p1.len() && (#[trigger] p1[i]).0 == d[k].0;
                assert(pr[i] == p1[i]);
            } else {
                assert(pr[pr.len() - 1].0 == x.0);
            }
        }
    }
}

#[verifier::rlimit(50)]
proof fn lemma_missing_rows(rows: Seq<AssetTotals>, prices: PriceTable)
    requires
        names_ascending(rows),
    ensures
        ({
            let mr = missing_rows(rows, prices);
            &&& forall|i: int, j: int| #![trigger mr[i], mr[j]] 0 <= i < j < mr.len() ==> text_less(mr[i], mr[j])
            &&& forall|i: int|
                0 <= i < mr.len() ==> exists|k: int|
                    0 <= k < rows.len() && (#[trigger] rows[k]).0 == (#[trigger] mr[i]) && prices.price_spec(
                        rows[k].0@,
                    ) is None
            &&& forall|k: int|
                0 <= k < rows.len() && (prices.price_spec((#[trigger] rows[k]).0@) is None) ==> exists|i: int|
                    0 <= i < mr.len() && (#[trigger] mr[i]) == rows[k].0
        }),
    decreases rows.len(),
{
    if rows.len() > 0 {
        let d = rows.drop_last();
        assert forall|i: int, j: int| #![trigger d[i], d[j]] 0 <= i < j < d.len() implies text_less(d[i].0, d[j].0) by {
            assert(d[i] == rows[i] && d[j] == rows[j]);
        }
        lemma_missing_rows(d, prices);
        let m1 = missing_rows(d, prices);
        let mr = missing_rows(rows, prices);
        let x = rows.last();
        assert forall|i: int, j: int| #![trigger mr[i], mr[j]] 0 <= i < j < mr.len() implies text_less(mr[i], mr[j]) by {
            if j < m1.len() {
                assert(mr[i] == m1[i] && mr[j] == m1[j]);
            } else {
                assert(mr[i] == m1[i]);
                assert(mr[j] == x.0);
                let k = choose|k: int| 0 <= k < d.len() && (#[trigger] d[k]).0 == (#[trigger] m1[i]) && prices.price_spec(
                    d[k].0@,
                ) is None;
                assert(rows[k] == d[k]);
                assert(text_less(rows[k].0, rows[rows.len() - 1].0));
            }
        }
        assert forall|i: int| 0 <= i < mr.len() implies exists|k: int|
            0 <= k < rows.len() && (#[trigger] rows[k]).0 == (#[trigger] mr[i]) && prices.price_spec(rows[k].0@) is None by {
            if i < m1.len() {
                assert(mr[i] == m1[i]);
                let k = choose|k: int| 0 <= k < d.len() && (#[trigger] d[k]).0 == (#[trigger] m1[i]) && prices.price_spec(
                    d[k].0@,
                ) is None;
                assert(rows[k] == d[k]);
            } else {
                assert(rows[rows.len() - 1] == x);
            }
        }
        assert forall|k: int| 0 <= k < rows.len() && (prices.price_spec((#[trigger] rows[k]).0@) is None) implies exists|
            i: int,
        | 0 <= i < mr.len() && (#[trigger] mr[i]) == rows[k].0 by {
            if k < d.len() {
                assert(d[k] == rows[k]);
                let i = choose|i: int| 0 <= i < m1.len() && (#[trigger] m1[i]) == d[k].0;
                assert(mr[i] == m1[i]);
            } else {
                assert(mr[mr.len() - 1] == x.0);
            }
        }
    }
}

proof fn lemma_asset_valuations(rows: Seq<(String, Dec, Dec, Dec)>, total_value: Dec)
    requires
        asset_valuations(rows, total_value) is Some,
    ensures
        asset_valuations(rows, total_value).unwrap().len() == rows.len(),
        forall|i: int|
            0 <= i < rows.len() ==> asset_valuation(#[trigger] rows[i], total_value) == Some(
                asset_valuations(rows, total_value).unwrap()[i],
            ),
    decreases rows.len(),
{
    if rows.len() > 0 {
        lemma_asset_valuations(rows.drop_last(), total_value);
        let r = asset_valuations(rows, total_value).unwrap();
        let r1 = asset_valuations(rows.drop_last(), total_value).unwrap();
        assert forall|i: int| 0 <= i < rows.len() implies asset_valuation(#[trigger] rows[i], total_value) == Some(r[i]) by {
            if i < rows.len() - 1 {
                assert(rows[i] == rows.drop_last()[i]);
                assert(r[i] == r1[i]);
            }
        }
    }
}

/// A valuation lists each held asset once, by ascending name: in `assets`
/// when a price is given for it, in `missing_prices` when none is. Each
/// valued asset carries its price, the sums over its holdings of units and
/// of basis, its market value `units * price` and its unrealized result
/// `market value - basis`.
#[verifier::rlimit(50)]
pub proof fn law_valuation_by_asset(holdings: Seq<Holding>, prices: PriceTable)
    requires
        valuation_of(holdings, prices) is Ok,
    ensures
        ({
            let m = valuation_of(holdings, prices).unwrap();
            &&& forall|i: int, j: int|
                0 <= i < j < m.assets.len() ==> text_less((#[trigger] m.assets[i]).asset, (#[trigger] m.assets[j]).asset)
            &&& forall|i: int, j: int|
                0 <= i < j < m.missing_prices.len() ==> text_less(
                    #[trigger] m.missing_prices[i],
                    #[trigger] m.missing_prices[j],
                )
            &&& forall|i: int|
                0 <= i < m.assets.len() ==> {
                    let a = #[trigger] m.assets[i];
                    &&& prices.price_spec(a.asset@) == Some(a.price)
                    &&& holds_asset(holdings, a.asset@)
                    &&& asset_sum(holdings, a.asset@, false) == Some(a.quantity)
                    &&& asset_sum(holdings, a.asset@, true) == Some(a.cost_basis)
                    &&& a.quantity.spec_mul(a.price) == Some(a.market_value)
                    &&& a.market_value.spec_sub(a.cost_basis) == Some(a.unrealized)
                }
            &&& forall|i: int|
                0 <= i < m.missing_prices.len() ==> prices.price_spec((#[trigger] m.missing_prices[i])@) is None
                    && holds_asset(holdings, m.missing_prices[i]@)
            &&& forall|k: int|
                0 <= k < holdings.len() ==> (exists|i: int|
                    0 <= i < m.assets.len() && (#[trigger] m.assets[i]).asset@ == (#[trigger] holdings[k]).asset@) || (
                exists|i: int| 0 <= i < m.missing_prices.len() && (#[trigger] m.missing_prices[i])@ == holdings[k].asset@)
        }),
{
    let rows = asset_totals(holdings).unwrap();
    lemma_asset_totals(holdings);
    lemma_priced_rows(rows, prices);
    lemma_missing_rows(rows, prices);
    let pr = priced_rows(rows, prices);
    let mr = missing_rows(rows, prices);
    let total_value = priced_sum(pr, false).unwrap();
    lemma_asset_valuations(pr, total_value);
    let m = valuation_of(holdings, prices).unwrap();
    assert(m.assets == asset_valuations(pr, total_value).unwrap());
    assert(m.missing_prices == mr);
    assert forall|i: int, j: int| 0 <= i < j < m.assets.len() implies text_less(
        (#[trigger] m.assets[i]).asset,
        (#[trigger] m.assets[j]).asset,
    ) by {
        assert(asset_valuation(pr[i], total_value) == Some(m.assets[i]));
        assert(asset_valuation(pr[j], total_value) == Some(m.assets[j]));
        assert(text_less(pr[i].0, pr[j].0));
    }
    assert forall|i: int| 0 <= i < m.assets.len() implies {
        let a = #[trigger] m.assets[i];
        &&& prices.price_spec(a.asset@) == Some(a.price)
        &&& holds_asset(holdings, a.asset@)
        &&& asset_sum(holdings, a.asset@, false) == Some(a.quantity)
        &&& asset_sum(holdings, a.asset@, true) == Some(a.cost_basis)
        &&& a.quantity.spec_mul(a.price) == Some(a.market_value)
        &&& a.market_value.spec_sub(a.cost_basis) == Some(a.unrealized)
    } by {
        assert(asset_valuation(pr[i], total_value) == Some(m.assets[i]));
        let k = choose|k: int|
            0 <= k < rows.len() && (#[trigger] rows[k]).0 == (#[trigger] pr[i]).0 && rows[k].1 == pr[i].1 && rows[k].2
                == pr[i].2 && prices.price_spec(rows[k].0@) == Some(pr[i].3);
        assert(asset_sum(holdings, rows[k].0@, false) == Some(rows[k].1));
    }
    assert forall|i: int| 0 <= i < m.missing_prices.len() implies prices.price_spec(
        (#[trigger] m.missing_prices[i])@,
    ) is None && holds_asset(holdings, m.missing_prices[i]@) by {
        let k = choose|k: int|
            0 <= k < rows.len() && (#[trigger] rows[k]).0 == (#[trigger] mr[i]) && prices.price_spec(rows[k].0@) is None;
        assert(asset_sum(holdings, rows[k].0@, false) == Some(rows[k].1));
    }
    assert forall|k: int| 0 <= k < holdings.len() implies (exists|i: int|
        0 <= i < m.assets.len() && (#[trigger] m.assets[i]).asset@ == (#[trigger] holdings[k]).asset@) || (exists|
        i: int,
    | 0 <= i < m.missing_prices.len() && (#[trigger] m.missing_prices[i])@ == holdings[k].asset@) by {
        let r = choose|r: int| 0 <= r < rows.len() && (#[trigger] rows[r]).0@ == (#[trigger] holdings[k]).asset@;
        if prices.price_spec(rows[r].0@) is Some {
            let i = choose|i: int| 0 <= i < pr.len() && (#[trigger] pr[i]).0 == rows[r].0;
            assert(asset_valuation(pr[i], total_value) == Some(m.assets[i]));
        } else {
            let i = choose|i: int| 0 <= i < mr.len() && (#[trigger] mr[i]) == rows[r].0;
            assert(m.missing_prices[i] == mr[i]);
        }
    }
}

} // verus!
