use chrono::{TimeZone, Utc};
use coinbasis::{CostBasisMethod, Dec, IncomeSource, LotPick, LotSelection, Portfolio, PortfolioError, PriceTable, Term, Timestamp, Transaction};
use std::collections::HashMap;

fn ts(y: i32, m: u32, d: u32) -> Timestamp {
    let dt = Utc.with_ymd_and_hms(y, m, d, 0, 0, 0).unwrap();
    Timestamp::from_unix(dt.timestamp(), 0).unwrap()
}

fn d(n: i64) -> Dec {
    Dec::new(n, 0)
}

fn sum(xs: impl Iterator<Item = Dec>) -> Dec {
    xs.fold(Dec::zero(), |a, b| a.checked_add(&b).unwrap())
}

fn buy(t: Timestamp, wallet: &str, asset: &str, q: i64, price: i64) -> Transaction {
    Transaction::Buy { timestamp: t, wallet: wallet.into(), asset: asset.into(), quantity: d(q), unit_price: d(price), fee: d(0) }
}

fn sell(t: Timestamp, wallet: &str, asset: &str, q: i64, price: i64) -> Transaction {
    Transaction::Sell { timestamp: t, wallet: wallet.into(), asset: asset.into(), quantity: d(q), unit_price: d(price), fee: d(0) }
}

fn sample() -> Vec<Transaction> {
    vec![buy(ts(2020, 1, 1), "w", "btc", 1, 100), sell(ts(2022, 1, 1), "w", "btc", 1, 500)]
}

#[test]
fn from_transactions_validates() {
    let bad = vec![buy(ts(2020, 1, 1), "w", "btc", 0, 100)];
    assert!(Portfolio::from_transactions(&bad).is_err());
}

#[test]
fn from_transactions_reports_first_invalid_event() {
    let bad = vec![
        buy(ts(2020, 1, 1), "w", "btc", 1, 100),
        buy(ts(2020, 1, 2), "w", "eth", 1, -3),
        buy(ts(2020, 1, 3), "w", "sol", 0, 100),
    ];
    assert_eq!(Portfolio::from_transactions(&bad).unwrap_err(), PortfolioError::NegativeValue { asset: "eth".into() });
}

#[test]
fn realized_gains_auto_method() {
    let p = Portfolio::from_transactions(&sample()).unwrap();
    let g = p.realized_gains(CostBasisMethod::Fifo).unwrap();
    assert_eq!(g.len(), 1);
    assert_eq!(g[0].gain, d(400));
}

#[test]
fn realized_gains_rejects_specific_id() {
    let p = Portfolio::from_transactions(&sample()).unwrap();
    assert!(matches!(p.realized_gains(CostBasisMethod::SpecificId), Err(PortfolioError::SelectionRequired)));
}

fn one_pick() -> LotSelection {
    let mut sel: LotSelection = HashMap::new();
    sel.insert(1, vec![LotPick { acquisition_index: 0, quantity: d(1) }]);
    sel
}

#[test]
fn realized_gains_with_selection_works() {
    let p = Portfolio::from_transactions(&sample()).unwrap();
    let g = p.realized_gains_with_selection(&one_pick()).unwrap();
    assert_eq!(g[0].gain, d(400));
}

#[test]
fn holdings_reports_open_positions() {
    let txs = vec![buy(ts(2021, 1, 1), "w", "eth", 2, 50)];
    let p = Portfolio::from_transactions(&txs).unwrap();
    let h = p.holdings(CostBasisMethod::Fifo).unwrap();
    assert_eq!(h.len(), 1);
    assert_eq!(h[0].quantity, d(2));
    assert_eq!(h[0].average_cost, d(50));
}

#[test]
fn valuation_aggregates_and_flags_missing_prices() {
    let txs = vec![
        buy(ts(2021, 1, 1), "a", "btc", 1, 100),
        buy(ts(2021, 1, 2), "b", "btc", 1, 140),
        buy(ts(2021, 1, 3), "a", "eth", 1, 50),
    ];
    let p = Portfolio::from_transactions(&txs).unwrap();
    let mut prices = PriceTable::new();
    prices.insert("btc".to_string(), d(200));
    let r = p.valuation(CostBasisMethod::Fifo, &prices).unwrap();
    let btc = r.assets.iter().find(|a| a.asset == "btc").unwrap();
    assert_eq!(btc.quantity, d(2));
    assert_eq!(btc.cost_basis, d(240));
    assert_eq!(btc.market_value, d(400));
    assert_eq!(btc.unrealized, d(160));
    assert_eq!(btc.allocation, d(1));
    assert_eq!(r.total_value, d(400));
    assert_eq!(r.missing_prices, vec!["eth".to_string()]);
}

#[test]
fn capital_gains_report_filters_year_and_splits_terms() {
    let txs = vec![
        buy(ts(2019, 1, 1), "w", "btc", 2, 100),
        sell(ts(2021, 3, 1), "w", "btc", 1, 500),
        buy(ts(2021, 1, 1), "w", "eth", 1, 100),
        sell(ts(2021, 6, 1), "w", "eth", 1, 130),
    ];
    let p = Portfolio::from_transactions(&txs).unwrap();
    let r = p.capital_gains_report(CostBasisMethod::Fifo, 2021).unwrap();
    assert_eq!(r.rows.len(), 2);
    assert_eq!(r.long_term_gain, d(400));
    assert_eq!(r.short_term_gain, d(30));
    assert_eq!(r.total_gain, d(430));
}

#[test]
fn income_report_filters_year() {
    let txs = vec![
        Transaction::Income { timestamp: ts(2020, 5, 1), wallet: "w".into(), asset: "eth".into(), quantity: d(1), value: d(40), source: IncomeSource::Staking },
        Transaction::Income { timestamp: ts(2021, 5, 1), wallet: "w".into(), asset: "eth".into(), quantity: d(1), value: d(60), source: IncomeSource::Airdrop },
    ];
    let p = Portfolio::from_transactions(&txs).unwrap();
    let r = p.income_report(2021).unwrap();
    assert_eq!(r.events.len(), 1);
    assert_eq!(r.total_income, d(60));
}

fn two_lots() -> Vec<Transaction> {
    vec![
        buy(ts(2020, 1, 1), "w", "btc", 1, 100),
        buy(ts(2021, 1, 1), "w", "btc", 1, 300),
        sell(ts(2022, 1, 1), "w", "btc", 1, 500),
    ]
}

fn gain_sum(method: CostBasisMethod) -> Dec {
    let p = Portfolio::from_transactions(&two_lots()).unwrap();
    sum(p.realized_gains(method).unwrap().iter().map(|g| g.gain))
}

#[test]
fn realized_gains_lifo_and_hifo_and_average_through_facade() {
    assert_eq!(gain_sum(CostBasisMethod::Lifo), d(200));
    assert_eq!(gain_sum(CostBasisMethod::Hifo), d(200));
    assert_eq!(gain_sum(CostBasisMethod::Average), d(300));
}

#[test]
fn holdings_under_average_pools_to_one_lot() {
    let txs = vec![buy(ts(2020, 1, 1), "w", "btc", 1, 100), buy(ts(2021, 1, 1), "w", "btc", 1, 300)];
    let p = Portfolio::from_transactions(&txs).unwrap();
    let h = p.holdings(CostBasisMethod::Average).unwrap();
    assert_eq!(h.len(), 2);
    assert_eq!(sum(h.iter().map(|lot| lot.quantity)), d(2));
    assert_eq!(sum(h.iter().map(|lot| lot.cost_basis)), d(400));
}

#[test]
fn holdings_rejects_specific_id() {
    let p = Portfolio::from_transactions(&sample()).unwrap();
    assert!(matches!(p.holdings(CostBasisMethod::SpecificId), Err(PortfolioError::SelectionRequired)));
}

#[test]
fn capital_gains_report_rejects_specific_id() {
    let p = Portfolio::from_transactions(&sample()).unwrap();
    assert!(matches!(p.capital_gains_report(CostBasisMethod::SpecificId, 2022), Err(PortfolioError::SelectionRequired)));
}

#[test]
fn capital_gains_report_with_selection_filters_and_totals() {
    let p = Portfolio::from_transactions(&sample()).unwrap();
    let sel = one_pick();
    let r = p.capital_gains_report_with_selection(&sel, 2022).unwrap();
    assert_eq!(r.rows.len(), 1);
    assert_eq!(r.total_gain, d(400));
    assert_eq!(r.long_term_gain, d(400));
    let empty = p.capital_gains_report_with_selection(&sel, 2030).unwrap();
    assert!(empty.rows.is_empty());
    assert_eq!(empty.total_gain, d(0));
}

#[test]
fn capital_gains_report_average_is_untermed() {
    let p = Portfolio::from_transactions(&two_lots()).unwrap();
    let r = p.capital_gains_report(CostBasisMethod::Average, 2022).unwrap();
    assert_eq!(r.total_gain, d(300));
    assert_eq!(r.short_term_gain, d(0));
    assert_eq!(r.long_term_gain, d(0));
}

#[test]
fn income_events_returns_each_income_row() {
    let txs = vec![
        Transaction::Income { timestamp: ts(2021, 5, 1), wallet: "w".into(), asset: "eth".into(), quantity: d(1), value: d(60), source: IncomeSource::Staking },
        buy(ts(2021, 1, 1), "w", "btc", 1, 100),
    ];
    let p = Portfolio::from_transactions(&txs).unwrap();
    let ev = p.income_events();
    assert_eq!(ev.len(), 1);
    assert_eq!(ev[0].asset, "eth");
    assert_eq!(ev[0].value, d(60));
}

#[test]
fn valuation_allocations_sum_to_one_and_total_return() {
    let txs = vec![buy(ts(2021, 1, 1), "a", "btc", 1, 100), buy(ts(2021, 1, 2), "a", "eth", 1, 100)];
    let p = Portfolio::from_transactions(&txs).unwrap();
    let mut prices = PriceTable::new();
    prices.insert("btc".to_string(), d(300));
    prices.insert("eth".to_string(), d(100));
    let r = p.valuation(CostBasisMethod::Fifo, &prices).unwrap();
    assert_eq!(sum(r.assets.iter().map(|a| a.allocation)), d(1));
    assert_eq!(r.total_value, d(400));
    assert_eq!(r.total_cost, d(200));
    assert_eq!(r.total_unrealized, d(200));
    assert_eq!(r.total_return, d(1));
}

#[test]
fn valuation_zero_cost_basis_guards_total_return() {
    let txs = vec![Transaction::GiftReceived { timestamp: ts(2021, 1, 1), wallet: "w".into(), asset: "btc".into(), quantity: d(1), donor_basis: d(0), fmv_at_receipt: d(50), donor_acquired_at: ts(2018, 1, 1) }];
    let p = Portfolio::from_transactions(&txs).unwrap();
    let mut prices = PriceTable::new();
    prices.insert("btc".to_string(), d(200));
    let r = p.valuation(CostBasisMethod::Fifo, &prices).unwrap();
    assert_eq!(r.total_cost, d(0));
    assert_eq!(r.total_return, d(0));
}

#[test]
fn valuation_empty_portfolio_is_all_zero() {
    let txs = vec![buy(ts(2020, 1, 1), "w", "btc", 1, 100), sell(ts(2021, 1, 1), "w", "btc", 1, 150)];
    let p = Portfolio::from_transactions(&txs).unwrap();
    let r = p.valuation(CostBasisMethod::Fifo, &PriceTable::new()).unwrap();
    assert!(r.assets.is_empty());
    assert_eq!(r.total_value, d(0));
    assert_eq!(r.total_return, d(0));
    assert!(r.missing_prices.is_empty());
}

#[test]
fn valuation_rejects_specific_id() {
    let p = Portfolio::from_transactions(&sample()).unwrap();
    assert!(matches!(p.valuation(CostBasisMethod::SpecificId, &PriceTable::new()), Err(PortfolioError::SelectionRequired)));
}

#[test]
fn valuation_zero_price_yields_zero_allocation() {
    let txs = vec![buy(ts(2021, 1, 1), "w", "btc", 1, 100)];
    let p = Portfolio::from_transactions(&txs).unwrap();
    let mut prices = PriceTable::new();
    prices.insert("btc".to_string(), d(0));
    let r = p.valuation(CostBasisMethod::Fifo, &prices).unwrap();
    assert_eq!(r.assets.len(), 1);
    assert_eq!(r.assets[0].allocation, d(0));
    assert_eq!(r.total_value, d(0));
}

#[test]
fn valuation_lists_assets_by_name() {
    let txs = vec![buy(ts(2021, 1, 1), "a", "sol", 1, 10), buy(ts(2021, 1, 2), "a", "btc", 1, 10), buy(ts(2021, 1, 3), "b", "eth", 1, 10)];
    let p = Portfolio::from_transactions(&txs).unwrap();
    let mut prices = PriceTable::new();
    prices.insert("sol".to_string(), d(1));
    prices.insert("btc".to_string(), d(1));
    prices.insert("btc".to_string(), d(2));
    let r = p.valuation(CostBasisMethod::Fifo, &prices).unwrap();
    let names: Vec<&str> = r.assets.iter().map(|a| a.asset.as_str()).collect();
    assert_eq!(names, vec!["btc", "sol"]);
    assert_eq!(r.assets[0].price, d(2));
    assert_eq!(r.missing_prices, vec!["eth".to_string()]);
}

#[test]
fn short_and_long_terms_partition_termed_rows() {
    let p = Portfolio::from_transactions(&two_lots()).unwrap();
    let rows = p.realized_gains(CostBasisMethod::Fifo).unwrap();
    assert!(rows.iter().all(|r| r.term.is_some() && r.acquired_at.is_some()));
    assert_eq!(rows[0].term, Some(Term::Long));
    let rows = p.realized_gains(CostBasisMethod::Average).unwrap();
    assert!(rows.iter().all(|r| r.term.is_none() && r.acquired_at.is_none()));
}

#[test]
fn price_table_reads_back_the_last_write() {
    let mut prices = PriceTable::new();
    assert_eq!(prices.get(&"btc".to_string()), None);
    prices.insert("btc".into(), Dec::new(100, 0));
    prices.insert("eth".into(), Dec::new(7, 1));
    prices.insert("btc".into(), Dec::new(250, 0));
    assert_eq!(prices.get(&"btc".to_string()), Some(Dec::new(250, 0)));
    assert_eq!(prices.get(&"eth".to_string()), Some(Dec::new(7, 1)));
    assert_eq!(prices.get(&"sol".to_string()), None);
}
