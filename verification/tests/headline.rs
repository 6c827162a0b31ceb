use chrono::{TimeZone, Utc};
use coinbasis::tax::estimate;
use coinbasis::{CostBasisMethod, Dec, IncomeSource, Portfolio, PriceTable, TaxConfig, Term, Timestamp, Transaction};

fn ts(y: i32, m: u32, d: u32) -> Timestamp {
    let dt = Utc.with_ymd_and_hms(y, m, d, 0, 0, 0).unwrap();
    Timestamp::from_unix(dt.timestamp(), 0).unwrap()
}

fn d(n: i64) -> Dec {
    Dec::new(n, 0)
}

fn buy(t: Timestamp, wallet: &str, asset: &str, q: i64, price: i64) -> Transaction {
    Transaction::Buy { timestamp: t, wallet: wallet.into(), asset: asset.into(), quantity: d(q), unit_price: d(price), fee: d(0) }
}

fn sell(t: Timestamp, wallet: &str, asset: &str, q: i64, price: i64) -> Transaction {
    Transaction::Sell { timestamp: t, wallet: wallet.into(), asset: asset.into(), quantity: d(q), unit_price: d(price), fee: d(0) }
}

#[test]
fn portfolio_tax_estimate_matches_module_estimate() {
    let txs = vec![buy(ts(2020, 1, 1), "w", "btc", 1, 100), sell(ts(2022, 1, 1), "w", "btc", 1, 500)];
    let p = Portfolio::from_transactions(&txs).unwrap();
    let cfg = TaxConfig::default();
    let via = p.tax_estimate(CostBasisMethod::Fifo, 2022, &cfg).unwrap();
    let report = p.capital_gains_report(CostBasisMethod::Fifo, 2022).unwrap();
    assert_eq!(via, estimate(&report, &cfg).unwrap());
    assert_eq!(via.long_term_gain, d(400));
}

fn ledger() -> Vec<Transaction> {
    vec![
        buy(ts(2020, 1, 1), "hot", "btc", 1, 100),
        buy(ts(2021, 1, 1), "hot", "btc", 1, 300),
        sell(ts(2022, 1, 1), "hot", "btc", 1, 500),
    ]
}

fn total_gain(method: CostBasisMethod) -> Dec {
    let p = Portfolio::from_transactions(&ledger()).unwrap();
    p.realized_gains(method).unwrap().iter().fold(Dec::zero(), |a, g| a.checked_add(&g.gain).unwrap())
}

#[test]
fn methods_produce_different_gains_on_the_same_ledger() {
    assert_eq!(total_gain(CostBasisMethod::Fifo), d(400));
    assert_eq!(total_gain(CostBasisMethod::Lifo), d(200));
    assert_eq!(total_gain(CostBasisMethod::Hifo), d(200));
    assert_eq!(total_gain(CostBasisMethod::Average), d(300));
}

#[test]
fn comprehensive_flow_with_transfer_income_and_valuation() {
    let txs = vec![
        buy(ts(2020, 1, 1), "hot", "btc", 1, 100),
        Transaction::Transfer { timestamp: ts(2020, 6, 1), asset: "btc".into(), quantity: d(1), from_wallet: "hot".into(), to_wallet: "cold".into(), fee: d(0), fee_value: d(0) },
        Transaction::Income { timestamp: ts(2021, 1, 1), wallet: "hot".into(), asset: "eth".into(), quantity: d(2), value: d(200), source: IncomeSource::Staking },
        sell(ts(2022, 1, 1), "cold", "btc", 1, 500),
    ];
    let p = Portfolio::from_transactions(&txs).unwrap();
    let gains = p.realized_gains(CostBasisMethod::Fifo).unwrap();
    assert_eq!(gains.len(), 1);
    assert_eq!(gains[0].wallet, "cold");
    assert_eq!(gains[0].term, Some(Term::Long));
    assert_eq!(gains[0].gain, d(400));
    let income = p.income_report(2021).unwrap();
    assert_eq!(income.total_income, d(200));
    let mut prices = PriceTable::new();
    prices.insert("eth".to_string(), d(150));
    let val = p.valuation(CostBasisMethod::Fifo, &prices).unwrap();
    let eth = val.assets.iter().find(|a| a.asset == "eth").unwrap();
    assert_eq!(eth.unrealized, d(100));
}

#[test]
fn buys_then_one_sell_conserve_basis_example() {
    // Quantities 3, 4 at prices 7, 11; sell 5 under FIFO.
    let txs = vec![buy(ts(2021, 1, 1), "w", "btc", 3, 7), buy(ts(2021, 1, 2), "w", "btc", 4, 11), sell(ts(2021, 1, 3), "w", "btc", 5, 50)];
    let p = Portfolio::from_transactions(&txs).unwrap();
    let realized = p.realized_gains(CostBasisMethod::Fifo).unwrap();
    let holdings = p.holdings(CostBasisMethod::Fifo).unwrap();
    let consumed = realized.iter().fold(Dec::zero(), |a, r| a.checked_add(&r.cost_basis).unwrap());
    let remaining = holdings.iter().fold(Dec::zero(), |a, h| a.checked_add(&h.cost_basis).unwrap());
    assert_eq!(consumed.checked_add(&remaining).unwrap(), d(65));
    let qty = holdings.iter().fold(Dec::zero(), |a, h| a.checked_add(&h.quantity).unwrap());
    assert_eq!(qty, d(2));
}
