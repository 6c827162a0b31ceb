use chrono::{TimeZone, Utc};
use coinbasis::engine::run;
use coinbasis::{CostBasisMethod, Dec, IncomeSource, LotPick, LotSelection, PortfolioError, Term, Timestamp, Transaction};
use std::collections::HashMap;

fn ts(y: i32, m: u32, d: u32) -> Timestamp {
    let dt = Utc.with_ymd_and_hms(y, m, d, 0, 0, 0).unwrap();
    Timestamp::from_unix(dt.timestamp(), 0).unwrap()
}

fn d(n: i64) -> Dec {
    Dec::new(n, 0)
}

fn buy(t: Timestamp, wallet: &str, asset: &str, q: i64, price: i64, fee: i64) -> Transaction {
    Transaction::Buy { timestamp: t, wallet: wallet.into(), asset: asset.into(), quantity: d(q), unit_price: d(price), fee: d(fee) }
}

fn sell(t: Timestamp, wallet: &str, asset: &str, q: i64, price: i64, fee: i64) -> Transaction {
    Transaction::Sell { timestamp: t, wallet: wallet.into(), asset: asset.into(), quantity: d(q), unit_price: d(price), fee: d(fee) }
}

fn auto() -> LotSelection {
    HashMap::new()
}

fn sum(xs: impl Iterator<Item = Dec>) -> Dec {
    xs.fold(Dec::zero(), |a, b| a.checked_add(&b).unwrap())
}

#[test]
fn fifo_sell_consumes_oldest_lot_with_term() {
    let txs = vec![
        buy(ts(2020, 1, 1), "w", "btc", 1, 100, 0),
        buy(ts(2021, 6, 1), "w", "btc", 1, 300, 0),
        sell(ts(2022, 1, 1), "w", "btc", 1, 500, 0),
    ];
    let out = run(&txs, CostBasisMethod::Fifo, &auto()).unwrap();
    assert_eq!(out.realized.len(), 1);
    let g = &out.realized[0];
    assert_eq!(g.cost_basis, d(100));
    assert_eq!(g.proceeds, d(500));
    assert_eq!(g.gain, d(400));
    assert_eq!(g.term, Some(Term::Long));
    assert_eq!(out.holdings.len(), 1);
    assert_eq!(out.holdings[0].cost_basis, d(300));
}

#[test]
fn buy_fee_folds_into_basis() {
    let txs = vec![buy(ts(2021, 1, 1), "w", "eth", 2, 100, 10), sell(ts(2021, 2, 1), "w", "eth", 1, 150, 0)];
    let out = run(&txs, CostBasisMethod::Fifo, &auto()).unwrap();
    assert_eq!(out.realized[0].cost_basis, d(105));
    assert_eq!(out.realized[0].gain, d(45));
}

#[test]
fn oversell_errors_per_wallet() {
    let txs = vec![buy(ts(2021, 1, 1), "hot", "btc", 1, 100, 0), sell(ts(2021, 2, 1), "cold", "btc", 1, 150, 0)];
    let err = run(&txs, CostBasisMethod::Fifo, &auto()).unwrap_err();
    assert!(matches!(err, PortfolioError::InsufficientLots { .. }));
}

#[test]
fn income_records_event_and_sets_basis() {
    let txs = vec![
        Transaction::Income { timestamp: ts(2021, 1, 1), wallet: "w".into(), asset: "eth".into(), quantity: d(1), value: d(50), source: IncomeSource::Staking },
        sell(ts(2021, 2, 1), "w", "eth", 1, 70, 0),
    ];
    let out = run(&txs, CostBasisMethod::Fifo, &auto()).unwrap();
    assert_eq!(out.income.len(), 1);
    assert_eq!(out.income[0].value, d(50));
    assert_eq!(out.realized[0].cost_basis, d(50));
    assert_eq!(out.realized[0].gain, d(20));
}

#[test]
fn average_pools_basis_and_drops_term() {
    let txs = vec![
        buy(ts(2020, 1, 1), "w", "btc", 1, 100, 0),
        buy(ts(2021, 1, 1), "w", "btc", 1, 300, 0),
        sell(ts(2022, 1, 1), "w", "btc", 1, 500, 0),
    ];
    let out = run(&txs, CostBasisMethod::Average, &auto()).unwrap();
    assert_eq!(out.realized[0].cost_basis, d(200));
    assert_eq!(out.realized[0].gain, d(300));
    assert_eq!(out.realized[0].term, None);
    assert_eq!(sum(out.holdings.iter().map(|l| l.quantity)), d(1));
}

#[test]
fn specific_id_consumes_named_acquisition() {
    let txs = vec![
        buy(ts(2020, 1, 1), "w", "btc", 1, 100, 0),
        buy(ts(2021, 1, 1), "w", "btc", 1, 400, 0),
        sell(ts(2022, 1, 1), "w", "btc", 1, 500, 0),
    ];
    let mut sel: LotSelection = HashMap::new();
    sel.insert(2, vec![LotPick { acquisition_index: 1, quantity: d(1) }]);
    let out = run(&txs, CostBasisMethod::SpecificId, &sel).unwrap();
    assert_eq!(out.realized[0].cost_basis, d(400));
    assert_eq!(out.realized[0].gain, d(100));
}

#[test]
fn specific_id_missing_selection_errors() {
    let txs = vec![buy(ts(2020, 1, 1), "w", "btc", 1, 100, 0), sell(ts(2022, 1, 1), "w", "btc", 1, 500, 0)];
    let sel: LotSelection = HashMap::new();
    let err = run(&txs, CostBasisMethod::SpecificId, &sel).unwrap_err();
    assert!(matches!(err, PortfolioError::MissingLotSelection { .. }));
}

#[test]
fn specific_id_unknown_acquisition_is_invalid() {
    let txs = vec![buy(ts(2020, 1, 1), "w", "btc", 1, 100, 0), sell(ts(2022, 1, 1), "w", "btc", 1, 500, 0)];
    let mut sel: LotSelection = HashMap::new();
    sel.insert(1, vec![LotPick { acquisition_index: 7, quantity: d(1) }]);
    let err = run(&txs, CostBasisMethod::SpecificId, &sel).unwrap_err();
    assert_eq!(err, PortfolioError::InvalidLotSelection { acquisition_index: 7 });
}

#[test]
fn specific_id_selection_must_cover_quantity() {
    let txs = vec![buy(ts(2020, 1, 1), "w", "btc", 2, 100, 0), sell(ts(2022, 1, 1), "w", "btc", 2, 500, 0)];
    let mut sel: LotSelection = HashMap::new();
    sel.insert(1, vec![LotPick { acquisition_index: 0, quantity: d(1) }]);
    let err = run(&txs, CostBasisMethod::SpecificId, &sel).unwrap_err();
    assert_eq!(err, PortfolioError::MissingLotSelection { asset: "btc".into(), tx_index: 1 });
}

#[test]
fn events_replay_in_timestamp_order() {
    // The sell is listed first but happens after the buy.
    let txs = vec![sell(ts(2022, 1, 1), "w", "btc", 1, 500, 0), buy(ts(2020, 1, 1), "w", "btc", 1, 100, 0)];
    let out = run(&txs, CostBasisMethod::Fifo, &auto()).unwrap();
    assert_eq!(out.realized[0].gain, d(400));
    assert!(out.holdings.is_empty());
}

#[test]
fn trade_disposes_from_leg_and_opens_to_leg() {
    let txs = vec![
        buy(ts(2021, 1, 1), "w", "btc", 1, 100, 0),
        Transaction::Trade { timestamp: ts(2021, 6, 1), wallet: "w".into(), from_asset: "btc".into(), from_quantity: d(1), to_asset: "eth".into(), to_quantity: d(10), value: d(500), fee: d(5) },
        sell(ts(2021, 7, 1), "w", "eth", 10, 60, 0),
    ];
    let out = run(&txs, CostBasisMethod::Fifo, &auto()).unwrap();
    let btc = out.realized.iter().find(|r| r.asset == "btc").unwrap();
    assert_eq!(btc.gain, d(400));
    let eth = out.realized.iter().find(|r| r.asset == "eth").unwrap();
    assert_eq!(eth.cost_basis, d(505));
    assert_eq!(eth.gain, d(95));
}

#[test]
fn spend_is_a_disposal_at_fmv() {
    let txs = vec![
        buy(ts(2021, 1, 1), "w", "btc", 1, 100, 0),
        Transaction::Spend { timestamp: ts(2021, 2, 1), wallet: "w".into(), asset: "btc".into(), quantity: d(1), value: d(180), fee: d(0) },
    ];
    let out = run(&txs, CostBasisMethod::Fifo, &auto()).unwrap();
    assert_eq!(out.realized[0].proceeds, d(180));
    assert_eq!(out.realized[0].gain, d(80));
}

#[test]
fn transfer_preserves_basis_and_acquisition_date() {
    let txs = vec![
        buy(ts(2020, 1, 1), "hot", "btc", 1, 100, 0),
        Transaction::Transfer { timestamp: ts(2020, 6, 1), asset: "btc".into(), quantity: d(1), from_wallet: "hot".into(), to_wallet: "cold".into(), fee: d(0), fee_value: d(0) },
        sell(ts(2022, 1, 1), "cold", "btc", 1, 500, 0),
    ];
    let out = run(&txs, CostBasisMethod::Fifo, &auto()).unwrap();
    assert_eq!(out.realized.len(), 1);
    assert_eq!(out.realized[0].wallet, "cold");
    assert_eq!(out.realized[0].cost_basis, d(100));
    assert_eq!(out.realized[0].term, Some(Term::Long));
    assert_eq!(out.realized[0].acquired_at, Some(ts(2020, 1, 1)));
}

#[test]
fn transfer_fee_is_a_disposal() {
    let txs = vec![
        buy(ts(2021, 1, 1), "hot", "eth", 10, 10, 0),
        Transaction::Transfer { timestamp: ts(2021, 2, 1), asset: "eth".into(), quantity: d(9), from_wallet: "hot".into(), to_wallet: "cold".into(), fee: d(1), fee_value: d(15) },
    ];
    let out = run(&txs, CostBasisMethod::Fifo, &auto()).unwrap();
    assert_eq!(out.realized.len(), 1);
    assert_eq!(out.realized[0].gain, d(5));
    let cold = sum(out.holdings.iter().filter(|l| l.wallet == "cold").map(|l| l.cost_basis));
    assert_eq!(cold, d(90));
}

#[test]
fn transfer_insufficient_balance_errors() {
    let txs = vec![
        buy(ts(2021, 1, 1), "hot", "eth", 1, 10, 0),
        Transaction::Transfer { timestamp: ts(2021, 2, 1), asset: "eth".into(), quantity: d(1), from_wallet: "hot".into(), to_wallet: "cold".into(), fee: d(1), fee_value: d(15) },
    ];
    let err = run(&txs, CostBasisMethod::Fifo, &auto()).unwrap_err();
    assert!(matches!(err, PortfolioError::InsufficientTransfer { .. }));
}

fn gift_received(qty: i64, donor_basis: i64, fmv: i64, donor_year: i32) -> Transaction {
    Transaction::GiftReceived {
        timestamp: ts(2021, 6, 1),
        wallet: "w".into(),
        asset: "btc".into(),
        quantity: d(qty),
        donor_basis: d(donor_basis),
        fmv_at_receipt: d(fmv),
        donor_acquired_at: ts(donor_year, 1, 1),
    }
}

#[test]
fn gift_sent_removes_lots_without_gain() {
    let txs = vec![
        buy(ts(2021, 1, 1), "w", "btc", 2, 100, 0),
        Transaction::GiftSent { timestamp: ts(2021, 2, 1), wallet: "w".into(), asset: "btc".into(), quantity: d(1) },
    ];
    let out = run(&txs, CostBasisMethod::Fifo, &auto()).unwrap();
    assert!(out.realized.is_empty());
    assert_eq!(sum(out.holdings.iter().map(|l| l.quantity)), d(1));
}

#[test]
fn gift_gain_uses_donor_basis() {
    let txs = vec![gift_received(1, 100, 120, 2018), sell(ts(2022, 1, 1), "w", "btc", 1, 200, 0)];
    let out = run(&txs, CostBasisMethod::Fifo, &auto()).unwrap();
    assert_eq!(out.realized[0].cost_basis, d(100));
    assert_eq!(out.realized[0].gain, d(100));
    assert_eq!(out.realized[0].term, Some(Term::Long));
}

#[test]
fn gift_loss_uses_lesser_of_basis_or_fmv() {
    let txs = vec![gift_received(1, 100, 80, 2018), sell(ts(2022, 1, 1), "w", "btc", 1, 50, 0)];
    let out = run(&txs, CostBasisMethod::Fifo, &auto()).unwrap();
    assert_eq!(out.realized[0].cost_basis, d(80));
    assert_eq!(out.realized[0].gain, d(-30));
}

#[test]
fn gift_dead_zone_realizes_nothing() {
    let txs = vec![gift_received(1, 100, 80, 2018), sell(ts(2022, 1, 1), "w", "btc", 1, 90, 0)];
    let out = run(&txs, CostBasisMethod::Fifo, &auto()).unwrap();
    assert_eq!(out.realized[0].gain, d(0));
    assert_eq!(out.realized[0].cost_basis, d(90));
}

#[test]
fn average_gift_sent_from_empty_pool_is_an_error() {
    let txs = vec![Transaction::GiftSent { timestamp: ts(2021, 2, 1), wallet: "w".into(), asset: "btc".into(), quantity: d(1) }];
    let err = run(&txs, CostBasisMethod::Average, &auto()).unwrap_err();
    assert_eq!(err, PortfolioError::ArithmeticOverflow);
}

#[test]
fn overflowing_buy_is_reported() {
    let huge = Dec::from_parts(79_228_162_514_264_337_593_543_950_335, 0).unwrap();
    let txs = vec![Transaction::Buy { timestamp: ts(2021, 1, 1), wallet: "w".into(), asset: "btc".into(), quantity: huge, unit_price: d(2), fee: d(0) }];
    let err = run(&txs, CostBasisMethod::Fifo, &auto()).unwrap_err();
    assert_eq!(err, PortfolioError::ArithmeticOverflow);
}

#[test]
fn hifo_sells_the_highest_unit_cost_lot() {
    let txs = vec![
        buy(ts(2020, 1, 1), "w", "btc", 1, 300, 0),
        buy(ts(2021, 1, 1), "w", "btc", 1, 100, 0),
        buy(ts(2021, 2, 1), "w", "btc", 1, 200, 0),
        sell(ts(2022, 1, 1), "w", "btc", 2, 500, 0),
    ];
    let out = run(&txs, CostBasisMethod::Hifo, &auto()).unwrap();
    assert_eq!(out.realized.len(), 2);
    assert_eq!(out.realized[0].cost_basis, d(300));
    assert_eq!(out.realized[1].cost_basis, d(200));
    assert_eq!(out.realized[0].proceeds, d(500));
}

#[test]
fn sale_leaves_other_wallets_untouched() {
    let txs = vec![
        buy(ts(2020, 1, 1), "cold", "btc", 2, 100, 0),
        buy(ts(2020, 2, 1), "hot", "btc", 3, 200, 0),
        sell(ts(2021, 1, 1), "hot", "btc", 3, 300, 0),
    ];
    let out = run(&txs, CostBasisMethod::Fifo, &auto()).unwrap();
    assert_eq!(out.realized.len(), 1);
    assert_eq!(out.realized[0].wallet, "hot");
    assert_eq!(out.realized[0].cost_basis, d(600));
    assert_eq!(out.holdings.len(), 1);
    assert_eq!(out.holdings[0].wallet, "cold");
    assert_eq!(out.holdings[0].quantity, d(2));
    assert_eq!(out.holdings[0].cost_basis, d(200));
    assert_eq!(out.holdings[0].acquired_at, ts(2020, 1, 1));
}

#[test]
fn oversell_names_attempted_and_available_amounts() {
    let txs = vec![
        buy(ts(2021, 1, 1), "w", "btc", 1, 100, 0),
        buy(ts(2021, 1, 2), "other", "btc", 5, 100, 0),
        sell(ts(2021, 2, 1), "w", "btc", 2, 150, 0),
    ];
    let err = run(&txs, CostBasisMethod::Lifo, &auto()).unwrap_err();
    assert_eq!(
        err,
        PortfolioError::InsufficientLots { asset: "btc".into(), wallet: "w".into(), attempted: d(2), available: d(1) }
    );
}

#[test]
fn acquisitions_and_fee_free_transfers_realize_nothing() {
    let txs = vec![
        buy(ts(2021, 1, 1), "a", "eth", 4, 10, 1),
        Transaction::Income {
            timestamp: ts(2021, 1, 2),
            wallet: "a".into(),
            asset: "eth".into(),
            quantity: d(1),
            value: d(12),
            source: IncomeSource::Mining,
        },
        Transaction::Transfer {
            timestamp: ts(2021, 1, 3),
            asset: "eth".into(),
            quantity: d(2),
            from_wallet: "a".into(),
            to_wallet: "b".into(),
            fee: d(0),
            fee_value: d(0),
        },
    ];
    let out = run(&txs, CostBasisMethod::Hifo, &auto()).unwrap();
    assert!(out.realized.is_empty());
    assert_eq!(out.income.len(), 1);
    assert_eq!(sum(out.holdings.iter().map(|l| l.quantity)), d(5));
    let moved: Vec<_> = out.holdings.iter().filter(|l| l.wallet == "b").collect();
    assert_eq!(moved.len(), 1);
    assert_eq!(moved[0].acquired_at, ts(2021, 1, 1));
    assert_eq!(moved[0].lot_id, 0);
}

#[test]
fn holdings_listed_by_lot_id() {
    let txs = vec![
        buy(ts(2021, 1, 1), "a", "eth", 4, 10, 0),
        buy(ts(2021, 1, 2), "a", "eth", 1, 12, 0),
        Transaction::Transfer {
            timestamp: ts(2021, 1, 3),
            asset: "eth".into(),
            quantity: d(2),
            from_wallet: "a".into(),
            to_wallet: "b".into(),
            fee: d(0),
            fee_value: d(0),
        },
        buy(ts(2021, 1, 4), "b", "eth", 1, 11, 0),
    ];
    let out = run(&txs, CostBasisMethod::Fifo, &auto()).unwrap();
    let ids: Vec<(u64, String, Dec)> = out.holdings.iter().map(|l| (l.lot_id, l.wallet.clone(), l.quantity)).collect();
    assert_eq!(
        ids,
        vec![(0, "a".to_string(), d(2)), (0, "b".to_string(), d(2)), (1, "a".to_string(), d(1)), (2, "b".to_string(), d(1))]
    );
}

#[test]
fn reordering_events_with_distinct_times_changes_nothing() {
    let a = vec![
        buy(ts(2020, 1, 1), "w", "btc", 1, 100, 0),
        buy(ts(2020, 6, 1), "w", "btc", 2, 300, 0),
        sell(ts(2021, 1, 1), "w", "btc", 2, 500, 0),
        buy(ts(2021, 1, 1), "w", "eth", 3, 10, 0),
    ];
    let b = vec![a[2].clone(), a[3].clone(), a[1].clone(), a[0].clone()];
    for m in [CostBasisMethod::Fifo, CostBasisMethod::Lifo, CostBasisMethod::Hifo, CostBasisMethod::Average] {
        let x = run(&a, m, &auto()).unwrap();
        let y = run(&b, m, &auto()).unwrap();
        assert_eq!(x.realized, y.realized);
        assert_eq!(x.income, y.income);
        assert_eq!(x.holdings, y.holdings);
    }
}

#[test]
fn reordering_without_disposals_changes_nothing_under_specific_id() {
    let a = vec![
        buy(ts(2020, 1, 1), "w", "btc", 1, 100, 0),
        buy(ts(2020, 6, 1), "w", "btc", 2, 300, 0),
        Transaction::Transfer {
            timestamp: ts(2021, 1, 1),
            asset: "btc".into(),
            quantity: d(1),
            from_wallet: "w".into(),
            to_wallet: "v".into(),
            fee: d(0),
            fee_value: d(0),
        },
        buy(ts(2021, 2, 1), "v", "eth", 3, 10, 0),
    ];
    let b = vec![a[3].clone(), a[2].clone(), a[0].clone(), a[1].clone()];
    let x = run(&a, CostBasisMethod::SpecificId, &auto()).unwrap();
    let y = run(&b, CostBasisMethod::SpecificId, &auto()).unwrap();
    assert!(x.realized.is_empty());
    assert_eq!(x.realized, y.realized);
    assert_eq!(x.income, y.income);
    assert_eq!(x.holdings, y.holdings);
}

#[test]
fn basis_and_units_are_conserved_under_each_ordered_method() {
    let txs = vec![
        buy(ts(2020, 1, 1), "w", "btc", 3, 100, 0),
        buy(ts(2020, 2, 1), "w", "btc", 2, 400, 0),
        buy(ts(2020, 3, 1), "w", "btc", 4, 250, 0),
        buy(ts(2020, 3, 2), "v", "btc", 5, 70, 0),
        sell(ts(2021, 1, 1), "w", "btc", 6, 500, 0),
    ];
    let bought = d(3 * 100 + 2 * 400 + 4 * 250 + 5 * 70);
    for m in [CostBasisMethod::Fifo, CostBasisMethod::Lifo, CostBasisMethod::Hifo] {
        let out = run(&txs, m, &auto()).unwrap();
        let realized = sum(out.realized.iter().map(|r| r.cost_basis));
        let held = sum(out.holdings.iter().map(|l| l.cost_basis));
        assert_eq!(realized.checked_add(&held).unwrap(), bought);
        let w_units = sum(out.holdings.iter().filter(|l| l.wallet == "w").map(|l| l.quantity));
        let v_units = sum(out.holdings.iter().filter(|l| l.wallet == "v").map(|l| l.quantity));
        assert_eq!(w_units, d(3 + 2 + 4 - 6));
        assert_eq!(v_units, d(5));
    }
}
