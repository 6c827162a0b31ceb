use chrono::{Duration, TimeZone, Utc};
use coinbasis::tax::estimate;
use coinbasis::{CapitalGainsReport, Dec, RealizedGain, TaxBracket, TaxConfig, Term, Timestamp};

fn d(n: i64) -> Dec {
    Dec::new(n, 0)
}

#[test]
fn default_config_is_us_preset() {
    let c = TaxConfig::default();
    assert_eq!(c.long_term_threshold_days, 365);
    assert_eq!(c.short_term_rate, Dec::new(35, 2));
    assert_eq!(c.long_term_brackets.len(), 3);
    assert_eq!(c.long_term_brackets[0].rate, Dec::new(0, 1));
    assert_eq!(c.long_term_brackets[2].up_to, None);
    assert_eq!(c.long_term_brackets[2].rate, Dec::new(20, 2));
}

fn row(acq_days_before: Option<i64>, term: Option<Term>, gain: Dec) -> RealizedGain {
    let disposed = Utc.with_ymd_and_hms(2024, 6, 1, 0, 0, 0).unwrap();
    let acquired = acq_days_before.map(|n| Timestamp::from_unix((disposed - Duration::days(n)).timestamp(), 0).unwrap());
    RealizedGain {
        asset: "bitcoin".into(),
        wallet: "w".into(),
        disposed_at: Timestamp::from_unix(disposed.timestamp(), 0).unwrap(),
        acquired_at: acquired,
        quantity: d(1),
        proceeds: d(0),
        cost_basis: d(0),
        gain,
        term,
    }
}

fn report(rows: Vec<RealizedGain>) -> CapitalGainsReport {
    CapitalGainsReport { tax_year: 2024, rows, short_term_gain: d(0), long_term_gain: d(0), total_gain: d(0) }
}

fn flat(threshold: i64, brackets: Vec<TaxBracket>) -> TaxConfig {
    TaxConfig { jurisdiction: "t".into(), long_term_threshold_days: threshold, short_term_rate: Dec::new(30, 2), long_term_brackets: brackets }
}

#[test]
fn short_term_flat_rate_on_gains_only() {
    let e = estimate(&report(vec![row(Some(100), Some(Term::Short), d(1000))]), &flat(365, vec![])).unwrap();
    assert_eq!(e.short_term_gain, d(1000));
    assert_eq!(e.short_term_tax, d(300));
    assert_eq!(e.long_term_tax, d(0));
}

#[test]
fn short_term_loss_no_tax() {
    let e = estimate(&report(vec![row(Some(10), Some(Term::Short), d(-500))]), &flat(365, vec![])).unwrap();
    assert_eq!(e.short_term_tax, d(0));
}

#[test]
fn long_term_progressive_brackets() {
    let cfg = flat(
        365,
        vec![
            TaxBracket { up_to: Some(d(1000)), rate: Dec::new(0, 1) },
            TaxBracket { up_to: Some(d(3000)), rate: Dec::new(10, 2) },
            TaxBracket { up_to: None, rate: Dec::new(20, 2) },
        ],
    );
    let e = estimate(&report(vec![row(Some(400), Some(Term::Long), d(4000))]), &cfg).unwrap();
    assert_eq!(e.long_term_gain, d(4000));
    assert_eq!(e.long_term_tax, d(400));
}

#[test]
fn threshold_reclassifies_independent_of_row_term() {
    let cfg = flat(500, vec![TaxBracket { up_to: None, rate: Dec::new(10, 2) }]);
    let e = estimate(&report(vec![row(Some(400), Some(Term::Long), d(1000))]), &cfg).unwrap();
    assert_eq!(e.short_term_gain, d(1000));
    assert_eq!(e.long_term_gain, d(0));
}

#[test]
fn average_method_no_acquired_falls_back_to_row_term() {
    let cfg = flat(365, vec![TaxBracket { up_to: None, rate: Dec::new(10, 2) }]);
    assert_eq!(estimate(&report(vec![row(None, None, d(1000))]), &cfg).unwrap().short_term_gain, d(1000));
    assert_eq!(estimate(&report(vec![row(None, Some(Term::Long), d(1000))]), &cfg).unwrap().long_term_tax, d(100));
}

#[test]
fn empty_report_is_zero() {
    assert_eq!(estimate(&report(vec![]), &TaxConfig::default()).unwrap().total_tax, d(0));
}

#[test]
fn long_term_loss_no_tax_and_gain_below_first_ceiling() {
    let e = estimate(&report(vec![row(Some(400), Some(Term::Long), d(-700))]), &TaxConfig::default()).unwrap();
    assert_eq!(e.long_term_tax, d(0));
    assert_eq!(e.total_tax, d(0));
    let e = estimate(&report(vec![row(Some(400), Some(Term::Long), d(600_000))]), &TaxConfig::default()).unwrap();
    // 0 on 47025, 15% on 471875, 20% on 81100.
    assert_eq!(e.long_term_tax, Dec::new(8_700_125, 2));
}

#[test]
fn holding_exactly_the_threshold_is_short() {
    let cfg = flat(365, vec![TaxBracket { up_to: None, rate: Dec::new(10, 2) }]);
    let e = estimate(&report(vec![row(Some(365), Some(Term::Long), d(10)), row(Some(366), Some(Term::Short), d(20))]), &cfg).unwrap();
    assert_eq!(e.short_term_gain, d(10));
    assert_eq!(e.long_term_gain, d(20));
    assert_eq!(e.total_tax, Dec::new(5, 0));
}

#[test]
fn undated_rows_need_no_representable_threshold() {
    let cfg = flat(i64::MAX, vec![TaxBracket { up_to: None, rate: Dec::new(10, 2) }]);
    let e = estimate(&report(vec![row(None, Some(Term::Long), d(1000)), row(None, None, d(-200))]), &cfg).unwrap();
    assert_eq!(e.long_term_gain, d(1000));
    assert_eq!(e.short_term_gain, d(-200));
    assert_eq!(e.long_term_tax, d(100));
    assert_eq!(e.short_term_tax, d(0));
}

#[test]
fn estimate_ignores_report_subtotals_and_jurisdiction() {
    let rows = vec![row(Some(400), None, d(4000)), row(Some(10), None, d(50))];
    let mut other = report(rows.clone());
    other.tax_year = 1999;
    other.total_gain = d(7);
    other.long_term_gain = d(-3);
    let mut cfg2 = flat(365, vec![]);
    cfg2.jurisdiction = "elsewhere".into();
    assert_eq!(estimate(&other, &cfg2), estimate(&report(rows), &flat(365, vec![])));
}
