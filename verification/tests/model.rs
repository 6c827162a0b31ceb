use coinbasis::time::{MAX_TIMESTAMP_SECS, MIN_TIMESTAMP_SECS};
use chrono::{Duration, TimeZone, Utc};
use coinbasis::lot::Lot;
use coinbasis::method::order_for;
use coinbasis::{CostBasisMethod, Dec, PortfolioError, Term, Timestamp, Transaction};

fn ts(y: i32, m: u32, d: u32) -> Timestamp {
    let dt = Utc.with_ymd_and_hms(y, m, d, 0, 0, 0).unwrap();
    Timestamp::from_unix(dt.timestamp(), 0).unwrap()
}

fn d(n: i64) -> Dec {
    Dec::new(n, 0)
}

#[test]
fn insufficient_lots_message_names_wallet() {
    let e = PortfolioError::InsufficientLots {
        asset: "bitcoin".into(),
        wallet: "coldwallet".into(),
        attempted: d(2),
        available: d(1),
    };
    let msg = e.message();
    assert!(msg.contains("bitcoin"));
    assert!(msg.contains("coldwallet"));
    assert!(msg.contains('2') && msg.contains('1'));
    assert_eq!(msg, "disposed 2 bitcoin from wallet 'coldwallet' but only 1 held there");
}

#[test]
fn missing_selection_message_names_index() {
    let e = PortfolioError::MissingLotSelection { asset: "btc".into(), tx_index: 12 };
    assert_eq!(e.message(), "Specific-ID disposal of btc (input index 12) lacks a valid, fully-covering lot selection");
}

#[test]
fn cost_basis_per_unit_divides() {
    let lot = Lot {
        asset: "btc".into(),
        wallet: "w".into(),
        quantity: d(2),
        cost_basis: d(100),
        acquired_at: ts(2021, 1, 1),
        lot_id: 1,
        gift: None,
    };
    assert_eq!(lot.cost_basis_per_unit(), Some(d(50)));
}

fn lot(id: u64, day: u32, basis: i64, qty: i64) -> Lot {
    Lot {
        asset: "btc".into(),
        wallet: "w".into(),
        quantity: d(qty),
        cost_basis: d(basis),
        acquired_at: ts(2021, 1, day),
        lot_id: id,
        gift: None,
    }
}

#[test]
fn fifo_orders_oldest_first() {
    let lots = vec![lot(1, 3, 30, 1), lot(2, 1, 10, 1), lot(3, 2, 20, 1)];
    assert_eq!(order_for(CostBasisMethod::Fifo, &lots), Some(vec![1, 2, 0]));
}

#[test]
fn lifo_orders_newest_first() {
    let lots = vec![lot(1, 1, 10, 1), lot(2, 3, 30, 1), lot(3, 2, 20, 1)];
    assert_eq!(order_for(CostBasisMethod::Lifo, &lots), Some(vec![1, 2, 0]));
}

#[test]
fn hifo_orders_highest_unit_cost_first() {
    let lots = vec![lot(1, 1, 10, 1), lot(2, 2, 30, 1), lot(3, 3, 20, 1)];
    assert_eq!(order_for(CostBasisMethod::Hifo, &lots), Some(vec![1, 2, 0]));
}

#[test]
fn fifo_breaks_date_ties_by_lot_id() {
    let lots = vec![lot(5, 1, 10, 1), lot(2, 1, 30, 1), lot(9, 1, 20, 1)];
    assert_eq!(order_for(CostBasisMethod::Fifo, &lots), Some(vec![1, 0, 2]));
    assert_eq!(order_for(CostBasisMethod::Average, &lots), Some(vec![1, 0, 2]));
    assert_eq!(order_for(CostBasisMethod::Lifo, &lots), Some(vec![2, 0, 1]));
}

#[test]
fn hifo_breaks_unit_cost_ties_by_lot_id() {
    // Unit costs 10, 10 (as 20/2), 5.
    let lots = vec![lot(7, 1, 10, 1), lot(3, 2, 20, 2), lot(1, 3, 5, 1)];
    assert_eq!(order_for(CostBasisMethod::Hifo, &lots), Some(vec![1, 0, 2]));
}

#[test]
fn term_boundary_365_is_short_366_is_long() {
    let acquired = Utc.with_ymd_and_hms(2020, 1, 1, 0, 0, 0).unwrap();
    let a = Timestamp::from_unix(acquired.timestamp(), 0).unwrap();
    let at365 = Timestamp::from_unix((acquired + Duration::days(365)).timestamp(), 0).unwrap();
    let at366 = Timestamp::from_unix((acquired + Duration::days(366)).timestamp(), 0).unwrap();
    assert_eq!(Term::classify(a, at365), Term::Short);
    assert_eq!(Term::classify(a, at366), Term::Long);
    let just_over = Timestamp::from_unix((acquired + Duration::days(365)).timestamp(), 1).unwrap();
    assert_eq!(Term::classify(a, just_over), Term::Long);
}

#[test]
fn timestamp_year_is_utc_calendar_year() {
    assert_eq!(ts(2021, 12, 31).year(), 2021);
    let last_second = Utc.with_ymd_and_hms(2021, 12, 31, 23, 59, 59).unwrap();
    assert_eq!(Timestamp::from_unix(last_second.timestamp(), 999_999_999).unwrap().year(), 2021);
    assert_eq!(ts(2022, 1, 1).year(), 2022);
    assert!(Timestamp::from_unix(0, 1_000_000_000).is_none());
}

#[test]
fn timestamp_accessor_works_for_each_variant() {
    let b = Transaction::Buy { timestamp: ts(2021, 1, 1), wallet: "w".into(), asset: "bitcoin".into(), quantity: d(1), unit_price: d(100), fee: d(0) };
    assert_eq!(b.timestamp(), ts(2021, 1, 1));
    let t = Transaction::Transfer { timestamp: ts(2021, 2, 2), asset: "bitcoin".into(), quantity: d(1), from_wallet: "a".into(), to_wallet: "b".into(), fee: d(0), fee_value: d(0) };
    assert_eq!(t.timestamp(), ts(2021, 2, 2));
}

#[test]
fn validate_rejects_non_positive_quantity() {
    let b = Transaction::Buy { timestamp: ts(2021, 1, 1), wallet: "w".into(), asset: "eth".into(), quantity: d(0), unit_price: d(100), fee: d(0) };
    assert_eq!(b.validate(), Err(PortfolioError::NonPositiveQuantity { asset: "eth".into(), quantity: d(0) }));
}

#[test]
fn validate_rejects_negative_fee() {
    let s = Transaction::Sell { timestamp: ts(2021, 1, 1), wallet: "w".into(), asset: "eth".into(), quantity: d(1), unit_price: d(100), fee: d(-1) };
    assert_eq!(s.validate(), Err(PortfolioError::NegativeFee { asset: "eth".into(), fee: d(-1) }));
}

#[test]
fn validate_accepts_well_formed_event() {
    let b = Transaction::Buy { timestamp: ts(2021, 1, 1), wallet: "w".into(), asset: "eth".into(), quantity: d(1), unit_price: d(100), fee: d(1) };
    assert_eq!(b.validate(), Ok(()));
}

#[test]
fn validate_rejects_negative_unit_price() {
    let b = Transaction::Buy { timestamp: ts(2021, 1, 1), wallet: "w".into(), asset: "btc".into(), quantity: d(1), unit_price: d(-1), fee: d(0) };
    assert_eq!(b.validate(), Err(PortfolioError::NegativeValue { asset: "btc".into() }));
}

#[test]
fn validate_rejects_negative_gift_fmv() {
    let g = Transaction::GiftReceived { timestamp: ts(2021, 1, 1), wallet: "w".into(), asset: "btc".into(), quantity: d(1), donor_basis: d(10), fmv_at_receipt: d(-5), donor_acquired_at: ts(2018, 1, 1) };
    assert_eq!(g.validate(), Err(PortfolioError::NegativeValue { asset: "btc".into() }));
}

#[test]
fn validate_rejects_negative_transfer_fee_value() {
    let t = Transaction::Transfer { timestamp: ts(2021, 1, 1), asset: "btc".into(), quantity: d(1), from_wallet: "a".into(), to_wallet: "b".into(), fee: d(1), fee_value: d(-1) };
    assert_eq!(t.validate(), Err(PortfolioError::NegativeValue { asset: "btc".into() }));
}

#[test]
fn validate_rejects_non_positive_trade_leg() {
    let tr = Transaction::Trade { timestamp: ts(2021, 1, 1), wallet: "w".into(), from_asset: "btc".into(), from_quantity: d(0), to_asset: "eth".into(), to_quantity: d(10), value: d(500), fee: d(0) };
    assert_eq!(tr.validate(), Err(PortfolioError::NonPositiveQuantity { asset: "btc".into(), quantity: d(0) }));
}

#[test]
fn validate_accepts_well_formed_gift_and_transfer() {
    let g = Transaction::GiftReceived { timestamp: ts(2021, 1, 1), wallet: "w".into(), asset: "btc".into(), quantity: d(1), donor_basis: d(10), fmv_at_receipt: d(12), donor_acquired_at: ts(2018, 1, 1) };
    assert_eq!(g.validate(), Ok(()));
    let t = Transaction::Transfer { timestamp: ts(2021, 1, 1), asset: "btc".into(), quantity: d(1), from_wallet: "a".into(), to_wallet: "b".into(), fee: d(0), fee_value: d(0) };
    assert_eq!(t.validate(), Ok(()));
}

#[test]
fn validate_reports_the_first_failing_check() {
    // Both the to-leg quantity and the fee are bad; the quantity check comes first.
    let tr = Transaction::Trade { timestamp: ts(2021, 1, 1), wallet: "w".into(), from_asset: "btc".into(), from_quantity: d(1), to_asset: "eth".into(), to_quantity: d(-2), value: d(500), fee: d(-1) };
    assert_eq!(tr.validate(), Err(PortfolioError::NonPositiveQuantity { asset: "eth".into(), quantity: d(-2) }));
}

#[test]
fn decimals_compare_by_value() {
    assert_eq!(Dec::new(100, 2), Dec::new(1, 0));
    assert!(Dec::new(-1, 3).is_negative());
    assert!(Dec::new(5, 1).is_lt(&Dec::new(1, 0)));
    assert_eq!(Dec::new(1, 0).checked_div(&Dec::new(0, 0)), None);
    assert_eq!(Dec::new(21, 1).to_display(), "2.1");
}

#[test]
fn negative_zero_keeps_its_sign() {
    let nz = Dec::from_parts_signed(0, 2, true).unwrap();
    assert!(nz.is_zero());
    assert!(nz.is_sign_negative());
    assert_eq!(nz.to_display(), "-0.00");
    assert_eq!(nz, Dec::zero());
    assert!(Dec::from_parts_signed(3, 0, true).is_none());
    let mut rnz = rust_decimal::Decimal::new(0, 2);
    rnz.set_sign_negative(true);
    let five = rust_decimal::Decimal::new(5, 0);
    let m5 = rust_decimal::Decimal::new(-5, 0);
    let cases = [
        (nz.checked_add(&Dec::new(0, 0)).unwrap(), rnz.checked_add(rust_decimal::Decimal::new(0, 0)).unwrap()),
        (nz.checked_mul(&Dec::new(5, 0)).unwrap(), rnz.checked_mul(five).unwrap()),
        (Dec::new(-5, 0).checked_sub(&Dec::new(-5, 0)).unwrap(), m5.checked_sub(m5).unwrap()),
        (Dec::new(-5, 0).checked_add(&Dec::new(5, 0)).unwrap(), m5.checked_add(five).unwrap()),
    ];
    for (ours, theirs) in cases {
        assert_eq!(ours.is_sign_negative(), theirs.is_sign_negative());
        assert_eq!(ours.to_display(), theirs.to_string());
    }
}

#[test]
fn timestamps_cover_chronos_range() {
    assert_eq!(
        (chrono::DateTime::<Utc>::MIN_UTC.timestamp(), chrono::DateTime::<Utc>::MAX_UTC.timestamp()),
        (MIN_TIMESTAMP_SECS, MAX_TIMESTAMP_SECS)
    );
    let last = Timestamp::from_unix(MAX_TIMESTAMP_SECS, 999_999_999).unwrap();
    assert_eq!(last.year(), 262142);
    let first = Timestamp::from_unix(MIN_TIMESTAMP_SECS, 0).unwrap();
    assert_eq!(first.year(), -262143);
    assert!(Timestamp::from_unix(MAX_TIMESTAMP_SECS + 1, 0).is_none());
    assert!(Timestamp::from_unix(MIN_TIMESTAMP_SECS - 1, 0).is_none());
    assert!(chrono::DateTime::from_timestamp(MAX_TIMESTAMP_SECS, 999_999_999).is_some());
    assert!(chrono::DateTime::from_timestamp(MAX_TIMESTAMP_SECS + 1, 0).is_none());
    assert!(chrono::DateTime::from_timestamp(MIN_TIMESTAMP_SECS, 0).is_some());
    assert!(chrono::DateTime::from_timestamp(MIN_TIMESTAMP_SECS - 1, 0).is_none());
    let earliest = chrono::DateTime::<Utc>::MIN_UTC;
    assert_eq!(
        (chrono::Datelike::year(&earliest), chrono::Datelike::month(&earliest), chrono::Datelike::day(&earliest)),
        (-262143, 1, 1)
    );
}

#[test]
fn leap_seconds_order_and_elapse_as_in_chrono() {
    assert!(Timestamp::from_unix(58, 1_500_000_000).is_none());
    assert!(Timestamp::from_unix(59, 2_000_000_000).is_none());
    let leap = Timestamp::from_unix(86_399, 1_500_000_000).unwrap();
    let before_leap = Timestamp::from_unix(86_399, 999_999_999).unwrap();
    let after_leap = Timestamp::from_unix(86_400, 0).unwrap();
    assert!(before_leap.is_before(&leap));
    assert!(leap.is_before(&after_leap));
    assert!(!after_leap.is_before(&leap));
    assert_eq!(leap.year(), 1970);
    let instants = [
        (86_399i64, 1_500_000_000u32),
        (86_399, 999_999_999),
        (86_400, 0),
        (86_400, 700_000_000),
        (0, 0),
        (86_399 + 86_400, 1_200_000_000),
        (86_398, 0),
    ];
    for &(fs, fnanos) in &instants {
        for &(ts_, tn) in &instants {
            let a = chrono::DateTime::from_timestamp(fs, fnanos).unwrap();
            let b = chrono::DateTime::from_timestamp(ts_, tn).unwrap();
            let from = Timestamp::from_unix(fs, fnanos).unwrap();
            let to = Timestamp::from_unix(ts_, tn).unwrap();
            assert_eq!(from.is_before(&to), a < b);
            for days in [-1i64, 0, 1] {
                assert_eq!(Timestamp::held_longer_than(&from, &to, days), b - a > chrono::TimeDelta::days(days));
            }
        }
    }
}

fn civil_year(secs: i64) -> i64 {
    let z = secs.div_euclid(86_400) + 719_468;
    let era = z.div_euclid(146_097);
    let doe = z - era * 146_097;
    let yoe = (doe - doe / 1_460 + doe / 36_524 - doe / 146_096) / 365;
    let doy = doe - (365 * yoe + yoe / 4 - yoe / 100);
    let mp = (5 * doy + 2) / 153;
    yoe + era * 400 + if mp >= 10 { 1 } else { 0 }
}

#[test]
fn calendar_year_matches_the_civil_calendar() {
    let mut probes: Vec<i64> = vec![MIN_TIMESTAMP_SECS, MAX_TIMESTAMP_SECS, -1, 0, 1, 951_782_400, 951_868_799, -62_135_596_801];
    let mut s = MIN_TIMESTAMP_SECS;
    while s < MAX_TIMESTAMP_SECS {
        probes.push(s);
        probes.push(s + 86_399);
        s += 1_234_567_891_234;
    }
    let mut d: i64 = -800_000;
    while d < 800_000 {
        probes.push(d * 86_400);
        probes.push(d * 86_400 - 1);
        d += 57;
    }
    for p in probes {
        if let Some(t) = Timestamp::from_unix(p, 0) {
            assert_eq!(t.year() as i64, civil_year(p), "at {}", p);
        }
    }
}

fn display_text(m: i128, scale: u32, negative: bool) -> String {
    let digits = if m == 0 { String::new() } else { m.unsigned_abs().to_string() };
    let mut d = "0".repeat((scale as usize).saturating_sub(digits.len()));
    d.push_str(&digits);
    let body = if scale == 0 {
        if d.is_empty() { "0".to_string() } else { d }
    } else {
        let cut = d.len() - scale as usize;
        let whole = if cut == 0 { "0" } else { &d[..cut] };
        format!("{}.{}", whole, &d[cut..])
    };
    if negative { format!("-{}", body) } else { body }
}

#[test]
fn display_text_matches_rust_decimal() {
    let mantissas: [i128; 9] = [0, 1, -1, 7, 10, -123_456_789, 1_000_000, 79_228_162_514_264_337_593_543_950_335, -79_228_162_514_264_337_593_543_950_335];
    for &m in &mantissas {
        for scale in [0u32, 1, 2, 5, 9, 27, 28] {
            let negs: Vec<bool> = if m == 0 { vec![false, true] } else { vec![m < 0] };
            for neg in negs {
                let d = Dec::from_parts_signed(m, scale, neg).unwrap();
                let mut r = rust_decimal::Decimal::from_i128_with_scale(m, scale);
                r.set_sign_negative(neg);
                assert_eq!(r.to_string(), display_text(m, scale, neg), "{} {} {}", m, scale, neg);
                assert_eq!(d.to_display(), display_text(m, scale, neg));
            }
        }
    }
}
