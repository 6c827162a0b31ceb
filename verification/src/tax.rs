//! Tax-liability estimation over a [`CapitalGainsReport`].
//!
//! Cost-basis accounting (which lots, what gain, short/long term) is the rest
//! of the crate's job; this module turns a year's realized gains into an
//! estimated tax using a [`TaxConfig`]: a flat short-term rate plus
//! progressive long-term brackets, with a configurable holding-period
//! threshold. Not tax advice.

use vstd::prelude::*;
use crate::decimal::{dec_of, dec_zero, Dec};
use crate::report::{CapitalGainsReport, RealizedGain, Term};
use crate::time::{Timestamp, MAX_DELTA_DAYS};

verus! {

/// One long-term capital-gains bracket. `up_to` is the cumulative-gain ceiling
/// for this bracket; `None` marks the unbounded top bracket.
#[derive(Clone, Copy, Debug, PartialEq)]
pub struct TaxBracket {
    /// Upper gain bound for this bracket; `None` = unbounded.
    pub up_to: Option<Dec>,
    /// Marginal rate applied within this bracket (e.g. `0.15` = 15%).
    pub rate: Dec,
}

/// Tax-rate configuration: a flat short-term rate plus progressive long-term
/// brackets, with a configurable long-term holding threshold.
#[derive(Clone, Debug, PartialEq)]
pub struct TaxConfig {
    /// Display label for the jurisdiction (does not affect the math).
    pub jurisdiction: String,
    /// Days held strictly above which a gain is long-term.
    pub long_term_threshold_days: i64,
    /// Flat rate applied to net short-term gains.
    pub short_term_rate: Dec,
    /// Progressive long-term brackets, ascending, unbounded bracket last.
    pub long_term_brackets: Vec<TaxBracket>,
}

impl Default for TaxConfig {
    /// US 2024 federal rates: 35% short-term; 0% / 15% / 20% long-term
    /// brackets with ceilings 47,025 and 518,900; threshold 365 days.
    fn default() -> (r: TaxConfig)
        ensures
            r.jurisdiction@ == "default"@,
            r.long_term_threshold_days == 365,
            r.short_term_rate == dec_of((35i128, 2u32, false)),
            r.long_term_brackets@ == seq![
                TaxBracket { up_to: Some(dec_of((47025i128, 0u32, false))), rate: dec_of((0i128, 0u32, false)) },
                TaxBracket { up_to: Some(dec_of((518900i128, 0u32, false))), rate: dec_of((15i128, 2u32, false)) },
                TaxBracket { up_to: None, rate: dec_of((20i128, 2u32, false)) },
            ],
    {
        let mut brackets: Vec<TaxBracket> = Vec::new();
        brackets.push(TaxBracket { up_to: Some(Dec::new(47025, 0)), rate: Dec::new(0, 0) });
        brackets.push(TaxBracket { up_to: Some(Dec::new(518900, 0)), rate: Dec::new(15, 2) });
        brackets.push(TaxBracket { up_to: None, rate: Dec::new(20, 2) });
        TaxConfig {
            jurisdiction: String::from_str("default"),
            long_term_threshold_days: 365,
            short_term_rate: Dec::new(35, 2),
            long_term_brackets: brackets,
        }
    }
}

/// The estimated tax from applying a [`TaxConfig`] to a year's gains.
#[derive(Clone, Copy, Debug, PartialEq)]
pub struct TaxEstimate {
    /// Net short-term gain (under the config threshold).
    pub short_term_gain: Dec,
    /// Net long-term gain (under the config threshold).
    pub long_term_gain: Dec,
    /// Tax on the short-term gain.
    pub short_term_tax: Dec,
    /// Tax on the long-term gain.
    pub long_term_tax: Dec,
    /// `short_term_tax + long_term_tax`.
    pub total_tax: Dec,
}

/// A row counts as long-term under `threshold_days`: re-derived from its
/// holding period when it has an acquisition date, else its stored term.
pub open spec fn row_is_long(r: RealizedGain, threshold_days: int) -> bool {
    match r.acquired_at {
        Some(acq) => Timestamp::held_more_than(acq, r.disposed_at, threshold_days),
        None => r.term == Some(Term::Long),
    }
}

/// The running sum (left to right, from zero) of the gains of the rows
/// whose long-term status is `long`; `None` once an addition overflows.
pub open spec fn class_gain(rows: Seq<RealizedGain>, threshold_days: int, long: bool) -> Option<Dec>
    decreases rows.len(),
{
    if rows.len() == 0 {
        Some(dec_zero())
    } else {
        match class_gain(rows.drop_last(), threshold_days, long) {
            None => None,
            Some(acc) => if row_is_long(rows.last(), threshold_days) == long {
                acc.spec_add(rows.last().gain)
            } else {
                Some(acc)
            },
        }
    }
}

/// Progressive tax over `brackets[i..]` for a gain, given the tax so far and
/// the previous ceiling: each bracket taxes the slice of the gain between the
/// previous ceiling and its own (the whole rest for the unbounded bracket) at
/// its rate; the walk stops once the previous ceiling reaches the gain.
pub open spec fn progressive_from(
    brackets: Seq<TaxBracket>,
    i: int,
    gain: Dec,
    tax: Dec,
    prev: Dec,
) -> Option<Dec>
    decreases brackets.len() - i,
{
    if i >= brackets.len() || i < 0 || gain.le(prev) {
        Some(tax)
    } else {
        let b = brackets[i];
        let ceiling = match b.up_to {
            Some(c) => c,
            None => gain,
        };
        let top = ceiling.min_spec(gain);
        match top.spec_sub(prev) {
            None => None,
            Some(slice) => {
                let next = if slice.is_pos_spec() {
                    match slice.spec_mul(b.rate) {
                        None => None,
                        Some(t) => tax.spec_add(t),
                    }
                } else {
                    Some(tax)
                };
                match next {
                    None => None,
                    Some(nt) => if b.up_to is None {
                        Some(nt)
                    } else {
                        progressive_from(brackets, i + 1, gain, nt, ceiling)
                    },
                }
            },
        }
    }
}

/// Progressive long-term tax on a gain.
pub open spec fn progressive_spec(gain: Dec, brackets: Seq<TaxBracket>) -> Option<Dec> {
    progressive_from(brackets, 0, gain, dec_zero(), dec_zero())
}

/// `threshold_days` is a day count `chrono::TimeDelta::days` accepts wherever
/// a row needs it: for every row that carries an acquisition date.
pub open spec fn threshold_fits(rows: Seq<RealizedGain>, threshold_days: int) -> bool {
    forall|i: int|
        0 <= i < rows.len() && (#[trigger] rows[i]).acquired_at is Some ==> -MAX_DELTA_DAYS <= threshold_days
            <= MAX_DELTA_DAYS
}

/// What [`estimate`] returns.
pub open spec fn estimate_spec(report: CapitalGainsReport, config: TaxConfig) -> Option<TaxEstimate> {
    let rows = report.rows@;
    let days = config.long_term_threshold_days as int;
    match (class_gain(rows, days, false), class_gain(rows, days, true)) {
        (Some(short_gain), Some(long_gain)) => {
            let short_tax = if short_gain.is_pos_spec() {
                short_gain.spec_mul(config.short_term_rate)
            } else {
                Some(dec_zero())
            };
            let long_tax = progressive_spec(long_gain.max_spec(dec_zero()), config.long_term_brackets@);
            match (short_tax, long_tax) {
                (Some(st), Some(lt)) => match st.spec_add(lt) {
                    Some(total) => Some(
                        TaxEstimate {
                            short_term_gain: short_gain,
                            long_term_gain: long_gain,
                            short_term_tax: st,
                            long_term_tax: lt,
                            total_tax: total,
                        },
                    ),
                    None => None,
                },
                _ => None,
            }
        },
        _ => None,
    }
}

/// Estimate the tax on a year's realized gains.
///
/// Short/long subtotals are re-derived from each row's holding period against
/// `config.long_term_threshold_days` (rows with no `acquired_at` fall back to
/// the row's `term`). Short-term tax is the flat rate on positive net
/// short-term gain; long-term tax is progressive over the brackets on positive
/// net long-term gain. Losses never produce tax. `None` when a decimal
/// operation overflows.
pub fn estimate(report: &CapitalGainsReport, config: &TaxConfig) -> (r: Option<TaxEstimate>)
    requires
        threshold_fits(report.rows@, config.long_term_threshold_days as int),
    ensures
        r == estimate_spec(*report, *config),
        r matches Some(e) ==> {
            &&& !e.short_term_gain.is_pos_spec() ==> e.short_term_tax == dec_zero()
            &&& !e.long_term_gain.is_pos_spec() ==> e.long_term_tax == dec_zero()
        },
{
    let days = config.long_term_threshold_days;
    let ghost rows = report.rows@;
    let mut short_gain = Dec::zero();
    let mut long_gain = Dec::zero();
    let mut i: usize = 0;
    while i < report.rows.len()
        invariant
            i <= rows.len(),
            rows == report.rows@,
            days == config.long_term_threshold_days,
            threshold_fits(rows, days as int),
            class_gain(rows.take(i as int), days as int, false) == Some(short_gain),
            class_gain(rows.take(i as int), days as int, true) == Some(long_gain),
        decreases rows.len() - i,
    {
        let r = &report.rows[i];
        proof {
            assert(rows[i as int].acquired_at is Some ==> -MAX_DELTA_DAYS <= days <= MAX_DELTA_DAYS);
        }
        let is_long = match r.acquired_at {
            Some(acq) => Timestamp::held_longer_than(&acq, &r.disposed_at, days),
            None => matches!(r.term, Some(Term::Long)),
        };
        proof {
            assert(rows.take(i + 1).drop_last() =~= rows.take(i as int));
            assert(rows.take(i + 1).last() == rows[i as int]);
        }
        if is_long {
            match long_gain.checked_add(&r.gain) {
                Some(g) => long_gain = g,
                None => {
                    proof {
                        lemma_class_gain_none_extends(rows, i as int + 1, days as int, true);
                    }
                    return None;
                },
            }
        } else {
            match short_gain.checked_add(&r.gain) {
                Some(g) => short_gain = g,
                None => {
                    proof {
                        lemma_class_gain_none_extends(rows, i as int + 1, days as int, false);
                    }
                    return None;
                },
            }
        }
        i = i + 1;
    }
    proof {
        assert(rows.take(rows.len() as int) =~= rows);
    }
    let short_tax = if short_gain.is_positive() {
        match short_gain.checked_mul(&config.short_term_rate) {
            Some(t) => t,
            None => return None,
        }
    } else {
        Dec::zero()
    };
    let long_tax = match progressive_tax(long_gain.max(Dec::zero()), &config.long_term_brackets) {
        Some(t) => t,
        None => return None,
    };
    proof {
        if !long_gain.is_pos_spec() {
            crate::decimal::lemma_order_zero(long_gain@);
            lemma_progressive_non_positive(long_gain.max_spec(dec_zero()), config.long_term_brackets@);
        }
    }
    let total_tax = match short_tax.checked_add(&long_tax) {
        Some(t) => t,
        None => return None,
    };
    Some(
        TaxEstimate {
            short_term_gain: short_gain,
            long_term_gain: long_gain,
            short_term_tax: short_tax,
            long_term_tax: long_tax,
            total_tax,
        },
    )
}

/// Once a class sum overflows on a prefix, it stays `None` on every longer prefix.
proof fn lemma_class_gain_none_extends(rows: Seq<RealizedGain>, k: int, days: int, long: bool)
    requires
        0 <= k <= rows.len(),
        class_gain(rows.take(k), days, long) is None,
    ensures
        class_gain(rows, days, long) is None,
    decreases rows.len() - k,
{
    if k < rows.len() {
        assert(rows.take(k + 1).drop_last() =~= rows.take(k));
        lemma_class_gain_none_extends(rows, k + 1, days, long);
    } else {
        assert(rows.take(k) =~= rows);
    }
}

/// A gain that does not exceed zero is taxed zero by any brackets.
proof fn lemma_progressive_non_positive(gain: Dec, brackets: Seq<TaxBracket>)
    requires
        gain.le(dec_zero()),
    ensures
        progressive_spec(gain, brackets) == Some(dec_zero()),
{
}

/// Apply ascending progressive brackets to a non-negative gain.
fn progressive_tax(gain: Dec, brackets: &Vec<TaxBracket>) -> (r: Option<Dec>)
    ensures
        r == progressive_spec(gain, brackets@),
{
    let mut tax = Dec::zero();
    let mut prev = Dec::zero();
    let mut i: usize = 0;
    while i < brackets.len()
        invariant
            i <= brackets.len(),
            progressive_from(brackets@, i as int, gain, tax, prev) == progressive_spec(gain, brackets@),
        decreases brackets.len() - i,
    {
        let b = brackets[i];
        if gain.is_le(&prev) {
            return Some(tax);
        }
        let ceiling = match b.up_to {
            Some(c) => c,
            None => gain,
        };
        let top = ceiling.min(gain);
        let slice = match top.checked_sub(&prev) {
            Some(s) => s,
            None => return None,
        };
        if slice.is_positive() {
            let t = match slice.checked_mul(&b.rate) {
                Some(t) => t,
                None => return None,
            };
            tax = match tax.checked_add(&t) {
                Some(nt) => nt,
                None => return None,
            };
        }
        prev = ceiling;
        if b.up_to.is_none() {
            return Some(tax);
        }
        i = i + 1;
    }
    Some(tax)
}

/// The estimate depends only on the report's rows and on the config's
/// threshold, short-term rate and brackets: not on the report's year or
/// subtotals, nor on the jurisdiction's name.
pub proof fn law_estimate_reads_rows_and_rates(
    report: CapitalGainsReport,
    report2: CapitalGainsReport,
    config: TaxConfig,
    config2: TaxConfig,
)
    requires
        report2.rows@ == report.rows@,
        config2.long_term_threshold_days == config.long_term_threshold_days,
        config2.short_term_rate == config.short_term_rate,
        config2.long_term_brackets@ == config.long_term_brackets@,
    ensures
        estimate_spec(report2, config2) == estimate_spec(report, config),
{
}

} // verus!
