//! The ledger-replay engine. Builds per-`(asset, wallet)` lot pools by
//! processing events in timestamp order, producing realized gains, income
//! events, and the remaining open lots.
//!
//! All lots live in one sequence in insertion order; a pool is the
//! subsequence of lots with its `(asset, wallet)`, so each pool keeps the
//! order in which its lots were opened.

use vstd::prelude::*;
use crate::decimal::{dec_zero, Dec};
use crate::error::PortfolioError;
use crate::lot::{GiftBasis, Lot};
use crate::method::{order_for, order_spec, CostBasisMethod, LotPick, LotSelection};
use crate::report::{IncomeEvent, RealizedGain, Term};
use crate::time::Timestamp;
use crate::transaction::Transaction;

verus! {

// ---------------------------------------------------------------------------
// The model
// ---------------------------------------------------------------------------

/// A slice consumed out of a lot during a disposal or a move.
#[derive(Clone, Copy, Debug)]
pub struct Consumed {
    /// Units taken.
    pub quantity: Dec,
    /// Basis taken with them.
    pub cost_basis: Dec,
    /// The lot's acquisition date; `None` under `Average` (pooled).
    pub acquired_at: Option<Timestamp>,
    /// The lot's gift data, if it was received as a gift.
    pub gift: Option<GiftBasis>,
    /// The lot the slice came from.
    pub lot_id: u64,
}

/// The state of a replay.
pub struct ReplayState {
    /// Open lots of all pools, in insertion order.
    pub lots: Seq<Lot>,
    /// Realized capital-gain rows so far.
    pub realized: Seq<RealizedGain>,
    /// Income events so far.
    pub income: Seq<IncomeEvent>,
    /// The id the next opened lot gets.
    pub next_lot_id: nat,
    /// For each original input index, the id of the lot it opened, if any.
    pub acq: Seq<Option<u64>>,
}

/// The lot belongs to the `(asset, wallet)` pool.
pub open spec fn in_pool(l: Lot, asset: String, wallet: String) -> bool {
    l.asset@ == asset@ && l.wallet@ == wallet@
}

/// Positions (in `lots`) of the lots of the `(asset, wallet)` pool, in order.
pub open spec fn pool_positions(lots: Seq<Lot>, asset: String, wallet: String) -> Seq<usize>
    decreases lots.len(),
{
    if lots.len() == 0 {
        Seq::empty()
    } else {
        let r = pool_positions(lots.drop_last(), asset, wallet);
        if in_pool(lots.last(), asset, wallet) {
            r.push((lots.len() - 1) as usize)
        } else {
            r
        }
    }
}

/// The lots at the given positions.
pub open spec fn lots_at(lots: Seq<Lot>, pos: Seq<usize>) -> Seq<Lot> {
    pos.map_values(|p: usize| lots[p as int])
}

/// Left-to-right sum from zero of the quantities (or, with `basis`, the cost
/// bases) of the lots at the given positions; `None` on overflow.
pub open spec fn sum_field(lots: Seq<Lot>, pos: Seq<usize>, basis: bool) -> Option<Dec>
    decreases pos.len(),
{
    if pos.len() == 0 {
        Some(dec_zero())
    } else {
        match sum_field(lots, pos.drop_last(), basis) {
            None => None,
            Some(acc) => acc.spec_add(
                if basis {
                    lots[pos.last() as int].cost_basis
                } else {
                    lots[pos.last() as int].quantity
                },
            ),
        }
    }
}

/// Units held in the `(asset, wallet)` pool.
pub open spec fn available_spec(lots: Seq<Lot>, asset: String, wallet: String) -> Option<Dec> {
    sum_field(lots, pool_positions(lots, asset, wallet), false)
}

/// Drop the emptied (non-positive) lots of the `(asset, wallet)` pool.
pub open spec fn retain_pool(lots: Seq<Lot>, asset: String, wallet: String) -> Seq<Lot>
    decreases lots.len(),
{
    if lots.len() == 0 {
        Seq::empty()
    } else {
        let r = retain_pool(lots.drop_last(), asset, wallet);
        if !in_pool(lots.last(), asset, wallet) || lots.last().quantity.is_pos_spec() {
            r.push(lots.last())
        } else {
            r
        }
    }
}

/// Drop every lot of the `(asset, wallet)` pool.
pub open spec fn remove_pool(lots: Seq<Lot>, asset: String, wallet: String) -> Seq<Lot>
    decreases lots.len(),
{
    if lots.len() == 0 {
        Seq::empty()
    } else {
        let r = remove_pool(lots.drop_last(), asset, wallet);
        if !in_pool(lots.last(), asset, wallet) {
            r.push(lots.last())
        } else {
            r
        }
    }
}

/// The lot with its quantity and basis replaced.
pub open spec fn with_amounts(l: Lot, quantity: Dec, cost_basis: Dec) -> Lot {
    Lot { quantity, cost_basis, ..l }
}

/// The slice of `take` units out of lot `l`, with basis `basis`.
pub open spec fn slice_of(l: Lot, take: Dec, basis: Dec) -> Consumed {
    Consumed {
        quantity: take,
        cost_basis: basis,
        acquired_at: Some(l.acquired_at),
        gift: l.gift,
        lot_id: l.lot_id,
    }
}

/// Ordered consumption from step `k` on: walk the pool lots in `order`,
/// taking `min(remaining, lot quantity)` from each at its unit cost, until
/// nothing remains.
pub open spec fn ordered_from(
    lots: Seq<Lot>,
    pool: Seq<usize>,
    order: Seq<usize>,
    k: int,
    remaining: Dec,
    out: Seq<Consumed>,
) -> Option<(Seq<Lot>, Seq<Consumed>)>
    decreases order.len() - k,
{
    if k >= order.len() || k < 0 || !remaining.is_pos_spec() {
        Some((lots, out))
    } else {
        let p = pool[order[k] as int] as int;
        let l = lots[p];
        let take = remaining.min_spec(l.quantity);
        if !take.is_pos_spec() {
            ordered_from(lots, pool, order, k + 1, remaining, out)
        } else {
            match l.unit_cost_spec() {
                None => None,
                Some(unit) => match unit.spec_mul(take) {
                    None => None,
                    Some(basis) => match (
                        l.quantity.spec_sub(take),
                        l.cost_basis.spec_sub(basis),
                        remaining.spec_sub(take),
                    ) {
                        (Some(nq), Some(nb), Some(nr)) => ordered_from(
                            lots.update(p, with_amounts(l, nq, nb)),
                            pool,
                            order,
                            k + 1,
                            nr,
                            out.push(slice_of(l, take, basis)),
                        ),
                        _ => None,
                    },
                },
            }
        }
    }
}

/// Consume `quantity` from the pool in the order of an automatic method.
pub open spec fn consume_ordered_spec(
    lots: Seq<Lot>,
    asset: String,
    wallet: String,
    quantity: Dec,
    method: CostBasisMethod,
) -> Result<(Seq<Lot>, Seq<Consumed>), PortfolioError> {
    let pool = pool_positions(lots, asset, wallet);
    match order_spec(method, lots_at(lots, pool)) {
        None => Err(PortfolioError::ArithmeticOverflow),
        Some(order) => match ordered_from(lots, pool, order, 0, quantity, Seq::empty()) {
            None => Err(PortfolioError::ArithmeticOverflow),
            Some((l2, out)) => Ok((retain_pool(l2, asset, wallet), out)),
        },
    }
}

/// The earliest acquisition date among the lots at `pos` (the first one
/// among equals).
pub open spec fn earliest(lots: Seq<Lot>, pos: Seq<usize>) -> Timestamp
    decreases pos.len(),
{
    if pos.len() <= 1 {
        lots[pos[0] as int].acquired_at
    } else {
        let m = earliest(lots, pos.drop_last());
        let x = lots[pos.last() as int].acquired_at;
        if x.before(m) {
            x
        } else {
            m
        }
    }
}

/// Average consumption: the pool's total basis over its total units gives
/// the average cost; the pool collapses into one remaining lot (if any units
/// remain) with the earliest date and the first lot's id, no gift data.
pub open spec fn consume_average_spec(
    lots: Seq<Lot>,
    asset: String,
    wallet: String,
    quantity: Dec,
) -> Result<(Seq<Lot>, Seq<Consumed>), PortfolioError> {
    let pool = pool_positions(lots, asset, wallet);
    match (sum_field(lots, pool, false), sum_field(lots, pool, true)) {
        (Some(total_qty), Some(total_basis)) => match total_basis.spec_div(total_qty) {
            None => Err(PortfolioError::ArithmeticOverflow),
            Some(avg) => match avg.spec_mul(quantity) {
                None => Err(PortfolioError::ArithmeticOverflow),
                Some(basis) => match total_qty.spec_sub(quantity) {
                    None => Err(PortfolioError::ArithmeticOverflow),
                    Some(remaining_qty) => {
                        let lot_id = lots[pool[0] as int].lot_id;
                        let acquired_at = earliest(lots, pool);
                        let cleared = remove_pool(lots, asset, wallet);
                        let out = seq![
                            Consumed {
                                quantity,
                                cost_basis: basis,
                                acquired_at: None,
                                gift: None,
                                lot_id,
                            },
                        ];
                        if remaining_qty.is_pos_spec() {
                            match total_basis.spec_sub(basis) {
                                None => Err(PortfolioError::ArithmeticOverflow),
                                Some(rest) => Ok(
                                    (
                                        cleared.push(
                                            Lot {
                                                asset,
                                                wallet,
                                                quantity: remaining_qty,
                                                cost_basis: rest,
                                                acquired_at,
                                                lot_id,
                                                gift: None,
                                            },
                                        ),
                                        out,
                                    ),
                                ),
                            }
                        } else {
                            Ok((cleared, out))
                        }
                    },
                },
            },
        },
        _ => Err(PortfolioError::ArithmeticOverflow),
    }
}

/// Left-to-right sum from zero of the picked quantities.
pub open spec fn sum_picks(picks: Seq<LotPick>) -> Option<Dec>
    decreases picks.len(),
{
    if picks.len() == 0 {
        Some(dec_zero())
    } else {
        match sum_picks(picks.drop_last()) {
            None => None,
            Some(acc) => acc.spec_add(picks.last().quantity),
        }
    }
}

/// The first position at or after `k` of a lot of the pool with id `lot_id`
/// holding at least `quantity` units.
pub open spec fn find_lot_from(
    lots: Seq<Lot>,
    asset: String,
    wallet: String,
    lot_id: u64,
    quantity: Dec,
    k: int,
) -> Option<int>
    decreases lots.len() - k,
{
    if k >= lots.len() || k < 0 {
        None
    } else if in_pool(lots[k], asset, wallet) && lots[k].lot_id == lot_id && quantity.le(
        lots[k].quantity,
    ) {
        Some(k)
    } else {
        find_lot_from(lots, asset, wallet, lot_id, quantity, k + 1)
    }
}

/// The lot id an acquisition index opened, if it did.
pub open spec fn acquired_lot(acq: Seq<Option<u64>>, index: usize) -> Option<u64> {
    if index < acq.len() {
        acq[index as int]
    } else {
        None
    }
}

/// Specific-ID consumption from pick `k` on: each pick draws its quantity
/// from the named acquisition's lot in this pool.
pub open spec fn specific_from(
    acq: Seq<Option<u64>>,
    lots: Seq<Lot>,
    asset: String,
    wallet: String,
    picks: Seq<LotPick>,
    k: int,
    out: Seq<Consumed>,
) -> Result<(Seq<Lot>, Seq<Consumed>), PortfolioError>
    decreases picks.len() - k,
{
    if k >= picks.len() || k < 0 {
        Ok((lots, out))
    } else {
        let pick = picks[k];
        let invalid = PortfolioError::InvalidLotSelection {
            acquisition_index: pick.acquisition_index,
        };
        match acquired_lot(acq, pick.acquisition_index) {
            None => Err(invalid),
            Some(target) => match find_lot_from(lots, asset, wallet, target, pick.quantity, 0) {
                None => Err(invalid),
                Some(p) => {
                    let l = lots[p];
                    match l.unit_cost_spec() {
                        None => Err(PortfolioError::ArithmeticOverflow),
                        Some(unit) => match unit.spec_mul(pick.quantity) {
                            None => Err(PortfolioError::ArithmeticOverflow),
                            Some(basis) => match (
                                l.quantity.spec_sub(pick.quantity),
                                l.cost_basis.spec_sub(basis),
                            ) {
                                (Some(nq), Some(nb)) => specific_from(
                                    acq,
                                    retain_pool(lots.update(p, with_amounts(l, nq, nb)), asset, wallet),
                                    asset,
                                    wallet,
                                    picks,
                                    k + 1,
                                    out.push(
                                        Consumed {
                                            quantity: pick.quantity,
                                            cost_basis: basis,
                                            acquired_at: Some(l.acquired_at),
                                            gift: l.gift,
                                            lot_id: target,
                                        },
                                    ),
                                ),
                                _ => Err(PortfolioError::ArithmeticOverflow),
                            },
                        },
                    }
                },
            },
        }
    }
}

/// Specific-ID consumption: the selection for this disposal must exist and
/// its picks must add up to exactly the disposed quantity.
pub open spec fn consume_specific_spec(
    acq: Seq<Option<u64>>,
    lots: Seq<Lot>,
    orig_index: usize,
    asset: String,
    wallet: String,
    quantity: Dec,
    selection: Map<usize, Vec<LotPick>>,
) -> Result<(Seq<Lot>, Seq<Consumed>), PortfolioError> {
    let missing = PortfolioError::MissingLotSelection { asset, tx_index: orig_index };
    if !selection.contains_key(orig_index) {
        Err(missing)
    } else {
        let picks = selection[orig_index]@;
        match sum_picks(picks) {
            None => Err(PortfolioError::ArithmeticOverflow),
            Some(total) => if !total.same(quantity) {
                Err(missing)
            } else {
                specific_from(acq, lots, asset, wallet, picks, 0, Seq::empty())
            },
        }
    }
}

/// Remove `quantity` units from a pool for a disposal: refused when the pool
/// holds fewer units; otherwise consumed by the method.
pub open spec fn consume_spec(
    s: ReplayState,
    orig_index: usize,
    asset: String,
    wallet: String,
    quantity: Dec,
    method: CostBasisMethod,
    selection: Map<usize, Vec<LotPick>>,
) -> Result<(Seq<Lot>, Seq<Consumed>), PortfolioError> {
    match available_spec(s.lots, asset, wallet) {
        None => Err(PortfolioError::ArithmeticOverflow),
        Some(available) => if available.lt(quantity) {
            Err(
                PortfolioError::InsufficientLots {
                    asset,
                    wallet,
                    attempted: quantity,
                    available,
                },
            )
        } else {
            match method {
                CostBasisMethod::Average => consume_average_spec(s.lots, asset, wallet, quantity),
                CostBasisMethod::SpecificId => consume_specific_spec(
                    s.acq,
                    s.lots,
                    orig_index,
                    asset,
                    wallet,
                    quantity,
                    selection,
                ),
                _ => consume_ordered_spec(s.lots, asset, wallet, quantity, method),
            }
        },
    }
}

/// Remove `quantity` units from a pool without realizing gain (moves and
/// gifts sent): pooled under `Average`, FIFO otherwise; no availability check.
pub open spec fn take_spec(
    lots: Seq<Lot>,
    asset: String,
    wallet: String,
    quantity: Dec,
    method: CostBasisMethod,
) -> Result<(Seq<Lot>, Seq<Consumed>), PortfolioError> {
    if method == CostBasisMethod::Average {
        consume_average_spec(lots, asset, wallet, quantity)
    } else {
        consume_ordered_spec(lots, asset, wallet, quantity, CostBasisMethod::Fifo)
    }
}

/// The (gain, reported basis) of a consumed slice for its proceeds. Plain lots:
/// `proceeds - basis`. Gifted lots (IRS dual basis): a gain above the donor
/// basis; a loss below `min(donor basis, FMV at receipt)`; nothing in between
/// (reported basis = proceeds).
pub open spec fn gain_for_spec(c: Consumed, proceeds: Dec) -> Option<(Dec, Dec)> {
    match c.gift {
        None => match proceeds.spec_sub(c.cost_basis) {
            None => None,
            Some(g) => Some((g, c.cost_basis)),
        },
        Some(gift) => match gift.fmv_per_unit.spec_mul(c.quantity) {
            None => None,
            Some(fmv) => {
                let donor_basis = c.cost_basis;
                if donor_basis.lt(proceeds) {
                    match proceeds.spec_sub(donor_basis) {
                        None => None,
                        Some(g) => Some((g, donor_basis)),
                    }
                } else {
                    let loss_basis = donor_basis.min_spec(fmv);
                    if proceeds.lt(loss_basis) {
                        match proceeds.spec_sub(loss_basis) {
                            None => None,
                            Some(g) => Some((g, loss_basis)),
                        }
                    } else {
                        Some((dec_zero(), proceeds))
                    }
                }
            },
        },
    }
}

/// The realized row for a consumed slice.
pub open spec fn gain_row(
    c: Consumed,
    asset: String,
    wallet: String,
    disposed_at: Timestamp,
    proceeds: Dec,
    gain: Dec,
    basis: Dec,
) -> RealizedGain {
    RealizedGain {
        asset,
        wallet,
        disposed_at,
        acquired_at: c.acquired_at,
        quantity: c.quantity,
        proceeds,
        cost_basis: basis,
        gain,
        term: match c.acquired_at {
            Some(a) => Some(Term::classify_spec(a, disposed_at)),
            None => None,
        },
    }
}

/// Realized rows for consumed slices from `k` on: each slice gets the share
/// `total * (slice quantity / quantity)` of the proceeds.
pub open spec fn realize_from(
    consumed: Seq<Consumed>,
    k: int,
    quantity: Dec,
    total: Dec,
    asset: String,
    wallet: String,
    disposed_at: Timestamp,
    acc: Seq<RealizedGain>,
) -> Option<Seq<RealizedGain>>
    decreases consumed.len() - k,
{
    if k >= consumed.len() || k < 0 {
        Some(acc)
    } else {
        let c = consumed[k];
        match c.quantity.spec_div(quantity) {
            None => None,
            Some(share) => match total.spec_mul(share) {
                None => None,
                Some(proceeds) => match gain_for_spec(c, proceeds) {
                    None => None,
                    Some((gain, basis)) => realize_from(
                        consumed,
                        k + 1,
                        quantity,
                        total,
                        asset,
                        wallet,
                        disposed_at,
                        acc.push(gain_row(c, asset, wallet, disposed_at, proceeds, gain, basis)),
                    ),
                },
            },
        }
    }
}

/// A taxable disposal of `quantity` units for `total` proceeds.
pub open spec fn dispose_spec(
    s: ReplayState,
    orig_index: usize,
    asset: String,
    wallet: String,
    quantity: Dec,
    total: Dec,
    disposed_at: Timestamp,
    method: CostBasisMethod,
    selection: Map<usize, Vec<LotPick>>,
) -> Result<ReplayState, PortfolioError> {
    match consume_spec(s, orig_index, asset, wallet, quantity, method, selection) {
        Err(e) => Err(e),
        Ok((lots, consumed)) => match realize_from(
            consumed,
            0,
            quantity,
            total,
            asset,
            wallet,
            disposed_at,
            s.realized,
        ) {
            None => Err(PortfolioError::ArithmeticOverflow),
            Some(realized) => Ok(ReplayState { lots, realized, ..s }),
        },
    }
}

/// Open a new lot, registered under its acquisition's input index.
pub open spec fn acquire_spec(
    s: ReplayState,
    orig_index: usize,
    asset: String,
    wallet: String,
    quantity: Dec,
    cost_basis: Dec,
    acquired_at: Timestamp,
    gift: Option<GiftBasis>,
) -> ReplayState {
    let id = s.next_lot_id as u64;
    ReplayState {
        lots: s.lots.push(
            Lot { asset, wallet, quantity, cost_basis, acquired_at, lot_id: id, gift },
        ),
        next_lot_id: s.next_lot_id + 1,
        acq: s.acq.update(orig_index as int, Some(id)),
        ..s
    }
}

/// The moved slices re-homed in the destination wallet with their basis,
/// date (the move's date when pooled) and lot id.
pub open spec fn rehome(
    lots: Seq<Lot>,
    moved: Seq<Consumed>,
    asset: String,
    to_wallet: String,
    at: Timestamp,
) -> Seq<Lot>
    decreases moved.len(),
{
    if moved.len() == 0 {
        lots
    } else {
        let m = moved.last();
        rehome(lots, moved.drop_last(), asset, to_wallet, at).push(
            Lot {
                asset,
                wallet: to_wallet,
                quantity: m.quantity,
                cost_basis: m.cost_basis,
                acquired_at: match m.acquired_at {
                    Some(a) => a,
                    None => at,
                },
                lot_id: m.lot_id,
                gift: m.gift,
            },
        )
    }
}

/// Process one ledger event.
pub open spec fn process_spec(
    s: ReplayState,
    orig_index: usize,
    tx: Transaction,
    method: CostBasisMethod,
    selection: Map<usize, Vec<LotPick>>,
) -> Result<ReplayState, PortfolioError> {
    let overflow = PortfolioError::ArithmeticOverflow;
    match tx {
        Transaction::Buy { timestamp, wallet, asset, quantity, unit_price, fee } => match quantity.spec_mul(unit_price) {
            None => Err(overflow),
            Some(cost) => match cost.spec_add(fee) {
                None => Err(overflow),
                Some(basis) => Ok(
                    acquire_spec(s, orig_index, asset, wallet, quantity, basis, timestamp, None),
                ),
            },
        },
        Transaction::Income { timestamp, wallet, asset, quantity, value, source } => {
            let s1 = acquire_spec(s, orig_index, asset, wallet, quantity, value, timestamp, None);
            Ok(
                ReplayState {
                    income: s1.income.push(
                        IncomeEvent {
                            asset,
                            wallet,
                            received_at: timestamp,
                            quantity,
                            value,
                            source,
                        },
                    ),
                    ..s1
                },
            )
        },
        Transaction::GiftReceived {
            timestamp,
            wallet,
            asset,
            quantity,
            donor_basis,
            fmv_at_receipt,
            donor_acquired_at,
        } => if method == CostBasisMethod::Average {
            Ok(
                acquire_spec(
                    s,
                    orig_index,
                    asset,
                    wallet,
                    quantity,
                    donor_basis,
                    donor_acquired_at,
                    None,
                ),
            )
        } else {
            match fmv_at_receipt.spec_div(quantity) {
                None => Err(overflow),
                Some(per_unit) => Ok(
                    acquire_spec(
                        s,
                        orig_index,
                        asset,
                        wallet,
                        quantity,
                        donor_basis,
                        donor_acquired_at,
                        Some(GiftBasis { fmv_per_unit: per_unit }),
                    ),
                ),
            }
        },
        Transaction::Sell { timestamp, wallet, asset, quantity, unit_price, fee } => match quantity.spec_mul(unit_price) {
            None => Err(overflow),
            Some(gross) => match gross.spec_sub(fee) {
                None => Err(overflow),
                Some(proceeds) => dispose_spec(
                    s,
                    orig_index,
                    asset,
                    wallet,
                    quantity,
                    proceeds,
                    timestamp,
                    method,
                    selection,
                ),
            },
        },
        Transaction::Trade {
            timestamp,
            wallet,
            from_asset,
            from_quantity,
            to_asset,
            to_quantity,
            value,
            fee,
        } => match dispose_spec(
            s,
            orig_index,
            from_asset,
            wallet,
            from_quantity,
            value,
            timestamp,
            method,
            selection,
        ) {
            Err(e) => Err(e),
            Ok(s1) => match value.spec_add(fee) {
                None => Err(overflow),
                Some(basis) => Ok(
                    acquire_spec(
                        s1,
                        orig_index,
                        to_asset,
                        wallet,
                        to_quantity,
                        basis,
                        timestamp,
                        None,
                    ),
                ),
            },
        },
        Transaction::Spend { timestamp, wallet, asset, quantity, value, fee } => match value.spec_sub(fee) {
            None => Err(overflow),
            Some(proceeds) => dispose_spec(
                s,
                orig_index,
                asset,
                wallet,
                quantity,
                proceeds,
                timestamp,
                method,
                selection,
            ),
        },
        Transaction::Transfer {
            timestamp,
            asset,
            quantity,
            from_wallet,
            to_wallet,
            fee,
            fee_value,
        } => match available_spec(s.lots, asset, from_wallet) {
            None => Err(overflow),
            Some(available) => match quantity.spec_add(fee) {
                None => Err(overflow),
                Some(needed) => if available.lt(needed) {
                    Err(
                        PortfolioError::InsufficientTransfer {
                            asset,
                            wallet: from_wallet,
                            quantity,
                            fee,
                            available,
                        },
                    )
                } else {
                    let s1 = if fee.is_pos_spec() {
                        dispose_spec(
                            s,
                            orig_index,
                            asset,
                            from_wallet,
                            fee,
                            fee_value,
                            timestamp,
                            method,
                            selection,
                        )
                    } else {
                        Ok(s)
                    };
                    match s1 {
                        Err(e) => Err(e),
                        Ok(s1) => match take_spec(s1.lots, asset, from_wallet, quantity, method) {
                            Err(e) => Err(e),
                            Ok((lots, moved)) => Ok(
                                ReplayState {
                                    lots: rehome(lots, moved, asset, to_wallet, timestamp),
                                    ..s1
                                },
                            ),
                        },
                    }
                },
            },
        },
        Transaction::GiftSent { timestamp, wallet, asset, quantity } => match take_spec(
            s.lots,
            asset,
            wallet,
            quantity,
            method,
        ) {
            Err(e) => Err(e),
            Ok((lots, _)) => Ok(ReplayState { lots, ..s }),
        },
    }
}

/// Stable insertion of input index `x` into `s` by timestamp.
pub open spec fn insert_by_time(txs: Seq<Transaction>, s: Seq<usize>, x: usize) -> Seq<usize>
    decreases s.len(),
{
    if s.len() == 0 {
        seq![x]
    } else if txs[x as int].timestamp_spec().before(txs[s.last() as int].timestamp_spec()) {
        insert_by_time(txs, s.drop_last(), x).push(s.last())
    } else {
        s.push(x)
    }
}

/// The processing order of the first `n` events: by timestamp, ties in input
/// order.
pub open spec fn time_order(txs: Seq<Transaction>, n: nat) -> Seq<usize>
    decreases n,
{
    if n == 0 {
        Seq::empty()
    } else {
        insert_by_time(txs, time_order(txs, (n - 1) as nat), (n - 1) as usize)
    }
}

/// Replay the events at `order[k..]` from state `s`.
pub open spec fn replay_from(
    txs: Seq<Transaction>,
    order: Seq<usize>,
    k: int,
    s: ReplayState,
    method: CostBasisMethod,
    selection: Map<usize, Vec<LotPick>>,
) -> Result<ReplayState, PortfolioError>
    decreases order.len() - k,
{
    if k >= order.len() || k < 0 {
        Ok(s)
    } else {
        match process_spec(s, order[k], txs[order[k] as int], method, selection) {
            Err(e) => Err(e),
            Ok(s1) => replay_from(txs, order, k + 1, s1, method, selection),
        }
    }
}

/// The state before any event.
pub open spec fn initial_state(n: nat) -> ReplayState {
    ReplayState {
        lots: Seq::empty(),
        realized: Seq::empty(),
        income: Seq::empty(),
        next_lot_id: 0,
        acq: Seq::new(n, |i: int| None),
    }
}

/// The final state of a replay of the whole ledger.
pub open spec fn replay_spec(
    txs: Seq<Transaction>,
    method: CostBasisMethod,
    selection: Map<usize, Vec<LotPick>>,
) -> Result<ReplayState, PortfolioError> {
    replay_from(
        txs,
        time_order(txs, txs.len()),
        0,
        initial_state(txs.len()),
        method,
        selection,
    )
}

/// Index of the first lot of the same pool as `lots[k]`.
pub open spec fn pool_rank(lots: Seq<Lot>, k: int) -> int {
    choose_first(lots, lots[k].asset, lots[k].wallet, 0)
}

/// The first position at or after `m` of a lot of the `(asset, wallet)` pool.
pub open spec fn choose_first(lots: Seq<Lot>, asset: String, wallet: String, m: int) -> int
    decreases lots.len() - m,
{
    if m >= lots.len() || m < 0 {
        m
    } else if in_pool(lots[m], asset, wallet) {
        m
    } else {
        choose_first(lots, asset, wallet, m + 1)
    }
}

/// Lot `i` is listed before lot `j` among the holdings: by lot id, and
/// grouped by pool among equal ids.
pub open spec fn holding_before(lots: Seq<Lot>, i: int, j: int) -> bool {
    lots[i].lot_id < lots[j].lot_id || (lots[i].lot_id == lots[j].lot_id && pool_rank(lots, i)
        < pool_rank(lots, j))
}

/// Stable insertion of lot index `x` into `s` by `holding_before`.
pub open spec fn insert_holding(lots: Seq<Lot>, s: Seq<usize>, x: usize) -> Seq<usize>
    decreases s.len(),
{
    if s.len() == 0 {
        seq![x]
    } else if holding_before(lots, x as int, s.last() as int) {
        insert_holding(lots, s.drop_last(), x).push(s.last())
    } else {
        s.push(x)
    }
}

/// The holdings order of the first `n` lots.
pub open spec fn holding_order(lots: Seq<Lot>, n: nat) -> Seq<usize>
    decreases n,
{
    if n == 0 {
        Seq::empty()
    } else {
        insert_holding(lots, holding_order(lots, (n - 1) as nat), (n - 1) as usize)
    }
}

/// The open lots as reported: sorted by lot id (pools grouped among equal ids).
pub open spec fn holdings_spec(lots: Seq<Lot>) -> Seq<Lot> {
    lots_at(lots, holding_order(lots, lots.len()))
}

} // verus!

verus! {

// ---------------------------------------------------------------------------
// Pool helpers
// ---------------------------------------------------------------------------

/// Every position is a valid index of `lots`.
pub open spec fn positions_valid(pos: Seq<usize>, n: int) -> bool {
    forall|j: int| 0 <= j < pos.len() ==> #[trigger] pos[j] < n
}

fn copy_lots(lots: &Vec<Lot>) -> (r: Vec<Lot>)
    ensures
        r@ == lots@,
{
    let mut r: Vec<Lot> = Vec::new();
    let mut k: usize = 0;
    while k < lots.len()
        invariant
            k <= lots@.len(),
            r@ == lots@.take(k as int),
        decreases lots@.len() - k,
    {
        r.push(lots[k].duplicate());
        proof {
            assert(lots@.take(k + 1) =~= lots@.take(k as int).push(lots@[k as int]));
        }
        k = k + 1;
    }
    proof {
        assert(lots@.take(lots@.len() as int) =~= lots@);
    }
    r
}

fn pool_positions_exec(lots: &Vec<Lot>, asset: &String, wallet: &String) -> (r: Vec<usize>)
    ensures
        r@ == pool_positions(lots@, *asset, *wallet),
        positions_valid(r@, lots@.len() as int),
{
    let mut r: Vec<usize> = Vec::new();
    let mut k: usize = 0;
    while k < lots.len()
        invariant
            k <= lots@.len(),
            r@ == pool_positions(lots@.take(k as int), *asset, *wallet),
            positions_valid(r@, k as int),
        decreases lots@.len() - k,
    {
        proof {
            assert(lots@.take(k + 1).drop_last() =~= lots@.take(k as int));
            assert(lots@.take(k + 1).last() == lots@[k as int]);
        }
        if lots[k].asset == *asset && lots[k].wallet == *wallet {
            r.push(k);
        }
        k = k + 1;
    }
    proof {
        assert(lots@.take(lots@.len() as int) =~= lots@);
    }
    r
}

fn lots_at_exec(lots: &Vec<Lot>, pos: &Vec<usize>) -> (r: Vec<Lot>)
    requires
        positions_valid(pos@, lots@.len() as int),
    ensures
        r@ == lots_at(lots@, pos@),
{
    let mut r: Vec<Lot> = Vec::new();
    let mut k: usize = 0;
    while k < pos.len()
        invariant
            k <= pos@.len(),
            positions_valid(pos@, lots@.len() as int),
            r@ == lots_at(lots@, pos@.take(k as int)),
        decreases pos@.len() - k,
    {
        r.push(lots[pos[k]].duplicate());
        proof {
            assert(lots_at(lots@, pos@.take(k + 1)) =~= lots_at(lots@, pos@.take(k as int)).push(
                lots@[pos@[k as int] as int],
            ));
        }
        k = k + 1;
    }
    proof {
        assert(pos@.take(pos@.len() as int) =~= pos@);
    }
    r
}

fn sum_field_exec(lots: &Vec<Lot>, pos: &Vec<usize>, basis: bool) -> (r: Option<Dec>)
    requires
        positions_valid(pos@, lots@.len() as int),
    ensures
        r == sum_field(lots@, pos@, basis),
{
    let mut acc = Dec::zero();
    let mut k: usize = 0;
    while k < pos.len()
        invariant
            k <= pos@.len(),
            positions_valid(pos@, lots@.len() as int),
            sum_field(lots@, pos@.take(k as int), basis) == Some(acc),
        decreases pos@.len() - k,
    {
        proof {
            assert(pos@.take(k + 1).drop_last() =~= pos@.take(k as int));
        }
        let l = &lots[pos[k]];
        let v = if basis {
            l.cost_basis
        } else {
            l.quantity
        };
        match acc.checked_add(&v) {
            Some(a) => acc = a,
            None => {
                proof {
                    lemma_sum_field_none(lots@, pos@, basis, k + 1);
                }
                return None;
            },
        }
        k = k + 1;
    }
    proof {
        assert(pos@.take(pos@.len() as int) =~= pos@);
    }
    Some(acc)
}

proof fn lemma_sum_field_none(lots: Seq<Lot>, pos: Seq<usize>, basis: bool, k: int)
    requires
        0 <= k <= pos.len(),
        sum_field(lots, pos.take(k), basis) is None,
    ensures
        sum_field(lots, pos, basis) is None,
    decreases pos.len() - k,
{
    if k < pos.len() {
        assert(pos.take(k + 1).drop_last() =~= pos.take(k));
        lemma_sum_field_none(lots, pos, basis, k + 1);
    } else {
        assert(pos.take(k) =~= pos);
    }
}

fn retain_pool_exec(lots: &Vec<Lot>, asset: &String, wallet: &String) -> (r: Vec<Lot>)
    ensures
        r@ == retain_pool(lots@, *asset, *wallet),
{
    let mut r: Vec<Lot> = Vec::new();
    let mut k: usize = 0;
    while k < lots.len()
        invariant
            k <= lots@.len(),
            r@ == retain_pool(lots@.take(k as int), *asset, *wallet),
        decreases lots@.len() - k,
    {
        proof {
            assert(lots@.take(k + 1).drop_last() =~= lots@.take(k as int));
            assert(lots@.take(k + 1).last() == lots@[k as int]);
        }
        let l = &lots[k];
        if !(l.asset == *asset && l.wallet == *wallet) || l.quantity.is_positive() {
            r.push(l.duplicate());
        }
        k = k + 1;
    }
    proof {
        assert(lots@.take(lots@.len() as int) =~= lots@);
    }
    r
}

fn remove_pool_exec(lots: &Vec<Lot>, asset: &String, wallet: &String) -> (r: Vec<Lot>)
    ensures
        r@ == remove_pool(lots@, *asset, *wallet),
{
    let mut r: Vec<Lot> = Vec::new();
    let mut k: usize = 0;
    while k < lots.len()
        invariant
            k <= lots@.len(),
            r@ == remove_pool(lots@.take(k as int), *asset, *wallet),
        decreases lots@.len() - k,
    {
        proof {
            assert(lots@.take(k + 1).drop_last() =~= lots@.take(k as int));
            assert(lots@.take(k + 1).last() == lots@[k as int]);
        }
        let l = &lots[k];
        if !(l.asset == *asset && l.wallet == *wallet) {
            r.push(l.duplicate());
        }
        k = k + 1;
    }
    proof {
        assert(lots@.take(lots@.len() as int) =~= lots@);
    }
    r
}

/// The result of a consumption, against its model.
pub open spec fn consumption_matches(
    r: Result<(Vec<Lot>, Vec<Consumed>), PortfolioError>,
    s: Result<(Seq<Lot>, Seq<Consumed>), PortfolioError>,
) -> bool {
    match r {
        Ok((lots, out)) => s == Ok::<(Seq<Lot>, Seq<Consumed>), PortfolioError>((lots@, out@)),
        Err(e) => s == Err::<(Seq<Lot>, Seq<Consumed>), PortfolioError>(e),
    }
}

fn consume_ordered(
    lots: &Vec<Lot>,
    asset: &String,
    wallet: &String,
    quantity: Dec,
    method: CostBasisMethod,
) -> (r: Result<(Vec<Lot>, Vec<Consumed>), PortfolioError>)
    ensures
        consumption_matches(r, consume_ordered_spec(lots@, *asset, *wallet, quantity, method)),
{
    let pool = pool_positions_exec(lots, asset, wallet);
    let pool_lots = lots_at_exec(lots, &pool);
    let order = match order_for(method, pool_lots.as_slice()) {
        Some(o) => o,
        None => return Err(PortfolioError::ArithmeticOverflow),
    };
    let ghost start = ordered_from(lots@, pool@, order@, 0, quantity, Seq::empty());
    let mut cur = copy_lots(lots);
    let mut remaining = quantity;
    let mut out: Vec<Consumed> = Vec::new();
    let mut k: usize = 0;
    while k < order.len() && remaining.is_positive()
        invariant
            k <= order@.len(),
            cur@.len() == lots@.len(),
            positions_valid(pool@, lots@.len() as int),
            positions_valid(order@, pool@.len() as int),
            start == ordered_from(cur@, pool@, order@, k as int, remaining, out@),
            pool@ == pool_positions(lots@, *asset, *wallet),
            order_spec(method, lots_at(lots@, pool@)) == Some(order@),
            start == ordered_from(lots@, pool@, order@, 0, quantity, Seq::empty()),
        decreases order@.len() - k,
    {
        let p = pool[order[k]];
        let l = cur[p].duplicate();
        let take = remaining.min(l.quantity);
        if take.is_positive() {
            let unit = match l.cost_basis_per_unit() {
                Some(u) => u,
                None => return Err(PortfolioError::ArithmeticOverflow),
            };
            let basis = match unit.checked_mul(&take) {
                Some(b) => b,
                None => return Err(PortfolioError::ArithmeticOverflow),
            };
            let nq = match l.quantity.checked_sub(&take) {
                Some(v) => v,
                None => return Err(PortfolioError::ArithmeticOverflow),
            };
            let nb = match l.cost_basis.checked_sub(&basis) {
                Some(v) => v,
                None => return Err(PortfolioError::ArithmeticOverflow),
            };
            let nr = match remaining.checked_sub(&take) {
                Some(v) => v,
                None => return Err(PortfolioError::ArithmeticOverflow),
            };
            out.push(
                Consumed {
                    quantity: take,
                    cost_basis: basis,
                    acquired_at: Some(l.acquired_at),
                    gift: l.gift,
                    lot_id: l.lot_id,
                },
            );
            let mut nl = l;
            nl.quantity = nq;
            nl.cost_basis = nb;
            cur.set(p, nl);
            remaining = nr;
        }
        k = k + 1;
    }
    let kept = retain_pool_exec(&cur, asset, wallet);
    Ok((kept, out))
}

} // verus!

verus! {

/// An empty pool sums to zero.
proof fn lemma_sum_field_empty(lots: Seq<Lot>, pos: Seq<usize>, basis: bool)
    requires
        pos.len() == 0,
    ensures
        sum_field(lots, pos, basis) == Some(dec_zero()),
{
}

fn earliest_exec(lots: &Vec<Lot>, pos: &Vec<usize>) -> (r: Timestamp)
    requires
        pos@.len() > 0,
        positions_valid(pos@, lots@.len() as int),
    ensures
        r == earliest(lots@, pos@),
{
    let mut m = lots[pos[0]].acquired_at;
    let mut k: usize = 1;
    proof {
        assert(pos@.take(1) =~= seq![pos@[0]]);
    }
    while k < pos.len()
        invariant
            1 <= k <= pos@.len(),
            positions_valid(pos@, lots@.len() as int),
            m == earliest(lots@, pos@.take(k as int)),
        decreases pos@.len() - k,
    {
        proof {
            assert(pos@.take(k + 1).drop_last() =~= pos@.take(k as int));
        }
        let x = lots[pos[k]].acquired_at;
        if x.is_before(&m) {
            m = x;
        }
        k = k + 1;
    }
    proof {
        assert(pos@.take(pos@.len() as int) =~= pos@);
    }
    m
}

fn consume_average(lots: &Vec<Lot>, asset: &String, wallet: &String, quantity: Dec) -> (r: Result<
    (Vec<Lot>, Vec<Consumed>),
    PortfolioError,
>)
    ensures
        consumption_matches(r, consume_average_spec(lots@, *asset, *wallet, quantity)),
{
    let pool = pool_positions_exec(lots, asset, wallet);
    let total_qty = match sum_field_exec(lots, &pool, false) {
        Some(t) => t,
        None => return Err(PortfolioError::ArithmeticOverflow),
    };
    let total_basis = match sum_field_exec(lots, &pool, true) {
        Some(t) => t,
        None => return Err(PortfolioError::ArithmeticOverflow),
    };
    let avg = match total_basis.checked_div(&total_qty) {
        Some(a) => a,
        None => return Err(PortfolioError::ArithmeticOverflow),
    };
    proof {
        if pool@.len() == 0 {
            lemma_sum_field_empty(lots@, pool@, false);
            crate::decimal::lemma_dec_of(total_qty, (0i128, 0u32, false));
            assert(total_qty@.0 == 0);
        }
    }
    let basis = match avg.checked_mul(&quantity) {
        Some(b) => b,
        None => return Err(PortfolioError::ArithmeticOverflow),
    };
    let remaining_qty = match total_qty.checked_sub(&quantity) {
        Some(v) => v,
        None => return Err(PortfolioError::ArithmeticOverflow),
    };
    let lot_id = lots[pool[0]].lot_id;
    let acquired_at = earliest_exec(lots, &pool);
    let mut cleared = remove_pool_exec(lots, asset, wallet);
    let mut out: Vec<Consumed> = Vec::new();
    out.push(Consumed { quantity, cost_basis: basis, acquired_at: None, gift: None, lot_id });
    if remaining_qty.is_positive() {
        let rest = match total_basis.checked_sub(&basis) {
            Some(v) => v,
            None => return Err(PortfolioError::ArithmeticOverflow),
        };
        cleared.push(
            Lot {
                asset: asset.clone(),
                wallet: wallet.clone(),
                quantity: remaining_qty,
                cost_basis: rest,
                acquired_at,
                lot_id,
                gift: None,
            },
        );
    }
    proof {
        assert(out@ =~= seq![Consumed { quantity, cost_basis: basis, acquired_at: None, gift: None, lot_id }]);
    }
    Ok((cleared, out))
}

fn sum_picks_exec(picks: &Vec<LotPick>) -> (r: Option<Dec>)
    ensures
        r == sum_picks(picks@),
{
    let mut acc = Dec::zero();
    let mut k: usize = 0;
    while k < picks.len()
        invariant
            k <= picks@.len(),
            sum_picks(picks@.take(k as int)) == Some(acc),
        decreases picks@.len() - k,
    {
        proof {
            assert(picks@.take(k + 1).drop_last() =~= picks@.take(k as int));
        }
        match acc.checked_add(&picks[k].quantity) {
            Some(a) => acc = a,
            None => {
                proof {
                    lemma_sum_picks_none(picks@, k + 1);
                }
                return None;
            },
        }
        k = k + 1;
    }
    proof {
        assert(picks@.take(picks@.len() as int) =~= picks@);
    }
    Some(acc)
}

proof fn lemma_sum_picks_none(picks: Seq<LotPick>, k: int)
    requires
        0 <= k <= picks.len(),
        sum_picks(picks.take(k)) is None,
    ensures
        sum_picks(picks) is None,
    decreases picks.len() - k,
{
    if k < picks.len() {
        assert(picks.take(k + 1).drop_last() =~= picks.take(k));
        lemma_sum_picks_none(picks, k + 1);
    } else {
        assert(picks.take(k) =~= picks);
    }
}

fn find_lot(lots: &Vec<Lot>, asset: &String, wallet: &String, lot_id: u64, quantity: &Dec) -> (r: Option<usize>)
    ensures
        r matches Some(p) ==> find_lot_from(lots@, *asset, *wallet, lot_id, *quantity, 0) == Some(p as int) && p < lots@.len(),
        r is None ==> find_lot_from(lots@, *asset, *wallet, lot_id, *quantity, 0) is None,
{
    let mut k: usize = 0;
    while k < lots.len()
        invariant
            k <= lots@.len(),
            find_lot_from(lots@, *asset, *wallet, lot_id, *quantity, 0) == find_lot_from(
                lots@,
                *asset,
                *wallet,
                lot_id,
                *quantity,
                k as int,
            ),
        decreases lots@.len() - k,
    {
        let l = &lots[k];
        if l.asset == *asset && l.wallet == *wallet && l.lot_id == lot_id && quantity.is_le(&l.quantity) {
            return Some(k);
        }
        k = k + 1;
    }
    None
}

fn consume_specific(
    acq: &Vec<Option<u64>>,
    lots: &Vec<Lot>,
    orig_index: usize,
    asset: &String,
    wallet: &String,
    quantity: Dec,
    selection: &LotSelection,
) -> (r: Result<(Vec<Lot>, Vec<Consumed>), PortfolioError>)
    ensures
        consumption_matches(
            r,
            consume_specific_spec(acq@, lots@, orig_index, *asset, *wallet, quantity, selection@),
        ),
{
    proof {
        broadcast use vstd::std_specs::hash::group_hash_axioms;
    }
    let picks = match selection.get(&orig_index) {
        Some(p) => p,
        None => return Err(PortfolioError::MissingLotSelection { asset: asset.clone(), tx_index: orig_index }),
    };
    let total = match sum_picks_exec(picks) {
        Some(t) => t,
        None => return Err(PortfolioError::ArithmeticOverflow),
    };
    if total.order(&quantity) != 0 {
        return Err(PortfolioError::MissingLotSelection { asset: asset.clone(), tx_index: orig_index });
    }
    let ghost start = specific_from(acq@, lots@, *asset, *wallet, picks@, 0, Seq::empty());
    let mut cur = copy_lots(lots);
    let mut out: Vec<Consumed> = Vec::new();
    let mut k: usize = 0;
    while k < picks.len()
        invariant
            k <= picks@.len(),
            start == specific_from(acq@, cur@, *asset, *wallet, picks@, k as int, out@),
            start == specific_from(acq@, lots@, *asset, *wallet, picks@, 0, Seq::empty()),
            consume_specific_spec(acq@, lots@, orig_index, *asset, *wallet, quantity, selection@)
                == start,
        decreases picks@.len() - k,
    {
        let pick = picks[k];
        let target = if pick.acquisition_index < acq.len() {
            acq[pick.acquisition_index]
        } else {
            None
        };
        let target = match target {
            Some(t) => t,
            None => return Err(
                PortfolioError::InvalidLotSelection { acquisition_index: pick.acquisition_index },
            ),
        };
        let p = match find_lot(&cur, asset, wallet, target, &pick.quantity) {
            Some(p) => p,
            None => return Err(
                PortfolioError::InvalidLotSelection { acquisition_index: pick.acquisition_index },
            ),
        };
        let l = cur[p].duplicate();
        let unit = match l.cost_basis_per_unit() {
            Some(u) => u,
            None => return Err(PortfolioError::ArithmeticOverflow),
        };
        let basis = match unit.checked_mul(&pick.quantity) {
            Some(b) => b,
            None => return Err(PortfolioError::ArithmeticOverflow),
        };
        let nq = match l.quantity.checked_sub(&pick.quantity) {
            Some(v) => v,
            None => return Err(PortfolioError::ArithmeticOverflow),
        };
        let nb = match l.cost_basis.checked_sub(&basis) {
            Some(v) => v,
            None => return Err(PortfolioError::ArithmeticOverflow),
        };
        out.push(
            Consumed {
                quantity: pick.quantity,
                cost_basis: basis,
                acquired_at: Some(l.acquired_at),
                gift: l.gift,
                lot_id: target,
            },
        );
        let mut nl = l;
        nl.quantity = nq;
        nl.cost_basis = nb;
        cur.set(p, nl);
        cur = retain_pool_exec(&cur, asset, wallet);
        k = k + 1;
    }
    Ok((cur, out))
}

fn consume(
    acq: &Vec<Option<u64>>,
    lots: &Vec<Lot>,
    orig_index: usize,
    asset: &String,
    wallet: &String,
    quantity: Dec,
    method: CostBasisMethod,
    selection: &LotSelection,
) -> (r: Result<(Vec<Lot>, Vec<Consumed>), PortfolioError>)
    ensures
        consumption_matches(
            r,
            consume_spec(
                ReplayState {
                    lots: lots@,
                    realized: Seq::empty(),
                    income: Seq::empty(),
                    next_lot_id: 0,
                    acq: acq@,
                },
                orig_index,
                *asset,
                *wallet,
                quantity,
                method,
                selection@,
            ),
        ),
{
    let pool = pool_positions_exec(lots, asset, wallet);
    let available = match sum_field_exec(lots, &pool, false) {
        Some(a) => a,
        None => return Err(PortfolioError::ArithmeticOverflow),
    };
    if available.is_lt(&quantity) {
        return Err(
            PortfolioError::InsufficientLots {
                asset: asset.clone(),
                wallet: wallet.clone(),
                attempted: quantity,
                available,
            },
        );
    }
    match method {
        CostBasisMethod::Average => consume_average(lots, asset, wallet, quantity),
        CostBasisMethod::SpecificId => consume_specific(
            acq,
            lots,
            orig_index,
            asset,
            wallet,
            quantity,
            selection,
        ),
        _ => consume_ordered(lots, asset, wallet, quantity, method),
    }
}

fn take_lots(lots: &Vec<Lot>, asset: &String, wallet: &String, quantity: Dec, method: CostBasisMethod) -> (r:
    Result<(Vec<Lot>, Vec<Consumed>), PortfolioError>)
    ensures
        consumption_matches(r, take_spec(lots@, *asset, *wallet, quantity, method)),
{
    if method == CostBasisMethod::Average {
        consume_average(lots, asset, wallet, quantity)
    } else {
        consume_ordered(lots, asset, wallet, quantity, CostBasisMethod::Fifo)
    }
}

/// The (gain, reported basis) of a consumed slice for its proceeds, under
/// the dual-basis rule for gifted lots; `None` on overflow.
pub fn gain_for(c: &Consumed, proceeds: Dec) -> (r: Option<(Dec, Dec)>)
    ensures
        r == gain_for_spec(*c, proceeds),
{
    match c.gift {
        None => match proceeds.checked_sub(&c.cost_basis) {
            None => None,
            Some(g) => Some((g, c.cost_basis)),
        },
        Some(gift) => {
            let fmv = match gift.fmv_per_unit.checked_mul(&c.quantity) {
                Some(f) => f,
                None => return None,
            };
            let donor_basis = c.cost_basis;
            if donor_basis.is_lt(&proceeds) {
                match proceeds.checked_sub(&donor_basis) {
                    None => None,
                    Some(g) => Some((g, donor_basis)),
                }
            } else {
                let loss_basis = donor_basis.min(fmv);
                if proceeds.is_lt(&loss_basis) {
                    match proceeds.checked_sub(&loss_basis) {
                        None => None,
                        Some(g) => Some((g, loss_basis)),
                    }
                } else {
                    Some((Dec::zero(), proceeds))
                }
            }
        },
    }
}

} // verus!

verus! {

/// What one run of the engine produces.
#[derive(Debug)]
pub struct EngineOutput {
    /// Realized capital-gain rows, in processing order.
    pub realized: Vec<RealizedGain>,
    /// Income events, in processing order.
    pub income: Vec<IncomeEvent>,
    /// Remaining open lots, sorted by lot id.
    pub holdings: Vec<Lot>,
}

struct Engine {
    lots: Vec<Lot>,
    realized: Vec<RealizedGain>,
    income: Vec<IncomeEvent>,
    next_lot_id: u64,
    acq: Vec<Option<u64>>,
}

impl Engine {
    spec fn state(self) -> ReplayState {
        ReplayState {
            lots: self.lots@,
            realized: self.realized@,
            income: self.income@,
            next_lot_id: self.next_lot_id as nat,
            acq: self.acq@,
        }
    }
}

/// The outcome of an engine step, against its model.
spec fn step_matches(r: Result<Engine, PortfolioError>, s: Result<ReplayState, PortfolioError>) -> bool {
    match r {
        Ok(e) => s == Ok::<ReplayState, PortfolioError>(e.state()),
        Err(x) => s == Err::<ReplayState, PortfolioError>(x),
    }
}

fn realize(
    consumed: &Vec<Consumed>,
    quantity: Dec,
    total: Dec,
    asset: &String,
    wallet: &String,
    disposed_at: Timestamp,
    realized: Vec<RealizedGain>,
) -> (r: Option<Vec<RealizedGain>>)
    ensures
        r matches Some(v) ==> realize_from(
            consumed@,
            0,
            quantity,
            total,
            *asset,
            *wallet,
            disposed_at,
            realized@,
        ) == Some(v@),
        r is None ==> realize_from(
            consumed@,
            0,
            quantity,
            total,
            *asset,
            *wallet,
            disposed_at,
            realized@,
        ) is None,
{
    let ghost start = realize_from(consumed@, 0, quantity, total, *asset, *wallet, disposed_at, realized@);
    let mut acc = realized;
    let mut k: usize = 0;
    while k < consumed.len()
        invariant
            k <= consumed@.len(),
            start == realize_from(consumed@, k as int, quantity, total, *asset, *wallet, disposed_at, acc@),
            start == realize_from(consumed@, 0, quantity, total, *asset, *wallet, disposed_at, realized@),
        decreases consumed@.len() - k,
    {
        let c = consumed[k];
        let share = match c.quantity.checked_div(&quantity) {
            Some(s) => s,
            None => return None,
        };
        let proceeds = match total.checked_mul(&share) {
            Some(p) => p,
            None => return None,
        };
        let (gain, basis) = match gain_for(&c, proceeds) {
            Some(gb) => gb,
            None => return None,
        };
        let term = match c.acquired_at {
            Some(a) => Some(Term::classify(a, disposed_at)),
            None => None,
        };
        acc.push(
            RealizedGain {
                asset: asset.clone(),
                wallet: wallet.clone(),
                disposed_at,
                acquired_at: c.acquired_at,
                quantity: c.quantity,
                proceeds,
                cost_basis: basis,
                gain,
                term,
            },
        );
        k = k + 1;
    }
    Some(acc)
}

fn dispose(
    e: Engine,
    orig_index: usize,
    asset: &String,
    wallet: &String,
    quantity: Dec,
    total: Dec,
    disposed_at: Timestamp,
    method: CostBasisMethod,
    selection: &LotSelection,
) -> (r: Result<Engine, PortfolioError>)
    ensures
        step_matches(
            r,
            dispose_spec(e.state(), orig_index, *asset, *wallet, quantity, total, disposed_at, method, selection@),
        ),
        r matches Ok(e2) ==> e2.next_lot_id == e.next_lot_id && e2.acq@ == e.acq@,
{
    let (lots, consumed) = match consume(&e.acq, &e.lots, orig_index, asset, wallet, quantity, method, selection) {
        Ok(lc) => lc,
        Err(x) => return Err(x),
    };
    let realized = match realize(&consumed, quantity, total, asset, wallet, disposed_at, e.realized) {
        Some(v) => v,
        None => return Err(PortfolioError::ArithmeticOverflow),
    };
    Ok(Engine { lots, realized, income: e.income, next_lot_id: e.next_lot_id, acq: e.acq })
}

fn acquire(
    e: Engine,
    orig_index: usize,
    asset: &String,
    wallet: &String,
    quantity: Dec,
    cost_basis: Dec,
    acquired_at: Timestamp,
    gift: Option<GiftBasis>,
) -> (r: Engine)
    requires
        orig_index < e.acq@.len(),
        e.next_lot_id < u64::MAX,
    ensures
        r.state() == acquire_spec(e.state(), orig_index, *asset, *wallet, quantity, cost_basis, acquired_at, gift),
        r.next_lot_id == e.next_lot_id + 1,
        r.acq@.len() == e.acq@.len(),
{
    let mut e = e;
    let id = e.next_lot_id;
    e.lots.push(
        Lot {
            asset: asset.clone(),
            wallet: wallet.clone(),
            quantity,
            cost_basis,
            acquired_at,
            lot_id: id,
            gift,
        },
    );
    e.acq.set(orig_index, Some(id));
    e.next_lot_id = id + 1;
    e
}

fn rehome_exec(lots: Vec<Lot>, moved: &Vec<Consumed>, asset: &String, to_wallet: &String, at: Timestamp) -> (r: Vec<Lot>)
    ensures
        r@ == rehome(lots@, moved@, *asset, *to_wallet, at),
{
    let mut cur = lots;
    let ghost base = lots@;
    let mut k: usize = 0;
    proof {
        assert(moved@.take(0) =~= Seq::<Consumed>::empty());
    }
    while k < moved.len()
        invariant
            k <= moved@.len(),
            cur@ == rehome(base, moved@.take(k as int), *asset, *to_wallet, at),
        decreases moved@.len() - k,
    {
        proof {
            assert(moved@.take(k + 1).drop_last() =~= moved@.take(k as int));
        }
        let m = moved[k];
        let acquired_at = match m.acquired_at {
            Some(a) => a,
            None => at,
        };
        cur.push(
            Lot {
                asset: asset.clone(),
                wallet: to_wallet.clone(),
                quantity: m.quantity,
                cost_basis: m.cost_basis,
                acquired_at,
                lot_id: m.lot_id,
                gift: m.gift,
            },
        );
        k = k + 1;
    }
    proof {
        assert(moved@.take(moved@.len() as int) =~= moved@);
    }
    cur
}

fn process(
    e: Engine,
    orig_index: usize,
    tx: &Transaction,
    method: CostBasisMethod,
    selection: &LotSelection,
) -> (r: Result<Engine, PortfolioError>)
    requires
        orig_index < e.acq@.len(),
        e.next_lot_id < u64::MAX,
    ensures
        step_matches(r, process_spec(e.state(), orig_index, *tx, method, selection@)),
        r matches Ok(e2) ==> e2.next_lot_id <= e.next_lot_id + 1 && e2.acq@.len() == e.acq@.len(),
{
    match tx {
        Transaction::Buy { timestamp, wallet, asset, quantity, unit_price, fee } => {
            let cost = match quantity.checked_mul(unit_price) {
                Some(c) => c,
                None => return Err(PortfolioError::ArithmeticOverflow),
            };
            let basis = match cost.checked_add(fee) {
                Some(b) => b,
                None => return Err(PortfolioError::ArithmeticOverflow),
            };
            Ok(acquire(e, orig_index, asset, wallet, *quantity, basis, *timestamp, None))
        },
        Transaction::Income { timestamp, wallet, asset, quantity, value, source } => {
            let mut e1 = acquire(e, orig_index, asset, wallet, *quantity, *value, *timestamp, None);
            e1.income.push(
                IncomeEvent {
                    asset: asset.clone(),
                    wallet: wallet.clone(),
                    received_at: *timestamp,
                    quantity: *quantity,
                    value: *value,
                    source: *source,
                },
            );
            Ok(e1)
        },
        Transaction::GiftReceived {
            timestamp,
            wallet,
            asset,
            quantity,
            donor_basis,
            fmv_at_receipt,
            donor_acquired_at,
        } => {
            let gift = if method == CostBasisMethod::Average {
                None
            } else {
                match fmv_at_receipt.checked_div(quantity) {
                    Some(per_unit) => Some(GiftBasis { fmv_per_unit: per_unit }),
                    None => return Err(PortfolioError::ArithmeticOverflow),
                }
            };
            Ok(acquire(e, orig_index, asset, wallet, *quantity, *donor_basis, *donor_acquired_at, gift))
        },
        Transaction::Sell { timestamp, wallet, asset, quantity, unit_price, fee } => {
            let gross = match quantity.checked_mul(unit_price) {
                Some(g) => g,
                None => return Err(PortfolioError::ArithmeticOverflow),
            };
            let proceeds = match gross.checked_sub(fee) {
                Some(p) => p,
                None => return Err(PortfolioError::ArithmeticOverflow),
            };
            dispose(e, orig_index, asset, wallet, *quantity, proceeds, *timestamp, method, selection)
        },
        Transaction::Trade {
            timestamp,
            wallet,
            from_asset,
            from_quantity,
            to_asset,
            to_quantity,
            value,
            fee,
        } => {
            let e1 = match dispose(
                e,
                orig_index,
                from_asset,
                wallet,
                *from_quantity,
                *value,
                *timestamp,
                method,
                selection,
            ) {
                Ok(e1) => e1,
                Err(x) => return Err(x),
            };
            let basis = match value.checked_add(fee) {
                Some(b) => b,
                None => return Err(PortfolioError::ArithmeticOverflow),
            };
            Ok(acquire(e1, orig_index, to_asset, wallet, *to_quantity, basis, *timestamp, None))
        },
        Transaction::Spend { timestamp, wallet, asset, quantity, value, fee } => {
            let proceeds = match value.checked_sub(fee) {
                Some(p) => p,
                None => return Err(PortfolioError::ArithmeticOverflow),
            };
            dispose(e, orig_index, asset, wallet, *quantity, proceeds, *timestamp, method, selection)
        },
        Transaction::Transfer { timestamp, asset, quantity, from_wallet, to_wallet, fee, fee_value } => {
            let pool = pool_positions_exec(&e.lots, asset, from_wallet);
            let available = match sum_field_exec(&e.lots, &pool, false) {
                Some(a) => a,
                None => return Err(PortfolioError::ArithmeticOverflow),
            };
            let needed = match quantity.checked_add(fee) {
                Some(n) => n,
                None => return Err(PortfolioError::ArithmeticOverflow),
            };
            if available.is_lt(&needed) {
                return Err(
                    PortfolioError::InsufficientTransfer {
                        asset: asset.clone(),
                        wallet: from_wallet.clone(),
                        quantity: *quantity,
                        fee: *fee,
                        available,
                    },
                );
            }
            let e1 = if fee.is_positive() {
                match dispose(e, orig_index, asset, from_wallet, *fee, *fee_value, *timestamp, method, selection) {
                    Ok(e1) => e1,
                    Err(x) => return Err(x),
                }
            } else {
                e
            };
            let (lots, moved) = match take_lots(&e1.lots, asset, from_wallet, *quantity, method) {
                Ok(lm) => lm,
                Err(x) => return Err(x),
            };
            let lots = rehome_exec(lots, &moved, asset, to_wallet, *timestamp);
            Ok(Engine { lots, realized: e1.realized, income: e1.income, next_lot_id: e1.next_lot_id, acq: e1.acq })
        },
        Transaction::GiftSent { timestamp, wallet, asset, quantity } => {
            let (lots, _) = match take_lots(&e.lots, asset, wallet, *quantity, method) {
                Ok(lm) => lm,
                Err(x) => return Err(x),
            };
            Ok(Engine { lots, realized: e.realized, income: e.income, next_lot_id: e.next_lot_id, acq: e.acq })
        },
    }
}

} // verus!

verus! {

/// Inserting at the first position from which `x` is strictly earlier than
/// every element is what `insert_by_time` does.
proof fn lemma_insert_by_time_at(txs: Seq<Transaction>, s: Seq<usize>, x: usize, j: int)
    requires
        0 <= j <= s.len(),
        forall|m: int|
            j <= m < s.len() ==> txs[x as int].timestamp_spec().before(
                txs[#[trigger] s[m] as int].timestamp_spec(),
            ),
        j > 0 ==> !txs[x as int].timestamp_spec().before(txs[s[j - 1] as int].timestamp_spec()),
    ensures
        insert_by_time(txs, s, x) == s.insert(j, x),
    decreases s.len(),
{
    if s.len() == 0 {
        assert(s.insert(j, x) =~= seq![x]);
    } else if j == s.len() {
        assert(s.insert(j, x) =~= s.push(x));
    } else {
        lemma_insert_by_time_at(txs, s.drop_last(), x, j);
        assert(s.insert(j, x) =~= s.drop_last().insert(j, x).push(s.last()));
    }
}

/// The processing order: input indices stably sorted by timestamp.
fn time_order_exec(txs: &Vec<Transaction>) -> (r: Vec<usize>)
    ensures
        r@ == time_order(txs@, txs@.len()),
        r@.len() == txs@.len(),
        positions_valid(r@, txs@.len() as int),
{
    let n = txs.len();
    let mut res: Vec<usize> = Vec::new();
    let mut i: usize = 0;
    while i < n
        invariant
            i <= n,
            n == txs@.len(),
            res@ == time_order(txs@, i as nat),
            res@.len() == i,
            positions_valid(res@, i as int),
        decreases n - i,
    {
        let t = txs[i].timestamp();
        let mut j: usize = res.len();
        while j > 0 && t.is_before(&txs[res[j - 1]].timestamp())
            invariant
                j <= res@.len(),
                res@.len() == i,
                i < n,
                n == txs@.len(),
                t == txs@[i as int].timestamp_spec(),
                positions_valid(res@, i as int),
                forall|m: int|
                    j <= m < res@.len() ==> txs@[i as int].timestamp_spec().before(
                        txs@[#[trigger] res@[m] as int].timestamp_spec(),
                    ),
            decreases j,
        {
            j = j - 1;
        }
        proof {
            lemma_insert_by_time_at(txs@, res@, i, j as int);
        }
        let ghost prev = res@;
        res.insert(j, i);
        proof {
            assert forall|m: int| 0 <= m < res@.len() implies #[trigger] res@[m] < i + 1 by {
                if m < j {
                    assert(res@[m] == prev[m]);
                } else if m > j {
                    assert(res@[m] == prev[m - 1]);
                }
            }
        }
        i = i + 1;
    }
    res
}

/// Inserting at the first position from which `x` comes before every
/// element is what `insert_holding` does.
proof fn lemma_insert_holding_at(lots: Seq<Lot>, s: Seq<usize>, x: usize, j: int)
    requires
        0 <= j <= s.len(),
        forall|m: int| j <= m < s.len() ==> holding_before(lots, x as int, #[trigger] s[m] as int),
        j > 0 ==> !holding_before(lots, x as int, s[j - 1] as int),
    ensures
        insert_holding(lots, s, x) == s.insert(j, x),
    decreases s.len(),
{
    if s.len() == 0 {
        assert(s.insert(j, x) =~= seq![x]);
    } else if j == s.len() {
        assert(s.insert(j, x) =~= s.push(x));
    } else {
        lemma_insert_holding_at(lots, s.drop_last(), x, j);
        assert(s.insert(j, x) =~= s.drop_last().insert(j, x).push(s.last()));
    }
}

fn pool_rank_exec(lots: &Vec<Lot>, k: usize) -> (r: usize)
    requires
        k < lots@.len(),
    ensures
        r == pool_rank(lots@, k as int),
        r <= k,
{
    let mut m: usize = 0;
    while m < k && !(lots[m].asset == lots[k].asset && lots[m].wallet == lots[k].wallet)
        invariant
            m <= k,
            k < lots@.len(),
            pool_rank(lots@, k as int) == choose_first(lots@, lots@[k as int].asset, lots@[k as int].wallet, m as int),
        decreases k - m,
    {
        m = m + 1;
    }
    m
}

/// The open lots sorted by lot id (pools grouped among equal ids).
fn holdings_exec(lots: &Vec<Lot>) -> (r: Vec<Lot>)
    ensures
        r@ == holdings_spec(lots@),
{
    let n = lots.len();
    let mut ranks: Vec<usize> = Vec::new();
    let mut k: usize = 0;
    while k < n
        invariant
            k <= n,
            n == lots@.len(),
            ranks@.len() == k,
            forall|m: int| 0 <= m < k ==> #[trigger] ranks@[m] == pool_rank(lots@, m),
        decreases n - k,
    {
        ranks.push(pool_rank_exec(lots, k));
        k = k + 1;
    }
    let mut res: Vec<usize> = Vec::new();
    let mut i: usize = 0;
    while i < n
        invariant
            i <= n,
            n == lots@.len(),
            ranks@.len() == n,
            forall|m: int| 0 <= m < n ==> #[trigger] ranks@[m] == pool_rank(lots@, m),
            res@ == holding_order(lots@, i as nat),
            res@.len() == i,
            positions_valid(res@, i as int),
        decreases n - i,
    {
        let mut j: usize = res.len();
        while j > 0 && (lots[i].lot_id < lots[res[j - 1]].lot_id || (lots[i].lot_id
            == lots[res[j - 1]].lot_id && ranks[i] < ranks[res[j - 1]]))
            invariant
                j <= res@.len(),
                res@.len() == i,
                i < n,
                n == lots@.len(),
                ranks@.len() == n,
                forall|m: int| 0 <= m < n ==> #[trigger] ranks@[m] == pool_rank(lots@, m),
                positions_valid(res@, i as int),
                forall|m: int|
                    j <= m < res@.len() ==> holding_before(lots@, i as int, #[trigger] res@[m] as int),
            decreases j,
        {
            j = j - 1;
        }
        proof {
            lemma_insert_holding_at(lots@, res@, i, j as int);
        }
        let ghost prev = res@;
        res.insert(j, i);
        proof {
            assert forall|m: int| 0 <= m < res@.len() implies #[trigger] res@[m] < i + 1 by {
                if m < j {
                    assert(res@[m] == prev[m]);
                } else if m > j {
                    assert(res@[m] == prev[m - 1]);
                }
            }
        }
        i = i + 1;
    }
    lots_at_exec(lots, &res)
}

/// What [`run`] returns for a replay outcome.
pub open spec fn run_matches(
    r: Result<EngineOutput, PortfolioError>,
    s: Result<ReplayState, PortfolioError>,
) -> bool {
    match r {
        Ok(o) => s matches Ok(st) && o.realized@ == st.realized && o.income@ == st.income
            && o.holdings@ == holdings_spec(st.lots),
        Err(e) => s == Err::<ReplayState, PortfolioError>(e),
    }
}

/// Replay a ledger under a method. `txs` is in original input order; events
/// are processed in timestamp order (stable), and original indices are used
/// for Specific-ID lookups in `selection` (consulted only under `SpecificId`).
pub fn run(txs: &Vec<Transaction>, method: CostBasisMethod, selection: &LotSelection) -> (r: Result<
    EngineOutput,
    PortfolioError,
>)
    ensures
        run_matches(r, replay_spec(txs@, method, selection@)),
{
    let n = txs.len();
    let order = time_order_exec(txs);
    let mut acq: Vec<Option<u64>> = Vec::new();
    let mut k: usize = 0;
    while k < n
        invariant
            k <= n,
            n == txs@.len(),
            acq@ == Seq::new(k as nat, |i: int| None::<u64>),
        decreases n - k,
    {
        acq.push(None);
        proof {
            assert(acq@ =~= Seq::new((k + 1) as nat, |i: int| None::<u64>));
        }
        k = k + 1;
    }
    let mut e = Engine {
        lots: Vec::new(),
        realized: Vec::new(),
        income: Vec::new(),
        next_lot_id: 0,
        acq,
    };
    let ghost start = replay_spec(txs@, method, selection@);
    proof {
        assert(e.state() =~= initial_state(n as nat));
    }
    let mut i: usize = 0;
    while i < n
        invariant
            i <= n,
            n == txs@.len(),
            order@ == time_order(txs@, n as nat),
            order@.len() == n,
            positions_valid(order@, n as int),
            e.acq@.len() == n,
            e.next_lot_id <= i,
            start == replay_spec(txs@, method, selection@),
            start == replay_from(txs@, order@, i as int, e.state(), method, selection@),
        decreases n - i,
    {
        let oi = order[i];
        e = match process(e, oi, &txs[oi], method, selection) {
            Ok(e2) => e2,
            Err(x) => return Err(x),
        };
        i = i + 1;
    }
    let holdings = holdings_exec(&e.lots);
    Ok(EngineOutput { realized: e.realized, income: e.income, holdings })
}

} // verus!

verus! {

// ---------------------------------------------------------------------------
// Laws
// ---------------------------------------------------------------------------

/// The positions of a pool are valid indices of lots of that pool.
pub proof fn lemma_pool_positions(lots: Seq<Lot>, asset: String, wallet: String)
    requires
        lots.len() <= usize::MAX,
    ensures
        forall|j: int|
            0 <= j < pool_positions(lots, asset, wallet).len() ==> {
                let p = #[trigger] pool_positions(lots, asset, wallet)[j];
                p < lots.len() && in_pool(lots[p as int], asset, wallet)
            },
        pool_positions(lots, asset, wallet).len() <= lots.len(),
    decreases lots.len(),
{
    if lots.len() > 0 {
        let d = lots.drop_last();
        lemma_pool_positions(d, asset, wallet);
        let r = pool_positions(d, asset, wallet);
        let q = pool_positions(lots, asset, wallet);
        assert forall|j: int| 0 <= j < q.len() implies {
            let p = #[trigger] q[j];
            p < lots.len() && in_pool(lots[p as int], asset, wallet)
        } by {
            if j < r.len() {
                assert(q[j] == r[j]);
                assert(lots[r[j] as int] == d[r[j] as int]);
            } else {
                assert(in_pool(lots.last(), asset, wallet));
                assert(q[j] == lots.len() - 1);
            }
        }
    }
}

/// Dropping emptied pool lots leaves the other pools as they were.
proof fn lemma_remove_retain(lots: Seq<Lot>, asset: String, wallet: String)
    ensures
        remove_pool(retain_pool(lots, asset, wallet), asset, wallet) == remove_pool(lots, asset, wallet),
    decreases lots.len(),
{
    if lots.len() > 0 {
        lemma_remove_retain(lots.drop_last(), asset, wallet);
        let r = retain_pool(lots.drop_last(), asset, wallet);
        if !in_pool(lots.last(), asset, wallet) || lots.last().quantity.is_pos_spec() {
            assert(retain_pool(lots, asset, wallet).drop_last() =~= r);
        } else {
            assert(retain_pool(lots, asset, wallet) == r);
        }
    }
}

/// Removing a pool twice removes it once.
proof fn lemma_remove_idempotent(lots: Seq<Lot>, asset: String, wallet: String)
    ensures
        remove_pool(remove_pool(lots, asset, wallet), asset, wallet) == remove_pool(lots, asset, wallet),
    decreases lots.len(),
{
    if lots.len() > 0 {
        lemma_remove_idempotent(lots.drop_last(), asset, wallet);
        let r = remove_pool(lots.drop_last(), asset, wallet);
        if !in_pool(lots.last(), asset, wallet) {
            assert(remove_pool(lots, asset, wallet).drop_last() =~= r);
        }
    }
}

/// Replacing a pool lot by another lot of the same pool leaves the other
/// pools as they were.
proof fn lemma_remove_update(lots: Seq<Lot>, p: int, l: Lot, asset: String, wallet: String)
    requires
        0 <= p < lots.len(),
        in_pool(lots[p], asset, wallet),
        in_pool(l, asset, wallet),
    ensures
        remove_pool(lots.update(p, l), asset, wallet) == remove_pool(lots, asset, wallet),
    decreases lots.len(),
{
    let u = lots.update(p, l);
    if p == lots.len() - 1 {
        assert(u.drop_last() =~= lots.drop_last());
    } else {
        lemma_remove_update(lots.drop_last(), p, l, asset, wallet);
        assert(u.drop_last() =~= lots.drop_last().update(p, l));
        assert(u.last() == lots.last());
    }
}

/// Ordered consumption only rewrites lots of its pool.
proof fn lemma_ordered_from_pool(
    lots: Seq<Lot>,
    pool: Seq<usize>,
    order: Seq<usize>,
    k: int,
    remaining: Dec,
    out: Seq<Consumed>,
    asset: String,
    wallet: String,
)
    requires
        0 <= k,
        positions_valid(order, pool.len() as int),
        forall|j: int|
            0 <= j < pool.len() ==> (#[trigger] pool[j]) < lots.len() && in_pool(lots[pool[j] as int], asset, wallet),
        ordered_from(lots, pool, order, k, remaining, out) is Some,
    ensures
        remove_pool(ordered_from(lots, pool, order, k, remaining, out).unwrap().0, asset, wallet)
            == remove_pool(lots, asset, wallet),
    decreases order.len() - k,
{
    if k < order.len() && remaining.is_pos_spec() {
        let p = pool[order[k] as int] as int;
        let l = lots[p];
        let take = remaining.min_spec(l.quantity);
        assert(0 <= order[k] < pool.len());
        if !take.is_pos_spec() {
            lemma_ordered_from_pool(lots, pool, order, k + 1, remaining, out, asset, wallet);
        } else {
            let unit = l.unit_cost_spec().unwrap();
            let basis = unit.spec_mul(take).unwrap();
            let nq = l.quantity.spec_sub(take).unwrap();
            let nb = l.cost_basis.spec_sub(basis).unwrap();
            let nr = remaining.spec_sub(take).unwrap();
            let lots2 = lots.update(p, with_amounts(l, nq, nb));
            lemma_remove_update(lots, p, with_amounts(l, nq, nb), asset, wallet);
            assert forall|j: int| 0 <= j < pool.len() implies (#[trigger] pool[j]) < lots2.len() && in_pool(
                lots2[pool[j] as int],
                asset,
                wallet,
            ) by {
                if pool[j] as int == p {
                } else {
                    assert(lots2[pool[j] as int] == lots[pool[j] as int]);
                }
            }
            lemma_ordered_from_pool(lots2, pool, order, k + 1, nr, out.push(slice_of(l, take, basis)), asset, wallet);
        }
    }
}

/// Specific-ID consumption only rewrites lots of its pool.
proof fn lemma_specific_from_pool(
    acq: Seq<Option<u64>>,
    lots: Seq<Lot>,
    asset: String,
    wallet: String,
    picks: Seq<LotPick>,
    k: int,
    out: Seq<Consumed>,
)
    requires
        0 <= k,
        specific_from(acq, lots, asset, wallet, picks, k, out) is Ok,
    ensures
        remove_pool(specific_from(acq, lots, asset, wallet, picks, k, out).unwrap().0, asset, wallet)
            == remove_pool(lots, asset, wallet),
    decreases picks.len() - k,
{
    if k < picks.len() {
        let pick = picks[k];
        let target = acquired_lot(acq, pick.acquisition_index).unwrap();
        let p = find_lot_from(lots, asset, wallet, target, pick.quantity, 0).unwrap();
        lemma_find_lot_from(lots, asset, wallet, target, pick.quantity, 0);
        let l = lots[p];
        let unit = l.unit_cost_spec().unwrap();
        let basis = unit.spec_mul(pick.quantity).unwrap();
        let nq = l.quantity.spec_sub(pick.quantity).unwrap();
        let nb = l.cost_basis.spec_sub(basis).unwrap();
        let lots2 = lots.update(p, with_amounts(l, nq, nb));
        lemma_remove_update(lots, p, with_amounts(l, nq, nb), asset, wallet);
        lemma_remove_retain(lots2, asset, wallet);
        let next = Consumed {
            quantity: pick.quantity,
            cost_basis: basis,
            acquired_at: Some(l.acquired_at),
            gift: l.gift,
            lot_id: target,
        };
        lemma_specific_from_pool(acq, retain_pool(lots2, asset, wallet), asset, wallet, picks, k + 1, out.push(next));
    }
}

/// A found lot is a lot of the pool.
proof fn lemma_find_lot_from(lots: Seq<Lot>, asset: String, wallet: String, lot_id: u64, quantity: Dec, k: int)
    ensures
        find_lot_from(lots, asset, wallet, lot_id, quantity, k) matches Some(p) ==> 0 <= p < lots.len()
            && in_pool(lots[p], asset, wallet),
    decreases lots.len() - k,
{
    if 0 <= k < lots.len() {
        lemma_find_lot_from(lots, asset, wallet, lot_id, quantity, k + 1);
    }
}

/// Pushing a lot of the pool does not change the other pools.
proof fn lemma_remove_push(lots: Seq<Lot>, l: Lot, asset: String, wallet: String)
    requires
        in_pool(l, asset, wallet),
    ensures
        remove_pool(lots.push(l), asset, wallet) == remove_pool(lots, asset, wallet),
{
    assert(lots.push(l).drop_last() =~= lots);
}

/// Consumption from a pool, by any method, leaves every lot of the other
/// pools as it was.
pub proof fn lemma_consume_pool(
    s: ReplayState,
    orig_index: usize,
    asset: String,
    wallet: String,
    quantity: Dec,
    method: CostBasisMethod,
    selection: Map<usize, Vec<LotPick>>,
)
    requires
        s.lots.len() <= usize::MAX,
        consume_spec(s, orig_index, asset, wallet, quantity, method, selection) is Ok,
    ensures
        remove_pool(consume_spec(s, orig_index, asset, wallet, quantity, method, selection).unwrap().0, asset, wallet)
            == remove_pool(s.lots, asset, wallet),
{
    match method {
        CostBasisMethod::Average => lemma_average_pool(s.lots, asset, wallet, quantity),
        CostBasisMethod::SpecificId => {
            let picks = selection[orig_index]@;
            lemma_specific_from_pool(s.acq, s.lots, asset, wallet, picks, 0, Seq::empty());
        },
        _ => lemma_ordered_pool(s.lots, asset, wallet, quantity, method),
    }
}

proof fn lemma_average_pool(lots: Seq<Lot>, asset: String, wallet: String, quantity: Dec)
    requires
        consume_average_spec(lots, asset, wallet, quantity) is Ok,
    ensures
        remove_pool(consume_average_spec(lots, asset, wallet, quantity).unwrap().0, asset, wallet)
            == remove_pool(lots, asset, wallet),
{
    let cleared = remove_pool(lots, asset, wallet);
    lemma_remove_idempotent(lots, asset, wallet);
    let r = consume_average_spec(lots, asset, wallet, quantity).unwrap().0;
    if r != cleared {
        assert(r.drop_last() =~= cleared);
        assert(in_pool(r.last(), asset, wallet));
        lemma_remove_push(cleared, r.last(), asset, wallet);
        assert(r == cleared.push(r.last()));
    }
}

proof fn lemma_ordered_pool(lots: Seq<Lot>, asset: String, wallet: String, quantity: Dec, method: CostBasisMethod)
    requires
        lots.len() <= usize::MAX,
        consume_ordered_spec(lots, asset, wallet, quantity, method) is Ok,
    ensures
        remove_pool(consume_ordered_spec(lots, asset, wallet, quantity, method).unwrap().0, asset, wallet)
            == remove_pool(lots, asset, wallet),
{
    let pool = pool_positions(lots, asset, wallet);
    lemma_pool_positions(lots, asset, wallet);
    let pl = lots_at(lots, pool);
    let order = order_spec(method, pl).unwrap();
    crate::method::lemma_sort_prefix_sorted(method, pl, pl.len());
    let (l2, out) = ordered_from(lots, pool, order, 0, quantity, Seq::empty()).unwrap();
    lemma_ordered_from_pool(lots, pool, order, 0, quantity, Seq::empty(), asset, wallet);
    lemma_remove_retain(l2, asset, wallet);
}

/// A disposal draws only on the pool of the wallet it names: every lot of
/// every other `(asset, wallet)` pool is left exactly as it was.
pub proof fn law_disposal_draws_only_on_its_wallet(
    s: ReplayState,
    orig_index: usize,
    asset: String,
    wallet: String,
    quantity: Dec,
    total: Dec,
    disposed_at: Timestamp,
    method: CostBasisMethod,
    selection: Map<usize, Vec<LotPick>>,
)
    requires
        s.lots.len() <= usize::MAX,
        dispose_spec(s, orig_index, asset, wallet, quantity, total, disposed_at, method, selection) is Ok,
    ensures
        remove_pool(
            dispose_spec(s, orig_index, asset, wallet, quantity, total, disposed_at, method, selection).unwrap().lots,
            asset,
            wallet,
        ) == remove_pool(s.lots, asset, wallet),
{
    lemma_consume_pool(s, orig_index, asset, wallet, quantity, method, selection);
}

/// The events at `o` are in timestamp order, ties in input order.
pub open spec fn chronological(txs: Seq<Transaction>, o: Seq<usize>) -> bool {
    forall|i: int, j: int|
        #![trigger o[i], o[j]]
        0 <= i < j < o.len() ==> {
            let a = txs[o[i] as int].timestamp_spec().order_key();
            let b = txs[o[j] as int].timestamp_spec().order_key();
            a < b || (a == b && o[i] < o[j])
        }
}

proof fn lemma_insert_by_time_chronological(txs: Seq<Transaction>, s: Seq<usize>, x: usize)
    requires
        chronological(txs, s),
        forall|m: int| 0 <= m < s.len() ==> #[trigger] s[m] < x,
    ensures
        chronological(txs, insert_by_time(txs, s, x)),
        insert_by_time(txs, s, x).len() == s.len() + 1,
        forall|k: int|
            0 <= k < insert_by_time(txs, s, x).len() ==> (#[trigger] insert_by_time(txs, s, x)[k] == x
                || s.contains(insert_by_time(txs, s, x)[k])),
    decreases s.len(),
{
    if s.len() > 0 {
        let d = s.drop_last();
        let last = s.last();
        if txs[x as int].timestamp_spec().before(txs[last as int].timestamp_spec()) {
            assert forall|i: int, j: int| #![trigger d[i], d[j]] 0 <= i < j < d.len() implies {
                let a = txs[d[i] as int].timestamp_spec().order_key();
                let b = txs[d[j] as int].timestamp_spec().order_key();
                a < b || (a == b && d[i] < d[j])
            } by {
                assert(d[i] == s[i] && d[j] == s[j]);
            }
            assert forall|m: int| 0 <= m < d.len() implies #[trigger] d[m] < x by {
                assert(d[m] == s[m]);
            }
            lemma_insert_by_time_chronological(txs, d, x);
            let r1 = insert_by_time(txs, d, x);
            let r = r1.push(last);
            assert(insert_by_time(txs, s, x) == r);
            assert forall|i: int, j: int| #![trigger r[i], r[j]] 0 <= i < j < r.len() implies {
                let a = txs[r[i] as int].timestamp_spec().order_key();
                let b = txs[r[j] as int].timestamp_spec().order_key();
                a < b || (a == b && r[i] < r[j])
            } by {
                if j < r1.len() {
                    assert(r[i] == r1[i] && r[j] == r1[j]);
                } else {
                    assert(r[i] == r1[i]);
                    assert(r[j] == last);
                    if r1[i] != x {
                        assert(d.contains(r1[i]));
                        let m = choose|m: int| 0 <= m < d.len() && d[m] == r1[i];
                        assert(s[m] == r1[i]);
                        assert(s[s.len() - 1] == last);
                    }
                }
            }
            assert forall|k: int| 0 <= k < r.len() implies (#[trigger] r[k] == x || s.contains(r[k])) by {
                if k < r1.len() {
                    assert(r[k] == r1[k]);
                    if r1[k] != x {
                        let m = choose|m: int| 0 <= m < d.len() && d[m] == r1[k];
                        assert(s[m] == r1[k]);
                    }
                } else {
                    assert(s[s.len() - 1] == r[k]);
                }
            }
        } else {
            let r = s.push(x);
            assert(insert_by_time(txs, s, x) == r);
            assert forall|i: int, j: int| #![trigger r[i], r[j]] 0 <= i < j < r.len() implies {
                let a = txs[r[i] as int].timestamp_spec().order_key();
                let b = txs[r[j] as int].timestamp_spec().order_key();
                a < b || (a == b && r[i] < r[j])
            } by {
                assert(r[i] == s[i]);
                if j < s.len() {
                    assert(r[j] == s[j]);
                } else {
                    assert(r[j] == x);
                    if i < s.len() - 1 {
                        assert(s[s.len() - 1] == last);
                    }
                }
            }
            assert forall|k: int| 0 <= k < r.len() implies (#[trigger] r[k] == x || s.contains(r[k])) by {
                if k < s.len() {
                    assert(r[k] == s[k]);
                }
            }
        }
    }
}

/// Events are processed in timestamp order, ties in input order: the
/// processing order of the first `n` events lists each of them exactly once,
/// each event no later than the next, and equal timestamps by input index.
pub proof fn law_events_processed_chronologically(txs: Seq<Transaction>, n: nat)
    requires
        n <= txs.len(),
        txs.len() <= usize::MAX,
    ensures
        time_order(txs, n).len() == n,
        forall|k: int| 0 <= k < n ==> #[trigger] time_order(txs, n)[k] < n,
        chronological(txs, time_order(txs, n)),
        forall|i: int, j: int|
            0 <= i < j < n ==> #[trigger] time_order(txs, n)[i] != #[trigger] time_order(txs, n)[j],
    decreases n,
{
    let o = time_order(txs, n);
    if n > 0 {
        let prev = time_order(txs, (n - 1) as nat);
        law_events_processed_chronologically(txs, (n - 1) as nat);
        let x = (n - 1) as usize;
        lemma_insert_by_time_chronological(txs, prev, x);
        assert forall|k: int| 0 <= k < n implies #[trigger] o[k] < n by {
            if o[k] != x {
                let m = choose|m: int| 0 <= m < prev.len() && prev[m] == o[k];
                assert(prev[m] < n - 1);
            }
        }
    }
    assert forall|i: int, j: int| 0 <= i < j < n implies #[trigger] o[i] != #[trigger] o[j] by {
        let a = txs[o[i] as int].timestamp_spec().order_key();
        let b = txs[o[j] as int].timestamp_spec().order_key();
        assert(a < b || (a == b && o[i] < o[j]));
    }
}

/// Two lots of the same pool with the same date, id and gift data.
pub open spec fn same_identity(a: Lot, b: Lot) -> bool {
    &&& a.asset@ == b.asset@
    &&& a.wallet@ == b.wallet@
    &&& a.acquired_at == b.acquired_at
    &&& a.lot_id == b.lot_id
    &&& a.gift == b.gift
}

/// `l` has the identity of some lot of `lots`.
pub open spec fn kept_from(l: Lot, lots: Seq<Lot>) -> bool {
    exists|p: int| 0 <= p < lots.len() && #[trigger] same_identity(l, lots[p])
}

/// The slice carries the date, id and gift data of a lot of the
/// `(asset, wallet)` pool of `lots`.
pub open spec fn slice_from(c: Consumed, lots: Seq<Lot>, asset: String, wallet: String) -> bool {
    exists|p: int|
        0 <= p < lots.len() && #[trigger] in_pool(lots[p], asset, wallet) && c.acquired_at == Some(
            lots[p].acquired_at,
        ) && c.lot_id == lots[p].lot_id && c.gift == lots[p].gift
}

/// Every lot of `a` has the identity of some lot of `b`.
pub open spec fn all_kept(a: Seq<Lot>, b: Seq<Lot>) -> bool {
    forall|q: int| 0 <= q < a.len() ==> kept_from(#[trigger] a[q], b)
}

proof fn lemma_all_kept_trans(a: Seq<Lot>, b: Seq<Lot>, c: Seq<Lot>)
    requires
        all_kept(a, b),
        all_kept(b, c),
    ensures
        all_kept(a, c),
{
    assert forall|q: int| 0 <= q < a.len() implies kept_from(#[trigger] a[q], c) by {
        assert(kept_from(a[q], b));
        let p = choose|p: int| 0 <= p < b.len() && #[trigger] same_identity(a[q], b[p]);
        assert(kept_from(b[p], c));
        let r = choose|r: int| 0 <= r < c.len() && #[trigger] same_identity(b[p], c[r]);
        assert(same_identity(a[q], c[r]));
    }
}

proof fn lemma_all_kept_refl(a: Seq<Lot>)
    ensures
        all_kept(a, a),
{
    assert forall|q: int| 0 <= q < a.len() implies kept_from(#[trigger] a[q], a) by {
        assert(same_identity(a[q], a[q]));
    }
}

/// Dropping emptied lots keeps only lots that were there.
proof fn lemma_retain_kept(lots: Seq<Lot>, asset: String, wallet: String)
    ensures
        all_kept(retain_pool(lots, asset, wallet), lots),
    decreases lots.len(),
{
    let r = retain_pool(lots, asset, wallet);
    if lots.len() > 0 {
        let d = lots.drop_last();
        lemma_retain_kept(d, asset, wallet);
        let r1 = retain_pool(d, asset, wallet);
        assert forall|q: int| 0 <= q < r.len() implies kept_from(#[trigger] r[q], lots) by {
            if q < r1.len() {
                assert(r[q] == r1[q]);
                assert(kept_from(r1[q], d));
                let p = choose|p: int| 0 <= p < d.len() && #[trigger] same_identity(r1[q], d[p]);
                assert(d[p] == lots[p]);
                assert(same_identity(r[q], lots[p]));
            } else {
                assert(r[q] == lots.last());
                assert(same_identity(r[q], lots[lots.len() - 1]));
            }
        }
    }
}

/// Ordered consumption keeps the identity of every lot and takes each slice
/// from a lot of its pool.
proof fn lemma_ordered_from_identity(
    lots0: Seq<Lot>,
    lots: Seq<Lot>,
    pool: Seq<usize>,
    order: Seq<usize>,
    k: int,
    remaining: Dec,
    out: Seq<Consumed>,
    asset: String,
    wallet: String,
)
    requires
        0 <= k,
        positions_valid(order, pool.len() as int),
        forall|j: int|
            0 <= j < pool.len() ==> (#[trigger] pool[j]) < lots0.len() && in_pool(lots0[pool[j] as int], asset, wallet),
        lots.len() == lots0.len(),
        forall|p: int| #![trigger lots[p]] 0 <= p < lots.len() ==> same_identity(lots[p], lots0[p]),
        forall|j: int| 0 <= j < out.len() ==> slice_from(#[trigger] out[j], lots0, asset, wallet),
        ordered_from(lots, pool, order, k, remaining, out) is Some,
    ensures
        ({
            let (l2, out2) = ordered_from(lots, pool, order, k, remaining, out).unwrap();
            &&& l2.len() == lots0.len()
            &&& forall|p: int| #![trigger l2[p]] 0 <= p < l2.len() ==> same_identity(l2[p], lots0[p])
            &&& forall|j: int| 0 <= j < out2.len() ==> slice_from(#[trigger] out2[j], lots0, asset, wallet)
        }),
    decreases order.len() - k,
{
    if k < order.len() && remaining.is_pos_spec() {
        let p = pool[order[k] as int] as int;
        let l = lots[p];
        let take = remaining.min_spec(l.quantity);
        assert(0 <= order[k] < pool.len());
        if !take.is_pos_spec() {
            lemma_ordered_from_identity(lots0, lots, pool, order, k + 1, remaining, out, asset, wallet);
        } else {
            let unit = l.unit_cost_spec().unwrap();
            let basis = unit.spec_mul(take).unwrap();
            let nq = l.quantity.spec_sub(take).unwrap();
            let nb = l.cost_basis.spec_sub(basis).unwrap();
            let nr = remaining.spec_sub(take).unwrap();
            let lots2 = lots.update(p, with_amounts(l, nq, nb));
            let out2 = out.push(slice_of(l, take, basis));
            assert forall|q: int| #![trigger lots2[q]] 0 <= q < lots2.len() implies same_identity(lots2[q], lots0[q]) by {
                if q != p {
                    assert(lots2[q] == lots[q]);
                }
            }
            assert(in_pool(lots0[p], asset, wallet));
            assert forall|j: int| 0 <= j < out2.len() implies slice_from(#[trigger] out2[j], lots0, asset, wallet) by {
                if j < out.len() {
                    assert(out2[j] == out[j]);
                } else {
                    assert(out2[j] == slice_of(l, take, basis));
                    assert(in_pool(lots0[p], asset, wallet));
                }
            }
            lemma_ordered_from_identity(lots0, lots2, pool, order, k + 1, nr, out2, asset, wallet);
        }
    }
}

/// Consumption in a method's order keeps only lots that were there, and
/// takes each slice from a lot of the pool.
proof fn lemma_ordered_identity(lots: Seq<Lot>, asset: String, wallet: String, quantity: Dec, method: CostBasisMethod)
    requires
        lots.len() <= usize::MAX,
        consume_ordered_spec(lots, asset, wallet, quantity, method) is Ok,
    ensures
        all_kept(consume_ordered_spec(lots, asset, wallet, quantity, method).unwrap().0, lots),
        consume_ordered_spec(lots, asset, wallet, quantity, method).unwrap().0.len() <= lots.len(),
        forall|j: int|
            0 <= j < consume_ordered_spec(lots, asset, wallet, quantity, method).unwrap().1.len() ==> slice_from(
                #[trigger] consume_ordered_spec(lots, asset, wallet, quantity, method).unwrap().1[j],
                lots,
                asset,
                wallet,
            ),
{
    let pool = pool_positions(lots, asset, wallet);
    lemma_pool_positions(lots, asset, wallet);
    let pl = lots_at(lots, pool);
    let order = order_spec(method, pl).unwrap();
    crate::method::lemma_sort_prefix_sorted(method, pl, pl.len());
    let (l2, out) = ordered_from(lots, pool, order, 0, quantity, Seq::empty()).unwrap();
    lemma_ordered_from_identity(lots, lots, pool, order, 0, quantity, Seq::empty(), asset, wallet);
    lemma_retain_kept(l2, asset, wallet);
    lemma_retain_len(l2, asset, wallet);
    assert(all_kept(l2, lots)) by {
        assert forall|q: int| 0 <= q < l2.len() implies kept_from(#[trigger] l2[q], lots) by {
            assert(same_identity(l2[q], lots[q]));
        }
    }
    lemma_all_kept_trans(retain_pool(l2, asset, wallet), l2, lots);
}

/// Rewriting one lot's amounts keeps every identity.
proof fn lemma_update_kept(lots: Seq<Lot>, p: int, nq: Dec, nb: Dec)
    requires
        0 <= p < lots.len(),
    ensures
        all_kept(lots.update(p, with_amounts(lots[p], nq, nb)), lots),
{
    let u = lots.update(p, with_amounts(lots[p], nq, nb));
    assert forall|q: int| 0 <= q < u.len() implies kept_from(#[trigger] u[q], lots) by {
        assert(same_identity(u[q], lots[q]));
    }
}

/// Specific-ID consumption keeps only lots that were there and dates every
/// slice.
proof fn lemma_specific_from_identity(
    lots0: Seq<Lot>,
    acq: Seq<Option<u64>>,
    lots: Seq<Lot>,
    asset: String,
    wallet: String,
    picks: Seq<LotPick>,
    k: int,
    out: Seq<Consumed>,
)
    requires
        0 <= k,
        all_kept(lots, lots0),
        forall|j: int| 0 <= j < out.len() ==> (#[trigger] out[j]).acquired_at is Some,
        specific_from(acq, lots, asset, wallet, picks, k, out) is Ok,
    ensures
        all_kept(specific_from(acq, lots, asset, wallet, picks, k, out).unwrap().0, lots0),
        specific_from(acq, lots, asset, wallet, picks, k, out).unwrap().0.len() <= lots.len(),
        forall|j: int|
            0 <= j < specific_from(acq, lots, asset, wallet, picks, k, out).unwrap().1.len() ==> (
            #[trigger] specific_from(acq, lots, asset, wallet, picks, k, out).unwrap().1[j]).acquired_at is Some,
    decreases picks.len() - k,
{
    if k < picks.len() {
        let pick = picks[k];
        let target = acquired_lot(acq, pick.acquisition_index).unwrap();
        let p = find_lot_from(lots, asset, wallet, target, pick.quantity, 0).unwrap();
        lemma_find_lot_from(lots, asset, wallet, target, pick.quantity, 0);
        let l = lots[p];
        let unit = l.unit_cost_spec().unwrap();
        let basis = unit.spec_mul(pick.quantity).unwrap();
        let nq = l.quantity.spec_sub(pick.quantity).unwrap();
        let nb = l.cost_basis.spec_sub(basis).unwrap();
        let lots2 = lots.update(p, with_amounts(l, nq, nb));
        lemma_update_kept(lots, p, nq, nb);
        lemma_retain_kept(lots2, asset, wallet);
        lemma_retain_len(lots2, asset, wallet);
        let lots3 = retain_pool(lots2, asset, wallet);
        lemma_all_kept_trans(lots3, lots2, lots);
        lemma_all_kept_trans(lots3, lots, lots0);
        let next = Consumed {
            quantity: pick.quantity,
            cost_basis: basis,
            acquired_at: Some(l.acquired_at),
            gift: l.gift,
            lot_id: target,
        };
        let out2 = out.push(next);
        assert forall|j: int| 0 <= j < out2.len() implies (#[trigger] out2[j]).acquired_at is Some by {
            if j < out.len() {
                assert(out2[j] == out[j]);
            }
        }
        lemma_specific_from_identity(lots0, acq, lots3, asset, wallet, picks, k + 1, out2);
    }
}

/// Under every method but `Average`, a consumption keeps only lots that were
/// there and dates every slice.
proof fn lemma_consume_identity(
    s: ReplayState,
    orig_index: usize,
    asset: String,
    wallet: String,
    quantity: Dec,
    method: CostBasisMethod,
    selection: Map<usize, Vec<LotPick>>,
)
    requires
        s.lots.len() <= usize::MAX,
        method != CostBasisMethod::Average,
        consume_spec(s, orig_index, asset, wallet, quantity, method, selection) is Ok,
    ensures
        all_kept(consume_spec(s, orig_index, asset, wallet, quantity, method, selection).unwrap().0, s.lots),
        consume_spec(s, orig_index, asset, wallet, quantity, method, selection).unwrap().0.len() <= s.lots.len(),
        forall|j: int|
            0 <= j < consume_spec(s, orig_index, asset, wallet, quantity, method, selection).unwrap().1.len() ==> (
            #[trigger] consume_spec(s, orig_index, asset, wallet, quantity, method, selection).unwrap().1[j]).acquired_at is Some,
{
    let r = consume_spec(s, orig_index, asset, wallet, quantity, method, selection).unwrap();
    if method == CostBasisMethod::SpecificId {
        let picks = selection[orig_index]@;
        lemma_all_kept_refl(s.lots);
        lemma_specific_from_identity(s.lots, s.acq, s.lots, asset, wallet, picks, 0, Seq::empty());
    } else {
        lemma_ordered_identity(s.lots, asset, wallet, quantity, method);
        assert forall|j: int| 0 <= j < r.1.len() implies (#[trigger] r.1[j]).acquired_at is Some by {
            assert(slice_from(r.1[j], s.lots, asset, wallet));
        }
    }
}

/// Re-homing appends one lot per moved slice, in order, and keeps the lots
/// before it.
proof fn lemma_rehome(lots: Seq<Lot>, moved: Seq<Consumed>, asset: String, to_wallet: String, at: Timestamp)
    ensures
        rehome(lots, moved, asset, to_wallet, at).len() == lots.len() + moved.len(),
        forall|q: int| 0 <= q < lots.len() ==> #[trigger] rehome(lots, moved, asset, to_wallet, at)[q] == lots[q],
        forall|j: int|
            0 <= j < moved.len() ==> {
                let l = #[trigger] rehome(lots, moved, asset, to_wallet, at)[lots.len() + j];
                &&& l.asset == asset
                &&& l.wallet == to_wallet
                &&& l.quantity == moved[j].quantity
                &&& l.cost_basis == moved[j].cost_basis
                &&& l.acquired_at == match moved[j].acquired_at {
                    Some(a) => a,
                    None => at,
                }
                &&& l.lot_id == moved[j].lot_id
                &&& l.gift == moved[j].gift
            },
    decreases moved.len(),
{
    if moved.len() > 0 {
        lemma_rehome(lots, moved.drop_last(), asset, to_wallet, at);
        let r = rehome(lots, moved, asset, to_wallet, at);
        let r1 = rehome(lots, moved.drop_last(), asset, to_wallet, at);
        assert forall|j: int| 0 <= j < moved.len() implies {
            let l = #[trigger] r[lots.len() + j];
            &&& l.asset == asset
            &&& l.wallet == to_wallet
            &&& l.quantity == moved[j].quantity
            &&& l.cost_basis == moved[j].cost_basis
            &&& l.acquired_at == match moved[j].acquired_at {
                Some(a) => a,
                None => at,
            }
            &&& l.lot_id == moved[j].lot_id
            &&& l.gift == moved[j].gift
        } by {
            if j < moved.len() - 1 {
                assert(r[lots.len() + j] == r1[lots.len() + j]);
                assert(moved.drop_last()[j] == moved[j]);
            }
        }
        assert forall|q: int| 0 <= q < lots.len() implies #[trigger] r[q] == lots[q] by {
            assert(r[q] == r1[q]);
        }
    }
}

/// Dropping emptied lots never adds lots.
proof fn lemma_retain_len(lots: Seq<Lot>, asset: String, wallet: String)
    ensures
        retain_pool(lots, asset, wallet).len() <= lots.len(),
    decreases lots.len(),
{
    if lots.len() > 0 {
        lemma_retain_len(lots.drop_last(), asset, wallet);
    }
}

/// `l` carries the acquisition date, lot id and gift data of a lot of the
/// `(asset, wallet)` pool of `lots`.
pub open spec fn dated_from_pool(l: Lot, lots: Seq<Lot>, asset: String, wallet: String) -> bool {
    exists|p: int|
        0 <= p < lots.len() && #[trigger] in_pool(lots[p], asset, wallet) && l.acquired_at == lots[p].acquired_at
            && l.lot_id == lots[p].lot_id && l.gift == lots[p].gift
}

/// A transfer (under every method but `Average`) preserves basis identity
/// and the holding-period clock: after it, every lot either is a lot that was
/// there before (same pool, date, id and gift data), or is a lot of the
/// destination wallet that carries the acquisition date, id and gift data of
/// a lot of the source pool. Without a fee it realizes nothing; it never
/// records income.
pub proof fn law_transfer_keeps_acquisition_dates(
    s: ReplayState,
    orig_index: usize,
    timestamp: Timestamp,
    asset: String,
    quantity: Dec,
    from_wallet: String,
    to_wallet: String,
    fee: Dec,
    fee_value: Dec,
    method: CostBasisMethod,
    selection: Map<usize, Vec<LotPick>>,
)
    requires
        s.lots.len() <= usize::MAX,
        method != CostBasisMethod::Average,
        process_spec(
            s,
            orig_index,
            Transaction::Transfer { timestamp, asset, quantity, from_wallet, to_wallet, fee, fee_value },
            method,
            selection,
        ) is Ok,
    ensures
        ({
            let s2 = process_spec(
                s,
                orig_index,
                Transaction::Transfer { timestamp, asset, quantity, from_wallet, to_wallet, fee, fee_value },
                method,
                selection,
            ).unwrap();
            &&& forall|q: int|
                0 <= q < s2.lots.len() ==> kept_from(#[trigger] s2.lots[q], s.lots) || (in_pool(
                    s2.lots[q],
                    asset,
                    to_wallet,
                ) && dated_from_pool(s2.lots[q], s.lots, asset, from_wallet))
            &&& !fee.is_pos_spec() ==> s2.realized == s.realized
            &&& s2.income == s.income
        }),
{
    let tx = Transaction::Transfer { timestamp, asset, quantity, from_wallet, to_wallet, fee, fee_value };
    let s2 = process_spec(s, orig_index, tx, method, selection).unwrap();
    let s1 = if fee.is_pos_spec() {
        dispose_spec(s, orig_index, asset, from_wallet, fee, fee_value, timestamp, method, selection).unwrap()
    } else {
        s
    };
    if fee.is_pos_spec() {
        lemma_consume_identity(s, orig_index, asset, from_wallet, fee, method, selection);
    } else {
        lemma_all_kept_refl(s.lots);
    }
    assert(all_kept(s1.lots, s.lots));
    assert(s1.income == s.income);
    let (lots_t, moved) = take_spec(s1.lots, asset, from_wallet, quantity, method).unwrap();
    lemma_ordered_identity(s1.lots, asset, from_wallet, quantity, CostBasisMethod::Fifo);
    lemma_all_kept_trans(lots_t, s1.lots, s.lots);
    lemma_rehome(lots_t, moved, asset, to_wallet, timestamp);
    assert(s2.lots == rehome(lots_t, moved, asset, to_wallet, timestamp));
    assert forall|q: int| 0 <= q < s2.lots.len() implies kept_from(#[trigger] s2.lots[q], s.lots) || (in_pool(
        s2.lots[q],
        asset,
        to_wallet,
    ) && dated_from_pool(s2.lots[q], s.lots, asset, from_wallet)) by {
        if q < lots_t.len() {
            assert(s2.lots[q] == lots_t[q]);
            assert(kept_from(lots_t[q], s.lots));
        } else {
            let j = q - lots_t.len();
            assert(slice_from(moved[j], s1.lots, asset, from_wallet));
            let p1 = choose|p1: int|
                0 <= p1 < s1.lots.len() && #[trigger] in_pool(s1.lots[p1], asset, from_wallet)
                    && moved[j].acquired_at == Some(s1.lots[p1].acquired_at) && moved[j].lot_id == s1.lots[p1].lot_id
                    && moved[j].gift == s1.lots[p1].gift;
            assert(kept_from(s1.lots[p1], s.lots));
            let p = choose|p: int| 0 <= p < s.lots.len() && #[trigger] same_identity(s1.lots[p1], s.lots[p]);
            assert(in_pool(s.lots[p], asset, from_wallet));
            assert(s2.lots[lots_t.len() + j] == s2.lots[q]);
        }
    }
}

/// The row describes the slice `c` disposed of from the `(asset, wallet)`
/// pool at `disposed_at`: its units and acquisition date, and the term
/// classified from that date (none for a pooled slice).
pub open spec fn row_of_slice(
    row: RealizedGain,
    c: Consumed,
    asset: String,
    wallet: String,
    disposed_at: Timestamp,
) -> bool {
    &&& row.asset == asset
    &&& row.wallet == wallet
    &&& row.disposed_at == disposed_at
    &&& row.quantity == c.quantity
    &&& row.acquired_at == c.acquired_at
    &&& row.term == match c.acquired_at {
        Some(a) => Some(Term::classify_spec(a, disposed_at)),
        None => None,
    }
}

proof fn lemma_realize_rows(
    consumed: Seq<Consumed>,
    k: int,
    quantity: Dec,
    total: Dec,
    asset: String,
    wallet: String,
    disposed_at: Timestamp,
    acc: Seq<RealizedGain>,
)
    requires
        0 <= k <= consumed.len(),
        realize_from(consumed, k, quantity, total, asset, wallet, disposed_at, acc) is Some,
    ensures
        ({
            let r = realize_from(consumed, k, quantity, total, asset, wallet, disposed_at, acc).unwrap();
            &&& r.len() == acc.len() + consumed.len() - k
            &&& forall|i: int| 0 <= i < acc.len() ==> #[trigger] r[i] == acc[i]
            &&& forall|i: int|
                acc.len() <= i < r.len() ==> row_of_slice(
                    #[trigger] r[i],
                    consumed[k + i - acc.len()],
                    asset,
                    wallet,
                    disposed_at,
                )
        }),
    decreases consumed.len() - k,
{
    if k < consumed.len() {
        let c = consumed[k];
        let share = c.quantity.spec_div(quantity).unwrap();
        let proceeds = total.spec_mul(share).unwrap();
        let (gain, basis) = gain_for_spec(c, proceeds).unwrap();
        let acc2 = acc.push(gain_row(c, asset, wallet, disposed_at, proceeds, gain, basis));
        lemma_realize_rows(consumed, k + 1, quantity, total, asset, wallet, disposed_at, acc2);
        let r = realize_from(consumed, k, quantity, total, asset, wallet, disposed_at, acc).unwrap();
        assert forall|i: int| 0 <= i < acc.len() implies #[trigger] r[i] == acc[i] by {
            assert(r[i] == acc2[i]);
        }
        assert forall|i: int| acc.len() <= i < r.len() implies row_of_slice(
            #[trigger] r[i],
            consumed[k + i - acc.len()],
            asset,
            wallet,
            disposed_at,
        ) by {
            if i == acc.len() {
                assert(r[i] == acc2[i]);
            }
        }
    }
}

/// A disposal keeps the earlier rows and adds one row per consumed slice,
/// each for the disposal's asset, wallet and date. Under `Average` a row has
/// no acquisition date and no term; under every other method it has the
/// date of the lot it drew on and the term classified from that date to the
/// disposal.
pub proof fn law_disposal_rows_carry_their_term(
    s: ReplayState,
    orig_index: usize,
    asset: String,
    wallet: String,
    quantity: Dec,
    total: Dec,
    disposed_at: Timestamp,
    method: CostBasisMethod,
    selection: Map<usize, Vec<LotPick>>,
)
    requires
        s.lots.len() <= usize::MAX,
        dispose_spec(s, orig_index, asset, wallet, quantity, total, disposed_at, method, selection) is Ok,
    ensures
        ({
            let s2 = dispose_spec(s, orig_index, asset, wallet, quantity, total, disposed_at, method, selection).unwrap();
            &&& s.realized.len() <= s2.realized.len()
            &&& forall|i: int| 0 <= i < s.realized.len() ==> #[trigger] s2.realized[i] == s.realized[i]
            &&& forall|i: int|
                s.realized.len() <= i < s2.realized.len() ==> {
                    let row = #[trigger] s2.realized[i];
                    &&& row.asset == asset
                    &&& row.wallet == wallet
                    &&& row.disposed_at == disposed_at
                    &&& (method == CostBasisMethod::Average ==> row.acquired_at is None && row.term is None)
                    &&& (method != CostBasisMethod::Average ==> row.acquired_at is Some && row.term == Some(
                        Term::classify_spec(row.acquired_at.unwrap(), disposed_at),
                    ))
                }
        }),
{
    let (lots, consumed) = consume_spec(s, orig_index, asset, wallet, quantity, method, selection).unwrap();
    lemma_realize_rows(consumed, 0, quantity, total, asset, wallet, disposed_at, s.realized);
    if method != CostBasisMethod::Average {
        lemma_consume_identity(s, orig_index, asset, wallet, quantity, method, selection);
    }
    let s2 = dispose_spec(s, orig_index, asset, wallet, quantity, total, disposed_at, method, selection).unwrap();
    assert forall|i: int| s.realized.len() <= i < s2.realized.len() implies {
        let row = #[trigger] s2.realized[i];
        &&& row.asset == asset
        &&& row.wallet == wallet
        &&& row.disposed_at == disposed_at
        &&& (method == CostBasisMethod::Average ==> row.acquired_at is None && row.term is None)
        &&& (method != CostBasisMethod::Average ==> row.acquired_at is Some && row.term == Some(
            Term::classify_spec(row.acquired_at.unwrap(), disposed_at),
        ))
    } by {
        let j = i - s.realized.len();
        assert(row_of_slice(s2.realized[i], consumed[j], asset, wallet, disposed_at));
        if method != CostBasisMethod::Average {
            assert(consumed[j].acquired_at is Some);
        }
    }
}

/// A disposal of more units than the `(asset, wallet)` pool holds is
/// refused with `InsufficientLots`, naming the attempted and available
/// amounts, whatever other wallets hold.
pub proof fn law_oversized_disposal_refused(
    s: ReplayState,
    orig_index: usize,
    asset: String,
    wallet: String,
    quantity: Dec,
    total: Dec,
    disposed_at: Timestamp,
    method: CostBasisMethod,
    selection: Map<usize, Vec<LotPick>>,
    available: Dec,
)
    requires
        available_spec(s.lots, asset, wallet) == Some(available),
        available.lt(quantity),
    ensures
        dispose_spec(s, orig_index, asset, wallet, quantity, total, disposed_at, method, selection) == Err::<
            ReplayState,
            PortfolioError,
        >(PortfolioError::InsufficientLots { asset, wallet, attempted: quantity, available }),
{
}

/// Acquisitions, gifts sent and fee-free transfers realize nothing; only
/// disposals (sales, trades, spends, transfer fees) add realized rows.
pub proof fn law_non_taxable_events_realize_nothing(
    s: ReplayState,
    orig_index: usize,
    tx: Transaction,
    method: CostBasisMethod,
    selection: Map<usize, Vec<LotPick>>,
)
    requires
        process_spec(s, orig_index, tx, method, selection) is Ok,
        match tx {
            Transaction::Buy { .. } | Transaction::Income { .. } | Transaction::GiftReceived { .. }
            | Transaction::GiftSent { .. } => true,
            Transaction::Transfer { fee, .. } => !fee.is_pos_spec(),
            _ => false,
        },
    ensures
        process_spec(s, orig_index, tx, method, selection).unwrap().realized == s.realized,
{
}

/// An acquisition opens one lot at the end of the lots, in the event's
/// wallet, with the next lot id, dated at the event (a gift at the donor's
/// date), and registers that id under the event's input index. A purchase's
/// basis is `quantity * unit_price + fee`; income's basis is its value and
/// the income is recorded; a received gift keeps the donor's basis.
pub proof fn law_acquisition_opens_a_lot(
    s: ReplayState,
    orig_index: usize,
    tx: Transaction,
    method: CostBasisMethod,
    selection: Map<usize, Vec<LotPick>>,
)
    requires
        process_spec(s, orig_index, tx, method, selection) is Ok,
        tx is Buy || tx is Income || tx is GiftReceived,
    ensures
        ({
            let s2 = process_spec(s, orig_index, tx, method, selection).unwrap();
            let l = s2.lots.last();
            &&& s2.lots.len() == s.lots.len() + 1
            &&& s2.lots.drop_last() == s.lots
            &&& l.lot_id == s.next_lot_id as u64
            &&& s2.next_lot_id == s.next_lot_id + 1
            &&& s2.acq == s.acq.update(orig_index as int, Some(l.lot_id))
            &&& match tx {
                Transaction::Buy { timestamp, wallet, asset, quantity, unit_price, fee } => {
                    &&& l.asset == asset && l.wallet == wallet && l.quantity == quantity
                    &&& l.acquired_at == timestamp && l.gift is None
                    &&& quantity.spec_mul(unit_price).unwrap().spec_add(fee) == Some(l.cost_basis)
                    &&& s2.income == s.income
                },
                Transaction::Income { timestamp, wallet, asset, quantity, value, source } => {
                    &&& l.asset == asset && l.wallet == wallet && l.quantity == quantity
                    &&& l.acquired_at == timestamp && l.cost_basis == value && l.gift is None
                    &&& s2.income == s.income.push(
                        IncomeEvent { asset, wallet, received_at: timestamp, quantity, value, source },
                    )
                },
                Transaction::GiftReceived { wallet, asset, quantity, donor_basis, donor_acquired_at, .. } => {
                    &&& l.asset == asset && l.wallet == wallet && l.quantity == quantity
                    &&& l.acquired_at == donor_acquired_at && l.cost_basis == donor_basis
                    &&& s2.income == s.income
                },
                _ => true,
            }
        }),
{
    let s2 = process_spec(s, orig_index, tx, method, selection).unwrap();
    assert(s2.lots.drop_last() =~= s.lots);
}

/// A crypto-to-crypto trade is a disposal of the given asset at the trade's
/// value followed by an acquisition of the received asset, in the same
/// wallet and at the same date, with basis `value + fee`.
pub proof fn law_trade_is_disposal_then_acquisition(
    s: ReplayState,
    orig_index: usize,
    timestamp: Timestamp,
    wallet: String,
    from_asset: String,
    from_quantity: Dec,
    to_asset: String,
    to_quantity: Dec,
    value: Dec,
    fee: Dec,
    method: CostBasisMethod,
    selection: Map<usize, Vec<LotPick>>,
)
    requires
        process_spec(
            s,
            orig_index,
            Transaction::Trade { timestamp, wallet, from_asset, from_quantity, to_asset, to_quantity, value, fee },
            method,
            selection,
        ) is Ok,
    ensures
        ({
            let s2 = process_spec(
                s,
                orig_index,
                Transaction::Trade { timestamp, wallet, from_asset, from_quantity, to_asset, to_quantity, value, fee },
                method,
                selection,
            ).unwrap();
            let d = dispose_spec(s, orig_index, from_asset, wallet, from_quantity, value, timestamp, method, selection);
            let l = s2.lots.last();
            &&& d is Ok
            &&& s2.realized == d.unwrap().realized
            &&& s2.lots.drop_last() == d.unwrap().lots
            &&& l.asset == to_asset && l.wallet == wallet && l.quantity == to_quantity
            &&& l.acquired_at == timestamp && l.gift is None
            &&& value.spec_add(fee) == Some(l.cost_basis)
        }),
{
    let d = dispose_spec(s, orig_index, from_asset, wallet, from_quantity, value, timestamp, method, selection).unwrap();
    let s2 = process_spec(
        s,
        orig_index,
        Transaction::Trade { timestamp, wallet, from_asset, from_quantity, to_asset, to_quantity, value, fee },
        method,
        selection,
    ).unwrap();
    assert(s2.lots.drop_last() =~= d.lots);
}

/// The lot indices at `o` are in holdings order: by lot id, pools grouped
/// among equal ids, ties in index order.
pub open spec fn holdings_ordered(lots: Seq<Lot>, o: Seq<usize>) -> bool {
    forall|i: int, j: int|
        #![trigger o[i], o[j]]
        0 <= i < j < o.len() ==> holding_before(lots, o[i] as int, o[j] as int) || (!holding_before(
            lots,
            o[j] as int,
            o[i] as int,
        ) && o[i] < o[j])
}

proof fn lemma_insert_holding_ordered(lots: Seq<Lot>, s: Seq<usize>, x: usize)
    requires
        holdings_ordered(lots, s),
        forall|m: int| 0 <= m < s.len() ==> #[trigger] s[m] < x,
    ensures
        holdings_ordered(lots, insert_holding(lots, s, x)),
        insert_holding(lots, s, x).len() == s.len() + 1,
        forall|k: int|
            0 <= k < insert_holding(lots, s, x).len() ==> (#[trigger] insert_holding(lots, s, x)[k] == x
                || s.contains(insert_holding(lots, s, x)[k])),
    decreases s.len(),
{
    if s.len() > 0 {
        let d = s.drop_last();
        let last = s.last();
        if holding_before(lots, x as int, last as int) {
            assert forall|i: int, j: int| #![trigger d[i], d[j]] 0 <= i < j < d.len() implies holding_before(
                lots,
                d[i] as int,
                d[j] as int,
            ) || (!holding_before(lots, d[j] as int, d[i] as int) && d[i] < d[j]) by {
                assert(d[i] == s[i] && d[j] == s[j]);
            }
            assert forall|m: int| 0 <= m < d.len() implies #[trigger] d[m] < x by {
                assert(d[m] == s[m]);
            }
            lemma_insert_holding_ordered(lots, d, x);
            let r1 = insert_holding(lots, d, x);
            let r = r1.push(last);
            assert(insert_holding(lots, s, x) == r);
            assert forall|i: int, j: int| #![trigger r[i], r[j]] 0 <= i < j < r.len() implies holding_before(
                lots,
                r[i] as int,
                r[j] as int,
            ) || (!holding_before(lots, r[j] as int, r[i] as int) && r[i] < r[j]) by {
                if j < r1.len() {
                    assert(r[i] == r1[i] && r[j] == r1[j]);
                } else {
                    assert(r[i] == r1[i]);
                    assert(r[j] == last);
                    if r1[i] != x {
                        let m = choose|m: int| 0 <= m < d.len() && d[m] == r1[i];
                        assert(s[m] == r1[i]);
                        assert(s[s.len() - 1] == last);
                    }
                }
            }
            assert forall|k: int| 0 <= k < r.len() implies (#[trigger] r[k] == x || s.contains(r[k])) by {
                if k < r1.len() {
                    assert(r[k] == r1[k]);
                    if r1[k] != x {
                        let m = choose|m: int| 0 <= m < d.len() && d[m] == r1[k];
                        assert(s[m] == r1[k]);
                    }
                } else {
                    assert(s[s.len() - 1] == r[k]);
                }
            }
        } else {
            let r = s.push(x);
            assert(insert_holding(lots, s, x) == r);
            assert forall|i: int, j: int| #![trigger r[i], r[j]] 0 <= i < j < r.len() implies holding_before(
                lots,
                r[i] as int,
                r[j] as int,
            ) || (!holding_before(lots, r[j] as int, r[i] as int) && r[i] < r[j]) by {
                assert(r[i] == s[i]);
                if j < s.len() {
                    assert(r[j] == s[j]);
                } else {
                    assert(r[j] == x);
                    if i < s.len() - 1 {
                        assert(s[s.len() - 1] == last);
                    }
                }
            }
            assert forall|k: int| 0 <= k < r.len() implies (#[trigger] r[k] == x || s.contains(r[k])) by {
                if k < s.len() {
                    assert(r[k] == s[k]);
                }
            }
        }
    }
}

/// The holdings order lists each of the first `n` lots exactly once, by lot
/// id (pools grouped among equal ids).
proof fn lemma_holding_order(lots: Seq<Lot>, n: nat)
    requires
        n <= lots.len(),
        lots.len() <= usize::MAX,
    ensures
        holding_order(lots, n).len() == n,
        forall|k: int| 0 <= k < n ==> #[trigger] holding_order(lots, n)[k] < n,
        holdings_ordered(lots, holding_order(lots, n)),
    decreases n,
{
    let o = holding_order(lots, n);
    if n > 0 {
        let prev = holding_order(lots, (n - 1) as nat);
        lemma_holding_order(lots, (n - 1) as nat);
        let x = (n - 1) as usize;
        lemma_insert_holding_ordered(lots, prev, x);
        assert forall|k: int| 0 <= k < n implies #[trigger] o[k] < n by {
            if o[k] != x {
                let m = choose|m: int| 0 <= m < prev.len() && prev[m] == o[k];
                assert(prev[m] < n - 1);
            }
        }
    }
}

/// The open lots are reported in lot-id order, each open lot once: the
/// reported list has one entry per open lot, every entry is an open lot, no
/// open lot is listed twice, and lot ids never decrease along the list.
pub proof fn law_holdings_in_lot_id_order(lots: Seq<Lot>)
    requires
        lots.len() <= usize::MAX,
    ensures
        holdings_spec(lots).len() == lots.len(),
        forall|i: int|
            0 <= i < lots.len() ==> #[trigger] holdings_spec(lots)[i] == lots[holding_order(lots, lots.len())[i] as int]
                && holding_order(lots, lots.len())[i] < lots.len(),
        forall|i: int, j: int|
            0 <= i < j < lots.len() ==> #[trigger] holding_order(lots, lots.len())[i] != #[trigger] holding_order(
                lots,
                lots.len(),
            )[j],
        forall|i: int, j: int|
            0 <= i < j < lots.len() ==> (#[trigger] holdings_spec(lots)[i]).lot_id <= (
            #[trigger] holdings_spec(lots)[j]).lot_id,
{
    let o = holding_order(lots, lots.len());
    lemma_holding_order(lots, lots.len());
    assert forall|i: int, j: int| 0 <= i < j < lots.len() implies #[trigger] o[i] != #[trigger] o[j] by {
        assert(holding_before(lots, o[i] as int, o[j] as int) || (!holding_before(lots, o[j] as int, o[i] as int)
            && o[i] < o[j]));
    }
    assert forall|i: int, j: int| 0 <= i < j < lots.len() implies (#[trigger] holdings_spec(lots)[i]).lot_id <= (
    #[trigger] holdings_spec(lots)[j]).lot_id by {
        assert(holding_before(lots, o[i] as int, o[j] as int) || (!holding_before(lots, o[j] as int, o[i] as int)
            && o[i] < o[j]));
    }
}

/// Under Specific-ID, a disposal the pool can cover is refused with
/// `MissingLotSelection` when no selection is given for its input index, or
/// when the picked quantities do not add up to the disposed quantity.
pub proof fn law_specific_id_needs_a_covering_selection(
    s: ReplayState,
    orig_index: usize,
    asset: String,
    wallet: String,
    quantity: Dec,
    total: Dec,
    disposed_at: Timestamp,
    selection: Map<usize, Vec<LotPick>>,
    available: Dec,
)
    requires
        available_spec(s.lots, asset, wallet) == Some(available),
        !available.lt(quantity),
        !selection.contains_key(orig_index) || (sum_picks(selection[orig_index]@) matches Some(picked)
            && !picked.same(quantity)),
    ensures
        dispose_spec(s, orig_index, asset, wallet, quantity, total, disposed_at, CostBasisMethod::SpecificId, selection)
            == Err::<ReplayState, PortfolioError>(PortfolioError::MissingLotSelection { asset, tx_index: orig_index }),
{
}

/// Two replay states that agree on everything but the acquisition register.
pub open spec fn same_but_register(a: ReplayState, b: ReplayState) -> bool {
    &&& a.lots == b.lots
    &&& a.realized == b.realized
    &&& a.income == b.income
    &&& a.next_lot_id == b.next_lot_id
}

/// Two replay outcomes that agree: the same error, or states that agree on
/// everything but the acquisition register.
pub open spec fn same_outcome(a: Result<ReplayState, PortfolioError>, b: Result<ReplayState, PortfolioError>) -> bool {
    match (a, b) {
        (Err(x), Err(y)) => x == y,
        (Ok(x), Ok(y)) => same_but_register(x, y),
        _ => false,
    }
}

/// An event that removes units for a realized disposal: a sale, a trade, a
/// spend, or a transfer that pays a positive fee.
pub open spec fn disposes(tx: Transaction) -> bool {
    match tx {
        Transaction::Sell { .. } | Transaction::Trade { .. } | Transaction::Spend { .. } => true,
        Transaction::Transfer { fee, .. } => fee.is_pos_spec(),
        _ => false,
    }
}

/// Under an automatic method, or for an event that disposes of nothing, what
/// an event does depends neither on its input index nor on the acquisition
/// register.
proof fn lemma_process_ignores_index(
    s: ReplayState,
    s2: ReplayState,
    i: usize,
    i2: usize,
    tx: Transaction,
    method: CostBasisMethod,
    selection: Map<usize, Vec<LotPick>>,
)
    requires
        method != CostBasisMethod::SpecificId || !disposes(tx),
        same_but_register(s, s2),
    ensures
        same_outcome(process_spec(s, i, tx, method, selection), process_spec(s2, i2, tx, method, selection)),
{
    match tx {
        Transaction::Sell { timestamp, wallet, asset, quantity, unit_price, fee } => {
            if let Some(gross) = quantity.spec_mul(unit_price) {
                if let Some(proceeds) = gross.spec_sub(fee) {
                    lemma_dispose_ignores_index(s, s2, i, i2, asset, wallet, quantity, proceeds, timestamp, method, selection);
                }
            }
        },
        Transaction::Trade { timestamp, wallet, from_asset, from_quantity, value, .. } => {
            lemma_dispose_ignores_index(s, s2, i, i2, from_asset, wallet, from_quantity, value, timestamp, method, selection);
        },
        Transaction::Spend { timestamp, wallet, asset, quantity, value, fee } => {
            if let Some(proceeds) = value.spec_sub(fee) {
                lemma_dispose_ignores_index(s, s2, i, i2, asset, wallet, quantity, proceeds, timestamp, method, selection);
            }
        },
        Transaction::Transfer { timestamp, asset, from_wallet, fee, fee_value, .. } => {
            if fee.is_pos_spec() {
                lemma_dispose_ignores_index(s, s2, i, i2, asset, from_wallet, fee, fee_value, timestamp, method, selection);
            }
        },
        _ => {},
    }
}

/// Under an automatic method, a disposal depends neither on its input index
/// nor on the acquisition register.
proof fn lemma_dispose_ignores_index(
    s: ReplayState,
    s2: ReplayState,
    i: usize,
    i2: usize,
    asset: String,
    wallet: String,
    quantity: Dec,
    total: Dec,
    at: Timestamp,
    method: CostBasisMethod,
    selection: Map<usize, Vec<LotPick>>,
)
    requires
        method != CostBasisMethod::SpecificId,
        same_but_register(s, s2),
    ensures
        same_outcome(
            dispose_spec(s, i, asset, wallet, quantity, total, at, method, selection),
            dispose_spec(s2, i2, asset, wallet, quantity, total, at, method, selection),
        ),
{
    assert(consume_spec(s, i, asset, wallet, quantity, method, selection) == consume_spec(
        s2,
        i2,
        asset,
        wallet,
        quantity,
        method,
        selection,
    ));
}

/// Replaying the same events in the same order, under an automatic method or
/// when none of them disposes of units, gives the same outcome whatever their
/// input indices.
proof fn lemma_replay_same_events(
    txs: Seq<Transaction>,
    o: Seq<usize>,
    txs2: Seq<Transaction>,
    o2: Seq<usize>,
    k: int,
    s: ReplayState,
    s2: ReplayState,
    method: CostBasisMethod,
    selection: Map<usize, Vec<LotPick>>,
)
    requires
        method != CostBasisMethod::SpecificId || forall|p: int| 0 <= p < o.len() ==> !disposes(#[trigger] txs[o[p] as int]),
        0 <= k <= o.len(),
        o.len() == o2.len(),
        forall|p: int| 0 <= p < o.len() ==> #[trigger] txs[o[p] as int] == txs2[o2[p] as int],
        same_but_register(s, s2),
    ensures
        same_outcome(replay_from(txs, o, k, s, method, selection), replay_from(txs2, o2, k, s2, method, selection)),
    decreases o.len() - k,
{
    if k < o.len() {
        assert(txs[o[k] as int] == txs2[o2[k] as int]);
        lemma_process_ignores_index(s, s2, o[k], o2[k], txs[o[k] as int], method, selection);
        match (process_spec(s, o[k], txs[o[k] as int], method, selection), process_spec(s2, o2[k], txs2[o2[k] as int], method, selection)) {
            (Ok(a), Ok(b)) => lemma_replay_same_events(txs, o, txs2, o2, k + 1, a, b, method, selection),
            _ => {},
        }
    }
}

proof fn lemma_insert_by_time_keeps(txs: Seq<Transaction>, s: Seq<usize>, x: usize)
    ensures
        insert_by_time(txs, s, x).contains(x),
        forall|e: usize| s.contains(e) ==> #[trigger] insert_by_time(txs, s, x).contains(e),
    decreases s.len(),
{
    let r = insert_by_time(txs, s, x);
    if s.len() == 0 {
        assert(r[0] == x);
    } else if txs[x as int].timestamp_spec().before(txs[s.last() as int].timestamp_spec()) {
        let d = s.drop_last();
        lemma_insert_by_time_keeps(txs, d, x);
        let r1 = insert_by_time(txs, d, x);
        assert(r == r1.push(s.last()));
        let j = choose|j: int| 0 <= j < r1.len() && r1[j] == x;
        assert(r[j] == x);
        assert forall|e: usize| s.contains(e) implies #[trigger] r.contains(e) by {
            let m = choose|m: int| 0 <= m < s.len() && s[m] == e;
            if m == s.len() - 1 {
                assert(r[r.len() - 1] == e);
            } else {
                assert(d[m] == e);
                assert(d.contains(e));
                assert(r1.contains(e));
                let q = choose|q: int| 0 <= q < r1.len() && r1[q] == e;
                assert(r[q] == e);
            }
        }
    } else {
        assert(r == s.push(x));
        assert(r[r.len() - 1] == x);
        assert forall|e: usize| s.contains(e) implies #[trigger] r.contains(e) by {
            let m = choose|m: int| 0 <= m < s.len() && s[m] == e;
            assert(r[m] == e);
        }
    }
}

/// The processing order lists every one of the first `n` events.
proof fn lemma_time_order_complete(txs: Seq<Transaction>, n: nat)
    requires
        n <= txs.len(),
        txs.len() <= usize::MAX,
    ensures
        forall|x: usize| x < n ==> #[trigger] time_order(txs, n).contains(x),
    decreases n,
{
    if n > 0 {
        lemma_time_order_complete(txs, (n - 1) as nat);
        lemma_insert_by_time_keeps(txs, time_order(txs, (n - 1) as nat), (n - 1) as usize);
    }
}

/// Two chronological lists of the same events are equal.
proof fn lemma_chronological_unique(txs: Seq<Transaction>, a: Seq<usize>, b: Seq<usize>)
    requires
        chronological(txs, a),
        chronological(txs, b),
        forall|x: usize| a.contains(x) <==> b.contains(x),
    ensures
        a == b,
    decreases a.len() + b.len(),
{
    if a.len() == 0 {
        if b.len() > 0 {
            assert(b.contains(b[0]));
        }
        assert(a =~= b);
    } else if b.len() == 0 {
        assert(a.contains(a[0]));
    } else {
        assert(a.contains(a[0]));
        let j = choose|j: int| 0 <= j < b.len() && b[j] == a[0];
        assert(b.contains(b[0]));
        let i = choose|i: int| 0 <= i < a.len() && a[i] == b[0];
        if j > 0 {
            assert(i > 0) by {
                if i == 0 {
                    assert(b[0] == b[j]);
                }
            }
            let k0 = txs[a[0] as int].timestamp_spec().order_key();
            let ki = txs[a[i] as int].timestamp_spec().order_key();
            assert(k0 < ki || (k0 == ki && a[0] < a[i]));
            assert(ki < k0 || (ki == k0 && b[0] < b[j]));
        }
        assert(a[0] == b[0]);
        let ad = a.drop_first();
        let bd = b.drop_first();
        assert forall|x: usize| ad.contains(x) <==> bd.contains(x) by {
            if ad.contains(x) {
                let p = choose|p: int| 0 <= p < ad.len() && ad[p] == x;
                assert(a[p + 1] == x);
                let k1 = txs[a[0] as int].timestamp_spec().order_key();
                let k2 = txs[a[p + 1] as int].timestamp_spec().order_key();
                assert(k1 < k2 || (k1 == k2 && a[0] < a[p + 1]));
                assert(b.contains(x));
                let q = choose|q: int| 0 <= q < b.len() && b[q] == x;
                assert(q != 0);
                assert(bd[q - 1] == x);
            }
            if bd.contains(x) {
                let p = choose|p: int| 0 <= p < bd.len() && bd[p] == x;
                assert(b[p + 1] == x);
                let k1 = txs[b[0] as int].timestamp_spec().order_key();
                let k2 = txs[b[p + 1] as int].timestamp_spec().order_key();
                assert(k1 < k2 || (k1 == k2 && b[0] < b[p + 1]));
                assert(a.contains(x));
                let q = choose|q: int| 0 <= q < a.len() && a[q] == x;
                assert(q != 0);
                assert(ad[q - 1] == x);
            }
        }
        assert forall|x: int, y: int| #![trigger ad[x], ad[y]] 0 <= x < y < ad.len() implies {
            let kx = txs[ad[x] as int].timestamp_spec().order_key();
            let ky = txs[ad[y] as int].timestamp_spec().order_key();
            kx < ky || (kx == ky && ad[x] < ad[y])
        } by {
            assert(ad[x] == a[x + 1] && ad[y] == a[y + 1]);
        }
        assert forall|x: int, y: int| #![trigger bd[x], bd[y]] 0 <= x < y < bd.len() implies {
            let kx = txs[bd[x] as int].timestamp_spec().order_key();
            let ky = txs[bd[y] as int].timestamp_spec().order_key();
            kx < ky || (kx == ky && bd[x] < bd[y])
        } by {
            assert(bd[x] == b[x + 1] && bd[y] == b[y + 1]);
        }
        lemma_chronological_unique(txs, ad, bd);
        assert(a =~= seq![a[0]] + ad);
        assert(b =~= seq![b[0]] + bd);
    }
}

/// Reordering the input of a ledger changes nothing as long as events with
/// equal timestamps keep their relative order: under an automatic method, or
/// under Specific-ID when no event disposes of units (no sale, trade, spend
/// or transfer with a fee), the replay fails with the same error, or gives
/// the same lots, realized rows and income events. `perm` (with inverse `inv`) maps each position of
/// `txs2` to the position of the same event in `txs`.
pub proof fn law_replay_ignores_reordering_of_distinct_times(
    txs: Seq<Transaction>,
    txs2: Seq<Transaction>,
    perm: Seq<usize>,
    inv: Seq<usize>,
    method: CostBasisMethod,
    selection: Map<usize, Vec<LotPick>>,
)
    requires
        method != CostBasisMethod::SpecificId || forall|k: int| 0 <= k < txs.len() ==> !disposes(#[trigger] txs[k]),
        txs.len() <= usize::MAX,
        txs2.len() == txs.len(),
        perm.len() == txs.len(),
        inv.len() == txs.len(),
        forall|k: int| 0 <= k < txs.len() ==> #[trigger] perm[k] < txs.len(),
        forall|k: int| 0 <= k < txs.len() ==> #[trigger] inv[k] < txs.len(),
        forall|k: int| 0 <= k < txs.len() ==> #[trigger] perm[inv[k] as int] == k,
        forall|k: int| 0 <= k < txs.len() ==> #[trigger] txs2[k] == txs[perm[k] as int],
        forall|k1: int, k2: int|
            0 <= k1 < k2 < txs.len() && (#[trigger] txs2[k1]).timestamp_spec().order_key() == (
            #[trigger] txs2[k2]).timestamp_spec().order_key() ==> perm[k1] < perm[k2],
    ensures
        same_outcome(replay_spec(txs, method, selection), replay_spec(txs2, method, selection)),
{
    let n = txs.len();
    let o = time_order(txs, n);
    let o2 = time_order(txs2, n);
    law_events_processed_chronologically(txs, n);
    law_events_processed_chronologically(txs2, n);
    lemma_time_order_complete(txs, n);
    lemma_time_order_complete(txs2, n);
    let c = Seq::new(n, |p: int| perm[o2[p] as int]);
    assert forall|p: int| 0 <= p < n implies #[trigger] txs[c[p] as int] == txs2[o2[p] as int] by {
        assert(o2[p] < n);
    }
    assert forall|x: int, y: int| #![trigger c[x], c[y]] 0 <= x < y < c.len() implies {
        let kx = txs[c[x] as int].timestamp_spec().order_key();
        let ky = txs[c[y] as int].timestamp_spec().order_key();
        kx < ky || (kx == ky && c[x] < c[y])
    } by {
        assert(o2[x] < n && o2[y] < n);
        assert(txs[c[x] as int] == txs2[o2[x] as int]);
        assert(txs[c[y] as int] == txs2[o2[y] as int]);
        let kx = txs2[o2[x] as int].timestamp_spec().order_key();
        let ky = txs2[o2[y] as int].timestamp_spec().order_key();
        assert(kx < ky || (kx == ky && o2[x] < o2[y]));
        if kx == ky {
            assert(perm[o2[x] as int] < perm[o2[y] as int]);
        }
    }
    assert forall|x: usize| o.contains(x) <==> c.contains(x) by {
        if o.contains(x) {
            let p = choose|p: int| 0 <= p < o.len() && o[p] == x;
            assert(o[p] < n);
            let k2 = inv[x as int];
            assert(inv[x as int] < n);
            assert(o2.contains(k2));
            let q = choose|q: int| 0 <= q < o2.len() && o2[q] == k2;
            assert(c[q] == x);
        }
        if c.contains(x) {
            let p = choose|p: int| 0 <= p < c.len() && c[p] == x;
            assert(o2[p] < n);
            assert(x < n);
        }
    }
    lemma_chronological_unique(txs, o, c);
    assert forall|p: int| 0 <= p < o.len() implies #[trigger] txs[o[p] as int] == txs2[o2[p] as int] by {
        assert(txs[c[p] as int] == txs2[o2[p] as int]);
    }
    if method == CostBasisMethod::SpecificId {
        assert forall|p: int| 0 <= p < o.len() implies !disposes(#[trigger] txs[o[p] as int]) by {
            assert(o[p] < n);
        }
    }
    lemma_replay_same_events(txs, o, txs2, o2, 0, initial_state(n), initial_state(n), method, selection);
}

} // verus!
