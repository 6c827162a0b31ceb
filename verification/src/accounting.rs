//! The accounting rules on whole-number amounts: what a sale realizes, how a
//! gifted lot's dual basis applies, what Specific-ID and Average-cost
//! disposals take from the lots, and how long-term brackets tax a gain.
//!
//! Every amount in these laws is a whole number (scale 0) within a decimal
//! mantissa, where the decimal operations are exact, so each law states the
//! result as integer arithmetic on the inputs.

use vstd::prelude::*;
use crate::decimal::{
    dec_of, dec_zero, lemma_dec_of, lemma_whole_add, lemma_whole_div, lemma_whole_mul, lemma_whole_order, lemma_whole_sub, Dec,
    MAX_MANTISSA,
};
use crate::conservation::{lot_sum, lot_whole};
use crate::engine::{
    acquired_lot, consume_average_spec, remove_pool, consume_ordered_spec, consume_spec, consume_specific_spec, find_lot_from, in_pool, retain_pool,
    specific_from, sum_picks, dispose_spec, gain_for_spec, gain_row, lemma_pool_positions, lots_at, ordered_from,
    pool_positions, process_spec, realize_from, slice_of, sum_field, with_amounts, Consumed, ReplayState,
};
use crate::method::{is_permutation, lemma_sort_prefix_sorted, order_spec, sort_prefix, CostBasisMethod, LotPick};
use crate::time::Timestamp;
use crate::transaction::Transaction;
use crate::lot::Lot;
use crate::tax::{estimate_spec, progressive_from, progressive_spec, TaxBracket, TaxConfig};
use crate::report::CapitalGainsReport;

verus! {

/// The smaller of two integers.
pub open spec fn min_int(a: int, b: int) -> int {
    if a <= b {
        a
    } else {
        b
    }
}

/// A whole, non-negative amount within a mantissa.
pub open spec fn whole_amount(d: Dec) -> bool {
    d@.1 == 0 && 0 <= d@.0 <= MAX_MANTISSA
}

/// The basis a slice reports when sold for `proceeds`, by the dual-basis
/// rule: the donor's basis for a gain; the lesser of the donor's basis and
/// the market value at receipt of the same units (`fmv_per_unit * quantity`)
/// for a loss below it; the proceeds themselves in between. A slice that was
/// not a gift reports its own basis.
pub open spec fn reported_basis(basis: int, fmv: Option<int>, proceeds: int) -> int {
    match fmv {
        None => basis,
        Some(f) => if proceeds > basis {
            basis
        } else if proceeds < min_int(basis, f) {
            min_int(basis, f)
        } else {
            proceeds
        },
    }
}

/// The dual-basis rule for gifted lots. For a slice of whole units with a
/// whole donor basis, a whole market value per unit at receipt and whole
/// proceeds: the gain is the proceeds minus the reported basis, which is the
/// donor's basis when the proceeds exceed it, the lesser of the donor's basis
/// and the market value at receipt of the slice's units when the proceeds
/// fall below both, and the proceeds (no gain, no loss) in between. A slice
/// that was not a gift gains the proceeds minus its basis.
pub proof fn law_gift_dual_basis(c: Consumed, proceeds: Dec)
    requires
        whole_amount(c.quantity),
        whole_amount(c.cost_basis),
        whole_amount(proceeds),
        c.gift matches Some(g) ==> g.fmv_per_unit@.1 == 0 && 0 <= g.fmv_per_unit@.0 && g.fmv_per_unit@.0
            * c.quantity@.0 <= MAX_MANTISSA,
    ensures
        gain_for_spec(c, proceeds) is Some,
        ({
            let (gain, basis) = gain_for_spec(c, proceeds).unwrap();
            let fmv = match c.gift {
                Some(g) => Some(g.fmv_per_unit@.0 * c.quantity@.0),
                None => None,
            };
            &&& gain@.1 == 0
            &&& basis@.1 == 0
            &&& basis@.0 == reported_basis(c.cost_basis@.0 as int, fmv, proceeds@.0 as int)
            &&& gain@.0 == proceeds@.0 - basis@.0
        }),
{
    lemma_whole_sub(proceeds, c.cost_basis);
    lemma_whole_order(c.cost_basis, proceeds);
    match c.gift {
        None => {},
        Some(g) => {
            let q = c.quantity@.0 as int;
            let f = g.fmv_per_unit@.0 as int;
            assert(f * q >= 0) by (nonlinear_arith)
                requires
                    f >= 0,
                    q >= 0,
            ;
            lemma_whole_mul(g.fmv_per_unit, c.quantity);
            let fmv = g.fmv_per_unit.spec_mul(c.quantity).unwrap();
            lemma_whole_order(c.cost_basis, fmv);
            let lb = c.cost_basis.min_spec(fmv);
            lemma_whole_order(proceeds, lb);
            lemma_whole_sub(proceeds, lb);
            lemma_dec_of(dec_zero(), (0i128, 0u32, false));
        },
    }
}

/// A sale of `quantity` units at `unit_price` with `fee`.
pub open spec fn sale(
    timestamp: Timestamp,
    wallet: String,
    asset: String,
    quantity: Dec,
    unit_price: Dec,
    fee: Dec,
) -> Transaction {
    Transaction::Sell { timestamp, wallet, asset, quantity, unit_price, fee }
}

/// Taking `t` units at the unit cost `b / q` of a lot of `q` units and `b`
/// basis (with `q` dividing `b`) takes a whole basis between zero and `b`.
proof fn lemma_unit_take(q: int, b: int, t: int)
    requires
        0 < t <= q,
        0 <= b,
        b % q == 0,
    ensures
        0 <= (b / q) * t <= b,
{
    let u = b / q;
    vstd::arithmetic::div_mod::lemma_fundamental_div_mod(b, q);
    assert(0 <= u * t <= b) by (nonlinear_arith)
        requires
            b == q * u + 0,
            0 < t <= q,
            b >= 0,
    ;
}

/// A sale drawn from a pool of one lot realizes the price less the fee. For
/// a sale of whole units at a whole price and fee (the fee at most the gross
/// price) from an `(asset, wallet)` pool that holds a single whole lot with
/// enough units, under FIFO, LIFO or HIFO: the sale succeeds and adds one
/// realized row, for the units sold, whose proceeds are
/// `quantity * unit_price - fee`, whose cost basis is the units sold at the
/// lot's unit cost, and whose gain is the proceeds minus that basis.
pub proof fn law_single_lot_sale(
    s: ReplayState,
    i: usize,
    timestamp: Timestamp,
    wallet: String,
    asset: String,
    quantity: Dec,
    unit_price: Dec,
    fee: Dec,
    method: CostBasisMethod,
    selection: Map<usize, Vec<LotPick>>,
)
    requires
        method == CostBasisMethod::Fifo || method == CostBasisMethod::Lifo || method == CostBasisMethod::Hifo,
        s.lots.len() <= usize::MAX,
        whole_amount(quantity),
        quantity@.0 > 0,
        whole_amount(unit_price),
        whole_amount(fee),
        quantity@.0 * unit_price@.0 <= MAX_MANTISSA,
        fee@.0 <= quantity@.0 * unit_price@.0,
        pool_positions(s.lots, asset, wallet).len() == 1,
        lot_whole(s.lots[pool_positions(s.lots, asset, wallet)[0] as int]),
        quantity@.0 <= s.lots[pool_positions(s.lots, asset, wallet)[0] as int].quantity@.0,
    ensures
        process_spec(s, i, sale(timestamp, wallet, asset, quantity, unit_price, fee), method, selection) is Ok,
        ({
            let s1 = process_spec(s, i, sale(timestamp, wallet, asset, quantity, unit_price, fee), method, selection).unwrap();
            let l = s.lots[pool_positions(s.lots, asset, wallet)[0] as int];
            let r = s1.realized.last();
            &&& s1.realized.len() == s.realized.len() + 1
            &&& s1.realized.drop_last() == s.realized
            &&& r.quantity == quantity
            &&& r.proceeds@.1 == 0
            &&& r.proceeds@.0 == quantity@.0 * unit_price@.0 - fee@.0
            &&& r.cost_basis@.1 == 0
            &&& r.cost_basis@.0 == l.cost_basis@.0 / l.quantity@.0 * quantity@.0
            &&& r.gain@.1 == 0
            &&& r.gain@.0 == r.proceeds@.0 - r.cost_basis@.0
        }),
{
    let lots = s.lots;
    let q = quantity@.0 as int;
    let pr = unit_price@.0 as int;
    assert(q * pr >= 0) by (nonlinear_arith)
        requires
            q > 0,
            pr >= 0,
    ;
    lemma_whole_mul(quantity, unit_price);
    let gross = quantity.spec_mul(unit_price).unwrap();
    lemma_whole_sub(gross, fee);
    let total = gross.spec_sub(fee).unwrap();
    let pool = pool_positions(lots, asset, wallet);
    lemma_pool_positions(lots, asset, wallet);
    let p = pool[0] as int;
    let l = lots[p];
    // the pool holds the lot's units
    lemma_dec_of(dec_zero(), (0i128, 0u32, false));
    assert(pool.drop_last() =~= Seq::<usize>::empty());
    assert(sum_field(lots, pool.drop_last(), false) == Some(dec_zero()));
    lemma_whole_add(dec_zero(), l.quantity);
    let available = sum_field(lots, pool, false).unwrap();
    lemma_whole_order(available, quantity);
    // the order is the single lot
    let la = lots_at(lots, pool);
    assert(sort_prefix(method, la, 0) == Seq::<usize>::empty());
    assert(sort_prefix(method, la, 1) =~= seq![0usize]);
    let order = order_spec(method, la).unwrap();
    assert(order =~= seq![0usize]);
    // the lot gives the units at its unit cost
    let lq = l.quantity@.0 as int;
    let lb = l.cost_basis@.0 as int;
    lemma_whole_order(quantity, l.quantity);
    let take = quantity.min_spec(l.quantity);
    assert(take == quantity);
    lemma_whole_div(l.cost_basis, l.quantity);
    let unit = l.unit_cost_spec().unwrap();
    lemma_unit_take(lq, lb, q);
    lemma_whole_mul(unit, take);
    let basis = unit.spec_mul(take).unwrap();
    lemma_whole_sub(l.quantity, take);
    lemma_whole_sub(l.cost_basis, basis);
    lemma_whole_sub(quantity, take);
    let nq = l.quantity.spec_sub(take).unwrap();
    let nb = l.cost_basis.spec_sub(basis).unwrap();
    let nr = quantity.spec_sub(take).unwrap();
    let lots2 = lots.update(p, with_amounts(l, nq, nb));
    let c = slice_of(l, take, basis);
    assert(ordered_from(lots2, pool, order, 1, nr, seq![c]) == Some((lots2, seq![c])));
    assert(Seq::<Consumed>::empty().push(c) == seq![c]);
    assert(ordered_from(lots, pool, order, 0, quantity, Seq::empty()) == Some((lots2, seq![c])));
    assert(consume_ordered_spec(lots, asset, wallet, quantity, method) is Ok);
    assert(consume_spec(s, i, asset, wallet, quantity, method, selection) is Ok);
    // the single slice takes the whole proceeds
    vstd::arithmetic::div_mod::lemma_mod_self_0(q);
    vstd::arithmetic::div_mod::lemma_div_by_self(q);
    lemma_whole_div(quantity, quantity);
    let share = c.quantity.spec_div(quantity).unwrap();
    assert(total@.0 * 1 == total@.0);
    lemma_whole_mul(total, share);
    let proceeds = total.spec_mul(share).unwrap();
    lemma_whole_sub(proceeds, basis);
    assert(c.gift is None);
    let gain = proceeds.spec_sub(basis).unwrap();
    assert(gain_for_spec(c, proceeds) == Some((gain, basis)));
    let row = gain_row(c, asset, wallet, timestamp, proceeds, gain, basis);
    let rows = s.realized.push(row);
    assert(realize_from(seq![c], 1, quantity, total, asset, wallet, timestamp, rows) == Some(rows));
    assert(realize_from(seq![c], 0, quantity, total, asset, wallet, timestamp, s.realized) == Some(rows));
    assert(rows.drop_last() =~= s.realized);
    assert(dispose_spec(s, i, asset, wallet, quantity, total, timestamp, method, selection) is Ok);
}

/// A sale's fee comes out of what it realizes. For two sales that differ
/// only in their fee (whole amounts, one with `fee`, one with none), each
/// drawn from a pool of one whole lot as in [`law_single_lot_sale`]: the one
/// with the fee realizes proceeds and a gain lower by exactly the fee, at the
/// same cost basis.
pub proof fn law_sale_fee_lowers_gain(
    s: ReplayState,
    i: usize,
    timestamp: Timestamp,
    wallet: String,
    asset: String,
    quantity: Dec,
    unit_price: Dec,
    fee: Dec,
    method: CostBasisMethod,
    selection: Map<usize, Vec<LotPick>>,
)
    requires
        method == CostBasisMethod::Fifo || method == CostBasisMethod::Lifo || method == CostBasisMethod::Hifo,
        s.lots.len() <= usize::MAX,
        whole_amount(quantity),
        quantity@.0 > 0,
        whole_amount(unit_price),
        whole_amount(fee),
        quantity@.0 * unit_price@.0 <= MAX_MANTISSA,
        fee@.0 <= quantity@.0 * unit_price@.0,
        pool_positions(s.lots, asset, wallet).len() == 1,
        lot_whole(s.lots[pool_positions(s.lots, asset, wallet)[0] as int]),
        quantity@.0 <= s.lots[pool_positions(s.lots, asset, wallet)[0] as int].quantity@.0,
    ensures
        ({
            let with_fee = process_spec(s, i, sale(timestamp, wallet, asset, quantity, unit_price, fee), method, selection);
            let no_fee = process_spec(s, i, sale(timestamp, wallet, asset, quantity, unit_price, dec_zero()), method, selection);
            &&& with_fee is Ok
            &&& no_fee is Ok
            &&& with_fee.unwrap().realized.last().proceeds@.0 == no_fee.unwrap().realized.last().proceeds@.0 - fee@.0
            &&& with_fee.unwrap().realized.last().cost_basis@.0 == no_fee.unwrap().realized.last().cost_basis@.0
            &&& with_fee.unwrap().realized.last().gain@.0 == no_fee.unwrap().realized.last().gain@.0 - fee@.0
        }),
{
    lemma_dec_of(dec_zero(), (0i128, 0u32, false));
    law_single_lot_sale(s, i, timestamp, wallet, asset, quantity, unit_price, fee, method, selection);
    law_single_lot_sale(s, i, timestamp, wallet, asset, quantity, unit_price, dec_zero(), method, selection);
}

/// Where a lot lookup lands: a lot of the pool, with the id, holding the
/// units.
proof fn lemma_find_lot(lots: Seq<Lot>, asset: String, wallet: String, lot_id: u64, quantity: Dec, k: int)
    ensures
        find_lot_from(lots, asset, wallet, lot_id, quantity, k) matches Some(p) ==> {
            &&& k <= p < lots.len()
            &&& in_pool(lots[p], asset, wallet)
            &&& lots[p].lot_id == lot_id
            &&& quantity.le(lots[p].quantity)
        },
    decreases lots.len() - k,
{
    if k < lots.len() && k >= 0 {
        lemma_find_lot(lots, asset, wallet, lot_id, quantity, k + 1);
    }
}

/// What stays of a lot of `q` units and basis `b` (with `q` dividing `b`)
/// after `t` units leave at its unit cost: `b / q` per remaining unit.
proof fn lemma_unit_rest(q: int, b: int, t: int)
    requires
        0 < t <= q,
        0 <= b,
        b % q == 0,
    ensures
        b - (b / q) * t == (b / q) * (q - t),
{
    let u = b / q;
    vstd::arithmetic::div_mod::lemma_fundamental_div_mod(b, q);
    assert(b - u * t == u * (q - t)) by (nonlinear_arith)
        requires
            b == q * u + 0,
    ;
}

/// A Specific-ID pick takes the named lot's units at that lot's unit cost.
/// When a disposal's selection is one pick of all its (whole) units from the
/// lot that the named acquisition opened, and that lot is whole: the
/// disposal consumes one slice of those units from that lot whose basis is
/// the units times the lot's unit cost, and the lot keeps the rest of its
/// units at the same unit cost (dropped from the pool when none remain).
pub proof fn law_specific_pick_at_unit_cost(
    acq: Seq<Option<u64>>,
    lots: Seq<Lot>,
    orig_index: usize,
    asset: String,
    wallet: String,
    quantity: Dec,
    selection: Map<usize, Vec<LotPick>>,
)
    requires
        selection.contains_key(orig_index),
        selection[orig_index]@.len() == 1,
        whole_amount(quantity),
        quantity@.0 > 0,
        whole_amount(selection[orig_index]@[0].quantity),
        selection[orig_index]@[0].quantity@.0 == quantity@.0,
        acquired_lot(acq, selection[orig_index]@[0].acquisition_index) matches Some(id) && find_lot_from(
            lots,
            asset,
            wallet,
            id,
            selection[orig_index]@[0].quantity,
            0,
        ) matches Some(p) && lot_whole(lots[p]),
    ensures
        ({
            let pick = selection[orig_index]@[0];
            let id = acquired_lot(acq, pick.acquisition_index).unwrap();
            let p = find_lot_from(lots, asset, wallet, id, pick.quantity, 0).unwrap();
            let l = lots[p];
            let unit = l.cost_basis@.0 / l.quantity@.0;
            &&& consume_specific_spec(acq, lots, orig_index, asset, wallet, quantity, selection) is Ok
            &&& consume_specific_spec(acq, lots, orig_index, asset, wallet, quantity, selection) matches Ok((l2, out))
                && {
                &&& out.len() == 1
                &&& out[0].quantity@.0 == quantity@.0
                &&& out[0].lot_id == id
                &&& out[0].cost_basis@.1 == 0
                &&& out[0].cost_basis@.0 == unit * quantity@.0
                &&& exists|nq: Dec, nb: Dec|
                    {
                        &&& nq@.1 == 0 && nq@.0 == l.quantity@.0 - quantity@.0
                        &&& nb@.1 == 0 && nb@.0 == unit * (l.quantity@.0 - quantity@.0)
                        &&& l2 == retain_pool(lots.update(p, with_amounts(l, nq, nb)), asset, wallet)
                    }
            }
        }),
{
    let picks = selection[orig_index]@;
    let pick = picks[0];
    let id = acquired_lot(acq, pick.acquisition_index).unwrap();
    let p = find_lot_from(lots, asset, wallet, id, pick.quantity, 0).unwrap();
    lemma_find_lot(lots, asset, wallet, id, pick.quantity, 0);
    let l = lots[p];
    let q = quantity@.0 as int;
    let lq = l.quantity@.0 as int;
    let lb = l.cost_basis@.0 as int;
    // the picks add up to the disposed units
    lemma_dec_of(dec_zero(), (0i128, 0u32, false));
    assert(picks.drop_last() =~= Seq::<LotPick>::empty());
    assert(sum_picks(picks.drop_last()) == Some(dec_zero()));
    lemma_whole_add(dec_zero(), pick.quantity);
    let total = sum_picks(picks).unwrap();
    lemma_whole_order(total, quantity);
    lemma_whole_order(quantity, total);
    assert(total.same(quantity));
    // the named lot gives the units at its unit cost
    lemma_whole_order(pick.quantity, l.quantity);
    lemma_whole_div(l.cost_basis, l.quantity);
    let unit = l.unit_cost_spec().unwrap();
    lemma_unit_take(lq, lb, q);
    lemma_unit_rest(lq, lb, q);
    lemma_whole_mul(unit, pick.quantity);
    let basis = unit.spec_mul(pick.quantity).unwrap();
    lemma_whole_sub(l.quantity, pick.quantity);
    lemma_whole_sub(l.cost_basis, basis);
    let nq = l.quantity.spec_sub(pick.quantity).unwrap();
    let nb = l.cost_basis.spec_sub(basis).unwrap();
    let l2 = retain_pool(lots.update(p, with_amounts(l, nq, nb)), asset, wallet);
    let c = Consumed { quantity: pick.quantity, cost_basis: basis, acquired_at: Some(l.acquired_at), gift: l.gift, lot_id: id };
    assert(Seq::<Consumed>::empty().push(c) =~= seq![c]);
    assert(specific_from(acq, l2, asset, wallet, picks, 1, seq![c]) == Ok::<(Seq<Lot>, Seq<Consumed>), crate::error::PortfolioError>((l2, seq![c])));
    assert(specific_from(acq, lots, asset, wallet, picks, 0, Seq::empty()) == Ok::<(Seq<Lot>, Seq<Consumed>), crate::error::PortfolioError>((l2, seq![c])));
    assert(nb@.0 == unit@.0 * (lq - q));
}

/// A lot's units (or, with `basis`, its cost basis) when it is in the
/// `(asset, wallet)` pool, else zero.
pub open spec fn pool_amount(asset: String, wallet: String, basis: bool) -> spec_fn(Lot) -> int {
    |l: Lot|
        if !in_pool(l, asset, wallet) {
            0int
        } else if basis {
            l.cost_basis@.0 as int
        } else {
            l.quantity@.0 as int
        }
}

/// The lots of the pool carry whole, non-negative units and basis.
pub open spec fn pool_whole(lots: Seq<Lot>, asset: String, wallet: String) -> bool {
    forall|i: int|
        0 <= i < lots.len() && in_pool(#[trigger] lots[i], asset, wallet) ==> {
            &&& lots[i].quantity@.1 == 0
            &&& lots[i].quantity@.0 >= 0
            &&& lots[i].cost_basis@.1 == 0
            &&& lots[i].cost_basis@.0 >= 0
        }
}

proof fn lemma_sum_field_same(l1: Seq<Lot>, l2: Seq<Lot>, pos: Seq<usize>, basis: bool)
    requires
        forall|j: int|
            0 <= j < pos.len() ==> #[trigger] pos[j] < l1.len() && pos[j] < l2.len() && l1[pos[j] as int]
                == l2[pos[j] as int],
    ensures
        sum_field(l1, pos, basis) == sum_field(l2, pos, basis),
    decreases pos.len(),
{
    if pos.len() > 0 {
        let d = pos.drop_last();
        assert forall|j: int| 0 <= j < d.len() implies #[trigger] d[j] < l1.len() && d[j] < l2.len() && l1[d[j] as int]
            == l2[d[j] as int] by {
            assert(d[j] == pos[j]);
        }
        lemma_sum_field_same(l1, l2, d, basis);
        assert(pos.last() == pos[pos.len() - 1]);
    }
}

/// Summing a pool's whole amounts is exact.
proof fn lemma_pool_field_sum(lots: Seq<Lot>, asset: String, wallet: String, basis: bool)
    requires
        lots.len() <= usize::MAX,
        pool_whole(lots, asset, wallet),
        lot_sum(lots, pool_amount(asset, wallet, basis)) <= MAX_MANTISSA,
    ensures
        lot_sum(lots, pool_amount(asset, wallet, basis)) >= 0,
        sum_field(lots, pool_positions(lots, asset, wallet), basis) is Some,
        sum_field(lots, pool_positions(lots, asset, wallet), basis).unwrap()@.0 == lot_sum(
            lots,
            pool_amount(asset, wallet, basis),
        ),
        sum_field(lots, pool_positions(lots, asset, wallet), basis).unwrap()@.1 == 0,
    decreases lots.len(),
{
    lemma_dec_of(dec_zero(), (0i128, 0u32, false));
    if lots.len() > 0 {
        let d = lots.drop_last();
        let f = pool_amount(asset, wallet, basis);
        let n = lots.len() - 1;
        assert(lots.last() == lots[n]);
        assert(f(lots.last()) >= 0);
        assert(pool_whole(d, asset, wallet)) by {
            assert forall|i: int| 0 <= i < d.len() && in_pool(#[trigger] d[i], asset, wallet) implies {
                &&& d[i].quantity@.1 == 0
                &&& d[i].quantity@.0 >= 0
                &&& d[i].cost_basis@.1 == 0
                &&& d[i].cost_basis@.0 >= 0
            } by {
                assert(d[i] == lots[i]);
            }
        }
        lemma_pool_field_sum(d, asset, wallet, basis);
        let pd = pool_positions(d, asset, wallet);
        lemma_pool_positions(d, asset, wallet);
        assert forall|j: int| 0 <= j < pd.len() implies #[trigger] pd[j] < lots.len() && pd[j] < d.len() && lots[pd[j] as int]
            == d[pd[j] as int] by {
            assert(pd[j] < d.len());
        }
        lemma_sum_field_same(lots, d, pd, basis);
        if in_pool(lots.last(), asset, wallet) {
            let pos = pool_positions(lots, asset, wallet);
            assert(pos.drop_last() == pd);
            let acc = sum_field(lots, pd, basis).unwrap();
            let x = if basis {
                lots[n].cost_basis
            } else {
                lots[n].quantity
            };
            assert(pos.last() == n);
            lemma_whole_add(acc, x);
        }
    }
}

/// A pool emptied of its lots holds nothing.
proof fn lemma_remove_pool_sum(lots: Seq<Lot>, asset: String, wallet: String, basis: bool)
    ensures
        lot_sum(remove_pool(lots, asset, wallet), pool_amount(asset, wallet, basis)) == 0,
    decreases lots.len(),
{
    if lots.len() > 0 {
        lemma_remove_pool_sum(lots.drop_last(), asset, wallet, basis);
        let r = remove_pool(lots.drop_last(), asset, wallet);
        if !in_pool(lots.last(), asset, wallet) {
            assert(r.push(lots.last()).drop_last() =~= r);
        }
    }
}

/// An Average-cost disposal realizes the pool's average unit cost and keeps
/// the rest of the basis. For a pool of whole lots holding `U` units and `B`
/// basis, with `U` dividing `B`, a disposal of a whole `q` units
/// (`0 < q <= U`) consumes one slice of `q` units whose basis is
/// `(B / U) * q`, and the pool afterwards holds `U - q` units and the basis
/// the slice did not take: slice basis plus held basis is `B`.
pub proof fn law_average_disposal_keeps_the_rest(lots: Seq<Lot>, asset: String, wallet: String, quantity: Dec)
    requires
        lots.len() <= usize::MAX,
        pool_whole(lots, asset, wallet),
        lot_sum(lots, pool_amount(asset, wallet, false)) <= MAX_MANTISSA,
        lot_sum(lots, pool_amount(asset, wallet, true)) <= MAX_MANTISSA,
        lot_sum(lots, pool_amount(asset, wallet, true)) % lot_sum(lots, pool_amount(asset, wallet, false)) == 0,
        whole_amount(quantity),
        0 < quantity@.0 <= lot_sum(lots, pool_amount(asset, wallet, false)),
    ensures
        consume_average_spec(lots, asset, wallet, quantity) is Ok,
        ({
            let units = lot_sum(lots, pool_amount(asset, wallet, false));
            let basis = lot_sum(lots, pool_amount(asset, wallet, true));
            let (l2, out) = consume_average_spec(lots, asset, wallet, quantity).unwrap();
            &&& out.len() == 1
            &&& out[0].quantity == quantity
            &&& out[0].cost_basis@.1 == 0
            &&& out[0].cost_basis@.0 == basis / units * quantity@.0
            &&& out[0].cost_basis@.0 + lot_sum(l2, pool_amount(asset, wallet, true)) == basis
            &&& lot_sum(l2, pool_amount(asset, wallet, false)) == units - quantity@.0
        }),
{
    let units = lot_sum(lots, pool_amount(asset, wallet, false));
    let bsum = lot_sum(lots, pool_amount(asset, wallet, true));
    let q = quantity@.0 as int;
    lemma_pool_field_sum(lots, asset, wallet, false);
    lemma_pool_field_sum(lots, asset, wallet, true);
    let pool = pool_positions(lots, asset, wallet);
    lemma_pool_positions(lots, asset, wallet);
    lemma_dec_of(dec_zero(), (0i128, 0u32, false));
    assert(pool.len() > 0);
    let total_qty = sum_field(lots, pool, false).unwrap();
    let total_basis = sum_field(lots, pool, true).unwrap();
    lemma_whole_div(total_basis, total_qty);
    let avg = total_basis.spec_div(total_qty).unwrap();
    lemma_unit_take(units, bsum, q);
    lemma_unit_rest(units, bsum, q);
    lemma_whole_mul(avg, quantity);
    let basis = avg.spec_mul(quantity).unwrap();
    lemma_whole_sub(total_qty, quantity);
    let remaining_qty = total_qty.spec_sub(quantity).unwrap();
    lemma_whole_sub(total_basis, basis);
    let cleared = remove_pool(lots, asset, wallet);
    lemma_remove_pool_sum(lots, asset, wallet, true);
    lemma_remove_pool_sum(lots, asset, wallet, false);
    let (l2, out) = consume_average_spec(lots, asset, wallet, quantity).unwrap();
    assert(out[0].cost_basis == basis);
    assert(basis@.0 == bsum / units * q);
    if remaining_qty.is_pos_spec() {
        let rest = total_basis.spec_sub(basis).unwrap();
        assert(l2.drop_last() =~= cleared);
        assert(in_pool(l2.last(), asset, wallet));
        assert(l2.last().cost_basis == rest);
        assert(l2.last().quantity == remaining_qty);
        assert(lot_sum(l2, pool_amount(asset, wallet, true)) == rest@.0);
        assert(lot_sum(l2, pool_amount(asset, wallet, false)) == units - q);
    } else {
        assert(l2 == cleared);
        assert(q == units);
        assert(bsum / units * (units - q) == 0);
    }
}

/// `x` when positive, else zero.
pub open spec fn pos_part(x: int) -> int {
    if x > 0 {
        x
    } else {
        0
    }
}

/// A schedule of long-term brackets from `i` on, above the ceiling `prev`:
/// whole, non-negative rates; whole ceilings, each above the one before and
/// within a mantissa; an unbounded bracket ends the schedule.
pub open spec fn schedule_ok(brackets: Seq<TaxBracket>, i: int, prev: int) -> bool
    decreases brackets.len() - i,
{
    if i < 0 || i >= brackets.len() {
        true
    } else {
        let b = brackets[i];
        &&& b.rate@.1 == 0
        &&& b.rate@.0 >= 0
        &&& match b.up_to {
            None => true,
            Some(c) => c@.1 == 0 && prev < c@.0 <= MAX_MANTISSA && schedule_ok(brackets, i + 1, c@.0 as int),
        }
    }
}

/// Progressive tax on `gain`, bracket by bracket from `i` on: each bounded
/// bracket taxes at its rate the part of the gain between the previous
/// ceiling (first `prev`) and its own; an unbounded bracket taxes all the
/// gain above the previous ceiling.
pub open spec fn bracket_tax(brackets: Seq<TaxBracket>, i: int, gain: int, prev: int) -> int
    decreases brackets.len() - i,
{
    if i < 0 || i >= brackets.len() {
        0
    } else {
        let b = brackets[i];
        match b.up_to {
            None => b.rate@.0 * pos_part(gain - prev),
            Some(c) => b.rate@.0 * pos_part(min_int(gain, c@.0 as int) - prev) + bracket_tax(
                brackets,
                i + 1,
                gain,
                c@.0 as int,
            ),
        }
    }
}

/// Bracket tax is never negative, nothing when the gain stays at or below
/// `prev`, and at most `rate_cap` times the gain above `prev` when every
/// rate is at most `rate_cap`.
proof fn lemma_bracket_tax_bounds(brackets: Seq<TaxBracket>, i: int, gain: int, prev: int, rate_cap: int)
    requires
        schedule_ok(brackets, i, prev),
    ensures
        bracket_tax(brackets, i, gain, prev) >= 0,
        gain <= prev ==> bracket_tax(brackets, i, gain, prev) == 0,
        0 <= rate_cap && (forall|k: int| i <= k < brackets.len() ==> (#[trigger] brackets[k]).rate@.0 <= rate_cap) ==> bracket_tax(
            brackets,
            i,
            gain,
            prev,
        ) <= rate_cap * pos_part(gain - prev),
    decreases brackets.len() - i,
{
    if i < 0 || i >= brackets.len() {
        if 0 <= rate_cap {
            assert(rate_cap * pos_part(gain - prev) >= 0) by (nonlinear_arith)
                requires
                    rate_cap >= 0,
                    pos_part(gain - prev) >= 0,
            ;
        }
    } else {
        let b = brackets[i];
        let r = b.rate@.0 as int;
        match b.up_to {
            None => {
                let x = pos_part(gain - prev);
                assert(r * x >= 0) by (nonlinear_arith)
                    requires
                        r >= 0,
                        x >= 0,
                ;
                if 0 <= rate_cap && forall|k: int| i <= k < brackets.len() ==> (#[trigger] brackets[k]).rate@.0 <= rate_cap {
                    assert(brackets[i].rate@.0 <= rate_cap);
                    assert(r * x <= rate_cap * x) by (nonlinear_arith)
                        requires
                            r <= rate_cap,
                            x >= 0,
                    ;
                }
            },
            Some(c) => {
                let cv = c@.0 as int;
                lemma_bracket_tax_bounds(brackets, i + 1, gain, cv, rate_cap);
                let x = pos_part(min_int(gain, cv) - prev);
                let y = pos_part(gain - cv);
                assert(r * x >= 0) by (nonlinear_arith)
                    requires
                        r >= 0,
                        x >= 0,
                ;
                if gain <= prev {
                    assert(x == 0);
                    assert(r * x == 0) by (nonlinear_arith)
                        requires
                            x == 0,
                    ;
                }
                if 0 <= rate_cap && forall|k: int| i <= k < brackets.len() ==> (#[trigger] brackets[k]).rate@.0 <= rate_cap {
                    assert(brackets[i].rate@.0 <= rate_cap);
                    assert forall|k: int| i + 1 <= k < brackets.len() implies (#[trigger] brackets[k]).rate@.0
                        <= rate_cap by {
                        assert(brackets[k].rate@.0 <= rate_cap);
                    }
                    assert(x + y == pos_part(gain - prev));
                    assert(r * x <= rate_cap * x) by (nonlinear_arith)
                        requires
                            r <= rate_cap,
                            x >= 0,
                    ;
                    assert(rate_cap * x + rate_cap * y == rate_cap * (x + y)) by (nonlinear_arith);
                }
            },
        }
    }
}

/// The walk over the brackets from `i` on adds the bracket tax to `tax`.
proof fn lemma_progressive_exact(brackets: Seq<TaxBracket>, i: int, gain: Dec, tax: Dec, prev: Dec)
    requires
        0 <= i,
        whole_amount(gain),
        whole_amount(tax),
        whole_amount(prev),
        schedule_ok(brackets, i, prev@.0 as int),
        tax@.0 + bracket_tax(brackets, i, gain@.0 as int, prev@.0 as int) <= MAX_MANTISSA,
    ensures
        progressive_from(brackets, i, gain, tax, prev) is Some,
        progressive_from(brackets, i, gain, tax, prev).unwrap()@.1 == 0,
        progressive_from(brackets, i, gain, tax, prev).unwrap()@.0 == tax@.0 + bracket_tax(
            brackets,
            i,
            gain@.0 as int,
            prev@.0 as int,
        ),
    decreases brackets.len() - i,
{
    let g = gain@.0 as int;
    let p = prev@.0 as int;
    lemma_whole_order(gain, prev);
    lemma_bracket_tax_bounds(brackets, i, g, p, 0);
    if i < brackets.len() && !gain.le(prev) {
        let b = brackets[i];
        let ceiling = match b.up_to {
            Some(c) => c,
            None => gain,
        };
        lemma_whole_order(ceiling, gain);
        let top = ceiling.min_spec(gain);
        lemma_whole_sub(top, prev);
        let slice = top.spec_sub(prev).unwrap();
        let r = b.rate@.0 as int;
        let x = slice@.0 as int;
        assert(pos_part(min_int(g, ceiling@.0 as int) - p) == pos_part(x));
        if let Some(c) = b.up_to {
            lemma_bracket_tax_bounds(brackets, i + 1, g, c@.0 as int, 0);
        }
        if slice.is_pos_spec() {
            assert(0 <= x * r == r * x) by (nonlinear_arith)
                requires
                    x > 0,
                    r >= 0,
            ;
            lemma_whole_mul(slice, b.rate);
            let t = slice.spec_mul(b.rate).unwrap();
            lemma_whole_add(tax, t);
            let nt = tax.spec_add(t).unwrap();
            if let Some(c) = b.up_to {
                lemma_progressive_exact(brackets, i + 1, gain, nt, c);
            }
        } else {
            assert(r * 0 == 0);
            if let Some(c) = b.up_to {
                lemma_progressive_exact(brackets, i + 1, gain, tax, c);
            }
        }
    }
}

/// Progressive brackets tax each part of the gain only at the rate of the
/// bracket it falls in. For a whole, non-negative gain and a schedule of
/// whole rates and rising whole ceilings (the total tax within a mantissa):
/// the long-term tax is the sum over the brackets of the rate times the part
/// of the gain between the previous ceiling (zero for the first) and the
/// bracket's own ceiling, nothing for the parts above the gain, and it is at
/// most any rate bound times the gain.
pub proof fn law_progressive_brackets(gain: Dec, brackets: Seq<TaxBracket>, rate_cap: int)
    requires
        whole_amount(gain),
        schedule_ok(brackets, 0, 0),
        bracket_tax(brackets, 0, gain@.0 as int, 0) <= MAX_MANTISSA,
    ensures
        progressive_spec(gain, brackets) is Some,
        progressive_spec(gain, brackets).unwrap()@.1 == 0,
        progressive_spec(gain, brackets).unwrap()@.0 == bracket_tax(brackets, 0, gain@.0 as int, 0),
        0 <= rate_cap && (forall|k: int| 0 <= k < brackets.len() ==> (#[trigger] brackets[k]).rate@.0 <= rate_cap)
            ==> progressive_spec(gain, brackets).unwrap()@.0 <= rate_cap * gain@.0,
{
    lemma_dec_of(dec_zero(), (0i128, 0u32, false));
    lemma_progressive_exact(brackets, 0, gain, dec_zero(), dec_zero());
    lemma_bracket_tax_bounds(brackets, 0, gain@.0 as int, 0, rate_cap);
}

/// The rows `realize_from` adds: one per slice from `k` on, in order, each for
/// the slice's units and with the share `slice units / quantity` of `total`
/// as its proceeds.
proof fn lemma_realize_rows(
    consumed: Seq<Consumed>,
    k: int,
    quantity: Dec,
    total: Dec,
    asset: String,
    wallet: String,
    at: Timestamp,
    acc: Seq<crate::report::RealizedGain>,
)
    requires
        0 <= k <= consumed.len(),
        realize_from(consumed, k, quantity, total, asset, wallet, at, acc) is Some,
    ensures
        ({
            let r = realize_from(consumed, k, quantity, total, asset, wallet, at, acc).unwrap();
            &&& r.len() == acc.len() + consumed.len() - k
            &&& r.take(acc.len() as int) == acc
            &&& forall|j: int|
                acc.len() <= j < r.len() ==> {
                    &&& (#[trigger] r[j]).quantity == consumed[j - acc.len() + k].quantity
                    &&& r[j].quantity.spec_div(quantity) is Some
                    &&& total.spec_mul(r[j].quantity.spec_div(quantity).unwrap()) == Some(r[j].proceeds)
                }
        }),
    decreases consumed.len() - k,
{
    if k < consumed.len() {
        let c = consumed[k];
        let share = c.quantity.spec_div(quantity).unwrap();
        let proceeds = total.spec_mul(share).unwrap();
        let (gain, basis) = gain_for_spec(c, proceeds).unwrap();
        let acc2 = acc.push(gain_row(c, asset, wallet, at, proceeds, gain, basis));
        lemma_realize_rows(consumed, k + 1, quantity, total, asset, wallet, at, acc2);
        let r = realize_from(consumed, k, quantity, total, asset, wallet, at, acc).unwrap();
        assert(r.take(acc2.len() as int).take(acc.len() as int) =~= r.take(acc.len() as int));
        assert(acc2.take(acc.len() as int) =~= acc);
        assert(r[acc.len() as int] == acc2[acc.len() as int]);
    } else {
        assert(acc.take(acc.len() as int) =~= acc);
    }
}

/// Every row a sale realizes takes its share of the price less the fee. For
/// a sale of whole units at a whole price with a whole fee below the gross
/// price, under any method, when the sale succeeds: it appends rows to the
/// realized ones, and each row's proceeds are `quantity * unit_price - fee`
/// times the row's share of the units sold (`row units / quantity`).
pub proof fn law_sale_rows_share_price_less_fee(
    s: ReplayState,
    i: usize,
    timestamp: Timestamp,
    wallet: String,
    asset: String,
    quantity: Dec,
    unit_price: Dec,
    fee: Dec,
    method: CostBasisMethod,
    selection: Map<usize, Vec<LotPick>>,
)
    requires
        whole_amount(quantity),
        quantity@.0 > 0,
        whole_amount(unit_price),
        whole_amount(fee),
        quantity@.0 * unit_price@.0 <= MAX_MANTISSA,
        fee@.0 < quantity@.0 * unit_price@.0,
        process_spec(s, i, sale(timestamp, wallet, asset, quantity, unit_price, fee), method, selection) is Ok,
    ensures
        ({
            let s1 = process_spec(s, i, sale(timestamp, wallet, asset, quantity, unit_price, fee), method, selection).unwrap();
            let net = dec_of(((quantity@.0 * unit_price@.0 - fee@.0) as i128, 0u32, false));
            &&& s1.realized.len() >= s.realized.len()
            &&& s1.realized.take(s.realized.len() as int) == s.realized
            &&& forall|j: int|
                s.realized.len() <= j < s1.realized.len() ==> {
                    &&& (#[trigger] s1.realized[j]).quantity.spec_div(quantity) is Some
                    &&& net.spec_mul(s1.realized[j].quantity.spec_div(quantity).unwrap()) == Some(s1.realized[j].proceeds)
                }
        }),
{
    let q = quantity@.0 as int;
    let pr = unit_price@.0 as int;
    assert(q * pr >= 0) by (nonlinear_arith)
        requires
            q > 0,
            pr >= 0,
    ;
    lemma_whole_mul(quantity, unit_price);
    let gross = quantity.spec_mul(unit_price).unwrap();
    lemma_whole_sub(gross, fee);
    let total = gross.spec_sub(fee).unwrap();
    let net = dec_of(((q * pr - fee@.0) as i128, 0u32, false));
    lemma_dec_of(total, ((q * pr - fee@.0) as i128, 0u32, false));
    assert(total@ == net@);
    assert(total == net);
    let (lots, consumed) = consume_spec(s, i, asset, wallet, quantity, method, selection).unwrap();
    lemma_realize_rows(consumed, 0, quantity, total, asset, wallet, timestamp, s.realized);
}

/// The automatic methods consume lots in the order they name. The order an
/// automatic method gives lists every lot once; under FIFO (the order Average
/// and Specific-ID fall back to) no lot comes after one acquired later, under
/// LIFO no lot comes after one acquired earlier, and under HIFO no lot comes
/// after one of higher unit cost; lots acquired at the same instant (or, for
/// HIFO, at the same unit cost) come by lot id.
pub proof fn law_consumption_order(method: CostBasisMethod, lots: Seq<Lot>)
    requires
        lots.len() <= usize::MAX,
        order_spec(method, lots) is Some,
    ensures
        ({
            let s = order_spec(method, lots).unwrap();
            &&& is_permutation(s, lots.len())
            &&& forall|k: int, l: int|
                #![trigger s[k], s[l]]
                0 <= k < l < s.len() ==> {
                    let a = lots[s[k] as int];
                    let b = lots[s[l] as int];
                    match method {
                        CostBasisMethod::Lifo => !a.acquired_at.before(b.acquired_at) && (
                        a.acquired_at.order_key() == b.acquired_at.order_key() ==> a.lot_id >= b.lot_id),
                        CostBasisMethod::Hifo => !a.unit_cost_spec().unwrap().lt(b.unit_cost_spec().unwrap()) && (
                        a.unit_cost_spec().unwrap().same(b.unit_cost_spec().unwrap()) ==> a.lot_id <= b.lot_id),
                        _ => !b.acquired_at.before(a.acquired_at) && (a.acquired_at.order_key()
                            == b.acquired_at.order_key() ==> a.lot_id <= b.lot_id),
                    }
                }
        }),
{
    lemma_sort_prefix_sorted(method, lots, lots.len());
    let s = order_spec(method, lots).unwrap();
    assert(s == sort_prefix(method, lots, lots.len()));
    assert forall|k: int, l: int| #![trigger s[k], s[l]] 0 <= k < l < s.len() implies {
        let a = lots[s[k] as int];
        let b = lots[s[l] as int];
        match method {
            CostBasisMethod::Lifo => !a.acquired_at.before(b.acquired_at) && (a.acquired_at.order_key()
                == b.acquired_at.order_key() ==> a.lot_id >= b.lot_id),
            CostBasisMethod::Hifo => !a.unit_cost_spec().unwrap().lt(b.unit_cost_spec().unwrap()) && (
            a.unit_cost_spec().unwrap().same(b.unit_cost_spec().unwrap()) ==> a.lot_id <= b.lot_id),
            _ => !b.acquired_at.before(a.acquired_at) && (a.acquired_at.order_key() == b.acquired_at.order_key()
                ==> a.lot_id <= b.lot_id),
        }
    } by {
        assert(!crate::method::precedes(method, lots, s[l] as int, s[k] as int));
        let a = lots[s[k] as int];
        let b = lots[s[l] as int];
        if method == CostBasisMethod::Hifo {
            let ua = a.unit_cost_spec().unwrap();
            let ub = b.unit_cost_spec().unwrap();
            if ua.same(ub) {
                assert(ub.same(ua));
            }
        }
    }
}

/// Every row a spend realizes takes its share of the value less the fee.
/// For a spend of whole units for a whole value with a whole fee below the
/// value, under any method, when it succeeds: it appends rows to the realized
/// ones, and each row's proceeds are `value - fee` times the row's share of
/// the units spent (`row units / quantity`).
pub proof fn law_spend_rows_share_value_less_fee(
    s: ReplayState,
    i: usize,
    timestamp: Timestamp,
    wallet: String,
    asset: String,
    quantity: Dec,
    value: Dec,
    fee: Dec,
    method: CostBasisMethod,
    selection: Map<usize, Vec<LotPick>>,
)
    requires
        whole_amount(quantity),
        quantity@.0 > 0,
        whole_amount(value),
        whole_amount(fee),
        fee@.0 < value@.0,
        process_spec(s, i, Transaction::Spend { timestamp, wallet, asset, quantity, value, fee }, method, selection)
            is Ok,
    ensures
        ({
            let s1 = process_spec(s, i, Transaction::Spend { timestamp, wallet, asset, quantity, value, fee }, method, selection).unwrap();
            let net = dec_of(((value@.0 - fee@.0) as i128, 0u32, false));
            &&& s1.realized.len() >= s.realized.len()
            &&& s1.realized.take(s.realized.len() as int) == s.realized
            &&& forall|j: int|
                s.realized.len() <= j < s1.realized.len() ==> {
                    &&& (#[trigger] s1.realized[j]).quantity.spec_div(quantity) is Some
                    &&& net.spec_mul(s1.realized[j].quantity.spec_div(quantity).unwrap()) == Some(s1.realized[j].proceeds)
                }
        }),
{
    lemma_whole_sub(value, fee);
    let total = value.spec_sub(fee).unwrap();
    lemma_dec_of(total, ((value@.0 - fee@.0) as i128, 0u32, false));
    let (lots, consumed) = consume_spec(s, i, asset, wallet, quantity, method, selection).unwrap();
    lemma_realize_rows(consumed, 0, quantity, total, asset, wallet, timestamp, s.realized);
}

/// A tax estimate applies the short-term rate to the positive short-term
/// gain and the long-term brackets to the positive long-term gain, and adds
/// the two. For an estimate whose net gains are whole, under a whole
/// short-term rate and a schedule of whole rates and rising whole ceilings
/// (amounts within a mantissa): the short-term tax is the rate times the
/// short-term gain when it is positive and nothing otherwise, the long-term
/// tax is the bracket tax of the positive long-term gain, and the total is
/// their sum.
pub proof fn law_estimate_applies_rates(report: CapitalGainsReport, config: TaxConfig)
    requires
        estimate_spec(report, config) is Some,
        estimate_spec(report, config).unwrap().short_term_gain@.1 == 0,
        estimate_spec(report, config).unwrap().long_term_gain@.1 == 0,
        -MAX_MANTISSA <= estimate_spec(report, config).unwrap().short_term_gain@.0 <= MAX_MANTISSA,
        -MAX_MANTISSA <= estimate_spec(report, config).unwrap().long_term_gain@.0 <= MAX_MANTISSA,
        whole_amount(config.short_term_rate),
        schedule_ok(config.long_term_brackets@, 0, 0),
        pos_part(estimate_spec(report, config).unwrap().short_term_gain@.0 as int) * config.short_term_rate@.0
            + bracket_tax(
            config.long_term_brackets@,
            0,
            pos_part(estimate_spec(report, config).unwrap().long_term_gain@.0 as int),
            0,
        ) <= MAX_MANTISSA,
    ensures
        ({
            let e = estimate_spec(report, config).unwrap();
            let st = pos_part(e.short_term_gain@.0 as int) * config.short_term_rate@.0;
            let lt = bracket_tax(config.long_term_brackets@, 0, pos_part(e.long_term_gain@.0 as int), 0);
            &&& e.short_term_tax@.0 == st
            &&& e.long_term_tax@.0 == lt
            &&& e.total_tax@.0 == st + lt
        }),
{
    let e = estimate_spec(report, config).unwrap();
    let g = e.short_term_gain@.0 as int;
    let r = config.short_term_rate@.0 as int;
    let lg = e.long_term_gain;
    let brackets = config.long_term_brackets@;
    lemma_dec_of(dec_zero(), (0i128, 0u32, false));
    lemma_whole_order(lg, dec_zero());
    let lgp = lg.max_spec(dec_zero());
    assert(lgp@.0 == pos_part(lg@.0 as int));
    lemma_bracket_tax_bounds(brackets, 0, lgp@.0 as int, 0, 0);
    law_progressive_brackets(lgp, brackets, 0);
    let lt = progressive_spec(lgp, brackets).unwrap();
    assert(pos_part(g) * r >= 0) by (nonlinear_arith)
        requires
            pos_part(g) >= 0,
            r >= 0,
    ;
    if e.short_term_gain.is_pos_spec() {
        lemma_whole_mul(e.short_term_gain, config.short_term_rate);
        let st = e.short_term_gain.spec_mul(config.short_term_rate).unwrap();
        lemma_whole_add(st, lt);
    } else {
        assert(pos_part(g) * r == 0);
        lemma_whole_add(dec_zero(), lt);
    }
}

/// Each Specific-ID pick takes the named lot's units at that lot's unit
/// cost, whatever picks came before or follow it. When pick `k` of a
/// selection names whole units of a whole lot (found at position `p`): the
/// consumption from pick `k` on is the consumption from pick `k + 1` on,
/// after a slice of the picked units whose basis is the units times the
/// lot's unit cost, with the lot keeping the rest of its units at the same
/// unit cost (dropped from the pool when none remain).
pub proof fn law_specific_each_pick_at_unit_cost(
    acq: Seq<Option<u64>>,
    lots: Seq<Lot>,
    asset: String,
    wallet: String,
    picks: Seq<LotPick>,
    k: int,
    out: Seq<Consumed>,
)
    requires
        0 <= k < picks.len(),
        whole_amount(picks[k].quantity),
        picks[k].quantity@.0 > 0,
        acquired_lot(acq, picks[k].acquisition_index) matches Some(id) && find_lot_from(
            lots,
            asset,
            wallet,
            id,
            picks[k].quantity,
            0,
        ) matches Some(p) && lot_whole(lots[p]),
    ensures
        ({
            let pick = picks[k];
            let id = acquired_lot(acq, pick.acquisition_index).unwrap();
            let p = find_lot_from(lots, asset, wallet, id, pick.quantity, 0).unwrap();
            let l = lots[p];
            let unit = l.cost_basis@.0 / l.quantity@.0;
            exists|basis: Dec, nq: Dec, nb: Dec|
                {
                    &&& basis@.1 == 0 && basis@.0 == unit * pick.quantity@.0
                    &&& nq@.1 == 0 && nq@.0 == l.quantity@.0 - pick.quantity@.0
                    &&& nb@.1 == 0 && nb@.0 == unit * (l.quantity@.0 - pick.quantity@.0)
                    &&& specific_from(acq, lots, asset, wallet, picks, k, out) == specific_from(
                        acq,
                        retain_pool(lots.update(p, with_amounts(l, nq, nb)), asset, wallet),
                        asset,
                        wallet,
                        picks,
                        k + 1,
                        out.push(
                            Consumed {
                                quantity: pick.quantity,
                                cost_basis: basis,
                                acquired_at: Some(l.acquired_at),
                                gift: l.gift,
                                lot_id: id,
                            },
                        ),
                    )
                }
        }),
{
    let pick = picks[k];
    let id = acquired_lot(acq, pick.acquisition_index).unwrap();
    let p = find_lot_from(lots, asset, wallet, id, pick.quantity, 0).unwrap();
    lemma_find_lot(lots, asset, wallet, id, pick.quantity, 0);
    let l = lots[p];
    let q = pick.quantity@.0 as int;
    let lq = l.quantity@.0 as int;
    let lb = l.cost_basis@.0 as int;
    lemma_whole_order(pick.quantity, l.quantity);
    lemma_whole_div(l.cost_basis, l.quantity);
    let unit = l.unit_cost_spec().unwrap();
    lemma_unit_take(lq, lb, q);
    lemma_unit_rest(lq, lb, q);
    lemma_whole_mul(unit, pick.quantity);
    let basis = unit.spec_mul(pick.quantity).unwrap();
    lemma_whole_sub(l.quantity, pick.quantity);
    lemma_whole_sub(l.cost_basis, basis);
    let nq = l.quantity.spec_sub(pick.quantity).unwrap();
    let nb = l.cost_basis.spec_sub(basis).unwrap();
    assert(nb@.0 == unit@.0 * (lq - q));
    let c = Consumed { quantity: pick.quantity, cost_basis: basis, acquired_at: Some(l.acquired_at), gift: l.gift, lot_id: id };
    let lots2 = retain_pool(lots.update(p, with_amounts(l, nq, nb)), asset, wallet);
    assert(specific_from(acq, lots, asset, wallet, picks, k, out) == specific_from(acq, lots2, asset, wallet, picks, k + 1, out.push(c)));
    assert(basis@.0 == lb / lq * q && nq@.0 == lq - q && nb@.0 == lb / lq * (lq - q));
}

} // verus!
