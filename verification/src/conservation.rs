//! Conservation of cost basis and units over ledgers of purchases and sales.
//!
//! For a ledger of whole-number purchases (no fee) and sales replayed under
//! FIFO, LIFO or HIFO, the basis realized plus the basis still held is the
//! basis bought, and each `(asset, wallet)` pool holds the units bought there
//! minus the units sold there.

use vstd::prelude::*;
use crate::decimal::{
    lemma_whole_add, lemma_whole_div, lemma_whole_mul, lemma_whole_order, lemma_whole_sub, Dec, MAX_MANTISSA,
};
use crate::engine::{
    holding_before, holding_order, holdings_spec, insert_holding, initial_state, insert_by_time, process_spec, replay_from, replay_spec, time_order, dispose_spec, gain_for_spec, gain_row, in_pool, lemma_pool_positions, lots_at, ordered_from,
    pool_positions, positions_valid, realize_from, retain_pool, same_identity, slice_of, sum_field, with_amounts,
    Consumed, ReplayState,
};
use crate::method::{order_spec, LotPick};
use crate::portfolio::{auto_replay, holding_rows, holdings_result, realized_of};
use crate::report::{Holding, RealizedGain};
use crate::transaction::Transaction;
use crate::time::Timestamp;
use crate::lot::Lot;
use crate::method::{lemma_insert_ordered_shape, sort_prefix, CostBasisMethod};

verus! {

// ---------------------------------------------------------------------------
// Sums
// ---------------------------------------------------------------------------

/// The sum of `f` over the lots.
pub open spec fn lot_sum(lots: Seq<Lot>, f: spec_fn(Lot) -> int) -> int
    decreases lots.len(),
{
    if lots.len() == 0 {
        0
    } else {
        lot_sum(lots.drop_last(), f) + f(lots.last())
    }
}

/// The sum of `f` over the consumed slices.
pub open spec fn slice_sum(out: Seq<Consumed>, f: spec_fn(Consumed) -> int) -> int
    decreases out.len(),
{
    if out.len() == 0 {
        0
    } else {
        slice_sum(out.drop_last(), f) + f(out.last())
    }
}

/// The sum of `g` over the indices in `s`.
pub open spec fn index_sum(s: Seq<usize>, g: spec_fn(int) -> int) -> int
    decreases s.len(),
{
    if s.len() == 0 {
        0
    } else {
        index_sum(s.drop_last(), g) + g(s.last() as int)
    }
}

/// The sum of `g` over `0..n`.
pub open spec fn range_sum(n: int, g: spec_fn(int) -> int) -> int
    decreases n,
{
    if n <= 0 {
        0
    } else {
        range_sum(n - 1, g) + g(n - 1)
    }
}

/// A lot's cost basis (its mantissa).
pub open spec fn lot_basis() -> spec_fn(Lot) -> int {
    |l: Lot| l.cost_basis@.0 as int
}

/// A lot's units when it is in the `(asset, wallet)` pool, else zero.
pub open spec fn pool_units(asset: String, wallet: String) -> spec_fn(Lot) -> int {
    |l: Lot|
        if in_pool(l, asset, wallet) {
            l.quantity@.0 as int
        } else {
            0int
        }
}

/// A slice's cost basis.
pub open spec fn slice_basis() -> spec_fn(Consumed) -> int {
    |c: Consumed| c.cost_basis@.0 as int
}

/// A slice's units.
pub open spec fn slice_units() -> spec_fn(Consumed) -> int {
    |c: Consumed| c.quantity@.0 as int
}

proof fn lemma_lot_sum_push(lots: Seq<Lot>, l: Lot, f: spec_fn(Lot) -> int)
    ensures
        lot_sum(lots.push(l), f) == lot_sum(lots, f) + f(l),
{
    assert(lots.push(l).drop_last() =~= lots);
}

proof fn lemma_slice_sum_push(out: Seq<Consumed>, c: Consumed, f: spec_fn(Consumed) -> int)
    ensures
        slice_sum(out.push(c), f) == slice_sum(out, f) + f(c),
{
    assert(out.push(c).drop_last() =~= out);
}

proof fn lemma_lot_sum_update(lots: Seq<Lot>, p: int, l: Lot, f: spec_fn(Lot) -> int)
    requires
        0 <= p < lots.len(),
    ensures
        lot_sum(lots.update(p, l), f) == lot_sum(lots, f) - f(lots[p]) + f(l),
    decreases lots.len(),
{
    let u = lots.update(p, l);
    if p == lots.len() - 1 {
        assert(u.drop_last() =~= lots.drop_last());
    } else {
        lemma_lot_sum_update(lots.drop_last(), p, l, f);
        assert(u.drop_last() =~= lots.drop_last().update(p, l));
    }
}

/// Terms that agree give the same sum.
proof fn lemma_lot_sum_ext(lots: Seq<Lot>, f: spec_fn(Lot) -> int, g: spec_fn(Lot) -> int)
    requires
        forall|i: int| 0 <= i < lots.len() ==> f(#[trigger] lots[i]) == g(lots[i]),
    ensures
        lot_sum(lots, f) == lot_sum(lots, g),
    decreases lots.len(),
{
    if lots.len() > 0 {
        let d = lots.drop_last();
        assert forall|i: int| 0 <= i < d.len() implies f(#[trigger] d[i]) == g(d[i]) by {
            assert(d[i] == lots[i]);
        }
        lemma_lot_sum_ext(d, f, g);
        assert(f(lots[lots.len() - 1]) == g(lots[lots.len() - 1]));
    }
}

/// Non-negative terms: the sum bounds each term.
proof fn lemma_lot_sum_bound(lots: Seq<Lot>, f: spec_fn(Lot) -> int)
    requires
        forall|i: int| 0 <= i < lots.len() ==> f(#[trigger] lots[i]) >= 0,
    ensures
        lot_sum(lots, f) >= 0,
        forall|i: int| 0 <= i < lots.len() ==> f(#[trigger] lots[i]) <= lot_sum(lots, f),
    decreases lots.len(),
{
    if lots.len() > 0 {
        let d = lots.drop_last();
        assert forall|i: int| 0 <= i < d.len() implies f(#[trigger] d[i]) >= 0 by {
            assert(d[i] == lots[i]);
        }
        lemma_lot_sum_bound(d, f);
        assert forall|i: int| 0 <= i < lots.len() implies f(#[trigger] lots[i]) <= lot_sum(lots, f) by {
            if i < d.len() {
                assert(d[i] == lots[i]);
            }
        }
    }
}

/// Dropping emptied pool lots whose terms are zero keeps the sum.
proof fn lemma_lot_sum_retain(lots: Seq<Lot>, asset: String, wallet: String, f: spec_fn(Lot) -> int)
    requires
        forall|i: int|
            0 <= i < lots.len() && in_pool(#[trigger] lots[i], asset, wallet) && !lots[i].quantity.is_pos_spec()
                ==> f(lots[i]) == 0,
    ensures
        lot_sum(retain_pool(lots, asset, wallet), f) == lot_sum(lots, f),
    decreases lots.len(),
{
    if lots.len() > 0 {
        let d = lots.drop_last();
        assert forall|i: int|
            0 <= i < d.len() && in_pool(#[trigger] d[i], asset, wallet) && !d[i].quantity.is_pos_spec() implies f(d[i])
            == 0 by {
            assert(d[i] == lots[i]);
        }
        lemma_lot_sum_retain(d, asset, wallet, f);
        let r = retain_pool(d, asset, wallet);
        if !in_pool(lots.last(), asset, wallet) || lots.last().quantity.is_pos_spec() {
            lemma_lot_sum_push(r, lots.last(), f);
        } else {
            assert(f(lots[lots.len() - 1]) == 0);
        }
    }
}

proof fn lemma_index_sum_ext(s: Seq<usize>, g1: spec_fn(int) -> int, g2: spec_fn(int) -> int)
    requires
        forall|i: int| 0 <= i < s.len() ==> g1(#[trigger] s[i] as int) == g2(s[i] as int),
    ensures
        index_sum(s, g1) == index_sum(s, g2),
    decreases s.len(),
{
    if s.len() > 0 {
        let d = s.drop_last();
        assert forall|i: int| 0 <= i < d.len() implies g1(#[trigger] d[i] as int) == g2(d[i] as int) by {
            assert(d[i] == s[i]);
        }
        lemma_index_sum_ext(d, g1, g2);
        assert(g1(s[s.len() - 1] as int) == g2(s[s.len() - 1] as int));
    }
}

proof fn lemma_index_sum_insert(s: Seq<usize>, j: int, x: usize, g: spec_fn(int) -> int)
    requires
        0 <= j <= s.len(),
    ensures
        index_sum(s.insert(j, x), g) == index_sum(s, g) + g(x as int),
    decreases s.len(),
{
    if j == s.len() {
        assert(s.insert(j, x) =~= s.push(x));
        assert(s.push(x).drop_last() =~= s);
    } else {
        lemma_index_sum_insert(s.drop_last(), j, x, g);
        assert(s.insert(j, x).drop_last() =~= s.drop_last().insert(j, x));
        assert(s.insert(j, x).last() == s.last());
    }
}

proof fn lemma_index_sum_cons(a: usize, t: Seq<usize>, g: spec_fn(int) -> int)
    ensures
        index_sum(seq![a] + t, g) == g(a as int) + index_sum(t, g),
    decreases t.len(),
{
    if t.len() == 0 {
        let u = seq![a] + t;
        assert(u =~= seq![a]);
        assert(u.drop_last() =~= Seq::<usize>::empty());
        assert(index_sum(u, g) == index_sum(u.drop_last(), g) + g(u.last() as int));
        assert(u.last() == a);
    } else {
        lemma_index_sum_cons(a, t.drop_last(), g);
        assert((seq![a] + t).drop_last() =~= seq![a] + t.drop_last());
        assert((seq![a] + t).last() == t.last());
    }
}

proof fn lemma_index_sum_nonneg(s: Seq<usize>, g: spec_fn(int) -> int)
    requires
        forall|i: int| 0 <= i < s.len() ==> g(#[trigger] s[i] as int) >= 0,
    ensures
        index_sum(s, g) >= 0,
    decreases s.len(),
{
    if s.len() > 0 {
        let d = s.drop_last();
        assert forall|i: int| 0 <= i < d.len() implies g(#[trigger] d[i] as int) >= 0 by {
            assert(d[i] == s[i]);
        }
        lemma_index_sum_nonneg(d, g);
        assert(g(s[s.len() - 1] as int) >= 0);
    }
}

/// A method's order of `n` lots sums a term over each of them once.
proof fn lemma_sort_sum(method: CostBasisMethod, lots: Seq<Lot>, n: nat, g: spec_fn(int) -> int)
    requires
        n <= usize::MAX,
    ensures
        index_sum(sort_prefix(method, lots, n), g) == range_sum(n as int, g),
    decreases n,
{
    if n > 0 {
        let s = sort_prefix(method, lots, (n - 1) as nat);
        lemma_sort_sum(method, lots, (n - 1) as nat, g);
        let j = lemma_insert_ordered_shape(method, lots, s, (n - 1) as usize);
        lemma_index_sum_insert(s, j, (n - 1) as usize, g);
    }
}

proof fn lemma_range_sum_ext(n: int, g1: spec_fn(int) -> int, g2: spec_fn(int) -> int)
    requires
        forall|i: int| 0 <= i < n ==> #[trigger] g1(i) == g2(i),
    ensures
        range_sum(n, g1) == range_sum(n, g2),
    decreases n,
{
    if n > 0 {
        lemma_range_sum_ext(n - 1, g1, g2);
        assert(g1(n - 1) == g2(n - 1));
    }
}

proof fn lemma_range_sum_nonneg(n: int, g: spec_fn(int) -> int)
    requires
        forall|i: int| 0 <= i < n ==> #[trigger] g(i) >= 0,
    ensures
        range_sum(n, g) >= 0,
        n > 0 ==> range_sum(n - 1, g) <= range_sum(n, g),
    decreases n,
{
    if n > 0 {
        lemma_range_sum_nonneg(n - 1, g);
        assert(g(n - 1) >= 0);
    }
}

// ---------------------------------------------------------------------------
// Whole-number lots
// ---------------------------------------------------------------------------

/// A lot of whole units and whole basis, both within a mantissa, whose basis
/// divides evenly over its units (nothing when it is empty), with no gift
/// data.
pub open spec fn lot_whole(l: Lot) -> bool {
    &&& l.quantity@.1 == 0
    &&& l.cost_basis@.1 == 0
    &&& 0 <= l.quantity@.0 <= MAX_MANTISSA
    &&& 0 <= l.cost_basis@.0 <= MAX_MANTISSA
    &&& l.quantity@.0 == 0 ==> l.cost_basis@.0 == 0
    &&& l.quantity@.0 > 0 ==> l.cost_basis@.0 % l.quantity@.0 == 0
    &&& l.gift is None
}

/// A slice of whole, non-negative units and basis, with no gift data.
pub open spec fn slice_whole(c: Consumed) -> bool {
    &&& c.quantity@.1 == 0
    &&& c.cost_basis@.1 == 0
    &&& 0 <= c.quantity@.0
    &&& 0 <= c.cost_basis@.0
    &&& c.gift is None
}

/// The units of the pool lot at pool index `j`.
pub open spec fn pool_term(lots: Seq<Lot>, pool: Seq<usize>) -> spec_fn(int) -> int {
    |j: int| lots[pool[j] as int].quantity@.0 as int
}

/// The positions of a pool rise strictly.
proof fn lemma_pool_rising(lots: Seq<Lot>, asset: String, wallet: String)
    requires
        lots.len() <= usize::MAX,
    ensures
        forall|i: int, j: int|
            0 <= i < j < pool_positions(lots, asset, wallet).len() ==> #[trigger] pool_positions(lots, asset, wallet)[i]
                < #[trigger] pool_positions(lots, asset, wallet)[j],
    decreases lots.len(),
{
    if lots.len() > 0 {
        let d = lots.drop_last();
        lemma_pool_rising(d, asset, wallet);
        lemma_pool_positions(d, asset, wallet);
        let r = pool_positions(d, asset, wallet);
        let q = pool_positions(lots, asset, wallet);
        assert forall|i: int, j: int| 0 <= i < j < q.len() implies #[trigger] q[i] < #[trigger] q[j] by {
            assert(q[i] == r[i]);
            if j < r.len() {
                assert(q[j] == r[j]);
            } else {
                assert(q[j] == lots.len() - 1);
            }
        }
    }
}

/// The units of a pool, summed over its positions, are its units.
proof fn lemma_pool_units(lots: Seq<Lot>, asset: String, wallet: String)
    requires
        lots.len() <= usize::MAX,
    ensures
        range_sum(
            pool_positions(lots, asset, wallet).len() as int,
            pool_term(lots, pool_positions(lots, asset, wallet)),
        ) == lot_sum(lots, pool_units(asset, wallet)),
    decreases lots.len(),
{
    if lots.len() > 0 {
        let d = lots.drop_last();
        lemma_pool_units(d, asset, wallet);
        lemma_pool_positions(d, asset, wallet);
        let r = pool_positions(d, asset, wallet);
        let q = pool_positions(lots, asset, wallet);
        assert forall|i: int| 0 <= i < r.len() implies #[trigger] pool_term(d, r)(i) == pool_term(lots, q)(i) by {
            assert(q[i] == r[i]);
            assert(d[r[i] as int] == lots[r[i] as int]);
        }
        lemma_range_sum_ext(r.len() as int, pool_term(d, r), pool_term(lots, q));
        if in_pool(lots.last(), asset, wallet) {
            assert(q[r.len() as int] == lots.len() - 1);
        }
    }
}

/// Summing whole non-negative units that stay within a mantissa is exact.
proof fn lemma_sum_field_whole(lots: Seq<Lot>, pos: Seq<usize>)
    requires
        forall|j: int|
            0 <= j < pos.len() ==> #[trigger] pos[j] < lots.len() && lots[pos[j] as int].quantity@.1 == 0
                && lots[pos[j] as int].quantity@.0 >= 0,
        range_sum(pos.len() as int, pool_term(lots, pos)) <= MAX_MANTISSA,
    ensures
        sum_field(lots, pos, false) is Some,
        sum_field(lots, pos, false).unwrap()@.0 == range_sum(pos.len() as int, pool_term(lots, pos)),
        sum_field(lots, pos, false).unwrap()@.1 == 0,
    decreases pos.len(),
{
    if pos.len() == 0 {
        crate::decimal::lemma_dec_of(crate::decimal::dec_zero(), (0i128, 0u32, false));
    } else {
        let d = pos.drop_last();
        assert forall|j: int| 0 <= j < pos.len() implies #[trigger] pool_term(lots, pos)(j) >= 0 by {
            assert(pos[j] < lots.len());
        }
        lemma_range_sum_nonneg(pos.len() as int, pool_term(lots, pos));
        assert forall|i: int| 0 <= i < d.len() implies #[trigger] pool_term(lots, d)(i) == pool_term(lots, pos)(i) by {
            assert(d[i] == pos[i]);
        }
        lemma_range_sum_ext(d.len() as int, pool_term(lots, d), pool_term(lots, pos));
        assert forall|j: int| 0 <= j < d.len() implies #[trigger] d[j] < lots.len() && lots[d[j] as int].quantity@.1 == 0
            && lots[d[j] as int].quantity@.0 >= 0 by {
            assert(d[j] == pos[j]);
        }
        lemma_sum_field_whole(lots, d);
        let acc = sum_field(lots, d, false).unwrap();
        let q = lots[pos.last() as int].quantity;
        assert(pos.last() == pos[pos.len() - 1]);
        lemma_whole_add(acc, q);
    }
}

/// Taking `take` units from a whole lot of `b` basis and `q` units at the
/// unit cost `b / q` leaves a whole lot.
proof fn lemma_take_arith(q: int, b: int, take: int)
    requires
        0 < take <= q,
        0 <= b,
        b % q == 0,
    ensures
        0 <= (b / q) * take <= b,
        b - (b / q) * take == (b / q) * (q - take),
        q - take > 0 ==> ((b / q) * (q - take)) % (q - take) == 0,
        q - take == 0 ==> b - (b / q) * take == 0,
{
    let u = b / q;
    vstd::arithmetic::div_mod::lemma_fundamental_div_mod(b, q);
    assert(b == q * u);
    assert(u >= 0) by (nonlinear_arith)
        requires
            b == q * u,
            q > 0,
            b >= 0,
    ;
    assert(0 <= u * take <= u * q) by (nonlinear_arith)
        requires
            0 < take <= q,
            u >= 0,
    ;
    assert(u * q == q * u) by (nonlinear_arith);
    assert(b - u * take == u * (q - take)) by (nonlinear_arith)
        requires
            b == q * u,
    ;
    if q - take > 0 {
        vstd::arithmetic::div_mod::lemma_mod_multiples_basic(u, q - take);
    }
}

/// Ordered consumption from step `k` on, over whole lots, moves basis and
/// units from the lots into the slices without loss, takes all the
/// `remaining` units when the unvisited lots hold them, changes only lots of
/// its pool (keeping their identity) and leaves every lot whole.
#[verifier::rlimit(40)]
proof fn lemma_ordered_conserves(
    lots: Seq<Lot>,
    pool: Seq<usize>,
    order: Seq<usize>,
    k: int,
    remaining: Dec,
    out: Seq<Consumed>,
    asset: String,
    wallet: String,
)
    requires
        0 <= k <= order.len(),
        forall|j: int|
            0 <= j < pool.len() ==> (#[trigger] pool[j]) < lots.len() && in_pool(lots[pool[j] as int], asset, wallet),
        forall|i: int, j: int| 0 <= i < j < pool.len() ==> #[trigger] pool[i] != #[trigger] pool[j],
        positions_valid(order, pool.len() as int),
        forall|i: int, j: int| 0 <= i < j < order.len() ==> #[trigger] order[i] != #[trigger] order[j],
        forall|i: int| 0 <= i < lots.len() ==> lot_whole(#[trigger] lots[i]),
        forall|i: int| 0 <= i < out.len() ==> slice_whole(#[trigger] out[i]),
        remaining@.1 == 0,
        0 <= remaining@.0 <= MAX_MANTISSA,
        remaining@.0 <= index_sum(order.skip(k), pool_term(lots, pool)),
        ordered_from(lots, pool, order, k, remaining, out) is Some,
    ensures
        ({
            let (l2, o2) = ordered_from(lots, pool, order, k, remaining, out).unwrap();
            &&& l2.len() == lots.len()
            &&& forall|i: int|
                0 <= i < lots.len() ==> #[trigger] l2[i] == lots[i] || (in_pool(lots[i], asset, wallet) && same_identity(
                    l2[i],
                    lots[i],
                ))
            &&& forall|i: int| 0 <= i < l2.len() ==> lot_whole(#[trigger] l2[i])
            &&& forall|i: int| 0 <= i < l2.len() ==> (#[trigger] l2[i]).quantity@.0 <= lots[i].quantity@.0
            &&& forall|i: int| 0 <= i < o2.len() ==> slice_whole(#[trigger] o2[i])
            &&& lot_sum(l2, lot_basis()) + slice_sum(o2, slice_basis()) == lot_sum(lots, lot_basis()) + slice_sum(
                out,
                slice_basis(),
            )
            &&& lot_sum(l2, pool_units(asset, wallet)) + slice_sum(o2, slice_units()) == lot_sum(
                lots,
                pool_units(asset, wallet),
            ) + slice_sum(out, slice_units())
            &&& slice_sum(o2, slice_units()) == slice_sum(out, slice_units()) + remaining@.0
        }),
    decreases order.len() - k,
{
    let g = pool_term(lots, pool);
    if k < order.len() {
        assert(order.skip(k) =~= seq![order[k]] + order.skip(k + 1));
        lemma_index_sum_cons(order[k], order.skip(k + 1), g);
        assert forall|i: int| 0 <= i < order.skip(k + 1).len() implies g(#[trigger] order.skip(k + 1)[i] as int) >= 0 by {
            assert(order.skip(k + 1)[i] == order[k + 1 + i]);
            assert(order[k + 1 + i] < pool.len());
        }
        lemma_index_sum_nonneg(order.skip(k + 1), g);
    }
    if k < order.len() && remaining.is_pos_spec() {
        let p = pool[order[k] as int] as int;
        let l = lots[p];
        assert(0 <= order[k] < pool.len());
        assert(lot_whole(lots[p]));
        lemma_whole_order(remaining, l.quantity);
        let take = remaining.min_spec(l.quantity);
        if !take.is_pos_spec() {
            lemma_ordered_conserves(lots, pool, order, k + 1, remaining, out, asset, wallet);
        } else {
            let q = l.quantity@.0 as int;
            let b = l.cost_basis@.0 as int;
            let t = take@.0 as int;
            lemma_take_arith(q, b, t);
            lemma_whole_div(l.cost_basis, l.quantity);
            let unit = l.unit_cost_spec().unwrap();
            lemma_whole_mul(unit, take);
            let basis = unit.spec_mul(take).unwrap();
            lemma_whole_sub(l.quantity, take);
            lemma_whole_sub(l.cost_basis, basis);
            lemma_whole_sub(remaining, take);
            let nq = l.quantity.spec_sub(take).unwrap();
            let nb = l.cost_basis.spec_sub(basis).unwrap();
            let nr = remaining.spec_sub(take).unwrap();
            let nl = with_amounts(l, nq, nb);
            let lots2 = lots.update(p, nl);
            let c = slice_of(l, take, basis);
            let out2 = out.push(c);
            assert(lot_whole(nl));
            lemma_lot_sum_update(lots, p, nl, lot_basis());
            lemma_lot_sum_update(lots, p, nl, pool_units(asset, wallet));
            lemma_slice_sum_push(out, c, slice_basis());
            lemma_slice_sum_push(out, c, slice_units());
            assert forall|i: int| 0 <= i < lots2.len() implies lot_whole(#[trigger] lots2[i]) by {
                if i != p {
                    assert(lots2[i] == lots[i]);
                }
            }
            assert forall|i: int| 0 <= i < out2.len() implies slice_whole(#[trigger] out2[i]) by {
                if i < out.len() {
                    assert(out2[i] == out[i]);
                }
            }
            assert forall|j: int| 0 <= j < pool.len() implies (#[trigger] pool[j]) < lots2.len() && in_pool(
                lots2[pool[j] as int],
                asset,
                wallet,
            ) by {
                if pool[j] as int != p {
                    assert(lots2[pool[j] as int] == lots[pool[j] as int]);
                }
            }
            let g2 = pool_term(lots2, pool);
            assert forall|i: int| 0 <= i < order.skip(k + 1).len() implies g(#[trigger] order.skip(k + 1)[i] as int) == g2(
                order.skip(k + 1)[i] as int,
            ) by {
                let m = k + 1 + i;
                assert(order.skip(k + 1)[i] == order[m]);
                assert(order[m] != order[k]);
                assert(order[m] < pool.len());
                assert(pool[order[m] as int] != pool[order[k] as int]);
            }
            lemma_index_sum_ext(order.skip(k + 1), g, g2);
            lemma_ordered_conserves(lots2, pool, order, k + 1, nr, out2, asset, wallet);
            let (l3, o3) = ordered_from(lots2, pool, order, k + 1, nr, out2).unwrap();
            assert forall|i: int| 0 <= i < lots.len() implies #[trigger] l3[i] == lots[i] || (in_pool(
                lots[i],
                asset,
                wallet,
            ) && same_identity(l3[i], lots[i])) by {
                if i != p {
                    assert(lots2[i] == lots[i]);
                } else {
                    assert(same_identity(lots2[p], lots[p]));
                    assert(in_pool(lots2[p], asset, wallet));
                }
            }
            assert forall|i: int| 0 <= i < l3.len() implies (#[trigger] l3[i]).quantity@.0 <= lots[i].quantity@.0 by {
                assert(l3[i].quantity@.0 <= lots2[i].quantity@.0);
                if i != p {
                    assert(lots2[i] == lots[i]);
                }
            }
        }
    }
}

proof fn lemma_lot_sum_ext2(l1: Seq<Lot>, l2: Seq<Lot>, f: spec_fn(Lot) -> int)
    requires
        l1.len() == l2.len(),
        forall|i: int| 0 <= i < l1.len() ==> f(#[trigger] l1[i]) == f(l2[i]),
    ensures
        lot_sum(l1, f) == lot_sum(l2, f),
    decreases l1.len(),
{
    if l1.len() > 0 {
        let (d1, d2) = (l1.drop_last(), l2.drop_last());
        assert forall|i: int| 0 <= i < d1.len() implies f(#[trigger] d1[i]) == f(d2[i]) by {
            assert(d1[i] == l1[i] && d2[i] == l2[i]);
        }
        lemma_lot_sum_ext2(d1, d2, f);
        assert(f(l1[l1.len() - 1]) == f(l2[l1.len() - 1]));
    }
}

proof fn lemma_lot_sum_mono(l1: Seq<Lot>, l2: Seq<Lot>, f: spec_fn(Lot) -> int, g: spec_fn(Lot) -> int)
    requires
        l1.len() == l2.len(),
        forall|i: int| 0 <= i < l1.len() ==> f(#[trigger] l1[i]) <= g(l2[i]),
    ensures
        lot_sum(l1, f) <= lot_sum(l2, g),
    decreases l1.len(),
{
    if l1.len() > 0 {
        let (d1, d2) = (l1.drop_last(), l2.drop_last());
        assert forall|i: int| 0 <= i < d1.len() implies f(#[trigger] d1[i]) <= g(d2[i]) by {
            assert(d1[i] == l1[i] && d2[i] == l2[i]);
        }
        lemma_lot_sum_mono(d1, d2, f, g);
        assert(f(l1[l1.len() - 1]) <= g(l2[l1.len() - 1]));
    }
}

/// A lot's units, whatever its pool.
pub open spec fn all_units() -> spec_fn(Lot) -> int {
    |l: Lot| l.quantity@.0 as int
}

/// The sum of the cost bases of realized rows (their mantissas).
pub open spec fn row_sum(rows: Seq<RealizedGain>) -> int
    decreases rows.len(),
{
    if rows.len() == 0 {
        0
    } else {
        row_sum(rows.drop_last()) + rows.last().cost_basis@.0
    }
}

/// Every realized row has a whole, non-negative cost basis.
pub open spec fn rows_whole(rows: Seq<RealizedGain>) -> bool {
    forall|i: int| 0 <= i < rows.len() ==> (#[trigger] rows[i]).cost_basis@.1 == 0 && rows[i].cost_basis@.0 >= 0
}

proof fn lemma_realize_basis(
    consumed: Seq<Consumed>,
    k: int,
    quantity: Dec,
    total: Dec,
    asset: String,
    wallet: String,
    at: Timestamp,
    acc: Seq<RealizedGain>,
)
    requires
        0 <= k <= consumed.len(),
        realize_from(consumed, k, quantity, total, asset, wallet, at, acc) is Some,
        forall|j: int| 0 <= j < consumed.len() ==> slice_whole(#[trigger] consumed[j]),
        rows_whole(acc),
    ensures
        rows_whole(realize_from(consumed, k, quantity, total, asset, wallet, at, acc).unwrap()),
        row_sum(realize_from(consumed, k, quantity, total, asset, wallet, at, acc).unwrap()) == row_sum(acc)
            + slice_sum(consumed, slice_basis()) - slice_sum(consumed.take(k), slice_basis()),
    decreases consumed.len() - k,
{
    if k < consumed.len() {
        let c = consumed[k];
        assert(slice_whole(c));
        let share = c.quantity.spec_div(quantity).unwrap();
        let proceeds = total.spec_mul(share).unwrap();
        let (gain, basis) = gain_for_spec(c, proceeds).unwrap();
        let row = gain_row(c, asset, wallet, at, proceeds, gain, basis);
        let acc2 = acc.push(row);
        assert(acc2.drop_last() =~= acc);
        assert forall|i: int| 0 <= i < acc2.len() implies (#[trigger] acc2[i]).cost_basis@.1 == 0
            && acc2[i].cost_basis@.0 >= 0 by {
            if i < acc.len() {
                assert(acc2[i] == acc[i]);
            }
        }
        assert(consumed.take(k + 1).drop_last() =~= consumed.take(k));
        lemma_realize_basis(consumed, k + 1, quantity, total, asset, wallet, at, acc2);
    } else {
        assert(consumed.take(k) =~= consumed);
    }
}

/// Dropping emptied pool lots keeps whole lots whole and never adds lots.
proof fn lemma_retain_whole(lots: Seq<Lot>, asset: String, wallet: String)
    requires
        forall|i: int| 0 <= i < lots.len() ==> lot_whole(#[trigger] lots[i]),
    ensures
        forall|i: int|
            0 <= i < retain_pool(lots, asset, wallet).len() ==> lot_whole(#[trigger] retain_pool(lots, asset, wallet)[i]),
        retain_pool(lots, asset, wallet).len() <= lots.len(),
    decreases lots.len(),
{
    if lots.len() > 0 {
        let d = lots.drop_last();
        assert forall|i: int| 0 <= i < d.len() implies lot_whole(#[trigger] d[i]) by {
            assert(d[i] == lots[i]);
        }
        lemma_retain_whole(d, asset, wallet);
        let r1 = retain_pool(d, asset, wallet);
        let r = retain_pool(lots, asset, wallet);
        assert forall|i: int| 0 <= i < r.len() implies lot_whole(#[trigger] r[i]) by {
            if i < r1.len() {
                assert(r[i] == r1[i]);
            } else {
                assert(r[i] == lots[lots.len() - 1]);
            }
        }
    }
}

/// Under FIFO, LIFO or HIFO, a disposal from whole lots moves the basis it
/// consumes into its realized rows, and takes exactly its units from its
/// pool, touching no other pool.
#[verifier::rlimit(40)]
proof fn lemma_dispose_conserves(
    s: ReplayState,
    orig_index: usize,
    asset: String,
    wallet: String,
    quantity: Dec,
    total: Dec,
    at: Timestamp,
    method: CostBasisMethod,
    selection: Map<usize, Vec<LotPick>>,
)
    requires
        method == CostBasisMethod::Fifo || method == CostBasisMethod::Lifo || method == CostBasisMethod::Hifo,
        s.lots.len() <= usize::MAX,
        forall|i: int| 0 <= i < s.lots.len() ==> lot_whole(#[trigger] s.lots[i]),
        rows_whole(s.realized),
        quantity@.1 == 0,
        quantity@.0 > 0,
        lot_sum(s.lots, all_units()) <= MAX_MANTISSA,
        dispose_spec(s, orig_index, asset, wallet, quantity, total, at, method, selection) is Ok,
    ensures
        ({
            let s2 = dispose_spec(s, orig_index, asset, wallet, quantity, total, at, method, selection).unwrap();
            &&& forall|i: int| 0 <= i < s2.lots.len() ==> lot_whole(#[trigger] s2.lots[i])
            &&& rows_whole(s2.realized)
            &&& s2.lots.len() <= s.lots.len()
            &&& row_sum(s2.realized) + lot_sum(s2.lots, lot_basis()) == row_sum(s.realized) + lot_sum(
                s.lots,
                lot_basis(),
            )
            &&& forall|a2: String, w2: String|
                #[trigger] lot_sum(s2.lots, pool_units(a2, w2)) == lot_sum(s.lots, pool_units(a2, w2)) - (if a2@
                    == asset@ && w2@ == wallet@ {
                    quantity@.0 as int
                } else {
                    0int
                })
            &&& lot_sum(s2.lots, all_units()) <= lot_sum(s.lots, all_units())
        }),
{
    let lots = s.lots;
    let pool = pool_positions(lots, asset, wallet);
    lemma_pool_positions(lots, asset, wallet);
    lemma_pool_rising(lots, asset, wallet);
    lemma_pool_units(lots, asset, wallet);
    let pu = pool_units(asset, wallet);
    assert forall|i: int| 0 <= i < lots.len() implies pu(#[trigger] lots[i]) <= all_units()(lots[i]) && pu(lots[i]) >= 0
        && all_units()(lots[i]) >= 0 by {
        assert(lot_whole(lots[i]));
    }
    lemma_lot_sum_mono(lots, lots, pu, all_units());
    assert forall|j: int| 0 <= j < pool.len() implies #[trigger] pool[j] < lots.len() && lots[pool[j] as int].quantity@.1
        == 0 && lots[pool[j] as int].quantity@.0 >= 0 by {
        assert(lot_whole(lots[pool[j] as int]));
    }
    lemma_sum_field_whole(lots, pool);
    let available = sum_field(lots, pool, false).unwrap();
    lemma_whole_order(available, quantity);
    assert(!available.lt(quantity));
    let pl = lots_at(lots, pool);
    let order = order_spec(method, pl).unwrap();
    crate::method::lemma_sort_prefix_sorted(method, pl, pl.len());
    lemma_sort_sum(method, pl, pl.len(), pool_term(lots, pool));
    assert(order.skip(0) =~= order);
    assert forall|i: int, j: int| 0 <= i < j < order.len() implies #[trigger] order[i] != #[trigger] order[j] by {}
    lemma_ordered_conserves(lots, pool, order, 0, quantity, Seq::empty(), asset, wallet);
    let (l2, out) = ordered_from(lots, pool, order, 0, quantity, Seq::empty()).unwrap();
    let l3 = retain_pool(l2, asset, wallet);
    let s2 = dispose_spec(s, orig_index, asset, wallet, quantity, total, at, method, selection).unwrap();
    assert(s2.lots == l3);
    lemma_retain_whole(l2, asset, wallet);
    assert forall|i: int|
        0 <= i < l2.len() && in_pool(#[trigger] l2[i], asset, wallet) && !l2[i].quantity.is_pos_spec() implies lot_basis()(
        l2[i]) == 0 && pu(l2[i]) == 0 && all_units()(l2[i]) == 0 by {
        assert(lot_whole(l2[i]));
    }
    lemma_lot_sum_retain(l2, asset, wallet, lot_basis());
    lemma_lot_sum_retain(l2, asset, wallet, pu);
    lemma_lot_sum_retain(l2, asset, wallet, all_units());
    assert(slice_sum(Seq::<Consumed>::empty(), slice_basis()) == 0);
    assert(slice_sum(Seq::<Consumed>::empty(), slice_units()) == 0);
    assert(rows_whole(s.realized));
    lemma_realize_basis(out, 0, quantity, total, asset, wallet, at, s.realized);
    assert(out.take(0) =~= Seq::<Consumed>::empty());
    assert forall|i: int| 0 <= i < l2.len() implies all_units()(#[trigger] l2[i]) <= all_units()(lots[i]) by {}
    lemma_lot_sum_mono(l2, lots, all_units(), all_units());
    assert forall|a2: String, w2: String|
        #[trigger] lot_sum(s2.lots, pool_units(a2, w2)) == lot_sum(s.lots, pool_units(a2, w2)) - (if a2@ == asset@ && w2@
            == wallet@ {
            quantity@.0 as int
        } else {
            0int
        }) by {
        let f = pool_units(a2, w2);
        assert forall|i: int|
            0 <= i < l2.len() && in_pool(#[trigger] l2[i], asset, wallet) && !l2[i].quantity.is_pos_spec() implies f(l2[i])
            == 0 by {
            assert(lot_whole(l2[i]));
        }
        lemma_lot_sum_retain(l2, asset, wallet, f);
        if a2@ == asset@ && w2@ == wallet@ {
            assert forall|i: int| 0 <= i < l2.len() implies f(#[trigger] l2[i]) == pu(l2[i]) by {}
            lemma_lot_sum_ext(l2, f, pu);
            assert forall|i: int| 0 <= i < lots.len() implies f(#[trigger] lots[i]) == pu(lots[i]) by {}
            lemma_lot_sum_ext(lots, f, pu);
        } else {
            assert forall|i: int| 0 <= i < l2.len() implies f(#[trigger] l2[i]) == f(lots[i]) by {
                if l2[i] != lots[i] {
                    assert(in_pool(lots[i], asset, wallet) && same_identity(l2[i], lots[i]));
                }
            }
            lemma_lot_sum_ext2(l2, lots, f);
        }
    }
}

// ---------------------------------------------------------------------------
// Ledgers of purchases and sales
// ---------------------------------------------------------------------------

/// A purchase of a positive whole number of units at a whole, non-negative
/// price and no fee, or a sale of a positive whole number of units.
pub open spec fn plain_event(tx: Transaction) -> bool {
    match tx {
        Transaction::Buy { quantity, unit_price, fee, .. } => quantity@.1 == 0 && quantity@.0 > 0 && unit_price@.1 == 0
            && unit_price@.0 >= 0 && fee@.1 == 0 && fee@.0 == 0,
        Transaction::Sell { quantity, .. } => quantity@.1 == 0 && quantity@.0 > 0,
        _ => false,
    }
}

/// The basis an event buys: `quantity * unit_price` for a purchase.
pub open spec fn tx_basis() -> spec_fn(Transaction) -> int {
    |tx: Transaction|
        match tx {
            Transaction::Buy { quantity, unit_price, .. } => quantity@.0 * unit_price@.0,
            _ => 0int,
        }
}

/// The units an event buys, whatever the pool.
pub open spec fn tx_units() -> spec_fn(Transaction) -> int {
    |tx: Transaction|
        match tx {
            Transaction::Buy { quantity, .. } => quantity@.0 as int,
            _ => 0int,
        }
}

/// The units an event adds to the `(asset, wallet)` pool: a purchase there
/// adds its units, a sale there takes them away.
pub open spec fn tx_net(asset: String, wallet: String) -> spec_fn(Transaction) -> int {
    |tx: Transaction|
        match tx {
            Transaction::Buy { asset: a, wallet: w, quantity, .. } => if a@ == asset@ && w@ == wallet@ {
                quantity@.0 as int
            } else {
                0int
            },
            Transaction::Sell { asset: a, wallet: w, quantity, .. } => if a@ == asset@ && w@ == wallet@ {
                -(quantity@.0 as int)
            } else {
                0int
            },
            _ => 0int,
        }
}

/// `f` of the event at each input index.
pub open spec fn event_term(txs: Seq<Transaction>, f: spec_fn(Transaction) -> int) -> spec_fn(int) -> int {
    |i: int| f(txs[i])
}

proof fn lemma_row_sum_nonneg(rows: Seq<RealizedGain>)
    requires
        rows_whole(rows),
    ensures
        row_sum(rows) >= 0,
    decreases rows.len(),
{
    if rows.len() > 0 {
        let d = rows.drop_last();
        assert forall|i: int| 0 <= i < d.len() implies (#[trigger] d[i]).cost_basis@.1 == 0 && d[i].cost_basis@.0 >= 0 by {
            assert(d[i] == rows[i]);
        }
        lemma_row_sum_nonneg(d);
        assert(rows[rows.len() - 1].cost_basis@.0 >= 0);
    }
}

/// One purchase or sale of a plain ledger keeps every lot whole, adds the
/// basis it buys, and changes each pool by its net units.
#[verifier::rlimit(40)]
proof fn lemma_step_conserves(
    s: ReplayState,
    orig_index: usize,
    tx: Transaction,
    method: CostBasisMethod,
    selection: Map<usize, Vec<LotPick>>,
)
    requires
        method == CostBasisMethod::Fifo || method == CostBasisMethod::Lifo || method == CostBasisMethod::Hifo,
        plain_event(tx),
        s.lots.len() < usize::MAX,
        forall|i: int| 0 <= i < s.lots.len() ==> lot_whole(#[trigger] s.lots[i]),
        rows_whole(s.realized),
        row_sum(s.realized) + lot_sum(s.lots, lot_basis()) + tx_basis()(tx) <= MAX_MANTISSA,
        lot_sum(s.lots, all_units()) + tx_units()(tx) <= MAX_MANTISSA,
        process_spec(s, orig_index, tx, method, selection) is Ok,
    ensures
        ({
            let s2 = process_spec(s, orig_index, tx, method, selection).unwrap();
            &&& forall|i: int| 0 <= i < s2.lots.len() ==> lot_whole(#[trigger] s2.lots[i])
            &&& rows_whole(s2.realized)
            &&& s2.lots.len() <= s.lots.len() + 1
            &&& row_sum(s2.realized) + lot_sum(s2.lots, lot_basis()) == row_sum(s.realized) + lot_sum(
                s.lots,
                lot_basis(),
            ) + tx_basis()(tx)
            &&& forall|a2: String, w2: String|
                #[trigger] lot_sum(s2.lots, pool_units(a2, w2)) == lot_sum(s.lots, pool_units(a2, w2)) + tx_net(a2, w2)(
                    tx,
                )
            &&& lot_sum(s2.lots, all_units()) <= lot_sum(s.lots, all_units()) + tx_units()(tx)
        }),
{
    let s2 = process_spec(s, orig_index, tx, method, selection).unwrap();
    lemma_row_sum_nonneg(s.realized);
    assert forall|i: int| 0 <= i < s.lots.len() implies lot_basis()(#[trigger] s.lots[i]) >= 0 && all_units()(s.lots[i])
        >= 0 by {
        assert(lot_whole(s.lots[i]));
    }
    lemma_lot_sum_bound(s.lots, lot_basis());
    lemma_lot_sum_bound(s.lots, all_units());
    match tx {
        Transaction::Buy { timestamp, wallet, asset, quantity, unit_price, fee } => {
            let q = quantity@.0 as int;
            let p = unit_price@.0 as int;
            assert(q * p >= 0) by (nonlinear_arith)
                requires
                    q > 0,
                    p >= 0,
            ;
            lemma_whole_mul(quantity, unit_price);
            let cost = quantity.spec_mul(unit_price).unwrap();
            lemma_whole_add(cost, fee);
            let basis = cost.spec_add(fee).unwrap();
            vstd::arithmetic::div_mod::lemma_mod_multiples_basic(p, q);
            assert(p * q == q * p) by (nonlinear_arith);
            let l = s2.lots.last();
            assert(s2.lots == s.lots.push(l));
            assert(lot_whole(l));
            lemma_lot_sum_push(s.lots, l, lot_basis());
            lemma_lot_sum_push(s.lots, l, all_units());
            assert forall|i: int| 0 <= i < s2.lots.len() implies lot_whole(#[trigger] s2.lots[i]) by {
                if i < s.lots.len() {
                    assert(s2.lots[i] == s.lots[i]);
                }
            }
            assert forall|a2: String, w2: String|
                #[trigger] lot_sum(s2.lots, pool_units(a2, w2)) == lot_sum(s.lots, pool_units(a2, w2)) + tx_net(a2, w2)(
                    tx,
                ) by {
                lemma_lot_sum_push(s.lots, l, pool_units(a2, w2));
            }
        },
        Transaction::Sell { timestamp, wallet, asset, quantity, unit_price, fee } => {
            let gross = quantity.spec_mul(unit_price).unwrap();
            let proceeds = gross.spec_sub(fee).unwrap();
            lemma_dispose_conserves(s, orig_index, asset, wallet, quantity, proceeds, timestamp, method, selection);
        },
        _ => {},
    }
}

/// Where `insert_by_time` puts the new index.
proof fn lemma_insert_by_time_shape(txs: Seq<Transaction>, s: Seq<usize>, x: usize) -> (j: int)
    ensures
        0 <= j <= s.len(),
        insert_by_time(txs, s, x) == s.insert(j, x),
    decreases s.len(),
{
    if s.len() == 0 {
        assert(s.insert(0, x) =~= seq![x]);
        0
    } else if txs[x as int].timestamp_spec().before(txs[s.last() as int].timestamp_spec()) {
        let j = lemma_insert_by_time_shape(txs, s.drop_last(), x);
        assert(s.insert(j, x) =~= s.drop_last().insert(j, x).push(s.last()));
        j
    } else {
        assert(s.insert(s.len() as int, x) =~= s.push(x));
        s.len() as int
    }
}

/// The processing order sums a term over each event once.
proof fn lemma_time_sum(txs: Seq<Transaction>, n: nat, g: spec_fn(int) -> int)
    requires
        n <= usize::MAX,
    ensures
        index_sum(time_order(txs, n), g) == range_sum(n as int, g),
    decreases n,
{
    if n > 0 {
        let s = time_order(txs, (n - 1) as nat);
        lemma_time_sum(txs, (n - 1) as nat, g);
        let j = lemma_insert_by_time_shape(txs, s, (n - 1) as usize);
        lemma_index_sum_insert(s, j, (n - 1) as usize, g);
    }
}

/// A prefix of non-negative terms sums to at most the whole.
proof fn lemma_index_sum_take_le(s: Seq<usize>, k: int, g: spec_fn(int) -> int)
    requires
        0 <= k <= s.len(),
        forall|i: int| 0 <= i < s.len() ==> g(#[trigger] s[i] as int) >= 0,
    ensures
        index_sum(s.take(k), g) <= index_sum(s, g),
    decreases s.len() - k,
{
    if k == s.len() {
        assert(s.take(k) =~= s);
    } else {
        lemma_index_sum_take_le(s, k + 1, g);
        assert(s.take(k + 1).drop_last() =~= s.take(k));
        assert(g(s[k] as int) >= 0);
    }
}

/// The state after the first `k` events of `o` has conserved basis and units.
pub open spec fn conserved_upto(txs: Seq<Transaction>, o: Seq<usize>, k: int, s: ReplayState) -> bool {
    &&& forall|i: int| 0 <= i < s.lots.len() ==> lot_whole(#[trigger] s.lots[i])
    &&& rows_whole(s.realized)
    &&& s.lots.len() <= k
    &&& row_sum(s.realized) + lot_sum(s.lots, lot_basis()) == index_sum(o.take(k), event_term(txs, tx_basis()))
    &&& forall|a2: String, w2: String|
        #[trigger] lot_sum(s.lots, pool_units(a2, w2)) == index_sum(o.take(k), event_term(txs, tx_net(a2, w2)))
    &&& lot_sum(s.lots, all_units()) <= index_sum(o.take(k), event_term(txs, tx_units()))
}

#[verifier::rlimit(40)]
proof fn lemma_replay_conserves(
    txs: Seq<Transaction>,
    o: Seq<usize>,
    k: int,
    s: ReplayState,
    method: CostBasisMethod,
    selection: Map<usize, Vec<LotPick>>,
)
    requires
        method == CostBasisMethod::Fifo || method == CostBasisMethod::Lifo || method == CostBasisMethod::Hifo,
        0 <= k <= o.len(),
        o.len() <= usize::MAX,
        positions_valid(o, txs.len() as int),
        forall|j: int| 0 <= j < txs.len() ==> plain_event(#[trigger] txs[j]),
        index_sum(o, event_term(txs, tx_basis())) <= MAX_MANTISSA,
        index_sum(o, event_term(txs, tx_units())) <= MAX_MANTISSA,
        conserved_upto(txs, o, k, s),
        replay_from(txs, o, k, s, method, selection) is Ok,
    ensures
        conserved_upto(txs, o, o.len() as int, replay_from(txs, o, k, s, method, selection).unwrap()),
    decreases o.len() - k,
{
    if k < o.len() {
        let i = o[k];
        let tx = txs[i as int];
        assert(i < txs.len());
        assert(plain_event(tx));
        assert forall|m: int| 0 <= m < o.len() implies event_term(txs, tx_basis())(#[trigger] o[m] as int) >= 0
            && event_term(txs, tx_units())(o[m] as int) >= 0 by {
            assert(o[m] < txs.len());
            let t = txs[o[m] as int];
            assert(plain_event(t));
            if let Transaction::Buy { quantity, unit_price, .. } = t {
                let q = quantity@.0 as int;
                let p = unit_price@.0 as int;
                assert(q * p >= 0) by (nonlinear_arith)
                    requires
                        q > 0,
                        p >= 0,
                ;
            }
        }
        assert(o.take(k + 1).drop_last() =~= o.take(k));
        assert(o.take(k + 1).last() == i);
        lemma_index_sum_take_le(o, k + 1, event_term(txs, tx_basis()));
        lemma_index_sum_take_le(o, k + 1, event_term(txs, tx_units()));
        lemma_step_conserves(s, i, tx, method, selection);
        let s1 = process_spec(s, i, tx, method, selection).unwrap();
        assert forall|a2: String, w2: String|
            #[trigger] lot_sum(s1.lots, pool_units(a2, w2)) == index_sum(o.take(k + 1), event_term(txs, tx_net(a2, w2))) by {
            assert(lot_sum(s.lots, pool_units(a2, w2)) == index_sum(o.take(k), event_term(txs, tx_net(a2, w2))));
        }
        assert(conserved_upto(txs, o, k + 1, s1));
        lemma_replay_conserves(txs, o, k + 1, s1, method, selection);
    }
}

/// Basis and units are conserved across disposals. For a ledger of
/// purchases of positive whole numbers of units at whole prices without fee,
/// and sales of positive whole numbers of units, replayed under FIFO, LIFO or
/// HIFO (totals of basis and units within a decimal mantissa): the cost basis
/// of the realized rows plus the cost basis of the lots still held equals the
/// sum of `quantity * unit_price` over the purchases, and the lots of every
/// `(asset, wallet)` pool hold the units bought there minus the units sold
/// there. All these amounts are whole, so their mantissas are their values.
pub proof fn law_basis_and_units_are_conserved(
    txs: Seq<Transaction>,
    method: CostBasisMethod,
    selection: Map<usize, Vec<LotPick>>,
    asset: String,
    wallet: String,
)
    requires
        method == CostBasisMethod::Fifo || method == CostBasisMethod::Lifo || method == CostBasisMethod::Hifo,
        txs.len() <= usize::MAX,
        forall|j: int| 0 <= j < txs.len() ==> plain_event(#[trigger] txs[j]),
        range_sum(txs.len() as int, event_term(txs, tx_basis())) <= MAX_MANTISSA,
        range_sum(txs.len() as int, event_term(txs, tx_units())) <= MAX_MANTISSA,
        replay_spec(txs, method, selection) is Ok,
    ensures
        ({
            let st = replay_spec(txs, method, selection).unwrap();
            &&& st.lots.len() <= txs.len()
            &&& forall|i: int|
                0 <= i < st.realized.len() ==> (#[trigger] st.realized[i]).cost_basis@.1 == 0
            &&& forall|i: int|
                0 <= i < st.lots.len() ==> (#[trigger] st.lots[i]).cost_basis@.1 == 0 && st.lots[i].quantity@.1 == 0
            &&& row_sum(st.realized) + lot_sum(st.lots, lot_basis()) == range_sum(
                txs.len() as int,
                event_term(txs, tx_basis()),
            )
            &&& lot_sum(st.lots, pool_units(asset, wallet)) == range_sum(
                txs.len() as int,
                event_term(txs, tx_net(asset, wallet)),
            )
        }),
{
    let n = txs.len();
    let o = time_order(txs, n);
    crate::engine::law_events_processed_chronologically(txs, n);
    lemma_time_sum(txs, n, event_term(txs, tx_basis()));
    lemma_time_sum(txs, n, event_term(txs, tx_units()));
    lemma_time_sum(txs, n, event_term(txs, tx_net(asset, wallet)));
    let s0 = initial_state(n);
    assert(o.take(0) =~= Seq::<usize>::empty());
    assert(conserved_upto(txs, o, 0, s0));
    lemma_replay_conserves(txs, o, 0, s0, method, selection);
    assert(o.take(o.len() as int) =~= o);
    let st = replay_spec(txs, method, selection).unwrap();
    assert forall|i: int| 0 <= i < st.lots.len() implies (#[trigger] st.lots[i]).cost_basis@.1 == 0
        && st.lots[i].quantity@.1 == 0 by {
        assert(lot_whole(st.lots[i]));
    }
    assert(lot_sum(st.lots, pool_units(asset, wallet)) == index_sum(o, event_term(txs, tx_net(asset, wallet))));
}

// ---------------------------------------------------------------------------
// The same law over the reported holdings
// ---------------------------------------------------------------------------

/// The sum of `f` over holdings.
pub open spec fn holding_sum(hs: Seq<Holding>, f: spec_fn(Holding) -> int) -> int
    decreases hs.len(),
{
    if hs.len() == 0 {
        0
    } else {
        holding_sum(hs.drop_last(), f) + f(hs.last())
    }
}

/// A holding's cost basis (its mantissa).
pub open spec fn holding_basis() -> spec_fn(Holding) -> int {
    |h: Holding| h.cost_basis@.0 as int
}

/// A holding's units when it is of the `(asset, wallet)` pool, else zero.
pub open spec fn holding_units(asset: String, wallet: String) -> spec_fn(Holding) -> int {
    |h: Holding|
        if h.asset@ == asset@ && h.wallet@ == wallet@ {
            h.quantity@.0 as int
        } else {
            0int
        }
}

/// `f` of the lot at each index.
pub open spec fn lot_term(lots: Seq<Lot>, f: spec_fn(Lot) -> int) -> spec_fn(int) -> int {
    |i: int| f(lots[i])
}

proof fn lemma_insert_holding_shape(lots: Seq<Lot>, s: Seq<usize>, x: usize) -> (j: int)
    ensures
        0 <= j <= s.len(),
        insert_holding(lots, s, x) == s.insert(j, x),
    decreases s.len(),
{
    if s.len() == 0 {
        assert(s.insert(0, x) =~= seq![x]);
        0
    } else if holding_before(lots, x as int, s.last() as int) {
        let j = lemma_insert_holding_shape(lots, s.drop_last(), x);
        assert(s.insert(j, x) =~= s.drop_last().insert(j, x).push(s.last()));
        j
    } else {
        assert(s.insert(s.len() as int, x) =~= s.push(x));
        s.len() as int
    }
}

proof fn lemma_holding_order_sum(lots: Seq<Lot>, n: nat, g: spec_fn(int) -> int)
    requires
        n <= usize::MAX,
    ensures
        index_sum(holding_order(lots, n), g) == range_sum(n as int, g),
    decreases n,
{
    if n > 0 {
        let s = holding_order(lots, (n - 1) as nat);
        lemma_holding_order_sum(lots, (n - 1) as nat, g);
        let j = lemma_insert_holding_shape(lots, s, (n - 1) as usize);
        lemma_index_sum_insert(s, j, (n - 1) as usize, g);
    }
}

proof fn lemma_lots_at_sum(lots: Seq<Lot>, pos: Seq<usize>, f: spec_fn(Lot) -> int)
    ensures
        lot_sum(lots_at(lots, pos), f) == index_sum(pos, lot_term(lots, f)),
    decreases pos.len(),
{
    if pos.len() > 0 {
        lemma_lots_at_sum(lots, pos.drop_last(), f);
        assert(lots_at(lots, pos).drop_last() =~= lots_at(lots, pos.drop_last()));
    }
}

proof fn lemma_range_lot_sum(lots: Seq<Lot>, f: spec_fn(Lot) -> int)
    ensures
        range_sum(lots.len() as int, lot_term(lots, f)) == lot_sum(lots, f),
    decreases lots.len(),
{
    if lots.len() > 0 {
        let d = lots.drop_last();
        lemma_range_lot_sum(d, f);
        assert forall|i: int| 0 <= i < d.len() implies #[trigger] lot_term(d, f)(i) == lot_term(lots, f)(i) by {
            assert(d[i] == lots[i]);
        }
        lemma_range_sum_ext(d.len() as int, lot_term(d, f), lot_term(lots, f));
    }
}

/// The reported holdings sum what the lots they list hold.
proof fn lemma_holding_rows_sum(lots: Seq<Lot>, asset: String, wallet: String)
    requires
        holding_rows(lots) is Some,
    ensures
        holding_sum(holding_rows(lots).unwrap(), holding_basis()) == lot_sum(lots, lot_basis()),
        holding_sum(holding_rows(lots).unwrap(), holding_units(asset, wallet)) == lot_sum(lots, pool_units(asset, wallet)),
    decreases lots.len(),
{
    if lots.len() > 0 {
        lemma_holding_rows_sum(lots.drop_last(), asset, wallet);
        let h = holding_rows(lots).unwrap();
        assert(h.drop_last() == holding_rows(lots.drop_last()).unwrap());
    }
}

/// Basis and units are conserved across disposals, as the portfolio reports
/// them. For a plain ledger (purchases of positive whole units at whole
/// prices without fee, sales of positive whole units) under FIFO, LIFO or
/// HIFO, with totals within a decimal mantissa: when the realized rows and
/// the holdings are reported, the realized cost basis plus the held cost
/// basis is the basis bought, and the holdings of each `(asset, wallet)`
/// hold the units bought there minus the units sold there.
pub proof fn law_reported_basis_and_units_are_conserved(
    txs: Seq<Transaction>,
    method: CostBasisMethod,
    asset: String,
    wallet: String,
)
    requires
        method == CostBasisMethod::Fifo || method == CostBasisMethod::Lifo || method == CostBasisMethod::Hifo,
        txs.len() <= usize::MAX,
        forall|j: int| 0 <= j < txs.len() ==> plain_event(#[trigger] txs[j]),
        range_sum(txs.len() as int, event_term(txs, tx_basis())) <= MAX_MANTISSA,
        range_sum(txs.len() as int, event_term(txs, tx_units())) <= MAX_MANTISSA,
        holdings_result(txs, method) is Ok,
    ensures
        realized_of(auto_replay(txs, method)) is Ok,
        row_sum(realized_of(auto_replay(txs, method)).unwrap()) + holding_sum(
            holdings_result(txs, method).unwrap(),
            holding_basis(),
        ) == range_sum(txs.len() as int, event_term(txs, tx_basis())),
        holding_sum(holdings_result(txs, method).unwrap(), holding_units(asset, wallet)) == range_sum(
            txs.len() as int,
            event_term(txs, tx_net(asset, wallet)),
        ),
{
    let selection = Map::<usize, Vec<LotPick>>::empty();
    law_basis_and_units_are_conserved(txs, method, selection, asset, wallet);
    let st = replay_spec(txs, method, selection).unwrap();
    let lots = st.lots;
    let o = holding_order(lots, lots.len());
    let hl = holdings_spec(lots);
    lemma_holding_rows_sum(hl, asset, wallet);
    lemma_lots_at_sum(lots, o, lot_basis());
    lemma_lots_at_sum(lots, o, pool_units(asset, wallet));
    lemma_holding_order_sum(lots, lots.len(), lot_term(lots, lot_basis()));
    lemma_holding_order_sum(lots, lots.len(), lot_term(lots, pool_units(asset, wallet)));
    lemma_range_lot_sum(lots, lot_basis());
    lemma_range_lot_sum(lots, pool_units(asset, wallet));
}

} // verus!
