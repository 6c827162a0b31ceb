//! Cost-basis method selection and lot ordering.
//!
//! [`CostBasisMethod`] selects how disposals are matched to open lots. Under
//! [`CostBasisMethod::SpecificId`] the caller supplies a [`LotSelection`]
//! (a map from a disposal's original input index to the [`LotPick`]s it
//! consumes).

use vstd::prelude::*;
use std::collections::HashMap;
use crate::decimal::Dec;
use crate::lot::Lot;

verus! {

/// How disposals are matched against open lots.
#[derive(Clone, Copy, Debug, PartialEq, Eq, Structural)]
pub enum CostBasisMethod {
    /// Oldest lots consumed first.
    Fifo,
    /// Newest lots consumed first.
    Lifo,
    /// Highest unit-cost lots consumed first (minimizes realized gain).
    Hifo,
    /// All open units of an `(asset, wallet)` pool averaged into one lot.
    Average,
    /// Caller names the lots per disposal (see [`LotSelection`]).
    SpecificId,
}

/// A caller's choice of which acquisition to draw from for a Specific-ID
/// disposal. `acquisition_index` is the **original input index** of the
/// acquiring transaction.
#[derive(Clone, Copy, Debug, PartialEq)]
pub struct LotPick {
    /// Original input index of the acquisition to draw from.
    pub acquisition_index: usize,
    /// Units to draw from that acquisition's lot.
    pub quantity: Dec,
}

/// Map from a disposal's **original input index** to the lots it consumes.
/// Used only under [`CostBasisMethod::SpecificId`].
pub type LotSelection = HashMap<usize, Vec<LotPick>>;

/// `(acquired_at, lot_id)` of `a` is lexicographically below that of `b`.
pub open spec fn older(a: Lot, b: Lot) -> bool {
    a.acquired_at.before(b.acquired_at) || (a.acquired_at.order_key() == b.acquired_at.order_key()
        && a.lot_id < b.lot_id)
}

/// Lot `i` is consumed strictly before lot `j` under `method`:
/// FIFO (and the fallback for Average/Specific-ID) by `(acquired_at, lot_id)`
/// ascending; LIFO by `(acquired_at, lot_id)` descending; HIFO by unit cost
/// descending, then `lot_id` ascending.
pub open spec fn precedes(method: CostBasisMethod, lots: Seq<Lot>, i: int, j: int) -> bool {
    match method {
        CostBasisMethod::Lifo => older(lots[j], lots[i]),
        CostBasisMethod::Hifo => {
            let ui = lots[i].unit_cost_spec().unwrap();
            let uj = lots[j].unit_cost_spec().unwrap();
            uj.lt(ui) || (ui.same(uj) && lots[i].lot_id < lots[j].lot_id)
        },
        _ => older(lots[i], lots[j]),
    }
}

/// Stable insertion of index `x` into the ordered sequence `s`: `x` moves in
/// front of the trailing elements it strictly precedes.
pub open spec fn insert_ordered(method: CostBasisMethod, lots: Seq<Lot>, s: Seq<usize>, x: usize) -> Seq<usize>
    decreases s.len(),
{
    if s.len() == 0 {
        seq![x]
    } else if precedes(method, lots, x as int, s.last() as int) {
        insert_ordered(method, lots, s.drop_last(), x).push(s.last())
    } else {
        s.push(x)
    }
}

/// The stable order of the first `n` lot indices under `method`.
pub open spec fn sort_prefix(method: CostBasisMethod, lots: Seq<Lot>, n: nat) -> Seq<usize>
    decreases n,
{
    if n == 0 {
        Seq::empty()
    } else {
        insert_ordered(method, lots, sort_prefix(method, lots, (n - 1) as nat), (n - 1) as usize)
    }
}

/// Every lot has a unit cost (no division leaves the decimal range).
pub open spec fn unit_costs_defined(lots: Seq<Lot>) -> bool {
    forall|i: int| 0 <= i < lots.len() ==> (#[trigger] lots[i]).unit_cost_spec() is Some
}

/// What [`order_for`] returns: the stable order of all lot indices, or `None`
/// when HIFO must compare lots whose unit cost cannot be computed.
pub open spec fn order_spec(method: CostBasisMethod, lots: Seq<Lot>) -> Option<Seq<usize>> {
    if method == CostBasisMethod::Hifo && lots.len() >= 2 && !unit_costs_defined(lots) {
        None
    } else {
        Some(sort_prefix(method, lots, lots.len()))
    }
}

/// `s` lists `0..n`, each once.
pub open spec fn is_permutation(s: Seq<usize>, n: nat) -> bool {
    &&& s.len() == n
    &&& forall|k: int| 0 <= k < n ==> 0 <= #[trigger] s[k] < n
    &&& forall|k: int, l: int| 0 <= k < l < n ==> s[k] != s[l]
}

/// `s` is ordered by `precedes`, keeping the input order among ties.
pub open spec fn is_stable_ordered(method: CostBasisMethod, lots: Seq<Lot>, s: Seq<usize>) -> bool {
    forall|k: int, l: int|
        0 <= k < l < s.len() ==> !precedes(method, lots, s[l] as int, s[k] as int) && (
        precedes(method, lots, s[k] as int, s[l] as int) || s[k] < s[l])
}

/// Return the indices of `lots` in the order the given automatic method
/// consumes them. Ties break by `lot_id`, then by position. `Average` and
/// `SpecificId` fall back to FIFO order. `None` when HIFO must compare a lot
/// whose unit cost leaves the decimal range.
pub fn order_for(method: CostBasisMethod, lots: &[Lot]) -> (r: Option<Vec<usize>>)
    ensures
        r is Some <==> order_spec(method, lots@) is Some,
        r matches Some(v) ==> order_spec(method, lots@) == Some(v@),
        r matches Some(v) ==> v@.len() == lots@.len() && forall|k: int|
            0 <= k < v@.len() ==> #[trigger] v@[k] < lots@.len(),
        r matches Some(v) ==> is_permutation(v@, lots@.len()) && is_stable_ordered(method, lots@, v@),
{
    let n = lots.len();
    let mut units: Vec<Dec> = Vec::new();
    if method == CostBasisMethod::Hifo && n >= 2 {
        let mut k: usize = 0;
        while k < n
            invariant
                k <= n,
                n == lots@.len(),
                method == CostBasisMethod::Hifo,
                n >= 2,
                units@.len() == k,
                forall|m: int| 0 <= m < k ==> lots@[m].unit_cost_spec() == Some(#[trigger] units@[m]),
            decreases n - k,
        {
            match lots[k].cost_basis_per_unit() {
                Some(u) => units.push(u),
                None => {
                    assert(lots@[k as int].unit_cost_spec() is None);
                    assert(!unit_costs_defined(lots@));
                    assert(order_spec(method, lots@) is None);
                    return None;
                },
            }
            k = k + 1;
        }
    }
    let mut res: Vec<usize> = Vec::new();
    let mut i: usize = 0;
    while i < n
        invariant
            i <= n,
            n == lots@.len(),
            res@ == sort_prefix(method, lots@, i as nat),
            res@.len() == i,
            forall|m: int| 0 <= m < res@.len() ==> #[trigger] res@[m] < i,
            method == CostBasisMethod::Hifo && n >= 2 ==> units@.len() == n && forall|m: int|
                0 <= m < n ==> lots@[m].unit_cost_spec() == Some(#[trigger] units@[m]),
        decreases n - i,
    {
        let mut j: usize = res.len();
        while j > 0 && precedes_exec(method, lots, &units, i, res[j - 1])
            invariant
                j <= res@.len(),
                res@.len() == i,
                i < n,
                n == lots@.len(),
                forall|m: int| 0 <= m < res@.len() ==> #[trigger] res@[m] < i,
                forall|m: int| j <= m < res@.len() ==> precedes(method, lots@, i as int, #[trigger] res@[m] as int),
                method == CostBasisMethod::Hifo && n >= 2 ==> units@.len() == n && forall|m: int|
                    0 <= m < n ==> lots@[m].unit_cost_spec() == Some(#[trigger] units@[m]),
            decreases j,
        {
            j = j - 1;
        }
        proof {
            lemma_insert_at(method, lots@, res@, i, j as int);
        }
        res.insert(j, i);
        i = i + 1;
    }
    proof {
        if method == CostBasisMethod::Hifo && n >= 2 {
            assert forall|m: int| 0 <= m < lots@.len() implies (#[trigger] lots@[m]).unit_cost_spec() is Some by {
                assert(lots@[m].unit_cost_spec() == Some(units@[m]));
            }
        }
        lemma_sort_prefix_sorted(method, lots@, n as nat);
    }
    Some(res)
}

/// Inserting at the first position from which `x` precedes every element
/// is what `insert_ordered` does.
proof fn lemma_insert_at(method: CostBasisMethod, lots: Seq<Lot>, s: Seq<usize>, x: usize, j: int)
    requires
        0 <= j <= s.len(),
        forall|m: int| j <= m < s.len() ==> precedes(method, lots, x as int, #[trigger] s[m] as int),
        j > 0 ==> !precedes(method, lots, x as int, s[j - 1] as int),
    ensures
        insert_ordered(method, lots, s, x) == s.insert(j, x),
    decreases s.len(),
{
    if s.len() == 0 {
        assert(s.insert(j, x) =~= seq![x]);
    } else if j == s.len() {
        assert(s.insert(j, x) =~= s.push(x));
    } else {
        assert(precedes(method, lots, x as int, s.last() as int));
        lemma_insert_at(method, lots, s.drop_last(), x, j);
        assert(s.insert(j, x) =~= s.drop_last().insert(j, x).push(s.last()));
    }
}

/// Lot `i` precedes lot `j` under `method` (HIFO reads the precomputed unit
/// costs).
fn precedes_exec(method: CostBasisMethod, lots: &[Lot], units: &Vec<Dec>, i: usize, j: usize) -> (r: bool)
    requires
        i < lots@.len(),
        j < lots@.len(),
        method == CostBasisMethod::Hifo ==> units@.len() == lots@.len() && forall|m: int|
            0 <= m < lots@.len() ==> lots@[m].unit_cost_spec() == Some(#[trigger] units@[m]),
    ensures
        r == precedes(method, lots@, i as int, j as int),
{
    match method {
        CostBasisMethod::Lifo => is_older(&lots[j], &lots[i]),
        CostBasisMethod::Hifo => {
            let ui = &units[i];
            let uj = &units[j];
            uj.is_lt(ui) || (ui.order(uj) == 0 && lots[i].lot_id < lots[j].lot_id)
        },
        _ => is_older(&lots[i], &lots[j]),
    }
}

fn is_older(a: &Lot, b: &Lot) -> (r: bool)
    ensures
        r == older(*a, *b),
{
    a.acquired_at.is_before(&b.acquired_at) || (a.acquired_at.is_same_instant(&b.acquired_at)
        && a.lot_id < b.lot_id)
}

} // verus!

verus! {

/// Value order of decimals is transitive.
pub proof fn lemma_value_order_transitive(a: (i128, u32, bool), b: (i128, u32, bool), c: (i128, u32, bool))
    requires
        crate::decimal::value_order(a, b) <= 0,
        crate::decimal::value_order(b, c) <= 0,
    ensures
        crate::decimal::value_order(a, c) <= 0,
        crate::decimal::value_order(a, b) < 0 || crate::decimal::value_order(b, c) < 0
            ==> crate::decimal::value_order(a, c) < 0,
{
    let pa = crate::decimal::pow10(a.1 as nat);
    let pb = crate::decimal::pow10(b.1 as nat);
    let pc = crate::decimal::pow10(c.1 as nat);
    lemma_pow10_positive(a.1 as nat);
    lemma_pow10_positive(b.1 as nat);
    lemma_pow10_positive(c.1 as nat);
    let am = a.0 as int;
    let bm = b.0 as int;
    let cm = c.0 as int;
    assert(am * pb <= bm * pa);
    assert(bm * pc <= cm * pb);
    assert((am * pb) * pc <= (bm * pa) * pc) by (nonlinear_arith)
        requires
            am * pb <= bm * pa,
            pc > 0,
    ;
    assert((bm * pc) * pa <= (cm * pb) * pa) by (nonlinear_arith)
        requires
            bm * pc <= cm * pb,
            pa > 0,
    ;
    assert((am * pc) * pb <= (cm * pa) * pb) by (nonlinear_arith)
        requires
            (am * pb) * pc <= (bm * pa) * pc,
            (bm * pc) * pa <= (cm * pb) * pa,
    ;
    assert(am * pc <= cm * pa) by (nonlinear_arith)
        requires
            (am * pc) * pb <= (cm * pa) * pb,
            pb > 0,
    ;
    if crate::decimal::value_order(a, b) < 0 || crate::decimal::value_order(b, c) < 0 {
        assert((am * pc) * pb < (cm * pa) * pb) by (nonlinear_arith)
            requires
                (am * pb) * pc <= (bm * pa) * pc,
                (bm * pc) * pa <= (cm * pb) * pa,
                am * pb < bm * pa || bm * pc < cm * pb,
                pa > 0,
                pb > 0,
                pc > 0,
        ;
        assert(am * pc < cm * pa) by (nonlinear_arith)
            requires
                (am * pc) * pb < (cm * pa) * pb,
                pb > 0,
        ;
    }
}

/// `10^n` is positive.
pub proof fn lemma_pow10_positive(n: nat)
    ensures
        crate::decimal::pow10(n) > 0,
    decreases n,
{
    if n > 0 {
        lemma_pow10_positive((n - 1) as nat);
    }
}

/// `precedes` is a strict weak order: irreflexive, and whenever `a` precedes
/// `c`, every `b` either follows `a` or precedes `c`.
pub proof fn lemma_precedes_strict_weak(method: CostBasisMethod, lots: Seq<Lot>, a: int, b: int, c: int)
    requires
        method == CostBasisMethod::Hifo ==> unit_costs_defined(lots),
        0 <= a < lots.len(),
        0 <= b < lots.len(),
        0 <= c < lots.len(),
    ensures
        !precedes(method, lots, a, a),
        precedes(method, lots, a, c) ==> precedes(method, lots, a, b) || precedes(method, lots, b, c),
        precedes(method, lots, a, b) ==> !precedes(method, lots, b, a),
{
    match method {
        CostBasisMethod::Hifo => {
            let ua = lots[a].unit_cost_spec().unwrap();
            let ub = lots[b].unit_cost_spec().unwrap();
            let uc = lots[c].unit_cost_spec().unwrap();
            assert(lots[a].unit_cost_spec() is Some);
            assert(lots[b].unit_cost_spec() is Some);
            assert(lots[c].unit_cost_spec() is Some);
            let vo = |x: Dec, y: Dec| crate::decimal::value_order(x@, y@);
            if precedes(method, lots, a, c) && !precedes(method, lots, a, b) {
                // Not after `a`: ua <= ub.
                assert(vo(ua, ub) <= 0);
                if vo(uc, ua) <= 0 {
                    lemma_value_order_transitive(uc@, ua@, ub@);
                }
                if vo(ub, ua) <= 0 && vo(ua, uc) <= 0 {
                    lemma_value_order_transitive(ub@, ua@, uc@);
                }
                if vo(uc, ua) < 0 {
                    assert(vo(uc, ub) < 0);
                    assert(uc.lt(ub));
                    assert(precedes(method, lots, b, c));
                } else {
                    assert(ua.same(uc));
                    assert(lots[a].lot_id < lots[c].lot_id);
                    if vo(ua, ub) < 0 {
                        assert(vo(uc, ub) < 0);
                    } else {
                        assert(ua.same(ub));
                        assert(lots[b].lot_id <= lots[a].lot_id);
                        assert(ub.same(uc));
                    }
                }
            }
        },
        _ => {},
    }
}

} // verus!

verus! {

/// `insert_ordered` puts `x` at a position `j` from which it precedes every
/// later element, and does not precede the element before it.
pub proof fn lemma_insert_ordered_shape(method: CostBasisMethod, lots: Seq<Lot>, s: Seq<usize>, x: usize) -> (j: int)
    ensures
        0 <= j <= s.len(),
        insert_ordered(method, lots, s, x) == s.insert(j, x),
        forall|m: int| j <= m < s.len() ==> precedes(method, lots, x as int, #[trigger] s[m] as int),
        j > 0 ==> !precedes(method, lots, x as int, s[j - 1] as int),
    decreases s.len(),
{
    if s.len() == 0 {
        assert(s.insert(0, x) =~= seq![x]);
        0
    } else if precedes(method, lots, x as int, s.last() as int) {
        let j = lemma_insert_ordered_shape(method, lots, s.drop_last(), x);
        assert(s.insert(j, x) =~= s.drop_last().insert(j, x).push(s.last()));
        assert forall|m: int| j <= m < s.len() implies precedes(method, lots, x as int, #[trigger] s[m] as int) by {
            if m < s.len() - 1 {
                assert(s[m] == s.drop_last()[m]);
            }
        }
        if j > 0 {
            assert(s[j - 1] == s.drop_last()[j - 1]);
        }
        j
    } else {
        assert(s.insert(s.len() as int, x) =~= s.push(x));
        s.len() as int
    }
}

/// The order `sort_prefix` produces lists `0..n` once each, ordered by
/// `precedes` and stable among ties.
pub proof fn lemma_sort_prefix_sorted(method: CostBasisMethod, lots: Seq<Lot>, n: nat)
    requires
        n <= lots.len() <= usize::MAX,
        method == CostBasisMethod::Hifo && lots.len() >= 2 ==> unit_costs_defined(lots),
    ensures
        is_permutation(sort_prefix(method, lots, n), n),
        is_stable_ordered(method, lots, sort_prefix(method, lots, n)),
    decreases n,
{
    if n > 0 {
        let s = sort_prefix(method, lots, (n - 1) as nat);
        let x = (n - 1) as usize;
        lemma_sort_prefix_sorted(method, lots, (n - 1) as nat);
        let j = lemma_insert_ordered_shape(method, lots, s, x);
        let r = s.insert(j, x);
        assert(is_permutation(s, (n - 1) as nat));
        assert(is_stable_ordered(method, lots, s));
        assert(s.len() == n - 1);
        assert(r.len() == n);
        assert(r == sort_prefix(method, lots, n));
        assert forall|k: int| 0 <= k < r.len() implies #[trigger] r[k] < n by {
            if k < j {
                assert(r[k] == s[k]);
            } else if k > j {
                assert(r[k] == s[k - 1]);
            }
        }
        assert forall|k: int, l: int| 0 <= k < l < r.len() implies r[k] != r[l] by {
            if k < j && l < j {
                assert(s[k] != s[l]);
            }
            if k > j && l > j {
                assert(s[k - 1] != s[l - 1]);
            }
            if k < j && l > j {
                assert(s[k] != s[l - 1]);
            }
            if k < j {
                assert(r[k] == s[k]);
                assert(s[k] < n - 1);
            } else if k > j {
                assert(r[k] == s[k - 1]);
                assert(s[k - 1] < n - 1);
            } else {
                assert(r[k] == x);
            }
            if l < j {
                assert(r[l] == s[l]);
                assert(s[l] < n - 1);
            } else if l > j {
                assert(r[l] == s[l - 1]);
                assert(s[l - 1] < n - 1);
            } else {
                assert(r[l] == x);
            }
        }
        assert forall|k: int, l: int|
            0 <= k < l < r.len() implies !precedes(method, lots, r[l] as int, r[k] as int) && (
            precedes(method, lots, r[k] as int, r[l] as int) || r[k] < r[l]) by {
            if n >= 2 || method != CostBasisMethod::Hifo {
                if k < j && l < j {
                    assert(r[k] == s[k] && r[l] == s[l]);
                    assert(!precedes(method, lots, s[l] as int, s[k] as int) && (precedes(method, lots, s[k] as int, s[l] as int) || s[k] < s[l]));
                } else if k > j && l > j {
                    assert(r[k] == s[k - 1] && r[l] == s[l - 1]);
                    assert(!precedes(method, lots, s[l - 1] as int, s[k - 1] as int) && (precedes(method, lots, s[k - 1] as int, s[l - 1] as int) || s[k - 1] < s[l - 1]));
                } else if k < j && l > j {
                    assert(r[k] == s[k] && r[l] == s[l - 1]);
                    assert(!precedes(method, lots, s[l - 1] as int, s[k] as int) && (precedes(method, lots, s[k] as int, s[l - 1] as int) || s[k] < s[l - 1]));
                } else if k == j {
                    assert(r[k] == x && r[l] == s[l - 1]);
                    assert(s[l - 1] < n - 1);
                    lemma_precedes_strict_weak(method, lots, x as int, s[l - 1] as int, x as int);
                } else {
                    // l == j: r[l] == x, r[k] == s[k] with k < j.
                    assert(r[l] == x && r[k] == s[k]);
                    assert(s[k] < n - 1);
                    assert(s[j - 1] < n - 1);
                    lemma_precedes_strict_weak(method, lots, x as int, s[j - 1] as int, s[k] as int);
                    if k < j - 1 {
                        assert(!precedes(method, lots, s[j - 1] as int, s[k] as int));
                    }
                }
            } else {
                assert(n == 1);
                assert(r.len() == 1);
            }
        }
    } else {
        assert(sort_prefix(method, lots, 0) =~= Seq::<usize>::empty());
    }
}

} // verus!
