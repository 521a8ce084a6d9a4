//! Deterministic lot selection: the closed set of selection methods, the
//! total order each one defines over lots, and `extract_lots`, which
//! partitions a pool of lots into a consumed part and a remainder.

use vstd::prelude::*;
use crate::types::{LedgerError, Lot, lots_total, lemma_lots_total_push, lemma_lots_total_nonneg};

verus! {

/// How lots are ordered when a disposal consumes them.
#[derive(Debug, Clone, Copy, PartialEq, Eq, Structural)]
pub enum LotSelectionMethod {
    /// Oldest acquisition first.
    FirstInFirstOut,
    /// Newest acquisition first.
    LastInFirstOut,
    /// Lowest acquisition price first.
    LowestBasis,
    /// Highest acquisition price first.
    HighestBasis,
}

impl Default for LotSelectionMethod {
    /// Lots are consumed oldest-first unless a caller chooses otherwise.
    fn default() -> (r: Self)
        ensures
            r == LotSelectionMethod::FirstInFirstOut,
    {
        LotSelectionMethod::FirstInFirstOut
    }
}

/// The total order a selection method defines: the primary key per method,
/// with ties broken by ascending lot number so selection is deterministic.
pub open spec fn lot_le(method: LotSelectionMethod, a: Lot, b: Lot) -> bool {
    match method {
        LotSelectionMethod::FirstInFirstOut => a.acquisition.when < b.acquisition.when
            || (a.acquisition.when == b.acquisition.when && a.lot_number <= b.lot_number),
        LotSelectionMethod::LastInFirstOut => a.acquisition.when > b.acquisition.when
            || (a.acquisition.when == b.acquisition.when && a.lot_number <= b.lot_number),
        LotSelectionMethod::LowestBasis => a.acquisition.price < b.acquisition.price
            || (a.acquisition.price == b.acquisition.price && a.lot_number <= b.lot_number),
        LotSelectionMethod::HighestBasis => a.acquisition.price > b.acquisition.price
            || (a.acquisition.price == b.acquisition.price && a.lot_number <= b.lot_number),
    }
}

pub fn lot_le_exec(method: LotSelectionMethod, a: &Lot, b: &Lot) -> (r: bool)
    ensures
        r == lot_le(method, *a, *b),
{
    match method {
        LotSelectionMethod::FirstInFirstOut => a.acquisition.when < b.acquisition.when
            || (a.acquisition.when == b.acquisition.when && a.lot_number <= b.lot_number),
        LotSelectionMethod::LastInFirstOut => a.acquisition.when > b.acquisition.when
            || (a.acquisition.when == b.acquisition.when && a.lot_number <= b.lot_number),
        LotSelectionMethod::LowestBasis => a.acquisition.price < b.acquisition.price
            || (a.acquisition.price == b.acquisition.price && a.lot_number <= b.lot_number),
        LotSelectionMethod::HighestBasis => a.acquisition.price > b.acquisition.price
            || (a.acquisition.price == b.acquisition.price && a.lot_number <= b.lot_number),
    }
}

/// Every method's order is total.
pub proof fn lemma_lot_le_total(method: LotSelectionMethod, a: Lot, b: Lot)
    ensures
        lot_le(method, a, b) || lot_le(method, b, a),
{
}

/// Every method's order is transitive.
pub proof fn lemma_lot_le_trans(method: LotSelectionMethod, a: Lot, b: Lot, c: Lot)
    requires
        lot_le(method, a, b),
        lot_le(method, b, c),
    ensures
        lot_le(method, a, c),
{
}

/// Non-decreasing under a method's order.
pub open spec fn sorted_by(method: LotSelectionMethod, s: Seq<Lot>) -> bool {
    forall|i: int, j: int| 0 <= i < j < s.len() ==> #[trigger] lot_le(method, s[i], s[j])
}

/// Insertion of a lot into a sorted sequence, keeping the order.
pub open spec fn insert_sorted(method: LotSelectionMethod, lot: Lot, s: Seq<Lot>) -> Seq<Lot>
    decreases s.len(),
{
    if s.len() == 0 {
        seq![lot]
    } else if lot_le(method, s[0], lot) {
        seq![s[0]] + insert_sorted(method, lot, s.drop_first())
    } else {
        seq![lot] + s
    }
}

/// Canonical sort of a lot sequence under a method's order.
pub open spec fn sort_lots_spec(method: LotSelectionMethod, s: Seq<Lot>) -> Seq<Lot>
    decreases s.len(),
{
    if s.len() == 0 {
        Seq::empty()
    } else {
        insert_sorted(method, s.last(), sort_lots_spec(method, s.drop_last()))
    }
}

proof fn lemma_lots_total_singleton(lot: Lot)
    ensures
        lots_total(seq![lot]) == lot.amount,
{
    assert(seq![lot].drop_first() =~= Seq::<Lot>::empty());
    assert(lots_total(Seq::<Lot>::empty()) == 0);
}

pub proof fn lemma_lots_total_concat(a: Seq<Lot>, b: Seq<Lot>)
    ensures
        lots_total(a + b) == lots_total(a) + lots_total(b),
    decreases a.len(),
{
    if a.len() == 0 {
        assert(a + b =~= b);
        assert(lots_total(a) == 0);
    } else {
        assert((a + b).drop_first() =~= a.drop_first() + b);
        assert((a + b)[0] == a[0]);
        lemma_lots_total_concat(a.drop_first(), b);
    }
}

/// Inserting into a sorted sequence keeps it sorted, adds one element, and
/// adds that element's amount to the total; the contents are the old
/// contents plus the inserted lot.
pub proof fn lemma_insert_sorted_props(method: LotSelectionMethod, lot: Lot, s: Seq<Lot>)
    requires
        sorted_by(method, s),
    ensures
        sorted_by(method, insert_sorted(method, lot, s)),
        insert_sorted(method, lot, s).len() == s.len() + 1,
        lots_total(insert_sorted(method, lot, s)) == lots_total(s) + lot.amount,
        forall|x: Lot| #[trigger] insert_sorted(method, lot, s).contains(x)
            <==> (x == lot || s.contains(x)),
    decreases s.len(),
{
    let r = insert_sorted(method, lot, s);
    if s.len() == 0 {
        assert(lots_total(seq![lot]) == lot.amount + lots_total(seq![lot].drop_first()));
        assert(seq![lot].drop_first() =~= Seq::<Lot>::empty());
        assert forall|x: Lot| #[trigger] r.contains(x) implies (x == lot || s.contains(x)) by {
            assert(r[0] == lot);
        }
        assert(r.contains(lot)) by {
            assert(r[0] == lot);
        }
    } else if lot_le(method, s[0], lot) {
        let tail = s.drop_first();
        assert(sorted_by(method, tail)) by {
            assert forall|i: int, j: int| 0 <= i < j < tail.len()
                implies #[trigger] lot_le(method, tail[i], tail[j]) by {
                assert(tail[i] == s[i + 1]);
                assert(tail[j] == s[j + 1]);
            }
        }
        lemma_insert_sorted_props(method, lot, tail);
        let rec = insert_sorted(method, lot, tail);
        lemma_lots_total_concat(seq![s[0]], rec);
        lemma_lots_total_singleton(s[0]);
        assert(r =~= seq![s[0]] + rec);
        // every element of the recursive insertion is bounded below by s[0]
        assert forall|i: int, j: int| 0 <= i < j < r.len()
            implies #[trigger] lot_le(method, r[i], r[j]) by {
            if i == 0 {
                let x = rec[j - 1];
                assert(rec.contains(x));
                if x == lot {
                    assert(lot_le(method, s[0], lot));
                } else {
                    assert(tail.contains(x));
                    let k = choose|k: int| 0 <= k < tail.len() && tail[k] == x;
                    assert(tail[k] == s[k + 1]);
                    assert(lot_le(method, s[0], s[k + 1]));
                }
            } else {
                assert(r[i] == rec[i - 1]);
                assert(r[j] == rec[j - 1]);
            }
        }
        assert forall|x: Lot| #[trigger] r.contains(x) implies (x == lot || s.contains(x)) by {
            let k = choose|k: int| 0 <= k < r.len() && r[k] == x;
            if k == 0 {
                assert(s.contains(s[0])) by {
                    assert(s[0] == s[0]);
                }
            } else {
                assert(rec.contains(r[k])) by {
                    assert(rec[k - 1] == r[k]);
                }
                if x != lot {
                    let m = choose|m: int| 0 <= m < tail.len() && tail[m] == x;
                    assert(s[m + 1] == x);
                }
            }
        }
        assert forall|x: Lot| x == lot || s.contains(x) implies #[trigger] r.contains(x) by {
            if x == lot {
                assert(rec.contains(lot));
                let k = choose|k: int| 0 <= k < rec.len() && rec[k] == lot;
                assert(r[k + 1] == lot);
            } else {
                let k = choose|k: int| 0 <= k < s.len() && s[k] == x;
                if k == 0 {
                    assert(r[0] == x);
                } else {
                    assert(tail[k - 1] == x);
                    assert(rec.contains(x));
                    let m = choose|m: int| 0 <= m < rec.len() && rec[m] == x;
                    assert(r[m + 1] == x);
                }
            }
        }
    } else {
        lemma_lot_le_total(method, s[0], lot);
        assert(r =~= seq![lot] + s);
        lemma_lots_total_concat(seq![lot], s);
        lemma_lots_total_singleton(lot);
        assert forall|i: int, j: int| 0 <= i < j < r.len()
            implies #[trigger] lot_le(method, r[i], r[j]) by {
            if i == 0 {
                assert(r[j] == s[j - 1]);
                if j == 1 {
                    assert(lot_le(method, lot, s[0]));
                } else {
                    assert(lot_le(method, s[0], s[j - 1]));
                    lemma_lot_le_trans(method, lot, s[0], s[j - 1]);
                }
            } else {
                assert(r[i] == s[i - 1]);
                assert(r[j] == s[j - 1]);
            }
        }
        assert forall|x: Lot| #[trigger] r.contains(x) implies (x == lot || s.contains(x)) by {
            let k = choose|k: int| 0 <= k < r.len() && r[k] == x;
            if k > 0 {
                assert(s[k - 1] == x);
            }
        }
        assert forall|x: Lot| x == lot || s.contains(x) implies #[trigger] r.contains(x) by {
            if x == lot {
                assert(r[0] == lot);
            } else {
                let k = choose|k: int| 0 <= k < s.len() && s[k] == x;
                assert(r[k + 1] == x);
            }
        }
    }
}

/// The canonical sort is sorted, is a permutation in the sense of keeping
/// the length, total amount and contents, and depends only on its input.
pub proof fn lemma_sort_lots_props(method: LotSelectionMethod, s: Seq<Lot>)
    ensures
        sorted_by(method, sort_lots_spec(method, s)),
        sort_lots_spec(method, s).len() == s.len(),
        lots_total(sort_lots_spec(method, s)) == lots_total(s),
        forall|x: Lot| #[trigger] sort_lots_spec(method, s).contains(x) <==> s.contains(x),
    decreases s.len(),
{
    let r = sort_lots_spec(method, s);
    if s.len() == 0 {
        assert(lots_total(s) == 0);
        assert(lots_total(r) == 0);
    } else {
        let init = s.drop_last();
        lemma_sort_lots_props(method, init);
        lemma_insert_sorted_props(method, s.last(), sort_lots_spec(method, init));
        assert(lots_total(s) == lots_total(init) + s.last().amount) by {
            assert(init.push(s.last()) =~= s);
            lemma_lots_total_push(init, s.last());
        }
        assert forall|x: Lot| #[trigger] r.contains(x) implies s.contains(x) by {
            if x == s.last() {
                assert(s[s.len() - 1] == x);
            } else {
                assert(sort_lots_spec(method, init).contains(x));
                let k = choose|k: int| 0 <= k < init.len() && init[k] == x;
                assert(s[k] == x);
            }
        }
        assert forall|x: Lot| s.contains(x) implies #[trigger] r.contains(x) by {
            let k = choose|k: int| 0 <= k < s.len() && s[k] == x;
            if k == s.len() - 1 {
            } else {
                assert(init[k] == x);
                assert(init.contains(x));
            }
        }
    }
}

/// Insertion preserving sortedness, executable form.
fn insert_lot(method: LotSelectionMethod, sorted: &mut Vec<Lot>, lot: Lot)
    ensures
        final(sorted)@ == insert_sorted(method, lot, old(sorted)@),
{
    let ghost orig = sorted@;
    let mut idx: usize = 0;
    while idx < sorted.len() && lot_le_exec(method, &sorted[idx], &lot)
        invariant
            0 <= idx <= sorted@.len(),
            sorted@ == orig,
            forall|k: int| 0 <= k < idx ==> lot_le(method, #[trigger] orig[k], lot),
        decreases sorted@.len() - idx,
    {
        idx = idx + 1;
    }
    sorted.insert(idx, lot);
    proof {
        lemma_insert_sorted_at(method, lot, orig, idx as int);
    }
}

/// Where the first non-bounded position is, insertion lands.
proof fn lemma_insert_sorted_at(method: LotSelectionMethod, lot: Lot, s: Seq<Lot>, idx: int)
    requires
        0 <= idx <= s.len(),
        forall|k: int| 0 <= k < idx ==> lot_le(method, #[trigger] s[k], lot),
        idx < s.len() ==> !lot_le(method, s[idx], lot),
    ensures
        insert_sorted(method, lot, s) == s.insert(idx, lot),
    decreases s.len(),
{
    if s.len() == 0 {
        assert(insert_sorted(method, lot, s) =~= s.insert(0, lot));
    } else if idx == 0 {
        assert(insert_sorted(method, lot, s) =~= s.insert(0, lot));
    } else {
        assert(lot_le(method, s[0], lot));
        let tail = s.drop_first();
        assert(forall|k: int| 0 <= k < idx - 1 ==> lot_le(method, #[trigger] tail[k], lot))
            by {
            assert forall|k: int| 0 <= k < idx - 1
                implies lot_le(method, #[trigger] tail[k], lot) by {
                assert(tail[k] == s[k + 1]);
            }
        }
        assert(idx - 1 < tail.len() ==> !lot_le(method, tail[idx - 1], lot));
        lemma_insert_sorted_at(method, lot, tail, idx - 1);
        assert(insert_sorted(method, lot, s) =~= s.insert(idx, lot));
    }
}

/// Sort a pool of lots by the method's order; the canonical sort fixes the
/// result, so equal pools always sort equally.
pub fn sort_lots(method: LotSelectionMethod, pool: Vec<Lot>) -> (r: Vec<Lot>)
    ensures
        r@ == sort_lots_spec(method, pool@),
{
    let mut r: Vec<Lot> = Vec::new();
    let mut i: usize = 0;
    while i < pool.len()
        invariant
            0 <= i <= pool@.len(),
            r@ == sort_lots_spec(method, pool@.take(i as int)),
        decreases pool@.len() - i,
    {
        proof {
            let pre = pool@.take(i + 1);
            assert(pre.drop_last() =~= pool@.take(i as int));
            assert(pre.last() == pool@[i as int]);
        }
        insert_lot(method, &mut r, pool[i]);
        i = i + 1;
    }
    proof {
        assert(pool@.take(pool@.len() as int) =~= pool@);
    }
    r
}

/// The extraction walk: consume lots from the front of `lots` until the
/// requested amount is covered. The last lot consumed may be split; the
/// consumed part keeps the lot number and acquisition, and the remainder
/// stays at the front of what is left. Returns (consumed, remaining).
pub open spec fn spec_take_lots(lots: Seq<Lot>, requested: int) -> (Seq<Lot>, Seq<Lot>)
    decreases lots.len(),
{
    if requested <= 0 || lots.len() == 0 {
        (Seq::empty(), lots)
    } else {
        let first = lots[0];
        if first.amount >= requested {
            if first.amount == requested {
                (seq![first], lots.drop_first())
            } else {
                (
                    seq![first.spec_with_amount(requested as u64)],
                    seq![first.spec_with_amount((first.amount - requested) as u64)]
                        + lots.drop_first(),
                )
            }
        } else {
            let rest = spec_take_lots(lots.drop_first(), requested - first.amount);
            (seq![first] + rest.0, rest.1)
        }
    }
}

/// Conservation of the walk: what is consumed plus what remains is exactly
/// the pool, and when the pool covers the request the consumed total is
/// exactly the request.
pub proof fn lemma_take_lots_conserves(lots: Seq<Lot>, requested: int)
    requires
        0 <= requested <= lots_total(lots),
    ensures
        lots_total(spec_take_lots(lots, requested).0) == requested,
        lots_total(spec_take_lots(lots, requested).0)
            + lots_total(spec_take_lots(lots, requested).1) == lots_total(lots),
    decreases lots.len(),
{
    let (ex, rem) = spec_take_lots(lots, requested);
    if requested <= 0 || lots.len() == 0 {
    } else {
        let first = lots[0];
        if first.amount >= requested {
            if first.amount == requested {
                lemma_lots_total_singleton(first);
            } else {
                lemma_lots_total_singleton(first.spec_with_amount(requested as u64));
                lemma_lots_total_singleton(
                    first.spec_with_amount((first.amount - requested) as u64));
                lemma_lots_total_concat(
                    seq![first.spec_with_amount((first.amount - requested) as u64)],
                    lots.drop_first());
            }
        } else {
            let rest = spec_take_lots(lots.drop_first(), requested - first.amount);
            lemma_take_lots_conserves(lots.drop_first(), requested - first.amount);
            lemma_lots_total_singleton(first);
            lemma_lots_total_concat(seq![first], rest.0);
        }
    }
}

/// A split changes only an amount, never the ordering keys, so the walk of
/// a sorted pool yields consumed lots that are sorted the same way.
pub proof fn lemma_take_lots_sorted(method: LotSelectionMethod, lots: Seq<Lot>, requested: int)
    requires
        sorted_by(method, lots),
    ensures
        sorted_by(method, spec_take_lots(lots, requested).0),
    decreases lots.len(),
{
    let (ex, rem) = spec_take_lots(lots, requested);
    if requested <= 0 || lots.len() == 0 {
    } else {
        let first = lots[0];
        if first.amount >= requested {
        } else {
            let tail = lots.drop_first();
            assert(sorted_by(method, tail)) by {
                assert forall|i: int, j: int| 0 <= i < j < tail.len()
                    implies #[trigger] lot_le(method, tail[i], tail[j]) by {
                    assert(tail[i] == lots[i + 1]);
                    assert(tail[j] == lots[j + 1]);
                }
            }
            lemma_take_lots_sorted(method, tail, requested - first.amount);
            let rest = spec_take_lots(tail, requested - first.amount);
            assert forall|i: int, j: int| 0 <= i < j < ex.len()
                implies #[trigger] lot_le(method, ex[i], ex[j]) by {
                if i == 0 {
                    assert(ex[0] == first);
                    if tail.len() > 0 {
                        assert(tail[0] == lots[1]);
                        assert(lot_le(method, lots[0], lots[1]));
                    }
                    lemma_take_lots_subset(method, tail, requested - first.amount, j - 1, first);
                    assert(ex[j] == rest.0[j - 1]);
                } else {
                    assert(ex[i] == rest.0[i - 1]);
                    assert(ex[j] == rest.0[j - 1]);
                }
            }
        }
    }
}

/// Each consumed lot keeps the ordering keys of some pool lot at or after
/// its own position, so a front bound on the pool bounds the consumed lots.
proof fn lemma_take_lots_subset(
    method: LotSelectionMethod,
    lots: Seq<Lot>,
    requested: int,
    k: int,
    b: Lot,
)
    requires
        sorted_by(method, lots),
        0 <= k < spec_take_lots(lots, requested).0.len(),
        lots.len() > 0 ==> lot_le(method, b, lots[0]),
    ensures
        lot_le(method, b, spec_take_lots(lots, requested).0[k]),
    decreases lots.len(),
{
    let ex = spec_take_lots(lots, requested).0;
    let first = lots[0];
    if first.amount >= requested {
    } else {
        let tail = lots.drop_first();
        let rest = spec_take_lots(tail, requested - first.amount);
        if k == 0 {
        } else {
            assert(sorted_by(method, tail)) by {
                assert forall|i: int, j: int| 0 <= i < j < tail.len()
                    implies #[trigger] lot_le(method, tail[i], tail[j]) by {
                    assert(tail[i] == lots[i + 1]);
                    assert(tail[j] == lots[j + 1]);
                }
            }
            assert(tail.len() > 0);
            assert(tail[0] == lots[1]);
            assert(lot_le(method, lots[0], lots[1]));
            lemma_lot_le_trans(method, b, lots[0], tail[0]);
            lemma_take_lots_subset(method, tail, requested - first.amount, k - 1, b);
            assert(ex[k] == rest.0[k - 1]);
        }
    }
}

/// Copy of the lots from position `i` on.
pub(crate) fn copy_tail(lots: &Vec<Lot>, i: usize) -> (r: Vec<Lot>)
    requires
        i <= lots@.len(),
    ensures
        r@ == lots@.skip(i as int),
{
    let mut r: Vec<Lot> = Vec::new();
    let mut j: usize = i;
    while j < lots.len()
        invariant
            i <= j <= lots@.len(),
            r@ == lots@.subrange(i as int, j as int),
        decreases lots@.len() - j,
    {
        proof {
            assert(lots@.subrange(i as int, j + 1)
                =~= lots@.subrange(i as int, j as int).push(lots@[j as int]));
        }
        r.push(lots[j]);
        j = j + 1;
    }
    proof {
        assert(lots@.subrange(i as int, lots@.len() as int) =~= lots@.skip(i as int));
    }
    r
}

/// Executable extraction walk over `lots[i..]`, exactly the walk of the
/// specification.
fn take_lots_from(lots: &Vec<Lot>, i: usize, requested: u64) -> (r: (Vec<Lot>, Vec<Lot>))
    requires
        i <= lots@.len(),
    ensures
        r.0@ == spec_take_lots(lots@.skip(i as int), requested as int).0,
        r.1@ == spec_take_lots(lots@.skip(i as int), requested as int).1,
    decreases lots@.len() - i,
{
    let ghost pool = lots@.skip(i as int);
    if requested == 0 || i == lots.len() {
        (Vec::new(), copy_tail(lots, i))
    } else {
        proof {
            assert(pool[0] == lots@[i as int]);
            assert(pool.drop_first() =~= lots@.skip(i + 1));
        }
        let first = lots[i];
        if first.amount >= requested {
            let mut consumed: Vec<Lot> = Vec::new();
            let mut remaining = copy_tail(lots, i + 1);
            if first.amount == requested {
                consumed.push(first);
                proof {
                    assert(consumed@ =~= seq![first]);
                }
            } else {
                consumed.push(first.with_amount(requested));
                remaining.insert(0, first.with_amount(first.amount - requested));
                proof {
                    assert(consumed@ =~= seq![first.spec_with_amount(requested)]);
                    assert(lots@.skip(i + 1).insert(0,
                            first.spec_with_amount((first.amount - requested) as u64))
                        =~= seq![first.spec_with_amount((first.amount - requested) as u64)]
                            + pool.drop_first());
                }
            }
            (consumed, remaining)
        } else {
            let (mut consumed, remaining) = take_lots_from(lots, i + 1, requested - first.amount);
            consumed.insert(0, first);
            proof {
                let rest = spec_take_lots(pool.drop_first(), requested - first.amount);
                assert(consumed@ =~= seq![first] + rest.0);
            }
            (consumed, remaining)
        }
    }
}

/// Whether some lot in the pool carries the given lot number.
pub open spec fn spec_pool_has_number(lots: Seq<Lot>, n: u64) -> bool {
    exists|i: int| 0 <= i < lots.len() && lots[i].lot_number == n
}

fn pool_has_number(lots: &Vec<Lot>, n: u64) -> (r: bool)
    ensures
        r == spec_pool_has_number(lots@, n),
{
    let mut i: usize = 0;
    while i < lots.len()
        invariant
            0 <= i <= lots@.len(),
            forall|k: int| 0 <= k < i ==> #[trigger] lots@[k].lot_number != n,
        decreases lots@.len() - i,
    {
        if lots[i].lot_number == n {
            return true;
        }
        i = i + 1;
    }
    false
}

fn numbers_contain(numbers: &Vec<u64>, n: u64) -> (r: bool)
    ensures
        r == numbers@.contains(n),
{
    let mut i: usize = 0;
    while i < numbers.len()
        invariant
            0 <= i <= numbers@.len(),
            forall|k: int| 0 <= k < i ==> #[trigger] numbers@[k] != n,
        decreases numbers@.len() - i,
    {
        if numbers[i] == n {
            return true;
        }
        i = i + 1;
    }
    false
}

/// The pool lots whose numbers are in the explicit selection, in pool order.
pub open spec fn spec_selected_lots(lots: Seq<Lot>, numbers: Seq<u64>) -> Seq<Lot>
    decreases lots.len(),
{
    if lots.len() == 0 {
        Seq::empty()
    } else {
        spec_selected_lots(lots.drop_last(), numbers)
            + if numbers.contains(lots.last().lot_number) { seq![lots.last()] } else { Seq::empty() }
    }
}

/// The pool lots left aside by an explicit selection, in pool order.
pub open spec fn spec_unselected_lots(lots: Seq<Lot>, numbers: Seq<u64>) -> Seq<Lot>
    decreases lots.len(),
{
    if lots.len() == 0 {
        Seq::empty()
    } else {
        spec_unselected_lots(lots.drop_last(), numbers)
            + if numbers.contains(lots.last().lot_number) { Seq::empty() } else { seq![lots.last()] }
    }
}

/// Selection and its complement split the pool's total exactly.
pub proof fn lemma_selection_conserves(lots: Seq<Lot>, numbers: Seq<u64>)
    ensures
        lots_total(spec_selected_lots(lots, numbers))
            + lots_total(spec_unselected_lots(lots, numbers)) == lots_total(lots),
    decreases lots.len(),
{
    if lots.len() == 0 {
    } else {
        lemma_selection_conserves(lots.drop_last(), numbers);
        lemma_lots_total_push(lots.drop_last(), lots.last());
        assert(lots.drop_last().push(lots.last()) =~= lots);
        if numbers.contains(lots.last().lot_number) {
            assert(spec_selected_lots(lots.drop_last(), numbers).push(lots.last())
                =~= spec_selected_lots(lots, numbers));
            lemma_lots_total_push(spec_selected_lots(lots.drop_last(), numbers), lots.last());
            assert(spec_unselected_lots(lots, numbers)
                =~= spec_unselected_lots(lots.drop_last(), numbers) + Seq::<Lot>::empty());
            assert(spec_unselected_lots(lots.drop_last(), numbers) + Seq::<Lot>::empty()
                =~= spec_unselected_lots(lots.drop_last(), numbers));
        } else {
            assert(spec_unselected_lots(lots.drop_last(), numbers).push(lots.last())
                =~= spec_unselected_lots(lots, numbers));
            lemma_lots_total_push(spec_unselected_lots(lots.drop_last(), numbers), lots.last());
            assert(spec_selected_lots(lots, numbers)
                =~= spec_selected_lots(lots.drop_last(), numbers) + Seq::<Lot>::empty());
            assert(spec_selected_lots(lots.drop_last(), numbers) + Seq::<Lot>::empty()
                =~= spec_selected_lots(lots.drop_last(), numbers));
        }
    }
}

/// Partition the pool into explicitly selected lots and the rest.
fn partition_by_numbers(lots: &Vec<Lot>, numbers: &Vec<u64>) -> (r: (Vec<Lot>, Vec<Lot>))
    ensures
        r.0@ == spec_selected_lots(lots@, numbers@),
        r.1@ == spec_unselected_lots(lots@, numbers@),
{
    let mut selected: Vec<Lot> = Vec::new();
    let mut unselected: Vec<Lot> = Vec::new();
    let mut i: usize = 0;
    while i < lots.len()
        invariant
            0 <= i <= lots@.len(),
            selected@ == spec_selected_lots(lots@.take(i as int), numbers@),
            unselected@ == spec_unselected_lots(lots@.take(i as int), numbers@),
        decreases lots@.len() - i,
    {
        proof {
            let pre = lots@.take(i + 1);
            assert(pre.drop_last() =~= lots@.take(i as int));
            assert(pre.last() == lots@[i as int]);
            if numbers@.contains(lots@[i as int].lot_number) {
                assert(spec_selected_lots(pre, numbers@)
                    =~= spec_selected_lots(lots@.take(i as int), numbers@).push(
                        lots@[i as int]));
                assert(spec_unselected_lots(pre, numbers@)
                    =~= spec_unselected_lots(lots@.take(i as int), numbers@));
            } else {
                assert(spec_unselected_lots(pre, numbers@)
                    =~= spec_unselected_lots(lots@.take(i as int), numbers@).push(
                        lots@[i as int]));
                assert(spec_selected_lots(pre, numbers@)
                    =~= spec_selected_lots(lots@.take(i as int), numbers@));
            }
        }
        if numbers_contain(numbers, lots[i].lot_number) {
            selected.push(lots[i]);
        } else {
            unselected.push(lots[i]);
        }
        i = i + 1;
    }
    proof {
        assert(lots@.take(lots@.len() as int) =~= lots@);
    }
    (selected, unselected)
}

/// What `extract_lots` returns, fixed entirely by its inputs.
///
/// With explicit lot numbers the pool is restricted to exactly those lots,
/// in pool order; a referenced number absent from the pool is `NotFound`,
/// and a selection whose total is short of the request is
/// `InsufficientLots`. Without explicit numbers the pool is sorted by the
/// method's order and walked from the front. In both cases the walk may
/// split the last consumed lot, leaving the remainder (same lot number,
/// reduced amount) with the lots that stay.
pub open spec fn spec_extract_lots(
    pool: Seq<Lot>,
    requested: int,
    method: LotSelectionMethod,
    numbers: Option<Seq<u64>>,
) -> Result<(Seq<Lot>, Seq<Lot>), LedgerError> {
    match numbers {
        Some(ns) => {
            if exists|j: int| 0 <= j < ns.len() && !spec_pool_has_number(pool, #[trigger] ns[j]) {
                Err(LedgerError::NotFound)
            } else {
                let selected = spec_selected_lots(pool, ns);
                if lots_total(selected) < requested {
                    Err(LedgerError::InsufficientLots)
                } else {
                    let t = spec_take_lots(selected, requested);
                    Ok((t.0, t.1 + spec_unselected_lots(pool, ns)))
                }
            }
        },
        None => {
            if lots_total(pool) < requested {
                Err(LedgerError::InsufficientLots)
            } else {
                let t = spec_take_lots(sort_lots_spec(method, pool), requested);
                Ok(t)
            }
        },
    }
}

/// The explicit lot-number argument as a mathematical value.
pub open spec fn view_numbers(numbers: Option<&Vec<u64>>) -> Option<Seq<u64>> {
    match numbers {
        Some(ns) => Some(ns@),
        None => None,
    }
}

/// Order and partition a pool of lots to satisfy a requested disposal
/// amount: deterministic in all its inputs, and conservative — consumed
/// plus remaining is exactly the pool.
#[verifier::loop_isolation(false)]
pub fn extract_lots(
    pool: Vec<Lot>,
    requested_amount: u64,
    method: LotSelectionMethod,
    lot_numbers: Option<&Vec<u64>>,
) -> (r: Result<(Vec<Lot>, Vec<Lot>), LedgerError>)
    ensures
        r is Ok <==> spec_extract_lots(pool@, requested_amount as int, method,
            view_numbers(lot_numbers)) is Ok,
        r is Ok ==> {
            let want = spec_extract_lots(pool@, requested_amount as int, method,
                view_numbers(lot_numbers))->Ok_0;
            r->Ok_0.0@ == want.0 && r->Ok_0.1@ == want.1
        },
        r is Err ==> r->Err_0 == spec_extract_lots(pool@, requested_amount as int, method,
            view_numbers(lot_numbers))->Err_0,
{
    match lot_numbers {
        Some(numbers) => {
            let mut j: usize = 0;
            while j < numbers.len()
                invariant
                    0 <= j <= numbers@.len(),
                    forall|k: int| 0 <= k < j
                        ==> spec_pool_has_number(pool@, #[trigger] numbers@[k]),
                decreases numbers@.len() - j,
            {
                if !pool_has_number(&pool, numbers[j]) {
                    proof {
                        assert(0 <= j < numbers@.len()
                            && !spec_pool_has_number(pool@, numbers@[j as int]));
                    }
                    return Err(LedgerError::NotFound);
                }
                j = j + 1;
            }
            let (selected, unselected) = partition_by_numbers(&pool, numbers);
            let selected_total = match crate::types::checked_lots_total(&selected) {
                Some(t) => t,
                None => {
                    proof {
                        lemma_lots_total_nonneg(selected@);
                    }
                    u64::MAX
                },
            };
            proof {
                lemma_lots_total_nonneg(selected@);
            }
            if selected_total < requested_amount {
                return Err(LedgerError::InsufficientLots);
            }
            let (consumed, mut left) = take_lots_from(&selected, 0, requested_amount);
            proof {
                assert(selected@.skip(0) =~= selected@);
            }
            let mut k: usize = 0;
            while k < unselected.len()
                invariant
                    0 <= k <= unselected@.len(),
                    left@ == spec_take_lots(selected@, requested_amount as int).1
                        + unselected@.take(k as int),
                decreases unselected@.len() - k,
            {
                proof {
                    assert(unselected@.take(k + 1)
                        =~= unselected@.take(k as int).push(unselected@[k as int]));
                    assert((spec_take_lots(selected@, requested_amount as int).1
                            + unselected@.take(k as int)).push(unselected@[k as int])
                        =~= spec_take_lots(selected@, requested_amount as int).1
                            + unselected@.take(k + 1));
                }
                left.push(unselected[k]);
                k = k + 1;
            }
            proof {
                assert(unselected@.take(unselected@.len() as int) =~= unselected@);
            }
            Ok((consumed, left))
        },
        None => {
            let pool_total = match crate::types::checked_lots_total(&pool) {
                Some(t) => t,
                None => {
                    proof {
                        lemma_lots_total_nonneg(pool@);
                    }
                    u64::MAX
                },
            };
            if pool_total < requested_amount {
                return Err(LedgerError::InsufficientLots);
            }
            let sorted = sort_lots(method, pool);
            let (consumed, left) = take_lots_from(&sorted, 0, requested_amount);
            proof {
                assert(sorted@.skip(0) =~= sorted@);
            }
            Ok((consumed, left))
        },
    }
}

/// Disposal conservation: whenever `extract_lots` succeeds, the consumed
/// total is exactly the request, and consumed plus remaining is exactly
/// the original pool total.
pub proof fn lemma_extract_lots_conserves(
    pool: Seq<Lot>,
    requested: int,
    method: LotSelectionMethod,
    numbers: Option<Seq<u64>>,
)
    requires
        0 <= requested,
        spec_extract_lots(pool, requested, method, numbers) is Ok,
    ensures
        lots_total(spec_extract_lots(pool, requested, method, numbers)->Ok_0.0) == requested,
        lots_total(spec_extract_lots(pool, requested, method, numbers)->Ok_0.0)
            + lots_total(spec_extract_lots(pool, requested, method, numbers)->Ok_0.1)
            == lots_total(pool),
{
    match numbers {
        Some(ns) => {
            let selected = spec_selected_lots(pool, ns);
            let unselected = spec_unselected_lots(pool, ns);
            let t = spec_take_lots(selected, requested);
            lemma_take_lots_conserves(selected, requested);
            lemma_lots_total_concat(t.1, unselected);
            lemma_selection_conserves(pool, ns);
        },
        None => {
            let sorted = sort_lots_spec(method, pool);
            lemma_sort_lots_props(method, pool);
            lemma_take_lots_conserves(sorted, requested);
        },
    }
}

/// Selection ordering: without an explicit lot-number override, the
/// consumed lots come back in the method's order - oldest acquisition
/// dates first for first-in-first-out, newest first for last-in-first-out,
/// and so on, with lot-number tie-breaks.
pub proof fn lemma_extract_lots_ordered(
    pool: Seq<Lot>,
    requested: int,
    method: LotSelectionMethod,
)
    requires
        spec_extract_lots(pool, requested, method, None) is Ok,
    ensures
        sorted_by(method, spec_extract_lots(pool, requested, method, None)->Ok_0.0),
{
    lemma_sort_lots_props(method, pool);
    lemma_take_lots_sorted(method, sort_lots_spec(method, pool), requested);
}

/// Selection determinism: `extract_lots` is a function of its inputs alone,
/// so identical pools, requests, methods and overrides give identical
/// results on every call.
pub proof fn lemma_extract_lots_deterministic(
    pool_a: Seq<Lot>,
    pool_b: Seq<Lot>,
    requested: int,
    method: LotSelectionMethod,
    numbers_a: Option<Seq<u64>>,
    numbers_b: Option<Seq<u64>>,
)
    requires
        pool_a == pool_b,
        numbers_a == numbers_b,
    ensures
        spec_extract_lots(pool_a, requested, method, numbers_a)
            == spec_extract_lots(pool_b, requested, method, numbers_b),
{
}

/// Every lot the walk returns, consumed or remaining, carries the lot
/// number of some pool lot.
pub proof fn lemma_take_lots_from_pool(lots: Seq<Lot>, requested: int)
    ensures
        forall|k: int| 0 <= k < spec_take_lots(lots, requested).0.len()
            ==> spec_pool_has_number(lots,
                (#[trigger] spec_take_lots(lots, requested).0[k]).lot_number),
        forall|k: int| 0 <= k < spec_take_lots(lots, requested).1.len()
            ==> spec_pool_has_number(lots,
                (#[trigger] spec_take_lots(lots, requested).1[k]).lot_number),
    decreases lots.len(),
{
    let t = spec_take_lots(lots, requested);
    if requested <= 0 || lots.len() == 0 {
        assert forall|k: int| 0 <= k < t.1.len()
            implies spec_pool_has_number(lots, (#[trigger] t.1[k]).lot_number) by {
            assert(lots[k].lot_number == t.1[k].lot_number);
        }
    } else {
        let first = lots[0];
        if first.amount >= requested {
            assert forall|k: int| 0 <= k < t.0.len()
                implies spec_pool_has_number(lots, (#[trigger] t.0[k]).lot_number) by {
                assert(lots[0].lot_number == t.0[k].lot_number);
            }
            assert forall|k: int| 0 <= k < t.1.len()
                implies spec_pool_has_number(lots, (#[trigger] t.1[k]).lot_number) by {
                if first.amount == requested {
                    assert(lots[k + 1] == t.1[k]);
                } else {
                    if k == 0 {
                        assert(lots[0].lot_number == t.1[0].lot_number);
                    } else {
                        assert(lots[k] == t.1[k]);
                    }
                }
            }
        } else {
            let tail = lots.drop_first();
            let rest = spec_take_lots(tail, requested - first.amount);
            lemma_take_lots_from_pool(tail, requested - first.amount);
            assert forall|k: int| 0 <= k < t.0.len()
                implies spec_pool_has_number(lots, (#[trigger] t.0[k]).lot_number) by {
                if k == 0 {
                    assert(lots[0].lot_number == t.0[0].lot_number);
                } else {
                    assert(t.0[k] == rest.0[k - 1]);
                    assert(spec_pool_has_number(tail, rest.0[k - 1].lot_number));
                    let m = choose|m: int| 0 <= m < tail.len()
                        && tail[m].lot_number == rest.0[k - 1].lot_number;
                    assert(lots[m + 1].lot_number == t.0[k].lot_number);
                }
            }
            assert forall|k: int| 0 <= k < t.1.len()
                implies spec_pool_has_number(lots, (#[trigger] t.1[k]).lot_number) by {
                assert(t.1[k] == rest.1[k]);
                assert(spec_pool_has_number(tail, rest.1[k].lot_number));
                let m = choose|m: int| 0 <= m < tail.len()
                    && tail[m].lot_number == rest.1[k].lot_number;
                assert(lots[m + 1].lot_number == t.1[k].lot_number);
            }
        }
    }
}

/// Explicit selection only ever repeats pool lots.
pub proof fn lemma_selection_elements(lots: Seq<Lot>, numbers: Seq<u64>)
    ensures
        forall|x: Lot| #[trigger] spec_selected_lots(lots, numbers).contains(x)
            ==> lots.contains(x),
        forall|x: Lot| #[trigger] spec_unselected_lots(lots, numbers).contains(x)
            ==> lots.contains(x),
    decreases lots.len(),
{
    if lots.len() > 0 {
        let init = lots.drop_last();
        lemma_selection_elements(init, numbers);
        assert forall|x: Lot| #[trigger] spec_selected_lots(lots, numbers).contains(x)
            implies lots.contains(x) by {
            let sel = spec_selected_lots(lots, numbers);
            let pre = spec_selected_lots(init, numbers);
            let k = choose|k: int| 0 <= k < sel.len() && sel[k] == x;
            if k < pre.len() {
                assert(pre.contains(x)) by {
                    assert(pre[k] == x);
                }
                let m = choose|m: int| 0 <= m < init.len() && init[m] == x;
                assert(lots[m] == x);
            } else {
                assert(x == lots.last());
                assert(lots[lots.len() - 1] == x);
            }
        }
        assert forall|x: Lot| #[trigger] spec_unselected_lots(lots, numbers).contains(x)
            implies lots.contains(x) by {
            let sel = spec_unselected_lots(lots, numbers);
            let pre = spec_unselected_lots(init, numbers);
            let k = choose|k: int| 0 <= k < sel.len() && sel[k] == x;
            if k < pre.len() {
                assert(pre.contains(x)) by {
                    assert(pre[k] == x);
                }
                let m = choose|m: int| 0 <= m < init.len() && init[m] == x;
                assert(lots[m] == x);
            } else {
                assert(x == lots.last());
                assert(lots[lots.len() - 1] == x);
            }
        }
    }
}

/// Every lot a successful extraction returns, consumed or remaining,
/// carries the lot number of some lot of the original pool.
pub proof fn lemma_extract_lots_from_pool(
    pool: Seq<Lot>,
    requested: int,
    method: LotSelectionMethod,
    numbers: Option<Seq<u64>>,
)
    requires
        spec_extract_lots(pool, requested, method, numbers) is Ok,
    ensures
        forall|k: int| 0 <= k < spec_extract_lots(pool, requested, method, numbers)->Ok_0.0.len()
            ==> spec_pool_has_number(pool,
                (#[trigger] spec_extract_lots(pool, requested, method,
                    numbers)->Ok_0.0[k]).lot_number),
        forall|k: int| 0 <= k < spec_extract_lots(pool, requested, method, numbers)->Ok_0.1.len()
            ==> spec_pool_has_number(pool,
                (#[trigger] spec_extract_lots(pool, requested, method,
                    numbers)->Ok_0.1[k]).lot_number),
{
    let t = spec_extract_lots(pool, requested, method, numbers)->Ok_0;
    match numbers {
        Some(ns) => {
            let selected = spec_selected_lots(pool, ns);
            let unselected = spec_unselected_lots(pool, ns);
            let w = spec_take_lots(selected, requested);
            lemma_take_lots_from_pool(selected, requested);
            lemma_selection_elements(pool, ns);
            assert forall|k: int| 0 <= k < t.0.len()
                implies spec_pool_has_number(pool, (#[trigger] t.0[k]).lot_number) by {
                assert(spec_pool_has_number(selected, t.0[k].lot_number));
                let m = choose|m: int| 0 <= m < selected.len()
                    && selected[m].lot_number == t.0[k].lot_number;
                assert(selected.contains(selected[m]));
                assert(pool.contains(selected[m]));
                let q = choose|q: int| 0 <= q < pool.len() && pool[q] == selected[m];
                assert(pool[q].lot_number == t.0[k].lot_number);
            }
            assert forall|k: int| 0 <= k < t.1.len()
                implies spec_pool_has_number(pool, (#[trigger] t.1[k]).lot_number) by {
                if k < w.1.len() {
                    assert(t.1[k] == w.1[k]);
                    assert(spec_pool_has_number(selected, w.1[k].lot_number));
                    let m = choose|m: int| 0 <= m < selected.len()
                        && selected[m].lot_number == w.1[k].lot_number;
                    assert(selected.contains(selected[m]));
                    assert(pool.contains(selected[m]));
                    let q = choose|q: int| 0 <= q < pool.len() && pool[q] == selected[m];
                    assert(pool[q].lot_number == t.1[k].lot_number);
                } else {
                    assert(t.1[k] == unselected[k - w.1.len()]);
                    assert(unselected.contains(unselected[k - w.1.len()]));
                    assert(pool.contains(unselected[k - w.1.len()]));
                    let q = choose|q: int| 0 <= q < pool.len()
                        && pool[q] == unselected[k - w.1.len()];
                    assert(pool[q].lot_number == t.1[k].lot_number);
                }
            }
        },
        None => {
            let sorted = sort_lots_spec(method, pool);
            lemma_sort_lots_props(method, pool);
            lemma_take_lots_from_pool(sorted, requested);
            assert forall|k: int| 0 <= k < t.0.len()
                implies spec_pool_has_number(pool, (#[trigger] t.0[k]).lot_number) by {
                assert(spec_pool_has_number(sorted, t.0[k].lot_number));
                let m = choose|m: int| 0 <= m < sorted.len()
                    && sorted[m].lot_number == t.0[k].lot_number;
                assert(sorted.contains(sorted[m]));
                assert(pool.contains(sorted[m]));
                let q = choose|q: int| 0 <= q < pool.len() && pool[q] == sorted[m];
                assert(pool[q].lot_number == t.0[k].lot_number);
            }
            assert forall|k: int| 0 <= k < t.1.len()
                implies spec_pool_has_number(pool, (#[trigger] t.1[k]).lot_number) by {
                assert(spec_pool_has_number(sorted, t.1[k].lot_number));
                let m = choose|m: int| 0 <= m < sorted.len()
                    && sorted[m].lot_number == t.1[k].lot_number;
                assert(sorted.contains(sorted[m]));
                assert(pool.contains(sorted[m]));
                let q = choose|q: int| 0 <= q < pool.len() && pool[q] == sorted[m];
                assert(pool[q].lot_number == t.1[k].lot_number);
            }
        },
    }
}

/// A front bound survives the walk on the remaining side too: every lot
/// left behind keeps the ordering keys of some pool lot, all of which the
/// bound is below.
proof fn lemma_take_lots_rem_bound(
    method: LotSelectionMethod,
    lots: Seq<Lot>,
    requested: int,
    k: int,
    b: Lot,
)
    requires
        sorted_by(method, lots),
        0 <= k < spec_take_lots(lots, requested).1.len(),
        lots.len() > 0 ==> lot_le(method, b, lots[0]),
    ensures
        lot_le(method, b, spec_take_lots(lots, requested).1[k]),
    decreases lots.len(),
{
    let rem = spec_take_lots(lots, requested).1;
    if requested <= 0 || lots.len() == 0 {
        assert(rem[k] == lots[k]);
        if k > 0 {
            assert(lot_le(method, lots[0], lots[k]));
            lemma_lot_le_trans(method, b, lots[0], lots[k]);
        }
    } else {
        let first = lots[0];
        if first.amount >= requested {
            if first.amount == requested {
                assert(rem[k] == lots[k + 1]);
                assert(lot_le(method, lots[0], lots[k + 1]));
                lemma_lot_le_trans(method, b, lots[0], lots[k + 1]);
            } else {
                if k == 0 {
                    assert(rem[0]
                        == first.spec_with_amount((first.amount - requested) as u64));
                } else {
                    assert(rem[k] == lots[k]);
                    assert(lot_le(method, lots[0], lots[k]));
                    lemma_lot_le_trans(method, b, lots[0], lots[k]);
                }
            }
        } else {
            let tail = lots.drop_first();
            assert(sorted_by(method, tail)) by {
                assert forall|i: int, j: int| 0 <= i < j < tail.len()
                    implies #[trigger] lot_le(method, tail[i], tail[j]) by {
                    assert(tail[i] == lots[i + 1]);
                    assert(tail[j] == lots[j + 1]);
                }
            }
            if tail.len() > 0 {
                assert(tail[0] == lots[1]);
                assert(lot_le(method, lots[0], lots[1]));
                lemma_lot_le_trans(method, b, lots[0], tail[0]);
            }
            lemma_take_lots_rem_bound(method, tail, requested - first.amount, k, b);
        }
    }
}

/// Selection priority: without an explicit override, every consumed lot
/// precedes every remaining lot in the method's order — first-in-first-out
/// consumes the earliest-dated lots before any later one remains,
/// last-in-first-out the latest, and the basis methods likewise.
pub proof fn lemma_extract_lots_priority(
    pool: Seq<Lot>,
    requested: int,
    method: LotSelectionMethod,
)
    requires
        spec_extract_lots(pool, requested, method, None) is Ok,
    ensures
        forall|i: int, j: int|
            0 <= i < spec_extract_lots(pool, requested, method, None)->Ok_0.0.len()
            && 0 <= j < spec_extract_lots(pool, requested, method, None)->Ok_0.1.len()
            ==> lot_le(method,
                #[trigger] spec_extract_lots(pool, requested, method, None)->Ok_0.0[i],
                #[trigger] spec_extract_lots(pool, requested, method, None)->Ok_0.1[j]),
{
    let sorted = sort_lots_spec(method, pool);
    lemma_sort_lots_props(method, pool);
    let t = spec_take_lots(sorted, requested);
    assert forall|i: int, j: int| 0 <= i < t.0.len() && 0 <= j < t.1.len()
        implies lot_le(method, #[trigger] t.0[i], #[trigger] t.1[j]) by {
        lemma_take_lots_split_le(method, sorted, requested, i, j);
    }
}

/// Within one walk of a sorted pool, each consumed lot is bounded above by
/// each remaining lot.
proof fn lemma_take_lots_split_le(
    method: LotSelectionMethod,
    lots: Seq<Lot>,
    requested: int,
    i: int,
    j: int,
)
    requires
        sorted_by(method, lots),
        0 <= i < spec_take_lots(lots, requested).0.len(),
        0 <= j < spec_take_lots(lots, requested).1.len(),
    ensures
        lot_le(method, spec_take_lots(lots, requested).0[i],
            spec_take_lots(lots, requested).1[j]),
    decreases lots.len(),
{
    let t = spec_take_lots(lots, requested);
    let first = lots[0];
    if first.amount >= requested {
        // The single consumed lot keeps the front lot's keys.
        if first.amount == requested {
            assert(t.1[j] == lots[j + 1]);
            assert(lot_le(method, lots[0], lots[j + 1]));
        } else {
            if j == 0 {
                assert(lot_le(method, t.0[0], t.1[0]));
            } else {
                assert(t.1[j] == lots[j]);
                assert(lot_le(method, lots[0], lots[j]));
            }
        }
    } else {
        let tail = lots.drop_first();
        assert(sorted_by(method, tail)) by {
            assert forall|q: int, r: int| 0 <= q < r < tail.len()
                implies #[trigger] lot_le(method, tail[q], tail[r]) by {
                assert(tail[q] == lots[q + 1]);
                assert(tail[r] == lots[r + 1]);
            }
        }
        let rest = spec_take_lots(tail, requested - first.amount);
        if i == 0 {
            if tail.len() > 0 {
                assert(tail[0] == lots[1]);
                assert(lot_le(method, lots[0], lots[1]));
            }
            lemma_take_lots_rem_bound(method, tail, requested - first.amount, j, first);
            assert(t.1[j] == rest.1[j]);
        } else {
            assert(t.0[i] == rest.0[i - 1]);
            assert(t.1[j] == rest.1[j]);
            lemma_take_lots_split_le(method, tail, requested - first.amount, i - 1, j);
        }
    }
}

} // verus!
