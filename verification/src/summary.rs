//! Aggregation over lots and disposal records — realized-gain totals by
//! quarter and estimated-payment period — and the small decision rules the
//! chain-synchronization flow applies to account balances and swap quotes.

use vstd::prelude::*;
use crate::types::{Asset, Date, Lot, TrackedAccount, lots_total, lemma_lots_total_split};
use crate::gain::{
    Money, basis, cap_gain, income, is_long_term_on, spec_basis, spec_cap_gain,
    spec_income, spec_is_long_term, ui_value, spec_value,
};

verus! {

/// Realized amounts of one reporting bucket, in millionths of a fiat unit.
#[derive(Debug, Clone, Copy, PartialEq, Eq, Structural)]
pub struct RealizedGain {
    pub income: Money,
    pub short_term_cap_gain: Money,
    pub long_term_cap_gain: Money,
}

impl RealizedGain {
    pub open spec fn wf(&self) -> bool {
        self.income.wf() && self.short_term_cap_gain.wf() && self.long_term_cap_gain.wf()
    }

    pub fn zero() -> (r: RealizedGain)
        ensures
            r.wf(),
            r.income.as_int() == 0,
            r.short_term_cap_gain.as_int() == 0,
            r.long_term_cap_gain.as_int() == 0,
    {
        RealizedGain {
            income: Money::zero(),
            short_term_cap_gain: Money::zero(),
            long_term_cap_gain: Money::zero(),
        }
    }
}

/// The estimated-payment period (of four per year) a month falls in:
/// January through March, April and May, June through August, and
/// September through December.
pub open spec fn spec_payment_period(month: int) -> int {
    if month < 3 {
        0
    } else if month < 5 {
        1
    } else if month < 8 {
        2
    } else {
        3
    }
}

pub fn payment_period_of_month(month: usize) -> (r: usize)
    requires
        month < 12,
    ensures
        r == spec_payment_period(month as int) && r < 4,
{
    if month < 3 {
        0
    } else if month < 5 {
        1
    } else if month < 8 {
        2
    } else {
        3
    }
}

/// One year of realized gains, bucketed both by calendar quarter and by
/// estimated-payment period.
#[derive(Debug, Clone)]
pub struct AnnualRealizedGain {
    pub by_quarter: Vec<RealizedGain>,
    pub by_payment_period: Vec<RealizedGain>,
}

impl AnnualRealizedGain {
    pub open spec fn wf(&self) -> bool {
        &&& self.by_quarter@.len() == 4
        &&& self.by_payment_period@.len() == 4
        &&& forall|i: int| 0 <= i < 4 ==> (#[trigger] self.by_quarter@[i]).wf()
        &&& forall|i: int| 0 <= i < 4 ==> (#[trigger] self.by_payment_period@[i]).wf()
    }

    pub fn new() -> (r: AnnualRealizedGain)
        ensures
            r.wf(),
            forall|i: int| 0 <= i < 4 ==> (#[trigger] r.by_quarter@[i]) == (RealizedGain {
                income: (Money { negative: false, magnitude: 0 }),
                short_term_cap_gain: (Money { negative: false, magnitude: 0 }),
                long_term_cap_gain: (Money { negative: false, magnitude: 0 }),
            }),
            forall|i: int| 0 <= i < 4
                ==> (#[trigger] r.by_payment_period@[i]) == (RealizedGain {
                income: (Money { negative: false, magnitude: 0 }),
                short_term_cap_gain: (Money { negative: false, magnitude: 0 }),
                long_term_cap_gain: (Money { negative: false, magnitude: 0 }),
            }),
    {
        let mut by_quarter: Vec<RealizedGain> = Vec::new();
        let mut by_payment_period: Vec<RealizedGain> = Vec::new();
        let mut i: usize = 0;
        while i < 4
            invariant
                0 <= i <= 4,
                by_quarter@.len() == i,
                by_payment_period@.len() == i,
                forall|k: int| 0 <= k < i ==> (#[trigger] by_quarter@[k]) == (RealizedGain {
                    income: (Money { negative: false, magnitude: 0 }),
                    short_term_cap_gain: (Money { negative: false, magnitude: 0 }),
                    long_term_cap_gain: (Money { negative: false, magnitude: 0 }),
                }),
                forall|k: int| 0 <= k < i
                    ==> (#[trigger] by_payment_period@[k]) == (RealizedGain {
                    income: (Money { negative: false, magnitude: 0 }),
                    short_term_cap_gain: (Money { negative: false, magnitude: 0 }),
                    long_term_cap_gain: (Money { negative: false, magnitude: 0 }),
                }),
            decreases 4 - i,
        {
            by_quarter.push(RealizedGain::zero());
            by_payment_period.push(RealizedGain::zero());
            i = i + 1;
        }
        AnnualRealizedGain { by_quarter, by_payment_period }
    }

    /// Record income realized in the given month (0-based) into its
    /// quarter and payment-period buckets.
    pub fn record_income(&mut self, month: usize, income: Money)
        requires
            old(self).wf(),
            month < 12,
            income.wf(),
            -(u128::MAX as int) <= old(self).by_quarter@[month as int / 3].income.as_int()
                + income.as_int() <= u128::MAX as int,
            -(u128::MAX as int) <= old(self).by_payment_period@[
                spec_payment_period(month as int)].income.as_int()
                + income.as_int() <= u128::MAX as int,
        ensures
            final(self).wf(),
            final(self).by_quarter@.len() == 4,
            final(self).by_payment_period@.len() == 4,
            forall|i: int| 0 <= i < 4 && i != month as int / 3
                ==> #[trigger] final(self).by_quarter@[i] == old(self).by_quarter@[i],
            forall|i: int| 0 <= i < 4 && i != spec_payment_period(month as int)
                ==> #[trigger] final(self).by_payment_period@[i]
                    == old(self).by_payment_period@[i],
            final(self).by_quarter@[month as int / 3].income.as_int()
                == old(self).by_quarter@[month as int / 3].income.as_int()
                    + income.as_int(),
            final(self).by_quarter@[month as int / 3].short_term_cap_gain
                == old(self).by_quarter@[month as int / 3].short_term_cap_gain,
            final(self).by_quarter@[month as int / 3].long_term_cap_gain
                == old(self).by_quarter@[month as int / 3].long_term_cap_gain,
            final(self).by_payment_period@[spec_payment_period(month as int)].income
                .as_int()
                == old(self).by_payment_period@[spec_payment_period(month as int)]
                    .income.as_int() + income.as_int(),
    {
        let q = month / 3;
        let updated_q = RealizedGain {
            income: self.by_quarter[q].income.plus(&income),
            ..self.by_quarter[q]
        };
        self.by_quarter[q] = updated_q;
        let p = payment_period_of_month(month);
        let updated_p = RealizedGain {
            income: self.by_payment_period[p].income.plus(&income),
            ..self.by_payment_period[p]
        };
        self.by_payment_period[p] = updated_p;
    }

    /// Record a short-term capital gain realized in the given month.
    pub fn record_short_term_cap_gain(&mut self, month: usize, cap_gain: Money)
        requires
            old(self).wf(),
            month < 12,
            cap_gain.wf(),
            -(u128::MAX as int) <= old(self).by_quarter@[month as int / 3]
                .short_term_cap_gain.as_int() + cap_gain.as_int() <= u128::MAX as int,
            -(u128::MAX as int) <= old(self).by_payment_period@[
                spec_payment_period(month as int)].short_term_cap_gain.as_int()
                + cap_gain.as_int() <= u128::MAX as int,
        ensures
            final(self).wf(),
            final(self).by_quarter@.len() == 4,
            final(self).by_payment_period@.len() == 4,
            forall|i: int| 0 <= i < 4 && i != month as int / 3
                ==> #[trigger] final(self).by_quarter@[i] == old(self).by_quarter@[i],
            forall|i: int| 0 <= i < 4 && i != spec_payment_period(month as int)
                ==> #[trigger] final(self).by_payment_period@[i]
                    == old(self).by_payment_period@[i],
            final(self).by_quarter@[month as int / 3].short_term_cap_gain.as_int()
                == old(self).by_quarter@[month as int / 3].short_term_cap_gain.as_int()
                    + cap_gain.as_int(),
            final(self).by_quarter@[month as int / 3].income
                == old(self).by_quarter@[month as int / 3].income,
            final(self).by_quarter@[month as int / 3].long_term_cap_gain
                == old(self).by_quarter@[month as int / 3].long_term_cap_gain,
            final(self).by_payment_period@[spec_payment_period(month as int)]
                .short_term_cap_gain.as_int()
                == old(self).by_payment_period@[spec_payment_period(month as int)]
                    .short_term_cap_gain.as_int() + cap_gain.as_int(),
    {
        let q = month / 3;
        let updated_q = RealizedGain {
            short_term_cap_gain: self.by_quarter[q].short_term_cap_gain.plus(&cap_gain),
            ..self.by_quarter[q]
        };
        self.by_quarter[q] = updated_q;
        let p = payment_period_of_month(month);
        let updated_p = RealizedGain {
            short_term_cap_gain: self.by_payment_period[p].short_term_cap_gain
                .plus(&cap_gain),
            ..self.by_payment_period[p]
        };
        self.by_payment_period[p] = updated_p;
    }

    /// Record a long-term capital gain realized in the given month.
    pub fn record_long_term_cap_gain(&mut self, month: usize, cap_gain: Money)
        requires
            old(self).wf(),
            month < 12,
            cap_gain.wf(),
            -(u128::MAX as int) <= old(self).by_quarter@[month as int / 3]
                .long_term_cap_gain.as_int() + cap_gain.as_int() <= u128::MAX as int,
            -(u128::MAX as int) <= old(self).by_payment_period@[
                spec_payment_period(month as int)].long_term_cap_gain.as_int()
                + cap_gain.as_int() <= u128::MAX as int,
        ensures
            final(self).wf(),
            final(self).by_quarter@.len() == 4,
            final(self).by_payment_period@.len() == 4,
            forall|i: int| 0 <= i < 4 && i != month as int / 3
                ==> #[trigger] final(self).by_quarter@[i] == old(self).by_quarter@[i],
            forall|i: int| 0 <= i < 4 && i != spec_payment_period(month as int)
                ==> #[trigger] final(self).by_payment_period@[i]
                    == old(self).by_payment_period@[i],
            final(self).by_quarter@[month as int / 3].long_term_cap_gain.as_int()
                == old(self).by_quarter@[month as int / 3].long_term_cap_gain.as_int()
                    + cap_gain.as_int(),
            final(self).by_quarter@[month as int / 3].income
                == old(self).by_quarter@[month as int / 3].income,
            final(self).by_quarter@[month as int / 3].short_term_cap_gain
                == old(self).by_quarter@[month as int / 3].short_term_cap_gain,
            final(self).by_payment_period@[spec_payment_period(month as int)]
                .long_term_cap_gain.as_int()
                == old(self).by_payment_period@[spec_payment_period(month as int)]
                    .long_term_cap_gain.as_int() + cap_gain.as_int(),
    {
        let q = month / 3;
        let updated_q = RealizedGain {
            long_term_cap_gain: self.by_quarter[q].long_term_cap_gain.plus(&cap_gain),
            ..self.by_quarter[q]
        };
        self.by_quarter[q] = updated_q;
        let p = payment_period_of_month(month);
        let updated_p = RealizedGain {
            long_term_cap_gain: self.by_payment_period[p].long_term_cap_gain
                .plus(&cap_gain),
            ..self.by_payment_period[p]
        };
        self.by_payment_period[p] = updated_p;
    }
}

/// Whether a swap quote stays within the tolerated value loss: the
/// guaranteed destination value must be at least the source value reduced
/// by `max_loss_bps` basis points. Values are in millionths of a fiat
/// unit.
pub open spec fn spec_within_loss_tolerance(from_value: u64, min_to_value: u64,
    max_loss_bps: u32) -> bool {
    min_to_value * 10_000 >= from_value * (10_000 - max_loss_bps)
}

pub fn swap_within_loss_tolerance(from_value: u64, min_to_value: u64, max_loss_bps: u32)
    -> (r: bool)
    requires
        max_loss_bps <= 10_000,
    ensures
        r == spec_within_loss_tolerance(from_value, min_to_value, max_loss_bps),
{
    let lhs: u128 = (min_to_value as u128) * 10_000;
    proof {
        assert((from_value as u128) * ((10_000 - max_loss_bps) as u128)
            <= (u64::MAX as u128) * 10_000) by (nonlinear_arith)
            requires
                from_value <= u64::MAX && max_loss_bps <= 10_000,
        ;
    }
    let rhs: u128 = (from_value as u128) * ((10_000 - max_loss_bps) as u128);
    lhs >= rhs
}

/// First position of a lot with the lowest acquisition price.
pub open spec fn spec_lowest_price_index(lots: Seq<Lot>) -> int
    decreases lots.len(),
{
    if lots.len() <= 1 {
        0
    } else {
        let rest = spec_lowest_price_index(lots.drop_first()) + 1;
        if lots[0].acquisition.price <= lots[rest].acquisition.price {
            0
        } else {
            rest
        }
    }
}

pub proof fn lemma_lowest_price_index_props(lots: Seq<Lot>)
    requires
        lots.len() > 0,
    ensures
        0 <= spec_lowest_price_index(lots) < lots.len(),
        forall|k: int| 0 <= k < lots.len()
            ==> lots[spec_lowest_price_index(lots)].acquisition.price
                <= (#[trigger] lots[k]).acquisition.price,
    decreases lots.len(),
{
    if lots.len() > 1 {
        lemma_lowest_price_index_props(lots.drop_first());
        let rest = spec_lowest_price_index(lots.drop_first()) + 1;
        assert(lots[rest] == lots.drop_first()[rest - 1]);
        assert forall|k: int| 0 <= k < lots.len()
            implies lots[spec_lowest_price_index(lots)].acquisition.price
                <= (#[trigger] lots[k]).acquisition.price by {
            if k > 0 {
                assert(lots[k] == lots.drop_first()[k - 1]);
            }
        }
    }
}

/// What reconciling a hand-maintained account against the chain balance
/// decided.
#[derive(Debug, Clone, Copy, PartialEq, Eq, Structural)]
pub enum ReconcileAction {
    /// The chain holds less than the ledger expects; only warn, never
    /// shrink lots silently.
    BalanceLow,
    /// Balances agree; nothing to do.
    Unchanged,
    /// The chain holds more: the surplus was added to the cheapest lot.
    Credited { surplus: u64 },
}

/// Reconcile a hand-maintained (no-sync) account against the balance the
/// chain reports: a surplus is added to the first lot with the lowest
/// acquisition price and the recorded balance is raised to match; a
/// deficit is only reported. The balance invariant is preserved.
pub fn reconcile_no_sync_balance(account: &mut TrackedAccount, current_balance: u64)
    -> (r: ReconcileAction)
    requires
        old(account).balance_invariant(),
        old(account).lots@.len() > 0,
    ensures
        final(account).balance_invariant(),
        final(account).address == old(account).address,
        final(account).asset == old(account).asset,
        final(account).description == old(account).description,
        final(account).last_update_epoch == old(account).last_update_epoch,
        final(account).no_sync == old(account).no_sync,
        current_balance < old(account).last_update_balance ==> (
            r == ReconcileAction::BalanceLow && *final(account) == *old(account)),
        current_balance == old(account).last_update_balance ==> (
            r == ReconcileAction::Unchanged && *final(account) == *old(account)),
        current_balance > old(account).last_update_balance ==> {
            let i = spec_lowest_price_index(old(account).lots@);
            let surplus = current_balance - old(account).last_update_balance;
            &&& r == (ReconcileAction::Credited { surplus: surplus as u64 })
            &&& final(account).last_update_balance == current_balance
            &&& final(account).lots@ == old(account).lots@.update(i,
                old(account).lots@[i].spec_with_amount(
                    (old(account).lots@[i].amount + surplus) as u64))
        },
{
    if current_balance < account.last_update_balance {
        return ReconcileAction::BalanceLow;
    }
    if current_balance == account.last_update_balance {
        return ReconcileAction::Unchanged;
    }
    let surplus = current_balance - account.last_update_balance;
    proof {
        lemma_lowest_price_index_props(account.lots@);
    }
    let mut best: usize = 0;
    let mut i: usize = 1;
    while i < account.lots.len()
        invariant
            0 <= best < i <= account.lots@.len(),
            account.lots@.len() > 0,
            forall|k: int| 0 <= k < i
                ==> account.lots@[best as int].acquisition.price
                    <= (#[trigger] account.lots@[k]).acquisition.price,
            forall|k: int| 0 <= k < best
                ==> (#[trigger] account.lots@[k]).acquisition.price
                    > account.lots@[best as int].acquisition.price,
        decreases account.lots@.len() - i,
    {
        if account.lots[i].acquisition.price < account.lots[best].acquisition.price {
            best = i;
        }
        i = i + 1;
    }
    proof {
        lemma_lowest_price_first(account.lots@, best as int);
    }
    let lot = account.lots[best];
    proof {
        lemma_lot_amount_bounded(account.lots@, best as int);
        crate::types::lemma_lots_total_update(account.lots@, best as int,
            lot.spec_with_amount((lot.amount + surplus) as u64));
    }
    let updated = lot.with_amount(lot.amount + surplus);
    account.lots[best] = updated;
    account.last_update_balance = current_balance;
    ReconcileAction::Credited { surplus }
}

/// The first position that attains the minimum is the canonical one.
proof fn lemma_lowest_price_first(lots: Seq<Lot>, best: int)
    requires
        lots.len() > 0,
        0 <= best < lots.len(),
        forall|k: int| 0 <= k < lots.len()
            ==> lots[best].acquisition.price <= (#[trigger] lots[k]).acquisition.price,
        forall|k: int| 0 <= k < best
            ==> (#[trigger] lots[k]).acquisition.price > lots[best].acquisition.price,
    ensures
        spec_lowest_price_index(lots) == best,
    decreases lots.len(),
{
    lemma_lowest_price_index_props(lots);
    let w = spec_lowest_price_index(lots);
    if lots.len() > 1 {
        let rest = spec_lowest_price_index(lots.drop_first()) + 1;
        if best == 0 {
            assert(lots[0].acquisition.price <= lots[rest].acquisition.price);
        } else {
            lemma_lowest_price_index_props(lots.drop_first());
            assert forall|k: int| 0 <= k < lots.drop_first().len()
                implies lots.drop_first()[best - 1].acquisition.price
                    <= (#[trigger] lots.drop_first()[k]).acquisition.price by {
                assert(lots.drop_first()[k] == lots[k + 1]);
                assert(lots.drop_first()[best - 1] == lots[best]);
            }
            assert forall|k: int| 0 <= k < best - 1
                implies (#[trigger] lots.drop_first()[k]).acquisition.price
                    > lots.drop_first()[best - 1].acquisition.price by {
                assert(lots.drop_first()[k] == lots[k + 1]);
                assert(lots.drop_first()[best - 1] == lots[best]);
            }
            lemma_lowest_price_first(lots.drop_first(), best - 1);
            assert(lots[0].acquisition.price > lots[best].acquisition.price);
            assert(lots[rest] == lots.drop_first()[rest - 1]);
        }
    }
}

/// Each lot's amount is at most the total of its sequence.
proof fn lemma_lot_amount_bounded(lots: Seq<Lot>, i: int)
    requires
        0 <= i < lots.len(),
    ensures
        lots[i].amount <= lots_total(lots),
    decreases lots.len(),
{
    lemma_lots_total_split(lots, i);
    crate::types::lemma_lots_total_nonneg(lots.take(i));
    let rest = lots.skip(i);
    assert(rest[0] == lots[i]);
    crate::types::lemma_lots_total_nonneg(rest.drop_first());
}

/// What an ordinary (chain-synchronized) account's balance scan decided:
/// a deficit is only warned about; a surplus above the dust threshold
/// becomes a new unknown-provenance lot of the difference.
#[derive(Debug, Clone, Copy, PartialEq, Eq, Structural)]
pub enum BalanceScanAction {
    /// The chain holds less than the ledger expects.
    Warn,
    /// Credit the surplus as a new lot of unknown provenance.
    CreditUnexplained { surplus: u64 },
    /// Within the dust threshold; nothing to do.
    Dust,
}

/// Decide how to treat an observed chain balance for a synchronized
/// account: below the recorded balance warns; above it by more than
/// `dust_threshold` credits the surplus; otherwise nothing happens.
pub fn classify_balance_scan(last_update_balance: u64, current_balance: u64,
    dust_threshold: u64) -> (r: BalanceScanAction)
    ensures
        r == (if current_balance < last_update_balance {
            BalanceScanAction::Warn
        } else if current_balance - last_update_balance > dust_threshold {
            BalanceScanAction::CreditUnexplained {
                surplus: (current_balance - last_update_balance) as u64,
            }
        } else {
            BalanceScanAction::Dust
        }),
{
    if current_balance < last_update_balance {
        BalanceScanAction::Warn
    } else if current_balance - last_update_balance > dust_threshold {
        BalanceScanAction::CreditUnexplained { surplus: current_balance - last_update_balance }
    } else {
        BalanceScanAction::Dust
    }
}

/// Totals over the live lots of one holding: cost basis, income-counted
/// basis, current value at a given price, and unrealized capital gain
/// split by the holding-period rule against a given date. All amounts are
/// in millionths of a fiat unit.
#[derive(Debug, Clone, Copy, PartialEq, Eq, Structural)]
pub struct HoldingsSummary {
    pub total_basis: u128,
    pub total_income: u128,
    pub total_value: u128,
    pub long_term_cap_gain: Money,
    pub short_term_cap_gain: Money,
}

pub open spec fn spec_total_basis(lots: Seq<Lot>, decimals: nat) -> int
    decreases lots.len(),
{
    if lots.len() == 0 {
        0
    } else {
        spec_total_basis(lots.drop_last(), decimals) + spec_basis(lots.last(), decimals)
    }
}

pub open spec fn spec_total_income(lots: Seq<Lot>, decimals: nat) -> int
    decreases lots.len(),
{
    if lots.len() == 0 {
        0
    } else {
        spec_total_income(lots.drop_last(), decimals) + spec_income(lots.last(), decimals)
    }
}

pub open spec fn spec_total_value(lots: Seq<Lot>, price: nat, decimals: nat) -> int
    decreases lots.len(),
{
    if lots.len() == 0 {
        0
    } else {
        spec_total_value(lots.drop_last(), price, decimals)
            + spec_value(lots.last().amount as nat, price, decimals)
    }
}

/// Unrealized gain of the lots whose holding period matches `long` on the
/// date `on`.
pub open spec fn spec_total_gain(lots: Seq<Lot>, price: nat, decimals: nat, on: Date,
    long: bool) -> int
    decreases lots.len(),
{
    if lots.len() == 0 {
        0
    } else {
        spec_total_gain(lots.drop_last(), price, decimals, on, long)
            + if spec_is_long_term(lots.last().acquisition.when, on) == long {
                spec_cap_gain(lots.last(), price, decimals)
            } else {
                0
            }
    }
}

/// Whether every prefix of the running totals stays representable in
/// unsigned (for basis, income and value) and signed-magnitude (for the
/// two gains) 128-bit arithmetic.
pub open spec fn spec_holdings_fit(lots: Seq<Lot>, price: nat, decimals: nat, on: Date)
    -> bool
    decreases lots.len(),
{
    if lots.len() == 0 {
        true
    } else {
        &&& spec_holdings_fit(lots.drop_last(), price, decimals, on)
        &&& spec_total_basis(lots, decimals) <= u128::MAX
        &&& spec_total_income(lots, decimals) <= u128::MAX
        &&& spec_total_value(lots, price, decimals) <= u128::MAX
        &&& -(u128::MAX as int) <= spec_total_gain(lots, price, decimals, on, true)
            <= u128::MAX as int
        &&& -(u128::MAX as int) <= spec_total_gain(lots, price, decimals, on, false)
            <= u128::MAX as int
    }
}

proof fn lemma_holdings_fit_prefix(lots: Seq<Lot>, price: nat, decimals: nat, on: Date,
    k: int)
    requires
        spec_holdings_fit(lots, price, decimals, on),
        0 <= k <= lots.len(),
    ensures
        spec_holdings_fit(lots.take(k), price, decimals, on),
    decreases lots.len(),
{
    if k == lots.len() {
        assert(lots.take(k) =~= lots);
    } else if lots.len() > 0 {
        assert(lots.drop_last().take(k) =~= lots.take(k));
        lemma_holdings_fit_prefix(lots.drop_last(), price, decimals, on, k);
    }
}

proof fn lemma_totals_nonneg(lots: Seq<Lot>, price: nat, decimals: nat)
    ensures
        spec_total_basis(lots, decimals) >= 0,
        spec_total_income(lots, decimals) >= 0,
        spec_total_value(lots, price, decimals) >= 0,
    decreases lots.len(),
{
    if lots.len() > 0 {
        lemma_totals_nonneg(lots.drop_last(), price, decimals);
        crate::gain::lemma_pow10_pos(decimals);
    }
}

/// Sum the holding's lots into one summary: exact totals when every
/// running total is representable, `None` otherwise. This is the
/// arithmetic behind per-account listings: basis, income, value at the
/// current price, and unrealized gains split long- against short-term on
/// the given date.
#[verifier::loop_isolation(false)]
pub fn summarize_holdings(lots: &Vec<Lot>, asset: &Asset, price: u64, on: Date)
    -> (r: Option<HoldingsSummary>)
    requires
        asset.decimals <= 19,
    ensures
        r is Some <==> spec_holdings_fit(lots@, price as nat, asset.decimals as nat, on),
        r matches Some(h) ==> {
            &&& h.total_basis == spec_total_basis(lots@, asset.decimals as nat)
            &&& h.total_income == spec_total_income(lots@, asset.decimals as nat)
            &&& h.total_value == spec_total_value(lots@, price as nat,
                asset.decimals as nat)
            &&& h.long_term_cap_gain.wf() && h.long_term_cap_gain.as_int()
                == spec_total_gain(lots@, price as nat, asset.decimals as nat, on, true)
            &&& h.short_term_cap_gain.wf() && h.short_term_cap_gain.as_int()
                == spec_total_gain(lots@, price as nat, asset.decimals as nat, on, false)
        },
{
    let ghost d = asset.decimals as nat;
    let ghost p = price as nat;
    let mut total_basis: u128 = 0;
    let mut total_income: u128 = 0;
    let mut total_value: u128 = 0;
    let mut long_gain = Money::zero();
    let mut short_gain = Money::zero();
    let mut i: usize = 0;
    while i < lots.len()
        invariant
            0 <= i <= lots@.len(),
            spec_holdings_fit(lots@.take(i as int), p, d, on),
            total_basis == spec_total_basis(lots@.take(i as int), d),
            total_income == spec_total_income(lots@.take(i as int), d),
            total_value == spec_total_value(lots@.take(i as int), p, d),
            long_gain.wf(),
            long_gain.as_int() == spec_total_gain(lots@.take(i as int), p, d, on, true),
            short_gain.wf(),
            short_gain.as_int() == spec_total_gain(lots@.take(i as int), p, d, on, false),
        decreases lots@.len() - i,
    {
        let lot = lots[i];
        proof {
            let pre = lots@.take(i + 1);
            assert(pre.drop_last() =~= lots@.take(i as int));
            assert(pre.last() == lots@[i as int]);
            lemma_totals_nonneg(lots@.take(i as int), p, d);
        }
        let b = basis(&lot, asset);
        let inc = income(&lot, asset);
        let v = ui_value(lot.amount, price, asset.decimals);
        let g = cap_gain(&lot, asset, price);
        if b > u128::MAX - total_basis {
            proof {
                lemma_unfit(lots@, p, d, on, i + 1);
            }
            return None;
        }
        if inc > u128::MAX - total_income {
            proof {
                lemma_unfit(lots@, p, d, on, i + 1);
            }
            return None;
        }
        if v > u128::MAX - total_value {
            proof {
                lemma_unfit(lots@, p, d, on, i + 1);
            }
            return None;
        }
        total_basis = total_basis + b;
        total_income = total_income + inc;
        total_value = total_value + v;
        if is_long_term_on(lot.acquisition.when, on) {
            long_gain = match long_gain.checked_plus(&g) {
                Some(m) => m,
                None => {
                    proof {
                        lemma_unfit(lots@, p, d, on, i + 1);
                    }
                    return None;
                },
            };
        } else {
            short_gain = match short_gain.checked_plus(&g) {
                Some(m) => m,
                None => {
                    proof {
                        lemma_unfit(lots@, p, d, on, i + 1);
                    }
                    return None;
                },
            };
        }
        i = i + 1;
    }
    proof {
        assert(lots@.take(lots@.len() as int) =~= lots@);
    }
    Some(HoldingsSummary {
        total_basis,
        total_income,
        total_value,
        long_term_cap_gain: long_gain,
        short_term_cap_gain: short_gain,
    })
}

/// An unrepresentable prefix total makes the whole sequence unfit.
proof fn lemma_unfit(lots: Seq<Lot>, price: nat, decimals: nat, on: Date, k: int)
    requires
        0 <= k <= lots.len(),
        !spec_holdings_fit(lots.take(k), price, decimals, on),
    ensures
        !spec_holdings_fit(lots, price, decimals, on),
{
    if spec_holdings_fit(lots, price, decimals, on) {
        lemma_holdings_fit_prefix(lots, price, decimals, on, k);
    }
}

/// The amount a sweep moves out of an account: an explicit override, or
/// the whole balance less the transaction cost (fee or rent reserve) and
/// the amount the caller wants to keep behind, floored at zero.
pub open spec fn spec_sweep_amount(balance: u64, cost: u64, retain: u64,
    exactly: Option<u64>) -> int {
    match exactly {
        Some(a) => a as int,
        None => if balance >= cost + retain {
            balance - (cost + retain)
        } else {
            0
        },
    }
}

pub fn sweep_amount(balance: u64, cost: u64, retain: u64, exactly: Option<u64>)
    -> (r: u64)
    requires
        cost + retain <= u64::MAX,
    ensures
        r == spec_sweep_amount(balance, cost, retain, exactly),
{
    match exactly {
        Some(a) => a,
        None => {
            let reserved = cost + retain;
            if balance >= reserved {
                balance - reserved
            } else {
                0
            }
        },
    }
}

/// A sweep below the dust floor is declined rather than submitted.
pub fn sweep_meets_minimum(amount: u64, minimum: u64) -> (r: bool)
    ensures
        r == (amount >= minimum),
{
    amount >= minimum
}

} // verus!
