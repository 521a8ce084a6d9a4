//! Cost-basis and gain arithmetic, and the long-term holding classification.
//!
//! All fiat values are exact integers in millionths of a fiat unit. The
//! value of `amount` smallest units at unit price `price` is
//! `amount * price / 10^decimals`, computed without overflow in 128 bits.

use vstd::prelude::*;
use crate::types::{Asset, Date, DisposedLot, Lot, Price};

verus! {

pub open spec fn pow10(n: nat) -> nat
    decreases n,
{
    if n == 0 {
        1
    } else {
        10 * pow10((n - 1) as nat)
    }
}

pub proof fn lemma_pow10_pos(n: nat)
    ensures
        pow10(n) >= 1,
    decreases n,
{
    if n > 0 {
        lemma_pow10_pos((n - 1) as nat);
    }
}

proof fn lemma_pow10_19()
    ensures
        pow10(19) == 10_000_000_000_000_000_000,
{
    reveal_with_fuel(pow10, 20);
}

/// Executable power of ten; `n` is capped so the result fits in a `u64`.
pub fn pow10_u64(n: u32) -> (r: u64)
    requires
        n <= 19,
    ensures
        r == pow10(n as nat),
{
    proof {
        lemma_pow10_19();
    }
    let mut r: u64 = 1;
    let mut i: u32 = 0;
    while i < n
        invariant
            0 <= i <= n,
            n <= 19,
            r == pow10(i as nat),
            pow10(19) == 10_000_000_000_000_000_000,
        decreases n - i,
    {
        proof {
            lemma_pow10_mono(i as nat + 1, 19);
        }
        r = r * 10;
        i = i + 1;
    }
    r
}

pub proof fn lemma_pow10_mono(a: nat, b: nat)
    requires
        a <= b,
    ensures
        pow10(a) <= pow10(b),
    decreases b,
{
    if a < b {
        lemma_pow10_mono(a, (b - 1) as nat);
        lemma_pow10_pos((b - 1) as nat);
    }
}

/// Fiat value of `amount` smallest units at `price` millionths per whole
/// token, for an asset with `decimals` decimal places: the exact integer
/// quotient `amount * price / 10^decimals`, in millionths of a fiat unit.
pub open spec fn spec_value(amount: nat, price: nat, decimals: nat) -> int {
    ((amount * price) as int) / (pow10(decimals) as int)
}

pub fn ui_value(amount: u64, price: Price, decimals: u32) -> (r: u128)
    requires
        decimals <= 19,
    ensures
        r == spec_value(amount as nat, price as nat, decimals as nat),
{
    let divisor: u128 = pow10_u64(decimals) as u128;
    proof {
        lemma_pow10_pos(decimals as nat);
        assert((amount as u128) * (price as u128) <= u128::MAX) by (nonlinear_arith)
            requires
                amount <= u64::MAX && price <= u64::MAX,
        ;
    }
    let product: u128 = (amount as u128) * (price as u128);
    product / divisor
}

/// A signed fiat amount in millionths of a fiat unit, kept as a sign and a
/// magnitude so that gains and losses of any size stay exact.
#[derive(Debug, Clone, Copy, PartialEq, Eq, Structural)]
pub struct Money {
    pub negative: bool,
    pub magnitude: u128,
}

impl Money {
    /// The mathematical value represented.
    pub open spec fn as_int(&self) -> int {
        if self.negative {
            -(self.magnitude as int)
        } else {
            self.magnitude as int
        }
    }

    /// Canonical form: zero is never marked negative.
    pub open spec fn wf(&self) -> bool {
        self.negative ==> self.magnitude > 0
    }

    pub fn zero() -> (r: Money)
        ensures
            r.as_int() == 0 && r.wf(),
    {
        Money { negative: false, magnitude: 0 }
    }

    pub fn from_magnitude(magnitude: u128) -> (r: Money)
        ensures
            r.as_int() == magnitude && r.wf(),
    {
        Money { negative: false, magnitude }
    }

    /// Difference `a - b` of two magnitudes; exact for all inputs.
    pub fn from_difference(a: u128, b: u128) -> (r: Money)
        ensures
            r.as_int() == a - b && r.wf(),
    {
        if a >= b {
            Money { negative: false, magnitude: a - b }
        } else {
            Money { negative: true, magnitude: b - a }
        }
    }

    /// Exact sum where it is representable, `None` where the magnitude
    /// would leave 128 bits.
    pub fn checked_plus(&self, other: &Money) -> (r: Option<Money>)
        requires
            self.wf() && other.wf(),
        ensures
            r is Some <==> -(u128::MAX as int) <= self.as_int() + other.as_int()
                <= u128::MAX as int,
            r matches Some(m) ==> m.as_int() == self.as_int() + other.as_int() && m.wf(),
    {
        if self.negative == other.negative {
            if self.magnitude > u128::MAX - other.magnitude {
                None
            } else {
                Some(Money { negative: self.negative,
                    magnitude: self.magnitude + other.magnitude })
            }
        } else {
            Some(self.plus(other))
        }
    }

    /// Exact sum; the caller keeps the magnitude within 128 bits.
    pub fn plus(&self, other: &Money) -> (r: Money)
        requires
            self.wf() && other.wf(),
            -(u128::MAX as int) <= self.as_int() + other.as_int() <= u128::MAX as int,
        ensures
            r.as_int() == self.as_int() + other.as_int() && r.wf(),
    {
        if self.negative == other.negative {
            Money { negative: self.negative, magnitude: self.magnitude + other.magnitude }
        } else if self.magnitude >= other.magnitude {
            if self.magnitude == other.magnitude {
                Money { negative: false, magnitude: 0 }
            } else {
                Money { negative: self.negative, magnitude: self.magnitude - other.magnitude }
            }
        } else {
            Money { negative: other.negative, magnitude: other.magnitude - self.magnitude }
        }
    }
}

/// Original fiat value of a lot at acquisition.
pub open spec fn spec_basis(lot: Lot, decimals: nat) -> int {
    spec_value(lot.amount as nat, lot.acquisition.price as nat, decimals)
}

/// Cost basis of a lot: its amount valued at the acquisition price.
pub fn basis(lot: &Lot, asset: &Asset) -> (r: u128)
    requires
        asset.decimals <= 19,
    ensures
        r == spec_basis(*lot, asset.decimals as nat),
{
    ui_value(lot.amount, lot.acquisition.price, asset.decimals)
}

/// Basis counted as income: the full basis for income-bearing acquisition
/// kinds (staking rewards and income in kind), zero otherwise.
pub open spec fn spec_income(lot: Lot, decimals: nat) -> int {
    if lot.acquisition.kind.spec_is_income() {
        spec_basis(lot, decimals)
    } else {
        0
    }
}

pub fn income(lot: &Lot, asset: &Asset) -> (r: u128)
    requires
        asset.decimals <= 19,
    ensures
        r == spec_income(*lot, asset.decimals as nat),
{
    if lot.acquisition.kind.is_income() {
        basis(lot, asset)
    } else {
        0
    }
}

/// Capital gain of a lot against a disposal (or current) price: the value
/// at that price minus the basis.
pub open spec fn spec_cap_gain(lot: Lot, price: nat, decimals: nat) -> int {
    spec_value(lot.amount as nat, price, decimals) - spec_basis(lot, decimals)
}

pub fn cap_gain(lot: &Lot, asset: &Asset, price: Price) -> (r: Money)
    requires
        asset.decimals <= 19,
    ensures
        r.as_int() == spec_cap_gain(*lot, price as nat, asset.decimals as nat) && r.wf(),
{
    let value = ui_value(lot.amount, price, asset.decimals);
    let b = basis(lot, asset);
    Money::from_difference(value, b)
}

/// Realized capital gain of a disposal record, at its disposal price.
pub fn disposed_cap_gain(disposed: &DisposedLot) -> (r: Money)
    requires
        disposed.asset.decimals <= 19,
    ensures
        r.as_int() == spec_cap_gain(disposed.lot, disposed.price as nat,
            disposed.asset.decimals as nat) && r.wf(),
{
    cap_gain(&disposed.lot, &disposed.asset, disposed.price)
}

/// The single holding-period rule: a disposal at least 365 days after
/// acquisition is long-term.
pub open spec fn spec_is_long_term(acquisition: Date, disposal: Date) -> bool {
    disposal - acquisition >= 365
}

/// Long-term classification with both dates known.
pub fn is_long_term_on(acquisition: Date, disposal: Date) -> (r: bool)
    ensures
        r == spec_is_long_term(acquisition, disposal),
{
    (disposal as i128) - (acquisition as i128) >= 365
}

/// Today's date as a day number.
///
/// Relies on `chrono::Local::now` for the local date; nothing can be
/// promised of the result, and every caller states what holds of any date.
#[verifier::external_body]
pub fn today() -> Date {
    let now = chrono::Local::now().date_naive();
    chrono::Datelike::num_days_from_ce(&now) as i64
}

/// Long-term classification against an explicit disposal date, or against
/// today's date when none is supplied.
pub fn is_long_term_cap_gain(acquisition: Date, disposal: Option<Date>) -> (r: bool)
    ensures
        disposal is Some ==> r == spec_is_long_term(acquisition, disposal.unwrap()),
{
    let when = match disposal {
        Some(when) => when,
        None => today(),
    };
    is_long_term_on(acquisition, when)
}

/// The holding-period boundary: a lot acquired exactly 365 days before
/// disposal is long-term, and one acquired 364 days before is short-term.
pub proof fn lemma_long_term_boundary(acquisition: Date)
    requires
        acquisition + 365 <= i64::MAX,
    ensures
        spec_is_long_term(acquisition, (acquisition + 365) as Date),
        !spec_is_long_term(acquisition, (acquisition + 364) as Date),
{
}

} // verus!
