//! Core data model: assets, acquisition lots, disposal records, tracked
//! accounts, and the ledger error taxonomy.
//!
//! Dates are day numbers (days since the common-era epoch, as a calendar
//! library would count them); prices are fiat amounts in millionths of a
//! fiat unit per whole token. Both are plain integers so that every rule
//! over them can be verified.

use vstd::prelude::*;

verus! {

/// A calendar date as a day number.
pub type Date = i64;

/// An on-chain address, reduced to an opaque numeric identifier.
pub type Address = u64;

/// A chain transaction signature, reduced to an opaque numeric identifier.
pub type Signature = u64;

/// An exchange, reduced to an opaque numeric identifier.
pub type ExchangeId = u64;

/// Fiat price of one whole token, in millionths of a fiat unit.
pub type Price = u64;

/// Recoverable and fatal failures of the ledger.
///
/// `InvariantViolation` signals that a core guarantee was already broken
/// outside the ledger (or that two pending records raced on one key); the
/// caller should treat it as fatal. Every other variant is recoverable.
#[derive(Debug, Clone, Copy, PartialEq, Eq, Structural)]
pub enum LedgerError {
    /// An account, lot, or pending record was absent.
    NotFound,
    /// An account or pending record with the same key already exists.
    AlreadyExists,
    /// A disposal or withdrawal asked for more than the available lot total.
    InsufficientLots,
    /// An account still holds lots and may not be removed.
    AccountNotEmpty,
    /// A core guarantee no longer holds; fatal.
    InvariantViolation,
    /// A chain or price collaborator could not answer; retry later.
    ChainInconclusive,
}

/// A fungible asset: an opaque token identifier with its decimal precision
/// and a flag marking fiat-fungible assets (which skip gain accounting).
#[derive(Debug, Clone, Copy, PartialEq, Eq, Structural)]
pub struct Asset {
    pub mint: u64,
    pub decimals: u32,
    pub fiat_fungible: bool,
}

/// How a lot entered the ledger.
#[derive(Debug, Clone, Copy, PartialEq, Eq, Structural)]
pub enum AcquisitionKind {
    /// Received by an on-chain transaction; the slot is kept when known.
    Transaction { slot: Option<u64>, signature: Signature },
    /// Inflationary staking reward for an epoch.
    EpochReward { epoch: u64, slot: u64 },
    /// Filled by an exchange order.
    ExchangeFill { exchange: ExchangeId },
    /// Received as the destination leg of an asset-to-asset swap.
    Swap { from_mint: u64, amount: Option<u64> },
    /// Purchased with fiat.
    Fiat,
    /// Received as income in kind.
    IncomeInKind,
    /// Unknown provenance.
    NotAvailable,
}

impl AcquisitionKind {
    /// Whether the full basis of a lot acquired this way counts as income.
    pub open spec fn spec_is_income(self) -> bool {
        self is EpochReward || self is IncomeInKind
    }

    pub fn is_income(&self) -> (r: bool)
        ensures
            r == self.spec_is_income(),
    {
        match self {
            AcquisitionKind::EpochReward { .. } => true,
            AcquisitionKind::IncomeInKind => true,
            _ => false,
        }
    }
}

/// When, at what unit price, and by what means a lot was acquired.
#[derive(Debug, Clone, Copy, PartialEq, Eq, Structural)]
pub struct LotAcquisition {
    pub when: Date,
    pub price: Price,
    pub kind: AcquisitionKind,
}

impl LotAcquisition {
    pub fn new(when: Date, price: Price, kind: AcquisitionKind) -> (r: LotAcquisition)
        ensures
            r == (LotAcquisition { when, price, kind }),
    {
        LotAcquisition { when, price, kind }
    }
}

/// A discrete quantity of an asset acquired at one date and unit price.
///
/// A lot is immutable once created except for `amount`, which may shrink
/// through disposal or grow when reconciliation finds unexplained extra
/// balance. Its `lot_number` is assigned once by the store and never reused.
#[derive(Debug, Clone, Copy, PartialEq, Eq, Structural)]
pub struct Lot {
    pub lot_number: u64,
    pub acquisition: LotAcquisition,
    pub amount: u64,
}

impl Lot {
    /// The same lot with a different amount; used when a disposal splits a
    /// lot into a consumed part and a remainder.
    pub open spec fn spec_with_amount(self, amount: u64) -> Lot {
        Lot { lot_number: self.lot_number, acquisition: self.acquisition, amount }
    }

    pub fn with_amount(&self, amount: u64) -> (r: Lot)
        ensures
            r == self.spec_with_amount(amount),
    {
        Lot { lot_number: self.lot_number, acquisition: self.acquisition, amount }
    }
}

/// Why a lot left the ledger.
#[derive(Debug, Clone, Copy, PartialEq, Eq, Structural)]
pub enum DisposalKind {
    /// Sold for fiat.
    Sale,
    /// Consumed by an exchange withdrawal; carries the realized fee.
    Withdrawal { fee: u64 },
    /// Consumed as the source leg of an asset-to-asset swap.
    Swap,
    /// Dropped to correct bookkeeping, with no economic meaning.
    Drop,
}

/// Immutable record of a (possibly partial) lot disposal: the consumed lot
/// snapshot, the disposal date and unit price, and the reason.
#[derive(Debug, Clone, Copy, PartialEq, Eq, Structural)]
pub struct DisposedLot {
    pub lot: Lot,
    pub asset: Asset,
    pub when: Date,
    pub price: Price,
    pub kind: DisposalKind,
}

/// Total amount held by a sequence of lots.
pub open spec fn lots_total(lots: Seq<Lot>) -> int
    decreases lots.len(),
{
    if lots.len() == 0 {
        0
    } else {
        lots[0].amount + lots_total(lots.drop_first())
    }
}

pub proof fn lemma_lots_total_nonneg(lots: Seq<Lot>)
    ensures
        lots_total(lots) >= 0,
    decreases lots.len(),
{
    if lots.len() > 0 {
        lemma_lots_total_nonneg(lots.drop_first());
    }
}

pub proof fn lemma_lots_total_push(lots: Seq<Lot>, lot: Lot)
    ensures
        lots_total(lots.push(lot)) == lots_total(lots) + lot.amount,
    decreases lots.len(),
{
    assert(lots.push(lot)[0] == if lots.len() == 0 { lot } else { lots[0] });
    if lots.len() == 0 {
        assert(lots.push(lot).drop_first() =~= Seq::<Lot>::empty());
        assert(lots_total(Seq::<Lot>::empty()) == 0);
        assert(lots_total(lots) == 0);
    } else {
        assert(lots.push(lot).drop_first() =~= lots.drop_first().push(lot));
        lemma_lots_total_push(lots.drop_first(), lot);
    }
}

pub proof fn lemma_lots_total_remove(lots: Seq<Lot>, j: int)
    requires
        0 <= j < lots.len(),
    ensures
        lots_total(lots.remove(j)) == lots_total(lots) - lots[j].amount,
    decreases lots.len(),
{
    if j == 0 {
        assert(lots.remove(0) =~= lots.drop_first());
    } else {
        assert(lots.remove(j).drop_first() =~= lots.drop_first().remove(j - 1));
        assert(lots.remove(j)[0] == lots[0]);
        lemma_lots_total_remove(lots.drop_first(), j - 1);
    }
}

pub proof fn lemma_lots_total_update(lots: Seq<Lot>, j: int, lot: Lot)
    requires
        0 <= j < lots.len(),
    ensures
        lots_total(lots.update(j, lot)) == lots_total(lots) - lots[j].amount + lot.amount,
    decreases lots.len(),
{
    if j == 0 {
        assert(lots.update(0, lot).drop_first() =~= lots.drop_first());
        assert(lots.update(0, lot)[0] == lot);
    } else {
        assert(lots.update(j, lot).drop_first() =~= lots.drop_first().update(j - 1, lot));
        assert(lots.update(j, lot)[0] == lots[0]);
        lemma_lots_total_update(lots.drop_first(), j - 1, lot);
    }
}

/// An account tracked by the ledger, keyed by `(address, asset)`.
#[derive(Debug, Clone)]
pub struct TrackedAccount {
    pub address: Address,
    pub asset: Asset,
    pub description: String,
    /// High-water mark of chain synchronization.
    pub last_update_epoch: u64,
    /// Balance in smallest units; always the sum of the lot amounts.
    pub last_update_balance: u64,
    pub lots: Vec<Lot>,
    /// When set, the balance is maintained by hand and never reconciled
    /// against chain truth.
    pub no_sync: Option<bool>,
}

impl TrackedAccount {
    /// The core guarantee of every tracked account: the recorded balance
    /// equals the sum of its lot amounts.
    pub open spec fn balance_invariant(&self) -> bool {
        self.last_update_balance == lots_total(self.lots@)
    }

    pub open spec fn spec_key_matches(&self, address: Address, asset: Asset) -> bool {
        self.address == address && self.asset == asset
    }

    pub fn key_matches(&self, address: Address, asset: Asset) -> (r: bool)
        ensures
            r == self.spec_key_matches(address, asset),
    {
        self.address == address && self.asset == asset
    }
}

/// Total lot amount of an account's lots, detecting overflow.
///
/// Returns `None` exactly when the mathematical sum exceeds `u64::MAX`.
pub fn checked_lots_total(lots: &Vec<Lot>) -> (r: Option<u64>)
    ensures
        match r {
            Some(s) => s == lots_total(lots@),
            None => lots_total(lots@) > u64::MAX,
        },
{
    let mut acc: u64 = 0;
    let mut i: usize = 0;
    while i < lots.len()
        invariant
            0 <= i <= lots@.len(),
            acc == lots_total(lots@.take(i as int)),
        decreases lots@.len() - i,
    {
        proof {
            assert(lots@.take(i + 1) =~= lots@.take(i as int).push(lots@[i as int]));
            lemma_lots_total_push(lots@.take(i as int), lots@[i as int]);
        }
        let amount = lots[i].amount;
        if amount > u64::MAX - acc {
            proof {
                lemma_lots_total_split(lots@, i + 1);
                lemma_lots_total_nonneg(lots@.skip(i + 1));
            }
            return None;
        }
        acc = acc + amount;
        i = i + 1;
    }
    proof {
        assert(lots@.take(lots@.len() as int) =~= lots@);
    }
    Some(acc)
}

pub proof fn lemma_lots_total_split(lots: Seq<Lot>, i: int)
    requires
        0 <= i <= lots.len(),
    ensures
        lots_total(lots) == lots_total(lots.take(i)) + lots_total(lots.skip(i)),
    decreases i,
{
    if i == 0 {
        assert(lots.take(0) =~= Seq::<Lot>::empty());
        assert(lots.skip(0) =~= lots);
    } else {
        assert(lots.take(i).drop_first() =~= lots.drop_first().take(i - 1));
        assert(lots.skip(i) =~= lots.drop_first().skip(i - 1));
        lemma_lots_total_split(lots.drop_first(), i - 1);
    }
}

/// Income, short-term and long-term capital-gain tax percentages, in basis
/// points.
#[derive(Debug, Clone, Copy, PartialEq, Eq, Structural)]
pub struct TaxRate {
    pub income_bps: u32,
    pub short_term_cap_gain_bps: u32,
    pub long_term_cap_gain_bps: u32,
}

/// The configured sweep destination: the stake account that balances are
/// consolidated into, and the file holding its authority key.
#[derive(Debug, Clone)]
pub struct SweepStakeAccount {
    pub address: Address,
    pub stake_authority: String,
}

} // verus!
