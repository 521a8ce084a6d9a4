//! Pending operations: the four kinds of submitted-but-unfinalized ledger
//! operations, and the decision rules that turn chain and exchange facts
//! into a confirmation, a cancellation, or continued waiting.
//!
//! A pending record reaches exactly one terminal state: it is either
//! confirmed (its ledger mutation is applied and the record removed) or
//! cancelled (the record is removed with no other ledger effect). A record
//! with no terminal fact whose last valid block height has been passed by
//! the chain is only *inferred* to have expired, which the taxonomy keeps
//! distinct from an explicit on-chain failure.

use vstd::prelude::*;
use crate::types::{
    AcquisitionKind, Address, Asset, Date, DisposalKind, ExchangeId, LedgerError, Price,
    Signature,
};
use crate::select::{LotSelectionMethod, spec_extract_lots, spec_pool_has_number, view_numbers};
use crate::store::{
    Db, spec_credit_accounts, spec_credit_ok, spec_disposal_effect, spec_find_account,
    spec_disposed_records,
};

verus! {

/// An address-to-address (or wrap/unwrap) move that has been submitted to
/// the chain but not yet finalized. The amount may be unknown until
/// confirmation (for example "sweep everything").
#[derive(Debug, Clone)]
pub struct PendingTransfer {
    pub signature: Signature,
    pub last_valid_block_height: u64,
    pub amount: Option<u64>,
    pub from_address: Address,
    pub from_asset: Asset,
    pub to_address: Address,
    pub to_asset: Asset,
    pub lot_selection_method: LotSelectionMethod,
    pub lot_numbers: Option<Vec<u64>>,
}

/// Funds sent toward an exchange deposit address, awaiting finality.
#[derive(Debug, Clone)]
pub struct PendingDeposit {
    pub exchange: ExchangeId,
    pub amount: u64,
    pub transfer: PendingTransfer,
}

/// An exchange withdrawal request, awaiting completion, keyed by the
/// exchange-assigned tag.
#[derive(Debug, Clone)]
pub struct PendingWithdrawal {
    pub exchange: ExchangeId,
    pub tag: u64,
    pub asset: Asset,
    pub amount: u64,
    pub fee: u64,
    pub from_address: Address,
    pub to_address: Address,
    pub lot_selection_method: LotSelectionMethod,
    pub lot_numbers: Option<Vec<u64>>,
}

/// An asset-to-asset conversion submitted to the chain, with the prices of
/// both legs captured at request time.
#[derive(Debug, Clone)]
pub struct PendingSwap {
    pub signature: Signature,
    pub last_valid_block_height: u64,
    pub address: Address,
    pub from_asset: Asset,
    pub from_price: Price,
    pub to_asset: Asset,
    pub to_price: Price,
    pub lot_selection_method: LotSelectionMethod,
    pub lot_numbers: Option<Vec<u64>>,
}

/// Expiry inference: a pending record whose last valid block height has
/// been exceeded by the current chain height can no longer confirm.
pub open spec fn spec_is_expired(current_height: u64, last_valid_block_height: u64) -> bool {
    current_height > last_valid_block_height
}

pub fn is_expired(current_height: u64, last_valid_block_height: u64) -> (r: bool)
    ensures
        r == spec_is_expired(current_height, last_valid_block_height),
{
    current_height > last_valid_block_height
}

/// What should happen to a pending chain operation, given the facts at
/// hand. `Expired` is an inference from chain height, not a chain fact,
/// and is kept apart from `Failed`.
#[derive(Debug, Clone, Copy, PartialEq, Eq, Structural)]
pub enum PendingDisposition {
    /// The chain confirmed the operation: apply its ledger mutation.
    Confirm,
    /// The chain reports the operation failed: cancel the record.
    Failed,
    /// No chain fact, and the expiry height has passed: cancel the record.
    Expired,
    /// No terminal fact yet: keep waiting.
    StillPending,
}

/// Classify a pending chain operation from its confirmation status
/// (`None` while the chain does not know the signature, otherwise whether
/// the transaction succeeded) and the current chain height.
pub fn classify_pending_operation(
    status: Option<bool>,
    current_height: u64,
    last_valid_block_height: u64,
) -> (r: PendingDisposition)
    ensures
        r == (match status {
            Some(true) => PendingDisposition::Confirm,
            Some(false) => PendingDisposition::Failed,
            None => if spec_is_expired(current_height, last_valid_block_height) {
                PendingDisposition::Expired
            } else {
                PendingDisposition::StillPending
            },
        }),
{
    match status {
        Some(true) => PendingDisposition::Confirm,
        Some(false) => PendingDisposition::Failed,
        None => {
            if is_expired(current_height, last_valid_block_height) {
                PendingDisposition::Expired
            } else {
                PendingDisposition::StillPending
            }
        },
    }
}

/// What should happen to a pending exchange withdrawal, given the
/// exchange's completion report.
#[derive(Debug, Clone, Copy, PartialEq, Eq, Structural)]
pub enum WithdrawalDisposition {
    /// Completed with a transaction reference: dispose the backing lots.
    Confirm,
    /// Completed without a transaction reference: the exchange dropped it.
    Cancel,
    /// Not yet complete: keep waiting.
    StillPending,
}

/// Classify a pending withdrawal from the exchange's report: `completed`
/// with a transaction reference confirms it, `completed` without one means
/// the exchange cancelled it, and an incomplete report leaves it pending.
pub fn classify_pending_withdrawal(completed: bool, has_tx_reference: bool)
    -> (r: WithdrawalDisposition)
    ensures
        r == (if completed {
            if has_tx_reference {
                WithdrawalDisposition::Confirm
            } else {
                WithdrawalDisposition::Cancel
            }
        } else {
            WithdrawalDisposition::StillPending
        }),
{
    if completed {
        if has_tx_reference {
            WithdrawalDisposition::Confirm
        } else {
            WithdrawalDisposition::Cancel
        }
    } else {
        WithdrawalDisposition::StillPending
    }
}

/// What should happen to a pending exchange deposit.
#[derive(Debug, Clone, Copy, PartialEq, Eq, Structural)]
pub enum DepositDisposition {
    /// Chain-final and found in the exchange's deposit history: apply it.
    Confirm,
    /// Chain-final, the exchange offers no deposit history, and the asset
    /// is fiat-fungible: remove the record without attaching lots (fiat
    /// carries no cost-basis implications).
    ConfirmBlind,
    /// Chain-final, no deposit history, and the asset is not
    /// fiat-fungible: dropping its lots would lose tax history. Fatal.
    RefuseBlind,
    /// Chain-final and in the history, but the reported amount differs by
    /// at least the mismatch tolerance: hold for operator attention.
    AmountMismatch,
    /// The chain reports the deposit transaction failed: cancel.
    Failed,
    /// No chain fact and the expiry height has passed: cancel.
    Expired,
    /// Not yet final: keep waiting.
    StillPending,
}

/// Reported and expected deposit amounts may differ by a few smallest
/// units (exchanges occasionally round); at or above this difference the
/// deposit is held instead of confirmed.
pub const DEPOSIT_MISMATCH_TOLERANCE: u64 = 10;

/// The absolute difference between the amount the exchange reports and the
/// amount the pending record expects.
pub open spec fn spec_amount_gap(reported: u64, expected: u64) -> int {
    if reported >= expected {
        reported - expected
    } else {
        expected - reported
    }
}

/// Classify a pending exchange deposit from chain finality, the exchange's
/// deposit history (`None` when the exchange offers none, otherwise the
/// reported amount if the deposit is listed), and the asset's
/// fiat-fungible flag.
pub fn classify_pending_deposit(
    confirmed: bool,
    ok: bool,
    history: Option<Option<u64>>,
    fiat_fungible: bool,
    expected_amount: u64,
    current_height: u64,
    last_valid_block_height: u64,
) -> (r: DepositDisposition)
    ensures
        r == spec_classify_pending_deposit(confirmed, ok, history, fiat_fungible,
            expected_amount, current_height, last_valid_block_height),
{
    if confirmed && ok {
        match history {
            None => {
                if fiat_fungible {
                    DepositDisposition::ConfirmBlind
                } else {
                    DepositDisposition::RefuseBlind
                }
            },
            Some(reported) => {
                match reported {
                    None => DepositDisposition::StillPending,
                    Some(amount) => {
                        let gap = if amount >= expected_amount {
                            amount - expected_amount
                        } else {
                            expected_amount - amount
                        };
                        if gap >= DEPOSIT_MISMATCH_TOLERANCE {
                            DepositDisposition::AmountMismatch
                        } else {
                            DepositDisposition::Confirm
                        }
                    },
                }
            },
        }
    } else if !ok {
        DepositDisposition::Failed
    } else if is_expired(current_height, last_valid_block_height) {
        DepositDisposition::Expired
    } else {
        DepositDisposition::StillPending
    }
}

pub open spec fn spec_classify_pending_deposit(
    confirmed: bool,
    ok: bool,
    history: Option<Option<u64>>,
    fiat_fungible: bool,
    expected_amount: u64,
    current_height: u64,
    last_valid_block_height: u64,
) -> DepositDisposition {
    if confirmed && ok {
        match history {
            None => if fiat_fungible {
                DepositDisposition::ConfirmBlind
            } else {
                DepositDisposition::RefuseBlind
            },
            Some(reported) => match reported {
                None => DepositDisposition::StillPending,
                Some(amount) => if spec_amount_gap(amount, expected_amount)
                    >= DEPOSIT_MISMATCH_TOLERANCE as int {
                    DepositDisposition::AmountMismatch
                } else {
                    DepositDisposition::Confirm
                },
            },
        }
    } else if !ok {
        DepositDisposition::Failed
    } else if spec_is_expired(current_height, last_valid_block_height) {
        DepositDisposition::Expired
    } else {
        DepositDisposition::StillPending
    }
}

/// First pending transfer with the given signature, if any.
pub open spec fn spec_find_transfer(ts: Seq<PendingTransfer>, signature: Signature)
    -> Option<int>
    decreases ts.len(),
{
    if ts.len() == 0 {
        None
    } else if ts[0].signature == signature {
        Some(0)
    } else {
        match spec_find_transfer(ts.drop_first(), signature) {
            Some(i) => Some(i + 1),
            None => None,
        }
    }
}

pub proof fn lemma_find_transfer_props(ts: Seq<PendingTransfer>, signature: Signature)
    ensures
        match spec_find_transfer(ts, signature) {
            Some(i) => 0 <= i < ts.len() && ts[i].signature == signature
                && forall|k: int| 0 <= k < i ==> (#[trigger] ts[k]).signature != signature,
            None => forall|k: int| 0 <= k < ts.len()
                ==> (#[trigger] ts[k]).signature != signature,
        },
    decreases ts.len(),
{
    if ts.len() > 0 && ts[0].signature != signature {
        lemma_find_transfer_props(ts.drop_first(), signature);
        let tail = ts.drop_first();
        assert forall|k: int| 1 <= k < ts.len()
            implies ts[k] == tail[k - 1] by {}
    }
}

proof fn lemma_find_transfer_at(ts: Seq<PendingTransfer>, signature: Signature, i: int)
    requires
        0 <= i < ts.len(),
        ts[i].signature == signature,
        forall|k: int| 0 <= k < i ==> (#[trigger] ts[k]).signature != signature,
    ensures
        spec_find_transfer(ts, signature) == Some(i),
    decreases ts.len(),
{
    if i > 0 {
        let tail = ts.drop_first();
        assert(tail[i - 1] == ts[i]);
        assert forall|k: int| 0 <= k < i - 1
            implies (#[trigger] tail[k]).signature != signature by {
            assert(tail[k] == ts[k + 1]);
        }
        lemma_find_transfer_at(tail, signature, i - 1);
    }
}

/// First pending deposit whose transfer carries the given signature.
pub open spec fn spec_find_deposit(ds: Seq<PendingDeposit>, signature: Signature)
    -> Option<int>
    decreases ds.len(),
{
    if ds.len() == 0 {
        None
    } else if ds[0].transfer.signature == signature {
        Some(0)
    } else {
        match spec_find_deposit(ds.drop_first(), signature) {
            Some(i) => Some(i + 1),
            None => None,
        }
    }
}

pub proof fn lemma_find_deposit_props(ds: Seq<PendingDeposit>, signature: Signature)
    ensures
        match spec_find_deposit(ds, signature) {
            Some(i) => 0 <= i < ds.len() && ds[i].transfer.signature == signature
                && forall|k: int| 0 <= k < i
                    ==> (#[trigger] ds[k]).transfer.signature != signature,
            None => forall|k: int| 0 <= k < ds.len()
                ==> (#[trigger] ds[k]).transfer.signature != signature,
        },
    decreases ds.len(),
{
    if ds.len() > 0 && ds[0].transfer.signature != signature {
        lemma_find_deposit_props(ds.drop_first(), signature);
        let tail = ds.drop_first();
        assert forall|k: int| 1 <= k < ds.len()
            implies ds[k] == tail[k - 1] by {}
    }
}

proof fn lemma_find_deposit_at(ds: Seq<PendingDeposit>, signature: Signature, i: int)
    requires
        0 <= i < ds.len(),
        ds[i].transfer.signature == signature,
        forall|k: int| 0 <= k < i ==> (#[trigger] ds[k]).transfer.signature != signature,
    ensures
        spec_find_deposit(ds, signature) == Some(i),
    decreases ds.len(),
{
    if i > 0 {
        let tail = ds.drop_first();
        assert(tail[i - 1] == ds[i]);
        assert forall|k: int| 0 <= k < i - 1
            implies (#[trigger] tail[k]).transfer.signature != signature by {
            assert(tail[k] == ds[k + 1]);
        }
        lemma_find_deposit_at(tail, signature, i - 1);
    }
}

/// First pending withdrawal with the given tag, if any.
pub open spec fn spec_find_withdrawal(ws: Seq<PendingWithdrawal>, tag: u64) -> Option<int>
    decreases ws.len(),
{
    if ws.len() == 0 {
        None
    } else if ws[0].tag == tag {
        Some(0)
    } else {
        match spec_find_withdrawal(ws.drop_first(), tag) {
            Some(i) => Some(i + 1),
            None => None,
        }
    }
}

pub proof fn lemma_find_withdrawal_props(ws: Seq<PendingWithdrawal>, tag: u64)
    ensures
        match spec_find_withdrawal(ws, tag) {
            Some(i) => 0 <= i < ws.len() && ws[i].tag == tag
                && forall|k: int| 0 <= k < i ==> (#[trigger] ws[k]).tag != tag,
            None => forall|k: int| 0 <= k < ws.len() ==> (#[trigger] ws[k]).tag != tag,
        },
    decreases ws.len(),
{
    if ws.len() > 0 && ws[0].tag != tag {
        lemma_find_withdrawal_props(ws.drop_first(), tag);
        let tail = ws.drop_first();
        assert forall|k: int| 1 <= k < ws.len()
            implies ws[k] == tail[k - 1] by {}
    }
}

proof fn lemma_find_withdrawal_at(ws: Seq<PendingWithdrawal>, tag: u64, i: int)
    requires
        0 <= i < ws.len(),
        ws[i].tag == tag,
        forall|k: int| 0 <= k < i ==> (#[trigger] ws[k]).tag != tag,
    ensures
        spec_find_withdrawal(ws, tag) == Some(i),
    decreases ws.len(),
{
    if i > 0 {
        let tail = ws.drop_first();
        assert(tail[i - 1] == ws[i]);
        assert forall|k: int| 0 <= k < i - 1 implies (#[trigger] tail[k]).tag != tag by {
            assert(tail[k] == ws[k + 1]);
        }
        lemma_find_withdrawal_at(tail, tag, i - 1);
    }
}

/// First pending swap with the given signature, if any.
pub open spec fn spec_find_swap(ss: Seq<PendingSwap>, signature: Signature) -> Option<int>
    decreases ss.len(),
{
    if ss.len() == 0 {
        None
    } else if ss[0].signature == signature {
        Some(0)
    } else {
        match spec_find_swap(ss.drop_first(), signature) {
            Some(i) => Some(i + 1),
            None => None,
        }
    }
}

pub proof fn lemma_find_swap_props(ss: Seq<PendingSwap>, signature: Signature)
    ensures
        match spec_find_swap(ss, signature) {
            Some(i) => 0 <= i < ss.len() && ss[i].signature == signature
                && forall|k: int| 0 <= k < i ==> (#[trigger] ss[k]).signature != signature,
            None => forall|k: int| 0 <= k < ss.len()
                ==> (#[trigger] ss[k]).signature != signature,
        },
    decreases ss.len(),
{
    if ss.len() > 0 && ss[0].signature != signature {
        lemma_find_swap_props(ss.drop_first(), signature);
        let tail = ss.drop_first();
        assert forall|k: int| 1 <= k < ss.len()
            implies ss[k] == tail[k - 1] by {}
    }
}

proof fn lemma_find_swap_at(ss: Seq<PendingSwap>, signature: Signature, i: int)
    requires
        0 <= i < ss.len(),
        ss[i].signature == signature,
        forall|k: int| 0 <= k < i ==> (#[trigger] ss[k]).signature != signature,
    ensures
        spec_find_swap(ss, signature) == Some(i),
    decreases ss.len(),
{
    if i > 0 {
        let tail = ss.drop_first();
        assert(tail[i - 1] == ss[i]);
        assert forall|k: int| 0 <= k < i - 1
            implies (#[trigger] tail[k]).signature != signature by {
            assert(tail[k] == ss[k + 1]);
        }
        lemma_find_swap_at(tail, signature, i - 1);
    }
}

impl Db {
    /// Position of the pending transfer keyed by `signature`.
    fn find_transfer_index(&self, signature: Signature) -> (r: Option<usize>)
        ensures
            match r {
                Some(i) => spec_find_transfer(self.pending_transfers@, signature) == Some(i as int),
                None => spec_find_transfer(self.pending_transfers@, signature) is None,
            },
    {
        let mut i: usize = 0;
        while i < self.pending_transfers.len()
            invariant
                0 <= i <= self.pending_transfers@.len(),
                forall|q: int| 0 <= q < i
                    ==> (#[trigger] self.pending_transfers@[q]).signature != signature,
            decreases self.pending_transfers@.len() - i,
        {
            if self.pending_transfers[i].signature == signature {
                proof {
                    lemma_find_transfer_at(self.pending_transfers@, signature, i as int);
                }
                return Some(i);
            }
            i = i + 1;
        }
        proof {
            lemma_find_transfer_props(self.pending_transfers@, signature);
            match spec_find_transfer(self.pending_transfers@, signature) {
                Some(q) => {
                    assert(self.pending_transfers@[q].signature == signature);
                    assert(false);
                },
                None => {},
            }
        }
        None
    }

    /// Position of the pending deposit keyed by `signature`.
    fn find_deposit_index(&self, signature: Signature) -> (r: Option<usize>)
        ensures
            match r {
                Some(i) => spec_find_deposit(self.pending_deposits@, signature) == Some(i as int),
                None => spec_find_deposit(self.pending_deposits@, signature) is None,
            },
    {
        let mut i: usize = 0;
        while i < self.pending_deposits.len()
            invariant
                0 <= i <= self.pending_deposits@.len(),
                forall|q: int| 0 <= q < i
                    ==> (#[trigger] self.pending_deposits@[q]).transfer.signature != signature,
            decreases self.pending_deposits@.len() - i,
        {
            if self.pending_deposits[i].transfer.signature == signature {
                proof {
                    lemma_find_deposit_at(self.pending_deposits@, signature, i as int);
                }
                return Some(i);
            }
            i = i + 1;
        }
        proof {
            lemma_find_deposit_props(self.pending_deposits@, signature);
            match spec_find_deposit(self.pending_deposits@, signature) {
                Some(q) => {
                    assert(self.pending_deposits@[q].transfer.signature == signature);
                    assert(false);
                },
                None => {},
            }
        }
        None
    }

    /// Position of the pending withdrawal keyed by `tag`.
    fn find_withdrawal_index(&self, tag: u64) -> (r: Option<usize>)
        ensures
            match r {
                Some(i) => spec_find_withdrawal(self.pending_withdrawals@, tag) == Some(i as int),
                None => spec_find_withdrawal(self.pending_withdrawals@, tag) is None,
            },
    {
        let mut i: usize = 0;
        while i < self.pending_withdrawals.len()
            invariant
                0 <= i <= self.pending_withdrawals@.len(),
                forall|q: int| 0 <= q < i
                    ==> (#[trigger] self.pending_withdrawals@[q]).tag != tag,
            decreases self.pending_withdrawals@.len() - i,
        {
            if self.pending_withdrawals[i].tag == tag {
                proof {
                    lemma_find_withdrawal_at(self.pending_withdrawals@, tag, i as int);
                }
                return Some(i);
            }
            i = i + 1;
        }
        proof {
            lemma_find_withdrawal_props(self.pending_withdrawals@, tag);
            match spec_find_withdrawal(self.pending_withdrawals@, tag) {
                Some(q) => {
                    assert(self.pending_withdrawals@[q].tag == tag);
                    assert(false);
                },
                None => {},
            }
        }
        None
    }

    /// Position of the pending swap keyed by `signature`.
    fn find_swap_index(&self, signature: Signature) -> (r: Option<usize>)
        ensures
            match r {
                Some(i) => spec_find_swap(self.pending_swaps@, signature) == Some(i as int),
                None => spec_find_swap(self.pending_swaps@, signature) is None,
            },
    {
        let mut i: usize = 0;
        while i < self.pending_swaps.len()
            invariant
                0 <= i <= self.pending_swaps@.len(),
                forall|q: int| 0 <= q < i
                    ==> (#[trigger] self.pending_swaps@[q]).signature != signature,
            decreases self.pending_swaps@.len() - i,
        {
            if self.pending_swaps[i].signature == signature {
                proof {
                    lemma_find_swap_at(self.pending_swaps@, signature, i as int);
                }
                return Some(i);
            }
            i = i + 1;
        }
        proof {
            lemma_find_swap_props(self.pending_swaps@, signature);
            match spec_find_swap(self.pending_swaps@, signature) {
                Some(q) => {
                    assert(self.pending_swaps@[q].signature == signature);
                    assert(false);
                },
                None => {},
            }
        }
        None
    }

    /// Cancel a pending transfer: remove the record, terminally.
    /// No ledger effect beyond removing the record: accounts and balances are untouched. Fails with `NotFound` if no such record is pending.
    #[verifier::loop_isolation(false)]
    pub fn cancel_transfer(&mut self, signature: Signature)
        -> (r: Result<(), LedgerError>)
        requires
            old(self).wf(),
        ensures
            final(self).wf(),
            r is Ok <==> spec_find_transfer(old(self).pending_transfers@, signature) is Some,
            r is Ok ==> final(self).pending_transfers@ == old(self).pending_transfers@.remove(
                spec_find_transfer(old(self).pending_transfers@, signature)->Some_0),
            r is Err ==> r->Err_0 == LedgerError::NotFound
                && final(self).pending_transfers@ == old(self).pending_transfers@,
            final(self).accounts@ == old(self).accounts@,
            final(self).disposed@ == old(self).disposed@,
            final(self).pending_deposits@ == old(self).pending_deposits@,
            final(self).pending_withdrawals@ == old(self).pending_withdrawals@,
            final(self).pending_swaps@ == old(self).pending_swaps@,
            final(self).lot_counter == old(self).lot_counter,
            final(self).tax_rate == old(self).tax_rate,
            final(self).sweep_stake_account == old(self).sweep_stake_account,
            final(self).transitory_sweep_stake_addresses@ == old(self).transitory_sweep_stake_addresses@,
    {
        let idx = match self.find_transfer_index(signature) {
            Some(i) => i,
            None => {
                return Err(LedgerError::NotFound);
            },
        };
        proof {
            lemma_find_transfer_props(self.pending_transfers@, signature);
        }
        let ghost orig = self.pending_transfers@;
        self.pending_transfers.remove(idx);
        proof {
            let s = self.pending_transfers@;
            assert forall|i: int, j: int| #![trigger s[i], s[j]] 0 <= i < j < s.len()
                implies s[i].signature != s[j].signature by {
                let oi = if i < idx as int { i } else { i + 1 };
                let oj = if j < idx as int { j } else { j + 1 };
                assert(s[i] == orig[oi]);
                assert(s[j] == orig[oj]);
            }
        }
        Ok(())
    }

    /// Cancel a pending deposit: remove the record, terminally.
    /// No ledger effect: in ledger terms the funds never left the source. Fails with `NotFound` if no such record is pending.
    #[verifier::loop_isolation(false)]
    pub fn cancel_deposit(&mut self, signature: Signature)
        -> (r: Result<(), LedgerError>)
        requires
            old(self).wf(),
        ensures
            final(self).wf(),
            r is Ok <==> spec_find_deposit(old(self).pending_deposits@, signature) is Some,
            r is Ok ==> final(self).pending_deposits@ == old(self).pending_deposits@.remove(
                spec_find_deposit(old(self).pending_deposits@, signature)->Some_0),
            r is Err ==> r->Err_0 == LedgerError::NotFound
                && final(self).pending_deposits@ == old(self).pending_deposits@,
            final(self).accounts@ == old(self).accounts@,
            final(self).disposed@ == old(self).disposed@,
            final(self).pending_transfers@ == old(self).pending_transfers@,
            final(self).pending_withdrawals@ == old(self).pending_withdrawals@,
            final(self).pending_swaps@ == old(self).pending_swaps@,
            final(self).lot_counter == old(self).lot_counter,
            final(self).tax_rate == old(self).tax_rate,
            final(self).sweep_stake_account == old(self).sweep_stake_account,
            final(self).transitory_sweep_stake_addresses@ == old(self).transitory_sweep_stake_addresses@,
    {
        let idx = match self.find_deposit_index(signature) {
            Some(i) => i,
            None => {
                return Err(LedgerError::NotFound);
            },
        };
        proof {
            lemma_find_deposit_props(self.pending_deposits@, signature);
        }
        let ghost orig = self.pending_deposits@;
        self.pending_deposits.remove(idx);
        proof {
            let s = self.pending_deposits@;
            assert forall|i: int, j: int| #![trigger s[i], s[j]] 0 <= i < j < s.len()
                implies s[i].transfer.signature != s[j].transfer.signature by {
                let oi = if i < idx as int { i } else { i + 1 };
                let oj = if j < idx as int { j } else { j + 1 };
                assert(s[i] == orig[oi]);
                assert(s[j] == orig[oj]);
            }
        }
        Ok(())
    }

    /// Cancel a pending withdrawal: remove the record, terminally.
    /// Nothing to restore: the backing lots were only tentatively marked, never disposed, before confirmation. Fails with `NotFound` if no such record is pending.
    #[verifier::loop_isolation(false)]
    pub fn cancel_withdrawal(&mut self, tag: u64)
        -> (r: Result<(), LedgerError>)
        requires
            old(self).wf(),
        ensures
            final(self).wf(),
            r is Ok <==> spec_find_withdrawal(old(self).pending_withdrawals@, tag) is Some,
            r is Ok ==> final(self).pending_withdrawals@ == old(self).pending_withdrawals@.remove(
                spec_find_withdrawal(old(self).pending_withdrawals@, tag)->Some_0),
            r is Err ==> r->Err_0 == LedgerError::NotFound
                && final(self).pending_withdrawals@ == old(self).pending_withdrawals@,
            final(self).accounts@ == old(self).accounts@,
            final(self).disposed@ == old(self).disposed@,
            final(self).pending_transfers@ == old(self).pending_transfers@,
            final(self).pending_deposits@ == old(self).pending_deposits@,
            final(self).pending_swaps@ == old(self).pending_swaps@,
            final(self).lot_counter == old(self).lot_counter,
            final(self).tax_rate == old(self).tax_rate,
            final(self).sweep_stake_account == old(self).sweep_stake_account,
            final(self).transitory_sweep_stake_addresses@ == old(self).transitory_sweep_stake_addresses@,
    {
        let idx = match self.find_withdrawal_index(tag) {
            Some(i) => i,
            None => {
                return Err(LedgerError::NotFound);
            },
        };
        proof {
            lemma_find_withdrawal_props(self.pending_withdrawals@, tag);
        }
        let ghost orig = self.pending_withdrawals@;
        self.pending_withdrawals.remove(idx);
        proof {
            let s = self.pending_withdrawals@;
            assert forall|i: int, j: int| #![trigger s[i], s[j]] 0 <= i < j < s.len()
                implies s[i].tag != s[j].tag by {
                let oi = if i < idx as int { i } else { i + 1 };
                let oj = if j < idx as int { j } else { j + 1 };
                assert(s[i] == orig[oi]);
                assert(s[j] == orig[oj]);
            }
        }
        Ok(())
    }

    /// Cancel a pending swap: remove the record, terminally.
    /// No ledger effect beyond removing the record. Fails with `NotFound` if no such record is pending.
    #[verifier::loop_isolation(false)]
    pub fn cancel_swap(&mut self, signature: Signature)
        -> (r: Result<(), LedgerError>)
        requires
            old(self).wf(),
        ensures
            final(self).wf(),
            r is Ok <==> spec_find_swap(old(self).pending_swaps@, signature) is Some,
            r is Ok ==> final(self).pending_swaps@ == old(self).pending_swaps@.remove(
                spec_find_swap(old(self).pending_swaps@, signature)->Some_0),
            r is Err ==> r->Err_0 == LedgerError::NotFound
                && final(self).pending_swaps@ == old(self).pending_swaps@,
            final(self).accounts@ == old(self).accounts@,
            final(self).disposed@ == old(self).disposed@,
            final(self).pending_transfers@ == old(self).pending_transfers@,
            final(self).pending_deposits@ == old(self).pending_deposits@,
            final(self).pending_withdrawals@ == old(self).pending_withdrawals@,
            final(self).lot_counter == old(self).lot_counter,
            final(self).tax_rate == old(self).tax_rate,
            final(self).sweep_stake_account == old(self).sweep_stake_account,
            final(self).transitory_sweep_stake_addresses@ == old(self).transitory_sweep_stake_addresses@,
    {
        let idx = match self.find_swap_index(signature) {
            Some(i) => i,
            None => {
                return Err(LedgerError::NotFound);
            },
        };
        proof {
            lemma_find_swap_props(self.pending_swaps@, signature);
        }
        let ghost orig = self.pending_swaps@;
        self.pending_swaps.remove(idx);
        proof {
            let s = self.pending_swaps@;
            assert forall|i: int, j: int| #![trigger s[i], s[j]] 0 <= i < j < s.len()
                implies s[i].signature != s[j].signature by {
                let oi = if i < idx as int { i } else { i + 1 };
                let oj = if j < idx as int { j } else { j + 1 };
                assert(s[i] == orig[oi]);
                assert(s[j] == orig[oj]);
            }
        }
        Ok(())
    }

    /// Open a pending transfer for a submitted address-to-address move; an amount of `None` means "move everything" at confirmation time.
    /// Two pending transfer records may never race on one key: if the key is
    /// already pending, this fails with `InvariantViolation` and the store
    /// is unchanged.
    pub fn record_transfer(
        &mut self,
        signature: Signature,
        last_valid_block_height: u64,
        amount: Option<u64>,
        from_address: Address,
        from_asset: Asset,
        to_address: Address,
        to_asset: Asset,
        lot_selection_method: LotSelectionMethod,
        lot_numbers: Option<Vec<u64>>,
    ) -> (r: Result<(), LedgerError>)
        requires
            old(self).wf(),
        ensures
            final(self).wf(),
            r is Ok <==> spec_find_transfer(old(self).pending_transfers@, signature) is None,
            r is Ok ==> final(self).pending_transfers@ == old(self).pending_transfers@.push(
                (PendingTransfer {
                signature,
                last_valid_block_height,
                amount,
                from_address,
                from_asset,
                to_address,
                to_asset,
                lot_selection_method,
                lot_numbers,
            })),
            r is Err ==> r->Err_0 == LedgerError::InvariantViolation
                && final(self).pending_transfers@ == old(self).pending_transfers@,
            final(self).accounts@ == old(self).accounts@,
            final(self).disposed@ == old(self).disposed@,
            final(self).pending_deposits@ == old(self).pending_deposits@,
            final(self).pending_withdrawals@ == old(self).pending_withdrawals@,
            final(self).pending_swaps@ == old(self).pending_swaps@,
            final(self).lot_counter == old(self).lot_counter,
            final(self).tax_rate == old(self).tax_rate,
            final(self).sweep_stake_account == old(self).sweep_stake_account,
            final(self).transitory_sweep_stake_addresses@ == old(self).transitory_sweep_stake_addresses@,
    {
        if self.find_transfer_index(signature).is_some() {
            return Err(LedgerError::InvariantViolation);
        }
        proof {
            lemma_find_transfer_props(self.pending_transfers@, signature);
        }
        let ghost orig = self.pending_transfers@;
        let record = (PendingTransfer {
                signature,
                last_valid_block_height,
                amount,
                from_address,
                from_asset,
                to_address,
                to_asset,
                lot_selection_method,
                lot_numbers,
            });
        self.pending_transfers.push(record);
        proof {
            let s = self.pending_transfers@;
            assert forall|i: int, j: int| #![trigger s[i], s[j]] 0 <= i < j < s.len()
                implies s[i].signature != s[j].signature by {
                if j == s.len() - 1 {
                    assert(s[i] == orig[i]);
                } else {
                    assert(s[i] == orig[i]);
                    assert(s[j] == orig[j]);
                }
            }
        }
        Ok(())
    }

    /// Open a pending exchange deposit for funds sent toward a deposit address.
    /// Two pending deposit records may never race on one key: if the key is
    /// already pending, this fails with `InvariantViolation` and the store
    /// is unchanged.
    pub fn record_deposit(
        &mut self,
        signature: Signature,
        last_valid_block_height: u64,
        from_address: Address,
        amount: u64,
        exchange: ExchangeId,
        to_address: Address,
        asset: Asset,
        lot_selection_method: LotSelectionMethod,
        lot_numbers: Option<Vec<u64>>,
    ) -> (r: Result<(), LedgerError>)
        requires
            old(self).wf(),
        ensures
            final(self).wf(),
            r is Ok <==> spec_find_deposit(old(self).pending_deposits@, signature) is None,
            r is Ok ==> final(self).pending_deposits@ == old(self).pending_deposits@.push(
                (PendingDeposit {
                exchange,
                amount,
                transfer: PendingTransfer {
                    signature,
                    last_valid_block_height,
                    amount: Some(amount),
                    from_address,
                    from_asset: asset,
                    to_address,
                    to_asset: asset,
                    lot_selection_method,
                    lot_numbers,
                },
            })),
            r is Err ==> r->Err_0 == LedgerError::InvariantViolation
                && final(self).pending_deposits@ == old(self).pending_deposits@,
            final(self).accounts@ == old(self).accounts@,
            final(self).disposed@ == old(self).disposed@,
            final(self).pending_transfers@ == old(self).pending_transfers@,
            final(self).pending_withdrawals@ == old(self).pending_withdrawals@,
            final(self).pending_swaps@ == old(self).pending_swaps@,
            final(self).lot_counter == old(self).lot_counter,
            final(self).tax_rate == old(self).tax_rate,
            final(self).sweep_stake_account == old(self).sweep_stake_account,
            final(self).transitory_sweep_stake_addresses@ == old(self).transitory_sweep_stake_addresses@,
    {
        if self.find_deposit_index(signature).is_some() {
            return Err(LedgerError::InvariantViolation);
        }
        proof {
            lemma_find_deposit_props(self.pending_deposits@, signature);
        }
        let ghost orig = self.pending_deposits@;
        let record = (PendingDeposit {
                exchange,
                amount,
                transfer: PendingTransfer {
                    signature,
                    last_valid_block_height,
                    amount: Some(amount),
                    from_address,
                    from_asset: asset,
                    to_address,
                    to_asset: asset,
                    lot_selection_method,
                    lot_numbers,
                },
            });
        self.pending_deposits.push(record);
        proof {
            let s = self.pending_deposits@;
            assert forall|i: int, j: int| #![trigger s[i], s[j]] 0 <= i < j < s.len()
                implies s[i].transfer.signature != s[j].transfer.signature by {
                if j == s.len() - 1 {
                    assert(s[i] == orig[i]);
                } else {
                    assert(s[i] == orig[i]);
                    assert(s[j] == orig[j]);
                }
            }
        }
        Ok(())
    }

    /// Open a pending exchange withdrawal; disposal of the backing lots is deferred to confirmation.
    /// Two pending withdrawal records may never race on one key: if the key is
    /// already pending, this fails with `InvariantViolation` and the store
    /// is unchanged.
    pub fn record_withdrawal(
        &mut self,
        exchange: ExchangeId,
        tag: u64,
        asset: Asset,
        amount: u64,
        fee: u64,
        from_address: Address,
        to_address: Address,
        lot_selection_method: LotSelectionMethod,
        lot_numbers: Option<Vec<u64>>,
    ) -> (r: Result<(), LedgerError>)
        requires
            old(self).wf(),
        ensures
            final(self).wf(),
            r is Ok <==> spec_find_withdrawal(old(self).pending_withdrawals@, tag) is None,
            r is Ok ==> final(self).pending_withdrawals@ == old(self).pending_withdrawals@.push(
                (PendingWithdrawal {
                exchange,
                tag,
                asset,
                amount,
                fee,
                from_address,
                to_address,
                lot_selection_method,
                lot_numbers,
            })),
            r is Err ==> r->Err_0 == LedgerError::InvariantViolation
                && final(self).pending_withdrawals@ == old(self).pending_withdrawals@,
            final(self).accounts@ == old(self).accounts@,
            final(self).disposed@ == old(self).disposed@,
            final(self).pending_transfers@ == old(self).pending_transfers@,
            final(self).pending_deposits@ == old(self).pending_deposits@,
            final(self).pending_swaps@ == old(self).pending_swaps@,
            final(self).lot_counter == old(self).lot_counter,
            final(self).tax_rate == old(self).tax_rate,
            final(self).sweep_stake_account == old(self).sweep_stake_account,
            final(self).transitory_sweep_stake_addresses@ == old(self).transitory_sweep_stake_addresses@,
    {
        if self.find_withdrawal_index(tag).is_some() {
            return Err(LedgerError::InvariantViolation);
        }
        proof {
            lemma_find_withdrawal_props(self.pending_withdrawals@, tag);
        }
        let ghost orig = self.pending_withdrawals@;
        let record = (PendingWithdrawal {
                exchange,
                tag,
                asset,
                amount,
                fee,
                from_address,
                to_address,
                lot_selection_method,
                lot_numbers,
            });
        self.pending_withdrawals.push(record);
        proof {
            let s = self.pending_withdrawals@;
            assert forall|i: int, j: int| #![trigger s[i], s[j]] 0 <= i < j < s.len()
                implies s[i].tag != s[j].tag by {
                if j == s.len() - 1 {
                    assert(s[i] == orig[i]);
                } else {
                    assert(s[i] == orig[i]);
                    assert(s[j] == orig[j]);
                }
            }
        }
        Ok(())
    }

    /// Open a pending asset-to-asset swap, capturing the prices of both legs at request time.
    /// Two pending swap records may never race on one key: if the key is
    /// already pending, this fails with `InvariantViolation` and the store
    /// is unchanged.
    pub fn record_swap(
        &mut self,
        signature: Signature,
        last_valid_block_height: u64,
        address: Address,
        from_asset: Asset,
        from_price: Price,
        to_asset: Asset,
        to_price: Price,
        lot_selection_method: LotSelectionMethod,
        lot_numbers: Option<Vec<u64>>,
    ) -> (r: Result<(), LedgerError>)
        requires
            old(self).wf(),
        ensures
            final(self).wf(),
            r is Ok <==> spec_find_swap(old(self).pending_swaps@, signature) is None,
            r is Ok ==> final(self).pending_swaps@ == old(self).pending_swaps@.push(
                (PendingSwap {
                signature,
                last_valid_block_height,
                address,
                from_asset,
                from_price,
                to_asset,
                to_price,
                lot_selection_method,
                lot_numbers,
            })),
            r is Err ==> r->Err_0 == LedgerError::InvariantViolation
                && final(self).pending_swaps@ == old(self).pending_swaps@,
            final(self).accounts@ == old(self).accounts@,
            final(self).disposed@ == old(self).disposed@,
            final(self).pending_transfers@ == old(self).pending_transfers@,
            final(self).pending_deposits@ == old(self).pending_deposits@,
            final(self).pending_withdrawals@ == old(self).pending_withdrawals@,
            final(self).lot_counter == old(self).lot_counter,
            final(self).tax_rate == old(self).tax_rate,
            final(self).sweep_stake_account == old(self).sweep_stake_account,
            final(self).transitory_sweep_stake_addresses@ == old(self).transitory_sweep_stake_addresses@,
    {
        if self.find_swap_index(signature).is_some() {
            return Err(LedgerError::InvariantViolation);
        }
        proof {
            lemma_find_swap_props(self.pending_swaps@, signature);
        }
        let ghost orig = self.pending_swaps@;
        let record = (PendingSwap {
                signature,
                last_valid_block_height,
                address,
                from_asset,
                from_price,
                to_asset,
                to_price,
                lot_selection_method,
                lot_numbers,
            });
        self.pending_swaps.push(record);
        proof {
            let s = self.pending_swaps@;
            assert forall|i: int, j: int| #![trigger s[i], s[j]] 0 <= i < j < s.len()
                implies s[i].signature != s[j].signature by {
                if j == s.len() - 1 {
                    assert(s[i] == orig[i]);
                } else {
                    assert(s[i] == orig[i]);
                    assert(s[j] == orig[j]);
                }
            }
        }
        Ok(())
    }

    /// Drop a pending deposit whose lots are deliberately not tracked: the
    /// blind path for fiat-fungible assets when an exchange offers no
    /// deposit history. The ledger effect equals a cancellation - the
    /// record is removed and nothing else moves - but the operation is
    /// semantically a completion without lot accounting.
    pub fn drop_deposit(&mut self, signature: Signature) -> (r: Result<(), LedgerError>)
        requires
            old(self).wf(),
        ensures
            final(self).wf(),
            r is Ok <==> spec_find_deposit(old(self).pending_deposits@, signature) is Some,
            r is Ok ==> final(self).pending_deposits@ == old(self).pending_deposits@.remove(
                spec_find_deposit(old(self).pending_deposits@, signature)->Some_0),
            r is Err ==> r->Err_0 == LedgerError::NotFound
                && final(self).pending_deposits@ == old(self).pending_deposits@,
            final(self).accounts@ == old(self).accounts@,
            final(self).disposed@ == old(self).disposed@,
            final(self).pending_transfers@ == old(self).pending_transfers@,
            final(self).pending_withdrawals@ == old(self).pending_withdrawals@,
            final(self).pending_swaps@ == old(self).pending_swaps@,
            final(self).lot_counter == old(self).lot_counter,
            final(self).tax_rate == old(self).tax_rate,
            final(self).sweep_stake_account == old(self).sweep_stake_account,
            final(self).transitory_sweep_stake_addresses@ == old(self).transitory_sweep_stake_addresses@,
    {
        self.cancel_deposit(signature)
    }

    /// Confirm a pending deposit: the chain has finalized the transfer
    /// toward the exchange, so the destination account is credited with a
    /// new lot dated at the deposit, and the record is removed. In ledger
    /// terms the source was never debited by this subsystem, so nothing
    /// else moves. The unit price at the deposit date comes from the
    /// caller's price oracle.
    pub fn confirm_deposit(&mut self, signature: Signature, when: Date, price: Price)
        -> (r: Result<(), LedgerError>)
        requires
            old(self).wf(),
        ensures
            final(self).wf(),
            r is Ok <==> (spec_find_deposit(old(self).pending_deposits@, signature)
                matches Some(di) && spec_credit_ok(*old(self),
                    old(self).pending_deposits@[di].transfer.to_address,
                    old(self).pending_deposits@[di].transfer.to_asset,
                    old(self).pending_deposits@[di].amount)),
            r is Ok ==> {
                let di = spec_find_deposit(old(self).pending_deposits@, signature)->Some_0;
                let d = old(self).pending_deposits@[di];
                &&& spec_credit_accounts(old(self).accounts@, final(self).accounts@,
                    old(self).lot_counter, final(self).lot_counter,
                    d.transfer.to_address, d.transfer.to_asset, when, price,
                    (AcquisitionKind::Transaction { slot: None, signature }), d.amount)
                &&& final(self).pending_deposits@
                    == old(self).pending_deposits@.remove(di)
                &&& final(self).disposed@ == old(self).disposed@
                &&& final(self).pending_withdrawals@ == old(self).pending_withdrawals@
                &&& final(self).pending_transfers@ == old(self).pending_transfers@
                &&& final(self).pending_swaps@ == old(self).pending_swaps@
                &&& final(self).tax_rate == old(self).tax_rate
                &&& final(self).sweep_stake_account == old(self).sweep_stake_account
                &&& final(self).transitory_sweep_stake_addresses@
                    == old(self).transitory_sweep_stake_addresses@
            },
            r is Err ==> *final(self) == *old(self),
            r is Err ==> r->Err_0 == (if spec_find_deposit(old(self).pending_deposits@,
                signature) is None {
                LedgerError::NotFound
            } else {
                LedgerError::InvariantViolation
            }),
    {
        let idx = match self.find_deposit_index(signature) {
            Some(i) => i,
            None => {
                return Err(LedgerError::NotFound);
            },
        };
        proof {
            lemma_find_deposit_props(self.pending_deposits@, signature);
        }
        let to_address = self.pending_deposits[idx].transfer.to_address;
        let to_asset = self.pending_deposits[idx].transfer.to_asset;
        let amount = self.pending_deposits[idx].amount;
        let ghost orig = *self;
        match self.credit_new_lot(to_address, to_asset, when, price,
            AcquisitionKind::Transaction { slot: None, signature }, amount) {
            Ok(_) => {},
            Err(e) => {
                return Err(e);
            },
        }
        self.pending_deposits.remove(idx);
        proof {
            let s = self.pending_deposits@;
            let orig_pd = orig.pending_deposits@;
            assert forall|i: int, j: int| #![trigger s[i], s[j]] 0 <= i < j < s.len()
                implies s[i].transfer.signature != s[j].transfer.signature by {
                let oi = if i < idx as int { i } else { i + 1 };
                let oj = if j < idx as int { j } else { j + 1 };
                assert(s[i] == orig_pd[oi]);
                assert(s[j] == orig_pd[oj]);
            }
        }
        Ok(())
    }

    /// Confirm a pending withdrawal: dispose the backing lots — selected
    /// at request time — from the exchange-side account, recording the
    /// realized fee on each disposal record, and remove the pending
    /// record. On any failure the store is unchanged. The disposal price
    /// comes from the caller's price oracle.
    pub fn confirm_withdrawal(&mut self, tag: u64, when: Date, price: Price)
        -> (r: Result<(), LedgerError>)
        requires
            old(self).wf(),
        ensures
            final(self).wf(),
            r is Ok <==> (spec_find_withdrawal(old(self).pending_withdrawals@, tag)
                matches Some(wi) && {
                let w = old(self).pending_withdrawals@[wi];
                spec_find_account(old(self).accounts@, w.from_address, w.asset)
                    matches Some(ai) && spec_extract_lots(old(self).accounts@[ai].lots@,
                        w.amount as int, w.lot_selection_method,
                        spec_view_numbers(w.lot_numbers)) is Ok
            }),
            r is Ok ==> {
                let wi = spec_find_withdrawal(old(self).pending_withdrawals@, tag)->Some_0;
                let w = old(self).pending_withdrawals@[wi];
                let ai = spec_find_account(old(self).accounts@, w.from_address,
                    w.asset)->Some_0;
                let t = spec_extract_lots(old(self).accounts@[ai].lots@, w.amount as int,
                    w.lot_selection_method, spec_view_numbers(w.lot_numbers))->Ok_0;
                &&& spec_disposal_effect(old(self).accounts@, final(self).accounts@,
                    old(self).disposed@, final(self).disposed@,
                    w.from_address, w.asset, w.amount as int, when, price,
                    (DisposalKind::Withdrawal { fee: w.fee }), w.lot_selection_method,
                    spec_view_numbers(w.lot_numbers),
                    spec_disposed_records(t.0, w.asset, when, price,
                        (DisposalKind::Withdrawal { fee: w.fee })))
                &&& final(self).pending_withdrawals@
                    == old(self).pending_withdrawals@.remove(wi)
                &&& final(self).pending_deposits@ == old(self).pending_deposits@
                &&& final(self).pending_transfers@ == old(self).pending_transfers@
                &&& final(self).pending_swaps@ == old(self).pending_swaps@
                &&& final(self).lot_counter == old(self).lot_counter
                &&& final(self).tax_rate == old(self).tax_rate
                &&& final(self).sweep_stake_account == old(self).sweep_stake_account
                &&& final(self).transitory_sweep_stake_addresses@
                    == old(self).transitory_sweep_stake_addresses@
            },
            r is Err ==> *final(self) == *old(self),
            r is Err ==> r->Err_0 == (match spec_find_withdrawal(
                old(self).pending_withdrawals@, tag) {
                None => LedgerError::NotFound,
                Some(wi) => {
                    let w = old(self).pending_withdrawals@[wi];
                    match spec_find_account(old(self).accounts@, w.from_address, w.asset) {
                        None => LedgerError::NotFound,
                        Some(ai) => spec_extract_lots(old(self).accounts@[ai].lots@,
                            w.amount as int, w.lot_selection_method,
                            spec_view_numbers(w.lot_numbers))->Err_0,
                    }
                },
            }),
    {
        let idx = match self.find_withdrawal_index(tag) {
            Some(i) => i,
            None => {
                return Err(LedgerError::NotFound);
            },
        };
        proof {
            lemma_find_withdrawal_props(self.pending_withdrawals@, tag);
        }
        let from_address = self.pending_withdrawals[idx].from_address;
        let asset = self.pending_withdrawals[idx].asset;
        let amount = self.pending_withdrawals[idx].amount;
        let fee = self.pending_withdrawals[idx].fee;
        let method = self.pending_withdrawals[idx].lot_selection_method;
        let numbers = copy_lot_numbers(&self.pending_withdrawals[idx].lot_numbers);
        let ghost orig = *self;
        let numbers_ref = match &numbers {
            Some(v) => Some(v),
            None => None,
        };
        proof {
            assert(view_numbers(numbers_ref)
                == spec_view_numbers(orig.pending_withdrawals@[idx as int].lot_numbers));
        }
        match self.record_disposal(from_address, asset, amount, when, price,
            DisposalKind::Withdrawal { fee }, method, numbers_ref) {
            Ok(_) => {},
            Err(e) => {
                return Err(e);
            },
        }
        self.pending_withdrawals.remove(idx);
        proof {
            let s = self.pending_withdrawals@;
            let orig_pw = orig.pending_withdrawals@;
            assert forall|i: int, j: int| #![trigger s[i], s[j]] 0 <= i < j < s.len()
                implies s[i].tag != s[j].tag by {
                let oi = if i < idx as int { i } else { i + 1 };
                let oj = if j < idx as int { j } else { j + 1 };
                assert(s[i] == orig_pw[oi]);
                assert(s[j] == orig_pw[oj]);
            }
        }
        Ok(())
    }

    /// Confirm a pending transfer: move the recorded amount of lots —
    /// selected at request time via the chosen method — from the source
    /// account to the destination account, creating the destination if
    /// needed. Lot numbers and acquisition histories move unchanged; the
    /// date only marks when finality was observed. On any failure the
    /// store is unchanged.
    pub fn confirm_transfer(&mut self, signature: Signature, _when: Date)
        -> (r: Result<(), LedgerError>)
        requires
            old(self).wf(),
        ensures
            final(self).wf(),
            r is Ok <==> spec_transfer_ok(*old(self), signature),
            r is Ok ==> spec_transfer_applied(*old(self), *final(self), signature),
            r is Err ==> *final(self) == *old(self),
            r is Err ==> r->Err_0 == spec_transfer_error(*old(self), signature),
    {
        let ti = match self.find_transfer_index(signature) {
            Some(i) => i,
            None => {
                return Err(LedgerError::NotFound);
            },
        };
        proof {
            lemma_find_transfer_props(self.pending_transfers@, signature);
        }
        let from_address = self.pending_transfers[ti].from_address;
        let from_asset = self.pending_transfers[ti].from_asset;
        let to_address = self.pending_transfers[ti].to_address;
        let to_asset = self.pending_transfers[ti].to_asset;
        let recorded_amount = self.pending_transfers[ti].amount;
        let method = self.pending_transfers[ti].lot_selection_method;
        let numbers = copy_lot_numbers(&self.pending_transfers[ti].lot_numbers);

        let ai = match self.find_account_index_pub(from_address, from_asset) {
            Some(i) => i,
            None => {
                return Err(LedgerError::NotFound);
            },
        };
        proof {
            crate::store::lemma_find_account_props(self.accounts@, from_address, from_asset);
        }
        if from_address == to_address && from_asset == to_asset {
            return Err(LedgerError::InvariantViolation);
        }
        let amount = match recorded_amount {
            Some(a) => a,
            None => self.accounts[ai].last_update_balance,
        };
        let pool = crate::select::copy_tail(&self.accounts[ai].lots, 0);
        proof {
            assert(pool@ =~= self.accounts@[ai as int].lots@);
        }
        let numbers_ref = match &numbers {
            Some(v) => Some(v),
            None => None,
        };
        proof {
            assert(view_numbers(numbers_ref) == spec_view_numbers(
                self.pending_transfers@[ti as int].lot_numbers));
        }
        let (consumed, remaining) = match crate::select::extract_lots(pool, amount, method,
            numbers_ref) {
            Ok(t) => t,
            Err(e) => {
                return Err(e);
            },
        };
        let di_opt = self.find_account_index_pub(to_address, to_asset);
        proof {
            crate::store::lemma_find_account_props(self.accounts@, to_address, to_asset);
        }
        if let Some(di) = di_opt {
            let dest_balance = self.accounts[di].last_update_balance;
            if amount > u64::MAX - dest_balance {
                return Err(LedgerError::InvariantViolation);
            }
        }
        let ghost orig = *self;
        let ghost pool_view = orig.accounts@[ai as int].lots@;
        let ghost w = spec_extract_lots(pool_view, amount as int, method,
            view_numbers(numbers_ref))->Ok_0;
        proof {
            crate::select::lemma_extract_lots_conserves(pool_view, amount as int, method,
                view_numbers(numbers_ref));
            crate::select::lemma_extract_lots_from_pool(pool_view, amount as int, method,
                view_numbers(numbers_ref));
            crate::types::lemma_lots_total_nonneg(w.1);
            crate::types::lemma_lots_total_nonneg(w.0);
            assert(orig.accounts@[ai as int].balance_invariant());
        }
        let source_balance = self.accounts[ai].last_update_balance;
        self.accounts[ai].last_update_balance = source_balance - amount;
        self.accounts[ai].lots = remaining;
        let mut moved = consumed;
        match di_opt {
            Some(di) => {
                proof {
                    assert(ai != di);
                }
                let dest_balance = self.accounts[di].last_update_balance;
                self.accounts[di].last_update_balance = dest_balance + amount;
                self.accounts[di].lots.append(&mut moved);
                proof {
                    crate::select::lemma_lots_total_concat(
                        orig.accounts@[di as int].lots@, w.0);
                }
            },
            None => {
                let account = crate::types::TrackedAccount {
                    address: to_address,
                    asset: to_asset,
                    description: String::new(),
                    last_update_epoch: 0,
                    last_update_balance: amount,
                    lots: moved,
                    no_sync: None,
                };
                self.accounts.push(account);
            },
        }
        self.pending_transfers.remove(ti);
        proof {
            let s = self.accounts@;
            let pre = orig.accounts@;
            assert forall|q: int| 0 <= q < s.len()
                implies (#[trigger] s[q]).balance_invariant() by {
                match spec_find_account(pre, to_address, to_asset) {
                    Some(di) => {
                        if q != ai as int && q != di {
                            assert(s[q] == pre[q]);
                        }
                    },
                    None => {
                        if q < pre.len() && q != ai as int {
                            assert(s[q] == pre[q]);
                        }
                    },
                }
            }
            assert forall|q: int, j: int| #![trigger s[q], s[j]] 0 <= q < j < s.len()
                implies !s[q].spec_key_matches(s[j].address, s[j].asset) by {
                match spec_find_account(pre, to_address, to_asset) {
                    Some(di) => {
                        if s[q].spec_key_matches(s[j].address, s[j].asset) {
                            assert(pre[q].spec_key_matches(pre[j].address, pre[j].asset));
                        }
                    },
                    None => {
                        if j == s.len() - 1 {
                            assert(s[j].address == to_address && s[j].asset == to_asset);
                            if q < pre.len() {
                                if s[q].spec_key_matches(to_address, to_asset) {
                                    assert(pre[q].spec_key_matches(to_address, to_asset));
                                }
                            }
                        } else {
                            if s[q].spec_key_matches(s[j].address, s[j].asset) {
                                assert(pre[q].spec_key_matches(pre[j].address,
                                    pre[j].asset));
                            }
                        }
                    },
                }
            }
            assert forall|q: int, j: int| #![trigger s[q].lots@[j]]
                0 <= q < s.len() && 0 <= j < s[q].lots@.len()
                implies s[q].lots@[j].lot_number < self.lot_counter by {
                let number = s[q].lots@[j].lot_number;
                match spec_find_account(pre, to_address, to_asset) {
                    Some(di) => {
                        if q != ai as int && q != di {
                            assert(s[q] == pre[q]);
                        } else if q == ai as int {
                            assert(spec_pool_has_number(pool_view, number));
                            let m = choose|m: int| 0 <= m < pool_view.len()
                                && pool_view[m].lot_number == number;
                            assert(pre[ai as int].lots@[m].lot_number < orig.lot_counter);
                        } else {
                            if j < pre[di].lots@.len() {
                                assert(s[q].lots@[j] == pre[di].lots@[j]);
                            } else {
                                let k2 = j - pre[di].lots@.len();
                                assert(s[q].lots@[j] == w.0[k2]);
                                assert(spec_pool_has_number(pool_view, number));
                                let m = choose|m: int| 0 <= m < pool_view.len()
                                    && pool_view[m].lot_number == number;
                                assert(pre[ai as int].lots@[m].lot_number
                                    < orig.lot_counter);
                            }
                        }
                    },
                    None => {
                        if q < pre.len() && q != ai as int {
                            assert(s[q] == pre[q]);
                        } else if q == ai as int {
                            assert(spec_pool_has_number(pool_view, number));
                            let m = choose|m: int| 0 <= m < pool_view.len()
                                && pool_view[m].lot_number == number;
                            assert(pre[ai as int].lots@[m].lot_number < orig.lot_counter);
                        } else {
                            assert(s[q].lots@ == w.0);
                            assert(spec_pool_has_number(pool_view, number));
                            let m = choose|m: int| 0 <= m < pool_view.len()
                                && pool_view[m].lot_number == number;
                            assert(pre[ai as int].lots@[m].lot_number < orig.lot_counter);
                        }
                    },
                }
            }
            let pt = self.pending_transfers@;
            let orig_pt = orig.pending_transfers@;
            assert forall|i: int, j: int| #![trigger pt[i], pt[j]] 0 <= i < j < pt.len()
                implies pt[i].signature != pt[j].signature by {
                let oi = if i < ti as int { i } else { i + 1 };
                let oj = if j < ti as int { j } else { j + 1 };
                assert(pt[i] == orig_pt[oi]);
                assert(pt[j] == orig_pt[oj]);
            }
        }
        Ok(())
    }

    /// Confirm a pending swap with the realized amounts of both legs:
    /// dispose the consumed from-asset lots at the from-asset price
    /// captured at request time, credit one new to-asset lot dated at
    /// confirmation at the captured to-asset price, and remove the
    /// record. On any failure the store is unchanged.
    pub fn confirm_swap(&mut self, signature: Signature, when: Date, from_amount: u64,
        to_amount: u64) -> (r: Result<(), LedgerError>)
        requires
            old(self).wf(),
        ensures
            final(self).wf(),
            r is Ok <==> spec_swap_ok(*old(self), signature, from_amount, to_amount),
            r is Ok ==> spec_swap_applied(*old(self), *final(self), signature, when,
                from_amount, to_amount),
            r is Err ==> *final(self) == *old(self),
            r is Err ==> r->Err_0 == spec_swap_error(*old(self), signature, from_amount,
                to_amount),
    {
        let si = match self.find_swap_index(signature) {
            Some(i) => i,
            None => {
                return Err(LedgerError::NotFound);
            },
        };
        proof {
            lemma_find_swap_props(self.pending_swaps@, signature);
        }
        let address = self.pending_swaps[si].address;
        let from_asset = self.pending_swaps[si].from_asset;
        let from_price = self.pending_swaps[si].from_price;
        let to_asset = self.pending_swaps[si].to_asset;
        let to_price = self.pending_swaps[si].to_price;
        let method = self.pending_swaps[si].lot_selection_method;
        let numbers = copy_lot_numbers(&self.pending_swaps[si].lot_numbers);
        if from_asset == to_asset {
            return Err(LedgerError::InvariantViolation);
        }
        if self.lot_counter == u64::MAX {
            return Err(LedgerError::InvariantViolation);
        }
        let di_opt = self.find_account_index_pub(address, to_asset);
        proof {
            crate::store::lemma_find_account_props(self.accounts@, address, to_asset);
        }
        if let Some(di) = di_opt {
            let dest_balance = self.accounts[di].last_update_balance;
            if to_amount > u64::MAX - dest_balance {
                return Err(LedgerError::InvariantViolation);
            }
        }
        let numbers_ref = match &numbers {
            Some(v) => Some(v),
            None => None,
        };
        proof {
            assert(view_numbers(numbers_ref) == spec_view_numbers(
                self.pending_swaps@[si as int].lot_numbers));
        }
        let ghost orig = *self;
        match self.record_disposal(address, from_asset, from_amount, when, from_price,
            DisposalKind::Swap, method, numbers_ref) {
            Ok(_) => {},
            Err(e) => {
                return Err(e);
            },
        }
        let ghost mid = *self;
        proof {
            crate::store::lemma_find_account_props(orig.accounts@, address, from_asset);
            assert forall|i: int| 0 <= i < orig.accounts@.len()
                implies (#[trigger] mid.accounts@[i]).address == orig.accounts@[i].address
                    && mid.accounts@[i].asset == orig.accounts@[i].asset by {
                let ai = spec_find_account(orig.accounts@, address, from_asset)->Some_0;
                if i != ai {
                    assert(mid.accounts@[i] == orig.accounts@[i]);
                }
            }
            crate::store::lemma_find_account_same_keys(orig.accounts@, mid.accounts@,
                address, to_asset);
            match spec_find_account(orig.accounts@, address, to_asset) {
                Some(di) => {
                    let ai = spec_find_account(orig.accounts@, address, from_asset)
                        ->Some_0;
                    assert(di != ai);
                    assert(mid.accounts@[di] == orig.accounts@[di]);
                },
                None => {},
            }
        }
        match self.credit_new_lot(address, to_asset, when, to_price,
            AcquisitionKind::Swap { from_mint: from_asset.mint, amount: Some(from_amount) },
            to_amount) {
            Ok(_) => {},
            Err(_) => {
                proof {
                    assert(false);
                }
                return Err(LedgerError::InvariantViolation);
            },
        }
        let ghost mid2 = *self;
        self.pending_swaps.remove(si);
        proof {
            let ps = self.pending_swaps@;
            let orig_ps = orig.pending_swaps@;
            assert forall|i: int, j: int| #![trigger ps[i], ps[j]] 0 <= i < j < ps.len()
                implies ps[i].signature != ps[j].signature by {
                let oi = if i < si as int { i } else { i + 1 };
                let oj = if j < si as int { j } else { j + 1 };
                assert(ps[i] == orig_ps[oi]);
                assert(ps[j] == orig_ps[oj]);
            }
            let ai = spec_find_account(orig.accounts@, address, from_asset)->Some_0;
            match spec_find_account(orig.accounts@, address, to_asset) {
                Some(di) => {
                    assert forall|q: int| 0 <= q < orig.accounts@.len() && q != ai
                        && q != di
                        implies #[trigger] self.accounts@[q] == orig.accounts@[q] by {
                        assert(mid2.accounts@[q] == mid.accounts@[q]);
                        assert(mid.accounts@[q] == orig.accounts@[q]);
                    }
                    assert(mid2.accounts@[ai as int] == mid.accounts@[ai as int]);
                },
                None => {
                    assert forall|q: int| 0 <= q < orig.accounts@.len() && q != ai
                        implies #[trigger] self.accounts@[q] == orig.accounts@[q] by {
                        assert(mid2.accounts@[q] == mid.accounts@[q]);
                        assert(mid.accounts@[q] == orig.accounts@[q]);
                    }
                    assert(mid2.accounts@[ai as int] == mid.accounts@[ai as int]);
                },
            }
        }
        Ok(())
    }
}

/// The stored lot-number override as a mathematical value.
pub open spec fn spec_view_numbers(numbers: Option<Vec<u64>>) -> Option<Seq<u64>> {
    match numbers {
        Some(ns) => Some(ns@),
        None => None,
    }
}

/// Copy of a stored lot-number override.
fn copy_lot_numbers(numbers: &Option<Vec<u64>>) -> (r: Option<Vec<u64>>)
    ensures
        spec_view_numbers(r) == spec_view_numbers(*numbers),
{
    match numbers {
        None => None,
        Some(ns) => {
            let mut out: Vec<u64> = Vec::new();
            let mut i: usize = 0;
            while i < ns.len()
                invariant
                    0 <= i <= ns@.len(),
                    out@ == ns@.take(i as int),
                decreases ns@.len() - i,
            {
                proof {
                    assert(ns@.take(i + 1) =~= ns@.take(i as int).push(ns@[i as int]));
                }
                out.push(ns[i]);
                i = i + 1;
            }
            proof {
                assert(ns@.take(ns@.len() as int) =~= ns@);
            }
            Some(out)
        },
    }
}

/// The amount a pending transfer moves at confirmation: the recorded
/// amount, or the source account's whole balance when the record left it
/// open ("sweep everything").
pub open spec fn spec_transfer_amount(t: PendingTransfer, source: crate::types::TrackedAccount)
    -> int {
    match t.amount {
        Some(a) => a as int,
        None => source.last_update_balance as int,
    }
}

/// Whether a pending transfer can confirm against the store: the record
/// and the source account exist, source and destination are different
/// accounts, the selection covers the amount, and the destination balance
/// cannot overflow.
pub open spec fn spec_transfer_ok(pre: Db, signature: Signature) -> bool {
    match spec_find_transfer(pre.pending_transfers@, signature) {
        None => false,
        Some(ti) => {
            let t = pre.pending_transfers@[ti];
            match spec_find_account(pre.accounts@, t.from_address, t.from_asset) {
                None => false,
                Some(ai) => {
                    let amount = spec_transfer_amount(t, pre.accounts@[ai]);
                    &&& !(t.from_address == t.to_address && t.from_asset == t.to_asset)
                    &&& spec_extract_lots(pre.accounts@[ai].lots@, amount,
                        t.lot_selection_method, spec_view_numbers(t.lot_numbers)) is Ok
                    &&& match spec_find_account(pre.accounts@, t.to_address, t.to_asset) {
                        Some(di) => pre.accounts@[di].last_update_balance + amount
                            <= u64::MAX,
                        None => true,
                    }
                },
            }
        },
    }
}

/// The error a transfer confirmation reports when it cannot confirm.
pub open spec fn spec_transfer_error(pre: Db, signature: Signature) -> LedgerError {
    match spec_find_transfer(pre.pending_transfers@, signature) {
        None => LedgerError::NotFound,
        Some(ti) => {
            let t = pre.pending_transfers@[ti];
            match spec_find_account(pre.accounts@, t.from_address, t.from_asset) {
                None => LedgerError::NotFound,
                Some(ai) => {
                    let amount = spec_transfer_amount(t, pre.accounts@[ai]);
                    if t.from_address == t.to_address && t.from_asset == t.to_asset {
                        LedgerError::InvariantViolation
                    } else if spec_extract_lots(pre.accounts@[ai].lots@, amount,
                        t.lot_selection_method, spec_view_numbers(t.lot_numbers)) is Err {
                        spec_extract_lots(pre.accounts@[ai].lots@, amount,
                            t.lot_selection_method, spec_view_numbers(t.lot_numbers))->Err_0
                    } else {
                        LedgerError::InvariantViolation
                    }
                },
            }
        },
    }
}

/// Exactly how a confirmed transfer changes the store: the consumed lots
/// leave the source — a split remainder staying behind — and join the
/// destination with lot numbers and acquisition histories intact; the
/// destination is created when absent; the record is removed; nothing
/// else moves.
pub open spec fn spec_transfer_applied(pre: Db, post: Db, signature: Signature) -> bool {
    let ti = spec_find_transfer(pre.pending_transfers@, signature)->Some_0;
    let t = pre.pending_transfers@[ti];
    let ai = spec_find_account(pre.accounts@, t.from_address, t.from_asset)->Some_0;
    let amount = spec_transfer_amount(t, pre.accounts@[ai]);
    let w = spec_extract_lots(pre.accounts@[ai].lots@, amount, t.lot_selection_method,
        spec_view_numbers(t.lot_numbers))->Ok_0;
    &&& post.accounts@[ai].address == pre.accounts@[ai].address
    &&& post.accounts@[ai].asset == pre.accounts@[ai].asset
    &&& post.accounts@[ai].description == pre.accounts@[ai].description
    &&& post.accounts@[ai].last_update_epoch == pre.accounts@[ai].last_update_epoch
    &&& post.accounts@[ai].no_sync == pre.accounts@[ai].no_sync
    &&& post.accounts@[ai].last_update_balance
            == pre.accounts@[ai].last_update_balance - amount
    &&& post.accounts@[ai].lots@ == w.1
    &&& match spec_find_account(pre.accounts@, t.to_address, t.to_asset) {
        Some(di) => {
            &&& post.accounts@.len() == pre.accounts@.len()
            &&& forall|q: int| 0 <= q < pre.accounts@.len() && q != ai && q != di
                    ==> #[trigger] post.accounts@[q] == pre.accounts@[q]
            &&& post.accounts@[di].address == pre.accounts@[di].address
            &&& post.accounts@[di].asset == pre.accounts@[di].asset
            &&& post.accounts@[di].description == pre.accounts@[di].description
            &&& post.accounts@[di].last_update_epoch == pre.accounts@[di].last_update_epoch
            &&& post.accounts@[di].no_sync == pre.accounts@[di].no_sync
            &&& post.accounts@[di].last_update_balance
                    == pre.accounts@[di].last_update_balance + amount
            &&& post.accounts@[di].lots@ == pre.accounts@[di].lots@ + w.0
        },
        None => {
            &&& post.accounts@.len() == pre.accounts@.len() + 1
            &&& forall|q: int| 0 <= q < pre.accounts@.len() && q != ai
                    ==> #[trigger] post.accounts@[q] == pre.accounts@[q]
            &&& post.accounts@.last().address == t.to_address
            &&& post.accounts@.last().asset == t.to_asset
            &&& post.accounts@.last().description@ == Seq::<char>::empty()
            &&& post.accounts@.last().last_update_epoch == 0
            &&& post.accounts@.last().no_sync is None
            &&& post.accounts@.last().last_update_balance == amount
            &&& post.accounts@.last().lots@ == w.0
        },
    }
    &&& post.disposed@ == pre.disposed@
    &&& post.pending_transfers@ == pre.pending_transfers@.remove(ti)
    &&& post.pending_deposits@ == pre.pending_deposits@
    &&& post.pending_withdrawals@ == pre.pending_withdrawals@
    &&& post.pending_swaps@ == pre.pending_swaps@
    &&& post.lot_counter == pre.lot_counter
    &&& post.tax_rate == pre.tax_rate
    &&& post.sweep_stake_account == pre.sweep_stake_account
    &&& post.transitory_sweep_stake_addresses@ == pre.transitory_sweep_stake_addresses@
}

/// Whether a pending swap can confirm against the store with the realized
/// amounts: the record exists, the two legs are different assets, a lot
/// number is available, the destination balance cannot overflow, and the
/// from-leg account covers the realized from-amount.
pub open spec fn spec_swap_ok(pre: Db, signature: Signature, from_amount: u64,
    to_amount: u64) -> bool {
    match spec_find_swap(pre.pending_swaps@, signature) {
        None => false,
        Some(si) => {
            let p = pre.pending_swaps@[si];
            &&& p.from_asset != p.to_asset
            &&& pre.lot_counter < u64::MAX
            &&& match spec_find_account(pre.accounts@, p.address, p.to_asset) {
                Some(di) => pre.accounts@[di].last_update_balance + to_amount <= u64::MAX,
                None => true,
            }
            &&& match spec_find_account(pre.accounts@, p.address, p.from_asset) {
                None => false,
                Some(ai) => spec_extract_lots(pre.accounts@[ai].lots@, from_amount as int,
                    p.lot_selection_method, spec_view_numbers(p.lot_numbers)) is Ok,
            }
        },
    }
}

/// The error a swap confirmation reports when it cannot confirm.
pub open spec fn spec_swap_error(pre: Db, signature: Signature, from_amount: u64,
    to_amount: u64) -> LedgerError {
    match spec_find_swap(pre.pending_swaps@, signature) {
        None => LedgerError::NotFound,
        Some(si) => {
            let p = pre.pending_swaps@[si];
            if p.from_asset == p.to_asset {
                LedgerError::InvariantViolation
            } else if pre.lot_counter == u64::MAX {
                LedgerError::InvariantViolation
            } else if (match spec_find_account(pre.accounts@, p.address, p.to_asset) {
                Some(di) => pre.accounts@[di].last_update_balance + to_amount > u64::MAX,
                None => false,
            }) {
                LedgerError::InvariantViolation
            } else {
                match spec_find_account(pre.accounts@, p.address, p.from_asset) {
                    None => LedgerError::NotFound,
                    Some(ai) => spec_extract_lots(pre.accounts@[ai].lots@,
                        from_amount as int, p.lot_selection_method,
                        spec_view_numbers(p.lot_numbers))->Err_0,
                }
            }
        },
    }
}

/// Exactly how a confirmed swap changes the store: the realized from-leg
/// is disposed at the from-asset price captured at request time, a new
/// to-asset lot dated at confirmation is credited at the captured
/// to-asset price, and the record is removed.
pub open spec fn spec_swap_applied(pre: Db, post: Db, signature: Signature, when: Date,
    from_amount: u64, to_amount: u64) -> bool {
    let si = spec_find_swap(pre.pending_swaps@, signature)->Some_0;
    let p = pre.pending_swaps@[si];
    let ai = spec_find_account(pre.accounts@, p.address, p.from_asset)->Some_0;
    let t = spec_extract_lots(pre.accounts@[ai].lots@, from_amount as int,
        p.lot_selection_method, spec_view_numbers(p.lot_numbers))->Ok_0;
    let records = spec_disposed_records(t.0, p.from_asset, when, p.from_price,
        DisposalKind::Swap);
    let lot = (crate::types::Lot {
        lot_number: pre.lot_counter,
        acquisition: crate::types::LotAcquisition {
            when,
            price: p.to_price,
            kind: AcquisitionKind::Swap {
                from_mint: p.from_asset.mint,
                amount: Some(from_amount),
            },
        },
        amount: to_amount,
    });
    &&& post.accounts@[ai].address == pre.accounts@[ai].address
    &&& post.accounts@[ai].asset == pre.accounts@[ai].asset
    &&& post.accounts@[ai].description == pre.accounts@[ai].description
    &&& post.accounts@[ai].last_update_epoch == pre.accounts@[ai].last_update_epoch
    &&& post.accounts@[ai].no_sync == pre.accounts@[ai].no_sync
    &&& post.accounts@[ai].last_update_balance
            == pre.accounts@[ai].last_update_balance - from_amount
    &&& post.accounts@[ai].lots@ == t.1
    &&& match spec_find_account(pre.accounts@, p.address, p.to_asset) {
        Some(di) => {
            &&& post.accounts@.len() == pre.accounts@.len()
            &&& forall|q: int| 0 <= q < pre.accounts@.len() && q != ai && q != di
                    ==> #[trigger] post.accounts@[q] == pre.accounts@[q]
            &&& post.accounts@[di].address == pre.accounts@[di].address
            &&& post.accounts@[di].asset == pre.accounts@[di].asset
            &&& post.accounts@[di].description == pre.accounts@[di].description
            &&& post.accounts@[di].last_update_epoch == pre.accounts@[di].last_update_epoch
            &&& post.accounts@[di].no_sync == pre.accounts@[di].no_sync
            &&& post.accounts@[di].last_update_balance
                    == pre.accounts@[di].last_update_balance + to_amount
            &&& post.accounts@[di].lots@ == pre.accounts@[di].lots@.push(lot)
        },
        None => {
            &&& post.accounts@.len() == pre.accounts@.len() + 1
            &&& forall|q: int| 0 <= q < pre.accounts@.len() && q != ai
                    ==> #[trigger] post.accounts@[q] == pre.accounts@[q]
            &&& post.accounts@.last().address == p.address
            &&& post.accounts@.last().asset == p.to_asset
            &&& post.accounts@.last().description@ == Seq::<char>::empty()
            &&& post.accounts@.last().last_update_epoch == 0
            &&& post.accounts@.last().no_sync is None
            &&& post.accounts@.last().last_update_balance == to_amount
            &&& post.accounts@.last().lots@ == seq![lot]
        },
    }
    &&& post.disposed@ == pre.disposed@ + records
    &&& post.pending_swaps@ == pre.pending_swaps@.remove(si)
    &&& post.pending_deposits@ == pre.pending_deposits@
    &&& post.pending_withdrawals@ == pre.pending_withdrawals@
    &&& post.pending_transfers@ == pre.pending_transfers@
    &&& post.lot_counter == pre.lot_counter + 1
    &&& post.tax_rate == pre.tax_rate
    &&& post.sweep_stake_account == pre.sweep_stake_account
    &&& post.transitory_sweep_stake_addresses@ == pre.transitory_sweep_stake_addresses@
}

/// Pending lifecycle: a pending record reaches exactly one terminal
/// state. Both terminal transitions — confirm and cancel — remove the
/// record, and in a well-formed store the key was unique, so after either
/// one no record with the key remains: the other transition reports
/// `NotFound`, and pending-listing queries no longer contain it.
pub proof fn lemma_pending_transfer_terminal(pre: Db, signature: Signature)
    requires
        pre.wf(),
        spec_find_transfer(pre.pending_transfers@, signature) is Some,
    ensures
        spec_find_transfer(pre.pending_transfers@.remove(
            spec_find_transfer(pre.pending_transfers@, signature)->Some_0), signature)
            is None,
{
    let ts = pre.pending_transfers@;
    let ti = spec_find_transfer(ts, signature)->Some_0;
    lemma_find_transfer_props(ts, signature);
    let removed = ts.remove(ti);
    lemma_find_transfer_props(removed, signature);
    match spec_find_transfer(removed, signature) {
        Some(m) => {
            let oi = if m < ti { m } else { m + 1 };
            assert(removed[m] == ts[oi]);
            if oi < ti {
                assert(ts[oi].signature != ts[ti].signature);
            } else {
                assert(ts[ti].signature != ts[oi].signature);
            }
            assert(false);
        },
        None => {},
    }
}

/// Pending lifecycle for deposits: see `lemma_pending_transfer_terminal`.
pub proof fn lemma_pending_deposit_terminal(pre: Db, signature: Signature)
    requires
        pre.wf(),
        spec_find_deposit(pre.pending_deposits@, signature) is Some,
    ensures
        spec_find_deposit(pre.pending_deposits@.remove(
            spec_find_deposit(pre.pending_deposits@, signature)->Some_0), signature)
            is None,
{
    let ds = pre.pending_deposits@;
    let di = spec_find_deposit(ds, signature)->Some_0;
    lemma_find_deposit_props(ds, signature);
    let removed = ds.remove(di);
    lemma_find_deposit_props(removed, signature);
    match spec_find_deposit(removed, signature) {
        Some(m) => {
            let oi = if m < di { m } else { m + 1 };
            assert(removed[m] == ds[oi]);
            if oi < di {
                assert(ds[oi].transfer.signature != ds[di].transfer.signature);
            } else {
                assert(ds[di].transfer.signature != ds[oi].transfer.signature);
            }
            assert(false);
        },
        None => {},
    }
}

/// Pending lifecycle for withdrawals: see `lemma_pending_transfer_terminal`.
pub proof fn lemma_pending_withdrawal_terminal(pre: Db, tag: u64)
    requires
        pre.wf(),
        spec_find_withdrawal(pre.pending_withdrawals@, tag) is Some,
    ensures
        spec_find_withdrawal(pre.pending_withdrawals@.remove(
            spec_find_withdrawal(pre.pending_withdrawals@, tag)->Some_0), tag) is None,
{
    let ws = pre.pending_withdrawals@;
    let wi = spec_find_withdrawal(ws, tag)->Some_0;
    lemma_find_withdrawal_props(ws, tag);
    let removed = ws.remove(wi);
    lemma_find_withdrawal_props(removed, tag);
    match spec_find_withdrawal(removed, tag) {
        Some(m) => {
            let oi = if m < wi { m } else { m + 1 };
            assert(removed[m] == ws[oi]);
            if oi < wi {
                assert(ws[oi].tag != ws[wi].tag);
            } else {
                assert(ws[wi].tag != ws[oi].tag);
            }
            assert(false);
        },
        None => {},
    }
}

/// Pending lifecycle for swaps: see `lemma_pending_transfer_terminal`.
pub proof fn lemma_pending_swap_terminal(pre: Db, signature: Signature)
    requires
        pre.wf(),
        spec_find_swap(pre.pending_swaps@, signature) is Some,
    ensures
        spec_find_swap(pre.pending_swaps@.remove(
            spec_find_swap(pre.pending_swaps@, signature)->Some_0), signature) is None,
{
    let ss = pre.pending_swaps@;
    let si = spec_find_swap(ss, signature)->Some_0;
    lemma_find_swap_props(ss, signature);
    let removed = ss.remove(si);
    lemma_find_swap_props(removed, signature);
    match spec_find_swap(removed, signature) {
        Some(m) => {
            let oi = if m < si { m } else { m + 1 };
            assert(removed[m] == ss[oi]);
            if oi < si {
                assert(ss[oi].signature != ss[si].signature);
            } else {
                assert(ss[si].signature != ss[oi].signature);
            }
            assert(false);
        },
        None => {},
    }
}

/// Transfer conservation: a confirmed transfer moves value, never creates
/// or destroys it — the source and destination balances change by the
/// same amount in opposite directions.
pub proof fn lemma_transfer_conserves(pre: Db, post: Db, signature: Signature)
    requires
        spec_transfer_ok(pre, signature),
        spec_transfer_applied(pre, post, signature),
    ensures
        ({
            let ti = spec_find_transfer(pre.pending_transfers@, signature)->Some_0;
            let t = pre.pending_transfers@[ti];
            let ai = spec_find_account(pre.accounts@, t.from_address, t.from_asset)
                ->Some_0;
            let amount = spec_transfer_amount(t, pre.accounts@[ai]);
            match spec_find_account(pre.accounts@, t.to_address, t.to_asset) {
                Some(di) => post.accounts@[ai].last_update_balance
                    + post.accounts@[di].last_update_balance
                    == pre.accounts@[ai].last_update_balance
                        + pre.accounts@[di].last_update_balance,
                None => post.accounts@[ai].last_update_balance
                    + post.accounts@.last().last_update_balance
                    == pre.accounts@[ai].last_update_balance,
            }
        }),
{
}

} // verus!
