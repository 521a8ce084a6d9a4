//! The ledger store: accounts, lots, disposal history, pending operations
//! and auxiliary configuration, with the balance invariant maintained by
//! every mutation.

use vstd::prelude::*;
use crate::types::{
    AcquisitionKind, Address, Asset, Date, DisposalKind, DisposedLot, LedgerError, Lot,
    LotAcquisition, Price, SweepStakeAccount, TaxRate, TrackedAccount, checked_lots_total,
    lots_total, lemma_lots_total_nonneg, lemma_lots_total_push,
};
use crate::select::{
    LotSelectionMethod, extract_lots, spec_extract_lots, view_numbers,
    lemma_extract_lots_conserves, lemma_extract_lots_from_pool, spec_pool_has_number,
};
use crate::pending::{PendingDeposit, PendingSwap, PendingTransfer, PendingWithdrawal};

verus! {

/// First position holding an account with the given key, if any.
pub open spec fn spec_find_account(
    accounts: Seq<TrackedAccount>,
    address: Address,
    asset: Asset,
) -> Option<int>
    decreases accounts.len(),
{
    if accounts.len() == 0 {
        None
    } else if accounts[0].spec_key_matches(address, asset) {
        Some(0)
    } else {
        match spec_find_account(accounts.drop_first(), address, asset) {
            Some(i) => Some(i + 1),
            None => None,
        }
    }
}

pub proof fn lemma_find_account_props(
    accounts: Seq<TrackedAccount>,
    address: Address,
    asset: Asset,
)
    ensures
        match spec_find_account(accounts, address, asset) {
            Some(i) => 0 <= i < accounts.len() && accounts[i].spec_key_matches(address, asset)
                && forall|k: int| 0 <= k < i
                    ==> !(#[trigger] accounts[k]).spec_key_matches(address, asset),
            None => forall|k: int| 0 <= k < accounts.len()
                ==> !(#[trigger] accounts[k]).spec_key_matches(address, asset),
        },
    decreases accounts.len(),
{
    if accounts.len() > 0 && !accounts[0].spec_key_matches(address, asset) {
        lemma_find_account_props(accounts.drop_first(), address, asset);
        let tail = accounts.drop_first();
        match spec_find_account(tail, address, asset) {
            Some(i) => {
                assert(accounts[i + 1] == tail[i]);
                assert forall|k: int| 0 <= k < i + 1
                    implies !(#[trigger] accounts[k]).spec_key_matches(address, asset) by {
                    if k > 0 {
                        assert(accounts[k] == tail[k - 1]);
                    }
                }
            },
            None => {
                assert forall|k: int| 0 <= k < accounts.len()
                    implies !(#[trigger] accounts[k]).spec_key_matches(address, asset) by {
                    if k > 0 {
                        assert(accounts[k] == tail[k - 1]);
                    }
                }
            },
        }
    }
}

proof fn lemma_find_account_at(
    accounts: Seq<TrackedAccount>,
    address: Address,
    asset: Asset,
    i: int,
)
    requires
        0 <= i < accounts.len(),
        accounts[i].spec_key_matches(address, asset),
        forall|k: int| 0 <= k < i ==> !(#[trigger] accounts[k]).spec_key_matches(address, asset),
    ensures
        spec_find_account(accounts, address, asset) == Some(i),
    decreases accounts.len(),
{
    if i > 0 {
        let tail = accounts.drop_first();
        assert(tail[i - 1] == accounts[i]);
        assert forall|k: int| 0 <= k < i - 1
            implies !(#[trigger] tail[k]).spec_key_matches(address, asset) by {
            assert(tail[k] == accounts[k + 1]);
        }
        lemma_find_account_at(tail, address, asset, i - 1);
    }
}

/// The persistent ledger store. All entities are owned here; the pending
/// state machine reaches them only through these methods.
pub struct Db {
    pub accounts: Vec<TrackedAccount>,
    /// Append-only disposal history.
    pub disposed: Vec<DisposedLot>,
    pub pending_deposits: Vec<PendingDeposit>,
    pub pending_withdrawals: Vec<PendingWithdrawal>,
    pub pending_transfers: Vec<PendingTransfer>,
    pub pending_swaps: Vec<PendingSwap>,
    /// Next lot number to hand out; strictly increasing, persisted, never
    /// reused.
    pub lot_counter: u64,
    pub tax_rate: Option<TaxRate>,
    pub sweep_stake_account: Option<SweepStakeAccount>,
    pub transitory_sweep_stake_addresses: Vec<Address>,
}

impl Db {
    /// Store-wide invariants: every account balanced, account keys unique,
    /// every stored lot number below the counter, and pending records
    /// unique per key.
    pub open spec fn wf(&self) -> bool {
        &&& forall|i: int| 0 <= i < self.accounts@.len()
                ==> (#[trigger] self.accounts@[i]).balance_invariant()
        &&& forall|i: int, j: int| #![trigger self.accounts@[i], self.accounts@[j]]
                0 <= i < j < self.accounts@.len()
                ==> !self.accounts@[i].spec_key_matches(
                    self.accounts@[j].address, self.accounts@[j].asset)
        &&& forall|i: int, j: int| #![trigger self.accounts@[i].lots@[j]]
                0 <= i < self.accounts@.len() && 0 <= j < self.accounts@[i].lots@.len()
                ==> self.accounts@[i].lots@[j].lot_number < self.lot_counter
        &&& forall|i: int| 0 <= i < self.disposed@.len()
                ==> (#[trigger] self.disposed@[i]).lot.lot_number < self.lot_counter
        &&& forall|i: int, j: int| #![trigger self.pending_deposits@[i], self.pending_deposits@[j]]
                0 <= i < j < self.pending_deposits@.len()
                ==> self.pending_deposits@[i].transfer.signature
                    != self.pending_deposits@[j].transfer.signature
        &&& forall|i: int, j: int|
                #![trigger self.pending_withdrawals@[i], self.pending_withdrawals@[j]]
                0 <= i < j < self.pending_withdrawals@.len()
                ==> self.pending_withdrawals@[i].tag != self.pending_withdrawals@[j].tag
        &&& forall|i: int, j: int| #![trigger self.pending_transfers@[i], self.pending_transfers@[j]]
                0 <= i < j < self.pending_transfers@.len()
                ==> self.pending_transfers@[i].signature != self.pending_transfers@[j].signature
        &&& forall|i: int, j: int| #![trigger self.pending_swaps@[i], self.pending_swaps@[j]]
                0 <= i < j < self.pending_swaps@.len()
                ==> self.pending_swaps@[i].signature != self.pending_swaps@[j].signature
    }

    /// A fresh, empty store.
    pub fn new() -> (r: Db)
        ensures
            r.wf(),
            r.accounts@.len() == 0,
            r.disposed@.len() == 0,
            r.pending_deposits@.len() == 0,
            r.pending_withdrawals@.len() == 0,
            r.pending_transfers@.len() == 0,
            r.pending_swaps@.len() == 0,
            r.lot_counter == 0,
            r.tax_rate is None,
            r.sweep_stake_account is None,
            r.transitory_sweep_stake_addresses@.len() == 0,
    {
        Db {
            accounts: Vec::new(),
            disposed: Vec::new(),
            pending_deposits: Vec::new(),
            pending_withdrawals: Vec::new(),
            pending_transfers: Vec::new(),
            pending_swaps: Vec::new(),
            lot_counter: 0,
            tax_rate: None,
            sweep_stake_account: None,
            transitory_sweep_stake_addresses: Vec::new(),
        }
    }

    /// Position of the account with the given key.
    fn find_account_index(&self, address: Address, asset: Asset) -> (r: Option<usize>)
        ensures
            match r {
                Some(i) => spec_find_account(self.accounts@, address, asset) == Some(i as int),
                None => spec_find_account(self.accounts@, address, asset) is None,
            },
    {
        let mut i: usize = 0;
        while i < self.accounts.len()
            invariant
                0 <= i <= self.accounts@.len(),
                forall|k: int| 0 <= k < i
                    ==> !(#[trigger] self.accounts@[k]).spec_key_matches(address, asset),
            decreases self.accounts@.len() - i,
        {
            if self.accounts[i].key_matches(address, asset) {
                proof {
                    lemma_find_account_at(self.accounts@, address, asset, i as int);
                }
                return Some(i);
            }
            i = i + 1;
        }
        proof {
            lemma_find_account_props(self.accounts@, address, asset);
            match spec_find_account(self.accounts@, address, asset) {
                Some(k) => {
                    assert(self.accounts@[k].spec_key_matches(address, asset));
                    assert(false);
                },
                None => {},
            }
        }
        None
    }

    /// Position of the account with the given key (crate-internal use).
    pub(crate) fn find_account_index_pub(&self, address: Address, asset: Asset)
        -> (r: Option<usize>)
        ensures
            match r {
                Some(i) => spec_find_account(self.accounts@, address, asset) == Some(i as int),
                None => spec_find_account(self.accounts@, address, asset) is None,
            },
    {
        self.find_account_index(address, asset)
    }

    /// Look up one tracked account by its `(address, asset)` key.
    pub fn get_account(&self, address: Address, asset: Asset) -> (r: Option<&TrackedAccount>)
        ensures
            r is Some <==> spec_find_account(self.accounts@, address, asset) is Some,
            r matches Some(a) ==> {
                &&& *a == self.accounts@[spec_find_account(self.accounts@, address,
                    asset)->Some_0]
                &&& a.spec_key_matches(address, asset)
            },
    {
        proof {
            lemma_find_account_props(self.accounts@, address, asset);
        }
        match self.find_account_index(address, asset) {
            Some(i) => Some(&self.accounts[i]),
            None => None,
        }
    }

    /// All tracked accounts.
    pub fn get_accounts(&self) -> (r: &Vec<TrackedAccount>)
        ensures
            r@ == self.accounts@,
    {
        &self.accounts
    }

    /// Every tracked account at the given address, one per asset, in
    /// store order.
    pub fn get_account_tokens(&self, address: Address) -> (r: Vec<&TrackedAccount>)
        ensures
            r@.len() == spec_accounts_at(self.accounts@, address).len(),
            forall|k: int| 0 <= k < r@.len()
                ==> *(#[trigger] r@[k]) == spec_accounts_at(self.accounts@, address)[k],
    {
        let mut r: Vec<&TrackedAccount> = Vec::new();
        let mut i: usize = 0;
        while i < self.accounts.len()
            invariant
                0 <= i <= self.accounts@.len(),
                r@.len() == spec_accounts_at(self.accounts@.take(i as int), address).len(),
                forall|k: int| 0 <= k < r@.len()
                    ==> *(#[trigger] r@[k])
                        == spec_accounts_at(self.accounts@.take(i as int), address)[k],
            decreases self.accounts@.len() - i,
        {
            proof {
                let pre = self.accounts@.take(i + 1);
                assert(pre.drop_last() =~= self.accounts@.take(i as int));
                assert(pre.last() == self.accounts@[i as int]);
            }
            if self.accounts[i].address == address {
                r.push(&self.accounts[i]);
            }
            i = i + 1;
        }
        proof {
            assert(self.accounts@.take(self.accounts@.len() as int) =~= self.accounts@);
        }
        r
    }

    /// An account the store will accept: balanced, and no lot number at or
    /// above the counter (numbers are minted by `next_lot_number` alone).
    pub open spec fn spec_account_admissible(&self, account: TrackedAccount) -> bool {
        &&& account.balance_invariant()
        &&& forall|j: int| 0 <= j < account.lots@.len()
                ==> (#[trigger] account.lots@[j]).lot_number < self.lot_counter
    }

    fn account_admissible(&self, account: &TrackedAccount) -> (r: bool)
        ensures
            r == self.spec_account_admissible(*account),
    {
        let balanced = match checked_lots_total(&account.lots) {
            Some(total) => total == account.last_update_balance,
            None => {
                proof {
                    lemma_lots_total_nonneg(account.lots@);
                }
                false
            },
        };
        if !balanced {
            return false;
        }
        let mut j: usize = 0;
        while j < account.lots.len()
            invariant
                0 <= j <= account.lots@.len(),
                forall|k: int| 0 <= k < j
                    ==> (#[trigger] account.lots@[k]).lot_number < self.lot_counter,
                account.balance_invariant(),
            decreases account.lots@.len() - j,
        {
            if account.lots[j].lot_number >= self.lot_counter {
                return false;
            }
            j = j + 1;
        }
        true
    }

    /// Start tracking an account. Fails with `AlreadyExists` if the
    /// `(address, asset)` key is present, and with `InvariantViolation` if
    /// the account's balance does not match its lots or its lots carry
    /// numbers the store never minted.
    pub fn add_account(&mut self, account: TrackedAccount) -> (r: Result<(), LedgerError>)
        requires
            old(self).wf(),
        ensures
            final(self).wf(),
            r is Ok <==> (spec_find_account(old(self).accounts@, account.address,
                account.asset) is None && old(self).spec_account_admissible(account)),
            r is Ok ==> final(self).accounts@ == old(self).accounts@.push(account),
            r is Err ==> final(self).accounts@ == old(self).accounts@,
            r is Err ==> r->Err_0 == (if spec_find_account(old(self).accounts@,
                account.address, account.asset) is Some {
                LedgerError::AlreadyExists
            } else {
                LedgerError::InvariantViolation
            }),
            final(self).disposed@ == old(self).disposed@,
            final(self).pending_deposits@ == old(self).pending_deposits@,
            final(self).pending_withdrawals@ == old(self).pending_withdrawals@,
            final(self).pending_transfers@ == old(self).pending_transfers@,
            final(self).pending_swaps@ == old(self).pending_swaps@,
            final(self).lot_counter == old(self).lot_counter,
            final(self).tax_rate == old(self).tax_rate,
            final(self).sweep_stake_account == old(self).sweep_stake_account,
            final(self).transitory_sweep_stake_addresses@ == old(self).transitory_sweep_stake_addresses@,
    {
        if self.find_account_index(account.address, account.asset).is_some() {
            return Err(LedgerError::AlreadyExists);
        }
        if !self.account_admissible(&account) {
            return Err(LedgerError::InvariantViolation);
        }
        proof {
            lemma_find_account_props(self.accounts@, account.address, account.asset);
        }
        let ghost orig = self.accounts@;
        let ghost added = account;
        self.accounts.push(account);
        proof {
            let s = self.accounts@;
            assert forall|i: int, j: int| #![trigger s[i], s[j]] 0 <= i < j < s.len()
                implies !s[i].spec_key_matches(s[j].address, s[j].asset) by {
                if j == s.len() - 1 {
                    assert(s[i] == orig[i]);
                    assert(s[j] == added);
                } else {
                    assert(s[i] == orig[i]);
                    assert(s[j] == orig[j]);
                }
            }
            assert forall|i: int| 0 <= i < s.len()
                implies (#[trigger] s[i]).balance_invariant() by {
                if i < s.len() - 1 {
                    assert(s[i] == orig[i]);
                }
            }
            assert forall|i: int, j: int| #![trigger s[i].lots@[j]]
                0 <= i < s.len() && 0 <= j < s[i].lots@.len()
                implies s[i].lots@[j].lot_number < self.lot_counter by {
                if i < s.len() - 1 {
                    assert(s[i] == orig[i]);
                }
            }
        }
        Ok(())
    }

    /// Replace a tracked account wholesale; the caller must have preserved
    /// the balance invariant, which is re-checked here. Fails with
    /// `NotFound` if the key is not tracked and with `InvariantViolation`
    /// if the replacement is not admissible.
    pub fn update_account(&mut self, account: TrackedAccount) -> (r: Result<(), LedgerError>)
        requires
            old(self).wf(),
        ensures
            final(self).wf(),
            r is Ok <==> (spec_find_account(old(self).accounts@, account.address,
                account.asset) is Some && old(self).spec_account_admissible(account)),
            r is Ok ==> final(self).accounts@ == old(self).accounts@.update(
                spec_find_account(old(self).accounts@, account.address, account.asset)->Some_0,
                account),
            r is Err ==> final(self).accounts@ == old(self).accounts@,
            r is Err ==> r->Err_0 == (if spec_find_account(old(self).accounts@,
                account.address, account.asset) is None {
                LedgerError::NotFound
            } else {
                LedgerError::InvariantViolation
            }),
            final(self).disposed@ == old(self).disposed@,
            final(self).pending_deposits@ == old(self).pending_deposits@,
            final(self).pending_withdrawals@ == old(self).pending_withdrawals@,
            final(self).pending_transfers@ == old(self).pending_transfers@,
            final(self).pending_swaps@ == old(self).pending_swaps@,
            final(self).lot_counter == old(self).lot_counter,
            final(self).tax_rate == old(self).tax_rate,
            final(self).sweep_stake_account == old(self).sweep_stake_account,
            final(self).transitory_sweep_stake_addresses@ == old(self).transitory_sweep_stake_addresses@,
    {
        let idx = match self.find_account_index(account.address, account.asset) {
            Some(i) => i,
            None => {
                return Err(LedgerError::NotFound);
            },
        };
        if !self.account_admissible(&account) {
            return Err(LedgerError::InvariantViolation);
        }
        proof {
            lemma_find_account_props(self.accounts@, account.address, account.asset);
        }
        let ghost orig = self.accounts@;
        let ghost replacement = account;
        self.accounts[idx] = account;
        proof {
            let s = self.accounts@;
            assert(s =~= orig.update(idx as int, replacement));
            assert(orig[idx as int].spec_key_matches(replacement.address, replacement.asset));
            assert forall|i: int, j: int| #![trigger s[i], s[j]] 0 <= i < j < s.len()
                implies !s[i].spec_key_matches(s[j].address, s[j].asset) by {
                if i != idx as int && j != idx as int {
                    assert(s[i] == orig[i] && s[j] == orig[j]);
                } else if i == idx as int {
                    assert(s[j] == orig[j]);
                    if s[i].spec_key_matches(s[j].address, s[j].asset) {
                        assert(orig[i].spec_key_matches(orig[j].address, orig[j].asset));
                    }
                } else {
                    assert(s[i] == orig[i]);
                    if s[i].spec_key_matches(s[j].address, s[j].asset) {
                        assert(orig[i].spec_key_matches(orig[j].address, orig[j].asset));
                    }
                }
            }
            assert forall|i: int| 0 <= i < s.len()
                implies (#[trigger] s[i]).balance_invariant() by {
                if i != idx as int {
                    assert(s[i] == orig[i]);
                }
            }
            assert forall|i: int, j: int| #![trigger s[i].lots@[j]]
                0 <= i < s.len() && 0 <= j < s[i].lots@.len()
                implies s[i].lots@[j].lot_number < self.lot_counter by {
                if i != idx as int {
                    assert(s[i] == orig[i]);
                }
            }
        }
        Ok(())
    }

    /// Stop tracking an account. Fails with `NotFound` if the key is not
    /// tracked, and with `AccountNotEmpty` while lots remain (history must
    /// be disposed or moved first; callers with an override policy empty
    /// the account before asking).
    pub fn remove_account(&mut self, address: Address, asset: Asset)
        -> (r: Result<(), LedgerError>)
        requires
            old(self).wf(),
        ensures
            final(self).wf(),
            r is Ok <==> (spec_find_account(old(self).accounts@, address, asset)
                matches Some(i) && old(self).accounts@[i].lots@.len() == 0),
            r is Ok ==> final(self).accounts@ == old(self).accounts@.remove(
                spec_find_account(old(self).accounts@, address, asset)->Some_0),
            r is Err ==> final(self).accounts@ == old(self).accounts@,
            r is Err ==> r->Err_0 == (if spec_find_account(old(self).accounts@, address,
                asset) is None {
                LedgerError::NotFound
            } else {
                LedgerError::AccountNotEmpty
            }),
            final(self).disposed@ == old(self).disposed@,
            final(self).pending_deposits@ == old(self).pending_deposits@,
            final(self).pending_withdrawals@ == old(self).pending_withdrawals@,
            final(self).pending_transfers@ == old(self).pending_transfers@,
            final(self).pending_swaps@ == old(self).pending_swaps@,
            final(self).lot_counter == old(self).lot_counter,
            final(self).tax_rate == old(self).tax_rate,
            final(self).sweep_stake_account == old(self).sweep_stake_account,
            final(self).transitory_sweep_stake_addresses@ == old(self).transitory_sweep_stake_addresses@,
    {
        let idx = match self.find_account_index(address, asset) {
            Some(i) => i,
            None => {
                return Err(LedgerError::NotFound);
            },
        };
        proof {
            lemma_find_account_props(self.accounts@, address, asset);
        }
        if self.accounts[idx].lots.len() > 0 {
            return Err(LedgerError::AccountNotEmpty);
        }
        let ghost orig = self.accounts@;
        self.accounts.remove(idx);
        proof {
            let s = self.accounts@;
            assert forall|i: int, j: int| #![trigger s[i], s[j]] 0 <= i < j < s.len()
                implies !s[i].spec_key_matches(s[j].address, s[j].asset) by {
                let oi = if i < idx as int { i } else { i + 1 };
                let oj = if j < idx as int { j } else { j + 1 };
                assert(s[i] == orig[oi]);
                assert(s[j] == orig[oj]);
            }
            assert forall|i: int| 0 <= i < s.len()
                implies (#[trigger] s[i]).balance_invariant() by {
                let oi = if i < idx as int { i } else { i + 1 };
                assert(s[i] == orig[oi]);
            }
            assert forall|i: int, j: int| #![trigger s[i].lots@[j]]
                0 <= i < s.len() && 0 <= j < s[i].lots@.len()
                implies s[i].lots@[j].lot_number < self.lot_counter by {
                let oi = if i < idx as int { i } else { i + 1 };
                assert(s[i] == orig[oi]);
            }
        }
        Ok(())
    }

    /// The number the next call of `next_lot_number` hands out.
    pub open spec fn spec_next_lot_number(&self) -> u64 {
        self.lot_counter
    }

    /// Mint the next lot number: strictly increasing, process-wide, and —
    /// with the counter persisted by the caller — never reused even across
    /// process restarts.
    pub fn next_lot_number(&mut self) -> (r: u64)
        requires
            old(self).wf(),
            old(self).lot_counter < u64::MAX,
        ensures
            final(self).wf(),
            r == old(self).spec_next_lot_number(),
            final(self).lot_counter == old(self).lot_counter + 1,
            final(self).accounts@ == old(self).accounts@,
            final(self).disposed@ == old(self).disposed@,
            final(self).pending_deposits@ == old(self).pending_deposits@,
            final(self).pending_withdrawals@ == old(self).pending_withdrawals@,
            final(self).pending_transfers@ == old(self).pending_transfers@,
            final(self).pending_swaps@ == old(self).pending_swaps@,
            final(self).tax_rate == old(self).tax_rate,
            final(self).sweep_stake_account == old(self).sweep_stake_account,
            final(self).transitory_sweep_stake_addresses@ == old(self).transitory_sweep_stake_addresses@,
    {
        let n = self.lot_counter;
        self.lot_counter = self.lot_counter + 1;
        n
    }

    pub fn get_tax_rate(&self) -> (r: &Option<TaxRate>)
        ensures
            *r == self.tax_rate,
    {
        &self.tax_rate
    }

    pub fn set_tax_rate(&mut self, tax_rate: TaxRate)
        requires
            old(self).wf(),
        ensures
            final(self).wf(),
            *final(self) == (Db { tax_rate: Some(tax_rate), ..*old(self) }),
    {
        self.tax_rate = Some(tax_rate);
    }

    pub fn get_sweep_stake_account(&self) -> (r: &Option<SweepStakeAccount>)
        ensures
            *r == self.sweep_stake_account,
    {
        &self.sweep_stake_account
    }

    pub fn set_sweep_stake_account(&mut self, sweep_stake_account: SweepStakeAccount)
        requires
            old(self).wf(),
        ensures
            final(self).wf(),
            final(self).sweep_stake_account matches Some(s)
                && s.address == sweep_stake_account.address
                && s.stake_authority@ == sweep_stake_account.stake_authority@,
            final(self).accounts@ == old(self).accounts@,
            final(self).disposed@ == old(self).disposed@,
            final(self).pending_deposits@ == old(self).pending_deposits@,
            final(self).pending_withdrawals@ == old(self).pending_withdrawals@,
            final(self).pending_transfers@ == old(self).pending_transfers@,
            final(self).pending_swaps@ == old(self).pending_swaps@,
            final(self).lot_counter == old(self).lot_counter,
            final(self).tax_rate == old(self).tax_rate,
            final(self).transitory_sweep_stake_addresses@ == old(self).transitory_sweep_stake_addresses@,
    {
        self.sweep_stake_account = Some(sweep_stake_account);
    }

    pub fn get_transitory_sweep_stake_addresses(&self) -> (r: &Vec<Address>)
        ensures
            r@ == self.transitory_sweep_stake_addresses@,
    {
        &self.transitory_sweep_stake_addresses
    }

    /// Remember a transitory stake account created on the way to the sweep
    /// destination.
    pub fn add_transitory_sweep_stake_address(&mut self, address: Address)
        requires
            old(self).wf(),
        ensures
            final(self).wf(),
            final(self).transitory_sweep_stake_addresses@
                == old(self).transitory_sweep_stake_addresses@.push(address),
            final(self).accounts@ == old(self).accounts@,
            final(self).disposed@ == old(self).disposed@,
            final(self).pending_deposits@ == old(self).pending_deposits@,
            final(self).pending_withdrawals@ == old(self).pending_withdrawals@,
            final(self).pending_transfers@ == old(self).pending_transfers@,
            final(self).pending_swaps@ == old(self).pending_swaps@,
            final(self).lot_counter == old(self).lot_counter,
            final(self).tax_rate == old(self).tax_rate,
            final(self).sweep_stake_account == old(self).sweep_stake_account,
    {
        self.transitory_sweep_stake_addresses.push(address);
    }

    /// Forget a transitory sweep stake address; `NotFound` if absent.
    #[verifier::loop_isolation(false)]
    pub fn remove_transitory_sweep_stake_address(&mut self, address: Address)
        -> (r: Result<(), LedgerError>)
        requires
            old(self).wf(),
        ensures
            final(self).wf(),
            r is Ok <==> old(self).transitory_sweep_stake_addresses@.contains(address),
            r is Err ==> r->Err_0 == LedgerError::NotFound
                && final(self).transitory_sweep_stake_addresses@
                    == old(self).transitory_sweep_stake_addresses@,
            r is Ok ==> exists|i: int| 0 <= i < old(self).transitory_sweep_stake_addresses@.len()
                && old(self).transitory_sweep_stake_addresses@[i] == address
                && final(self).transitory_sweep_stake_addresses@
                    == old(self).transitory_sweep_stake_addresses@.remove(i),
            final(self).accounts@ == old(self).accounts@,
            final(self).disposed@ == old(self).disposed@,
            final(self).pending_deposits@ == old(self).pending_deposits@,
            final(self).pending_withdrawals@ == old(self).pending_withdrawals@,
            final(self).pending_transfers@ == old(self).pending_transfers@,
            final(self).pending_swaps@ == old(self).pending_swaps@,
            final(self).lot_counter == old(self).lot_counter,
            final(self).tax_rate == old(self).tax_rate,
            final(self).sweep_stake_account == old(self).sweep_stake_account,
    {
        let mut i: usize = 0;
        while i < self.transitory_sweep_stake_addresses.len()
            invariant
                0 <= i <= self.transitory_sweep_stake_addresses@.len(),
                forall|k: int| 0 <= k < i
                    ==> #[trigger] self.transitory_sweep_stake_addresses@[k] != address,
                *self == *old(self),
            decreases self.transitory_sweep_stake_addresses@.len() - i,
        {
            if self.transitory_sweep_stake_addresses[i] == address {
                let ghost orig = self.transitory_sweep_stake_addresses@;
                self.transitory_sweep_stake_addresses.remove(i);
                proof {
                    assert(orig[i as int] == address);
                }
                return Ok(());
            }
            i = i + 1;
        }
        Err(LedgerError::NotFound)
    }

    /// Disposal history, append-only.
    pub fn disposed_lots(&self) -> (r: &Vec<DisposedLot>)
        ensures
            r@ == self.disposed@,
    {
        &self.disposed
    }

    pub fn pending_deposits(&self) -> (r: &Vec<PendingDeposit>)
        ensures
            r@ == self.pending_deposits@,
    {
        &self.pending_deposits
    }

    pub fn pending_withdrawals(&self) -> (r: &Vec<PendingWithdrawal>)
        ensures
            r@ == self.pending_withdrawals@,
    {
        &self.pending_withdrawals
    }

    pub fn pending_transfers(&self) -> (r: &Vec<PendingTransfer>)
        ensures
            r@ == self.pending_transfers@,
    {
        &self.pending_transfers
    }

    pub fn pending_swaps(&self) -> (r: &Vec<PendingSwap>)
        ensures
            r@ == self.pending_swaps@,
    {
        &self.pending_swaps
    }

    /// Credit the account at `(address, asset)` with one freshly numbered
    /// lot of `amount` units acquired at `(when, price, kind)`, creating
    /// the account when it is not yet tracked. Fails with
    /// `InvariantViolation` when no lot number is left or the destination
    /// balance would overflow; the store is then unchanged.
    pub fn credit_new_lot(
        &mut self,
        address: Address,
        asset: Asset,
        when: Date,
        price: Price,
        kind: AcquisitionKind,
        amount: u64,
    ) -> (r: Result<u64, LedgerError>)
        requires
            old(self).wf(),
        ensures
            final(self).wf(),
            r is Ok <==> spec_credit_ok(*old(self), address, asset, amount),
            r is Ok ==> r->Ok_0 == old(self).lot_counter
                && spec_credit_applied(*old(self), *final(self), address, asset, when,
                    price, kind, amount),
            r is Err ==> r->Err_0 == LedgerError::InvariantViolation
                && *final(self) == *old(self),
    {
        if self.lot_counter == u64::MAX {
            return Err(LedgerError::InvariantViolation);
        }
        let idx = self.find_account_index(address, asset);
        proof {
            lemma_find_account_props(self.accounts@, address, asset);
        }
        let ghost orig = *self;
        let lot_number = self.lot_counter;
        match idx {
            Some(i) => {
                let balance = self.accounts[i].last_update_balance;
                if amount > u64::MAX - balance {
                    return Err(LedgerError::InvariantViolation);
                }
                let lot = Lot {
                    lot_number,
                    acquisition: LotAcquisition { when, price, kind },
                    amount,
                };
                self.accounts[i].last_update_balance = balance + amount;
                self.accounts[i].lots.push(lot);
                self.lot_counter = lot_number + 1;
                proof {
                    let s = self.accounts@;
                    assert(s =~= orig.accounts@.update(i as int, s[i as int]));
                    lemma_lots_total_push(orig.accounts@[i as int].lots@, lot);
                    assert forall|q: int| 0 <= q < s.len()
                        implies (#[trigger] s[q]).balance_invariant() by {
                        if q != i as int {
                            assert(s[q] == orig.accounts@[q]);
                        }
                    }
                    assert forall|q: int, j: int| #![trigger s[q], s[j]] 0 <= q < j < s.len()
                        implies !s[q].spec_key_matches(s[j].address, s[j].asset) by {
                        if s[q].spec_key_matches(s[j].address, s[j].asset) {
                            assert(orig.accounts@[q].spec_key_matches(
                                orig.accounts@[j].address, orig.accounts@[j].asset));
                        }
                    }
                    assert forall|q: int, j: int| #![trigger s[q].lots@[j]]
                        0 <= q < s.len() && 0 <= j < s[q].lots@.len()
                        implies s[q].lots@[j].lot_number < self.lot_counter by {
                        if q != i as int {
                            assert(s[q] == orig.accounts@[q]);
                        } else {
                            if j < s[q].lots@.len() - 1 {
                                assert(s[q].lots@[j] == orig.accounts@[q].lots@[j]);
                            }
                        }
                    }
                }
                Ok(lot_number)
            },
            None => {
                let lot = Lot {
                    lot_number,
                    acquisition: LotAcquisition { when, price, kind },
                    amount,
                };
                let mut lots: Vec<Lot> = Vec::new();
                lots.push(lot);
                proof {
                    assert(lots@ =~= seq![lot]);
                    assert(lots@.drop_first() =~= Seq::<Lot>::empty());
                }
                let account = TrackedAccount {
                    address,
                    asset,
                    description: String::new(),
                    last_update_epoch: 0,
                    last_update_balance: amount,
                    lots,
                    no_sync: None,
                };
                self.accounts.push(account);
                self.lot_counter = lot_number + 1;
                proof {
                    let s = self.accounts@;
                    assert forall|q: int| 0 <= q < s.len()
                        implies (#[trigger] s[q]).balance_invariant() by {
                        if q < s.len() - 1 {
                            assert(s[q] == orig.accounts@[q]);
                        } else {
                            assert(s[q].lots@ =~= seq![lot]);
                            assert(lots_total(seq![lot])
                                == lot.amount + lots_total(seq![lot].drop_first()));
                            assert(seq![lot].drop_first() =~= Seq::<Lot>::empty());
                            assert(lots_total(Seq::<Lot>::empty()) == 0);
                        }
                    }
                    assert forall|q: int, j: int| #![trigger s[q], s[j]] 0 <= q < j < s.len()
                        implies !s[q].spec_key_matches(s[j].address, s[j].asset) by {
                        if j == s.len() - 1 {
                            assert(s[q] == orig.accounts@[q]);
                        } else {
                            assert(s[q] == orig.accounts@[q]);
                            assert(s[j] == orig.accounts@[j]);
                        }
                    }
                    assert forall|q: int, j: int| #![trigger s[q].lots@[j]]
                        0 <= q < s.len() && 0 <= j < s[q].lots@.len()
                        implies s[q].lots@[j].lot_number < self.lot_counter by {
                        if q < s.len() - 1 {
                            assert(s[q] == orig.accounts@[q]);
                        }
                    }
                }
                Ok(lot_number)
            },
        }
    }

    /// Position of the first live lot carrying the given number.
    #[verifier::loop_isolation(false)]
    fn find_lot_position(&self, lot_number: u64) -> (r: Option<(usize, usize)>)
        ensures
            match r {
                Some(p) => spec_find_lot(self.accounts@, lot_number)
                    == Some((p.0 as int, p.1 as int)),
                None => spec_find_lot(self.accounts@, lot_number) is None,
            },
    {
        let mut i: usize = 0;
        while i < self.accounts.len()
            invariant
                0 <= i <= self.accounts@.len(),
                forall|k: int| 0 <= k < i
                    ==> spec_find_lot_in((#[trigger] self.accounts@[k]).lots@, lot_number)
                        is None,
            decreases self.accounts@.len() - i,
        {
            let lots = &self.accounts[i].lots;
            let mut j: usize = 0;
            while j < lots.len()
                invariant
                    0 <= j <= lots@.len(),
                    lots@ == self.accounts@[i as int].lots@,
                    forall|k: int| 0 <= k < j
                        ==> (#[trigger] lots@[k]).lot_number != lot_number,
                decreases lots@.len() - j,
            {
                if lots[j].lot_number == lot_number {
                    proof {
                        lemma_find_lot_in_at(self.accounts@[i as int].lots@, lot_number,
                            j as int);
                        lemma_find_lot_at(self.accounts@, lot_number, i as int, j as int);
                    }
                    return Some((i, j));
                }
                j = j + 1;
            }
            proof {
                lemma_find_lot_in_props(self.accounts@[i as int].lots@, lot_number);
                match spec_find_lot_in(self.accounts@[i as int].lots@, lot_number) {
                    Some(q) => {
                        assert(self.accounts@[i as int].lots@[q].lot_number == lot_number);
                        assert(false);
                    },
                    None => {},
                }
            }
            i = i + 1;
        }
        proof {
            lemma_find_lot_none(self.accounts@, lot_number);
        }
        None
    }

    fn disposed_has_number(&self, lot_number: u64) -> (r: bool)
        ensures
            r == spec_disposed_has_number(self.disposed@, lot_number),
    {
        let mut i: usize = 0;
        while i < self.disposed.len()
            invariant
                0 <= i <= self.disposed@.len(),
                forall|k: int| 0 <= k < i
                    ==> (#[trigger] self.disposed@[k]).lot.lot_number != lot_number,
            decreases self.disposed@.len() - i,
        {
            if self.disposed[i].lot.lot_number == lot_number {
                return true;
            }
            i = i + 1;
        }
        false
    }

    /// Delete a live lot outright. History is immutable: a lot number that
    /// already appears in the disposal history may not be deleted, and
    /// asking to is an `InvariantViolation`. `NotFound` if no live lot
    /// carries the number.
    pub fn delete_lot(&mut self, lot_number: u64) -> (r: Result<(), LedgerError>)
        requires
            old(self).wf(),
        ensures
            final(self).wf(),
            r is Ok <==> (spec_find_lot(old(self).accounts@, lot_number) is Some
                && !spec_disposed_has_number(old(self).disposed@, lot_number)),
            r is Ok ==> {
                let p = spec_find_lot(old(self).accounts@, lot_number)->Some_0;
                &&& final(self).accounts@.len() == old(self).accounts@.len()
                &&& forall|q: int| 0 <= q < old(self).accounts@.len() && q != p.0
                        ==> #[trigger] final(self).accounts@[q] == old(self).accounts@[q]
                &&& final(self).accounts@[p.0].address == old(self).accounts@[p.0].address
                &&& final(self).accounts@[p.0].asset == old(self).accounts@[p.0].asset
                &&& final(self).accounts@[p.0].description
                        == old(self).accounts@[p.0].description
                &&& final(self).accounts@[p.0].last_update_epoch
                        == old(self).accounts@[p.0].last_update_epoch
                &&& final(self).accounts@[p.0].no_sync == old(self).accounts@[p.0].no_sync
                &&& final(self).accounts@[p.0].lots@
                        == old(self).accounts@[p.0].lots@.remove(p.1)
                &&& final(self).accounts@[p.0].last_update_balance
                        == old(self).accounts@[p.0].last_update_balance
                            - old(self).accounts@[p.0].lots@[p.1].amount
            },
            r is Err ==> *final(self) == *old(self),
            r is Err ==> r->Err_0 == (if spec_find_lot(old(self).accounts@, lot_number)
                is None {
                LedgerError::NotFound
            } else {
                LedgerError::InvariantViolation
            }),
            final(self).disposed@ == old(self).disposed@,
            final(self).pending_deposits@ == old(self).pending_deposits@,
            final(self).pending_withdrawals@ == old(self).pending_withdrawals@,
            final(self).pending_transfers@ == old(self).pending_transfers@,
            final(self).pending_swaps@ == old(self).pending_swaps@,
            final(self).lot_counter == old(self).lot_counter,
            final(self).tax_rate == old(self).tax_rate,
            final(self).sweep_stake_account == old(self).sweep_stake_account,
            final(self).transitory_sweep_stake_addresses@
                == old(self).transitory_sweep_stake_addresses@,
    {
        let (ai, aj) = match self.find_lot_position(lot_number) {
            Some(p) => p,
            None => {
                return Err(LedgerError::NotFound);
            },
        };
        proof {
            lemma_find_lot_props(self.accounts@, lot_number);
        }
        if self.disposed_has_number(lot_number) {
            return Err(LedgerError::InvariantViolation);
        }
        let ghost orig = *self;
        let amount = self.accounts[ai].lots[aj].amount;
        let balance = self.accounts[ai].last_update_balance;
        proof {
            assert(orig.accounts@[ai as int].balance_invariant());
            crate::types::lemma_lots_total_remove(orig.accounts@[ai as int].lots@,
                aj as int);
            lemma_lots_total_nonneg(orig.accounts@[ai as int].lots@.remove(aj as int));
        }
        self.accounts[ai].lots.remove(aj);
        self.accounts[ai].last_update_balance = balance - amount;
        proof {
            let s = self.accounts@;
            let pre = orig.accounts@;
            assert(s =~= pre.update(ai as int, s[ai as int]));
            assert forall|q: int| 0 <= q < s.len()
                implies (#[trigger] s[q]).balance_invariant() by {
                if q != ai as int {
                    assert(s[q] == pre[q]);
                }
            }
            assert forall|q: int, j: int| #![trigger s[q], s[j]] 0 <= q < j < s.len()
                implies !s[q].spec_key_matches(s[j].address, s[j].asset) by {
                if s[q].spec_key_matches(s[j].address, s[j].asset) {
                    assert(pre[q].spec_key_matches(pre[j].address, pre[j].asset));
                }
            }
            assert forall|q: int, j: int| #![trigger s[q].lots@[j]]
                0 <= q < s.len() && 0 <= j < s[q].lots@.len()
                implies s[q].lots@[j].lot_number < self.lot_counter by {
                if q != ai as int {
                    assert(s[q] == pre[q]);
                } else {
                    let oj = if j < aj as int { j } else { j + 1 };
                    assert(s[q].lots@[j] == pre[ai as int].lots@[oj]);
                }
            }
        }
        Ok(())
    }

    /// Reassign one live lot to a different tracked account of the same
    /// asset, without altering its number or acquisition history.
    /// `NotFound` if no live lot carries the number or the destination is
    /// not tracked for the asset; `InvariantViolation` if the lot is
    /// already held at the destination or its balance would overflow.
    pub fn move_lot(&mut self, lot_number: u64, to_address: Address)
        -> (r: Result<(), LedgerError>)
        requires
            old(self).wf(),
        ensures
            final(self).wf(),
            r is Ok <==> (spec_find_lot(old(self).accounts@, lot_number) matches Some(p)
                && spec_find_account(old(self).accounts@, to_address,
                    old(self).accounts@[p.0].asset) matches Some(di)
                && di != p.0
                && old(self).accounts@[di].last_update_balance
                    + old(self).accounts@[p.0].lots@[p.1].amount <= u64::MAX),
            r is Ok ==> {
                let p = spec_find_lot(old(self).accounts@, lot_number)->Some_0;
                let di = spec_find_account(old(self).accounts@, to_address,
                    old(self).accounts@[p.0].asset)->Some_0;
                let lot = old(self).accounts@[p.0].lots@[p.1];
                &&& final(self).accounts@.len() == old(self).accounts@.len()
                &&& forall|q: int| 0 <= q < old(self).accounts@.len() && q != p.0 && q != di
                        ==> #[trigger] final(self).accounts@[q] == old(self).accounts@[q]
                &&& final(self).accounts@[p.0].address == old(self).accounts@[p.0].address
                &&& final(self).accounts@[p.0].asset == old(self).accounts@[p.0].asset
                &&& final(self).accounts@[p.0].description
                        == old(self).accounts@[p.0].description
                &&& final(self).accounts@[p.0].last_update_epoch
                        == old(self).accounts@[p.0].last_update_epoch
                &&& final(self).accounts@[p.0].no_sync == old(self).accounts@[p.0].no_sync
                &&& final(self).accounts@[p.0].lots@
                        == old(self).accounts@[p.0].lots@.remove(p.1)
                &&& final(self).accounts@[p.0].last_update_balance
                        == old(self).accounts@[p.0].last_update_balance - lot.amount
                &&& final(self).accounts@[di].address == old(self).accounts@[di].address
                &&& final(self).accounts@[di].asset == old(self).accounts@[di].asset
                &&& final(self).accounts@[di].description
                        == old(self).accounts@[di].description
                &&& final(self).accounts@[di].last_update_epoch
                        == old(self).accounts@[di].last_update_epoch
                &&& final(self).accounts@[di].no_sync == old(self).accounts@[di].no_sync
                &&& final(self).accounts@[di].lots@
                        == old(self).accounts@[di].lots@.push(lot)
                &&& final(self).accounts@[di].last_update_balance
                        == old(self).accounts@[di].last_update_balance + lot.amount
            },
            r is Err ==> *final(self) == *old(self),
            r is Err ==> r->Err_0 == (match spec_find_lot(old(self).accounts@, lot_number) {
                None => LedgerError::NotFound,
                Some(p) => match spec_find_account(old(self).accounts@, to_address,
                    old(self).accounts@[p.0].asset) {
                    None => LedgerError::NotFound,
                    Some(di) => LedgerError::InvariantViolation,
                },
            }),
            final(self).disposed@ == old(self).disposed@,
            final(self).pending_deposits@ == old(self).pending_deposits@,
            final(self).pending_withdrawals@ == old(self).pending_withdrawals@,
            final(self).pending_transfers@ == old(self).pending_transfers@,
            final(self).pending_swaps@ == old(self).pending_swaps@,
            final(self).lot_counter == old(self).lot_counter,
            final(self).tax_rate == old(self).tax_rate,
            final(self).sweep_stake_account == old(self).sweep_stake_account,
            final(self).transitory_sweep_stake_addresses@
                == old(self).transitory_sweep_stake_addresses@,
    {
        let (ai, aj) = match self.find_lot_position(lot_number) {
            Some(p) => p,
            None => {
                return Err(LedgerError::NotFound);
            },
        };
        proof {
            lemma_find_lot_props(self.accounts@, lot_number);
        }
        let asset = self.accounts[ai].asset;
        let di = match self.find_account_index(to_address, asset) {
            Some(i) => i,
            None => {
                return Err(LedgerError::NotFound);
            },
        };
        proof {
            lemma_find_account_props(self.accounts@, to_address, asset);
        }
        if di == ai {
            return Err(LedgerError::InvariantViolation);
        }
        let lot = self.accounts[ai].lots[aj];
        let dest_balance = self.accounts[di].last_update_balance;
        if lot.amount > u64::MAX - dest_balance {
            return Err(LedgerError::InvariantViolation);
        }
        let ghost orig = *self;
        let source_balance = self.accounts[ai].last_update_balance;
        proof {
            assert(orig.accounts@[ai as int].balance_invariant());
            crate::types::lemma_lots_total_remove(orig.accounts@[ai as int].lots@,
                aj as int);
            lemma_lots_total_nonneg(orig.accounts@[ai as int].lots@.remove(aj as int));
        }
        self.accounts[ai].lots.remove(aj);
        self.accounts[ai].last_update_balance = source_balance - lot.amount;
        self.accounts[di].lots.push(lot);
        self.accounts[di].last_update_balance = dest_balance + lot.amount;
        proof {
            let s = self.accounts@;
            let pre = orig.accounts@;
            lemma_lots_total_push(pre[di as int].lots@, lot);
            assert forall|q: int| 0 <= q < s.len()
                implies (#[trigger] s[q]).balance_invariant() by {
                if q != ai as int && q != di as int {
                    assert(s[q] == pre[q]);
                }
            }
            assert forall|q: int, j: int| #![trigger s[q], s[j]] 0 <= q < j < s.len()
                implies !s[q].spec_key_matches(s[j].address, s[j].asset) by {
                if s[q].spec_key_matches(s[j].address, s[j].asset) {
                    assert(pre[q].spec_key_matches(pre[j].address, pre[j].asset));
                }
            }
            assert forall|q: int, j: int| #![trigger s[q].lots@[j]]
                0 <= q < s.len() && 0 <= j < s[q].lots@.len()
                implies s[q].lots@[j].lot_number < self.lot_counter by {
                if q != ai as int && q != di as int {
                    assert(s[q] == pre[q]);
                } else if q == ai as int {
                    let oj = if j < aj as int { j } else { j + 1 };
                    assert(s[q].lots@[j] == pre[ai as int].lots@[oj]);
                } else {
                    if j < pre[di as int].lots@.len() {
                        assert(s[q].lots@[j] == pre[di as int].lots@[j]);
                    } else {
                        assert(s[q].lots@[j] == pre[ai as int].lots@[aj as int]);
                    }
                }
            }
        }
        Ok(())
    }

    /// Exchange the ownership of two live lots, identified by number,
    /// without altering either lot's number or acquisition history. Each
    /// account's balance is adjusted by the difference of the two
    /// amounts. Exchanging a lot with itself succeeds and changes
    /// nothing. `NotFound` if either number is unknown;
    /// `InvariantViolation` if an adjusted balance would overflow.
    pub fn swap_lots(&mut self, lot_number_a: u64, lot_number_b: u64)
        -> (r: Result<(), LedgerError>)
        requires
            old(self).wf(),
        ensures
            final(self).wf(),
            r is Ok <==> spec_swap_lots_ok(*old(self), lot_number_a, lot_number_b),
            r is Ok && lot_number_a == lot_number_b ==> *final(self) == *old(self),
            r is Ok && lot_number_a != lot_number_b ==> {
                let pa = spec_find_lot(old(self).accounts@, lot_number_a)->Some_0;
                let pb = spec_find_lot(old(self).accounts@, lot_number_b)->Some_0;
                let la = old(self).accounts@[pa.0].lots@[pa.1];
                let lb = old(self).accounts@[pb.0].lots@[pb.1];
                &&& final(self).accounts@.len() == old(self).accounts@.len()
                &&& forall|q: int| 0 <= q < old(self).accounts@.len() && q != pa.0
                        && q != pb.0
                        ==> #[trigger] final(self).accounts@[q] == old(self).accounts@[q]
                &&& (if pa.0 == pb.0 {
                    &&& final(self).accounts@[pa.0].address
                            == old(self).accounts@[pa.0].address
                    &&& final(self).accounts@[pa.0].asset
                            == old(self).accounts@[pa.0].asset
                    &&& final(self).accounts@[pa.0].description
                            == old(self).accounts@[pa.0].description
                    &&& final(self).accounts@[pa.0].last_update_epoch
                            == old(self).accounts@[pa.0].last_update_epoch
                    &&& final(self).accounts@[pa.0].no_sync
                            == old(self).accounts@[pa.0].no_sync
                    &&& final(self).accounts@[pa.0].last_update_balance
                            == old(self).accounts@[pa.0].last_update_balance
                    &&& final(self).accounts@[pa.0].lots@
                            == old(self).accounts@[pa.0].lots@.update(pa.1, lb)
                                .update(pb.1, la)
                } else {
                    &&& final(self).accounts@[pa.0].address
                            == old(self).accounts@[pa.0].address
                    &&& final(self).accounts@[pa.0].asset
                            == old(self).accounts@[pa.0].asset
                    &&& final(self).accounts@[pa.0].description
                            == old(self).accounts@[pa.0].description
                    &&& final(self).accounts@[pa.0].last_update_epoch
                            == old(self).accounts@[pa.0].last_update_epoch
                    &&& final(self).accounts@[pa.0].no_sync
                            == old(self).accounts@[pa.0].no_sync
                    &&& final(self).accounts@[pa.0].lots@
                            == old(self).accounts@[pa.0].lots@.update(pa.1, lb)
                    &&& final(self).accounts@[pa.0].last_update_balance
                            == old(self).accounts@[pa.0].last_update_balance - la.amount
                                + lb.amount
                    &&& final(self).accounts@[pb.0].address
                            == old(self).accounts@[pb.0].address
                    &&& final(self).accounts@[pb.0].asset
                            == old(self).accounts@[pb.0].asset
                    &&& final(self).accounts@[pb.0].description
                            == old(self).accounts@[pb.0].description
                    &&& final(self).accounts@[pb.0].last_update_epoch
                            == old(self).accounts@[pb.0].last_update_epoch
                    &&& final(self).accounts@[pb.0].no_sync
                            == old(self).accounts@[pb.0].no_sync
                    &&& final(self).accounts@[pb.0].lots@
                            == old(self).accounts@[pb.0].lots@.update(pb.1, la)
                    &&& final(self).accounts@[pb.0].last_update_balance
                            == old(self).accounts@[pb.0].last_update_balance - lb.amount
                                + la.amount
                })
            },
            r is Err ==> *final(self) == *old(self),
            r is Err ==> r->Err_0 == (if spec_find_lot(old(self).accounts@, lot_number_a)
                is None || spec_find_lot(old(self).accounts@, lot_number_b) is None {
                LedgerError::NotFound
            } else {
                LedgerError::InvariantViolation
            }),
            final(self).disposed@ == old(self).disposed@,
            final(self).pending_deposits@ == old(self).pending_deposits@,
            final(self).pending_withdrawals@ == old(self).pending_withdrawals@,
            final(self).pending_transfers@ == old(self).pending_transfers@,
            final(self).pending_swaps@ == old(self).pending_swaps@,
            final(self).lot_counter == old(self).lot_counter,
            final(self).tax_rate == old(self).tax_rate,
            final(self).sweep_stake_account == old(self).sweep_stake_account,
            final(self).transitory_sweep_stake_addresses@
                == old(self).transitory_sweep_stake_addresses@,
    {
        let (ai, aj) = match self.find_lot_position(lot_number_a) {
            Some(p) => p,
            None => {
                return Err(LedgerError::NotFound);
            },
        };
        let (bi, bj) = match self.find_lot_position(lot_number_b) {
            Some(p) => p,
            None => {
                return Err(LedgerError::NotFound);
            },
        };
        proof {
            lemma_find_lot_props(self.accounts@, lot_number_a);
            lemma_find_lot_props(self.accounts@, lot_number_b);
        }
        if lot_number_a == lot_number_b {
            return Ok(());
        }
        let la = self.accounts[ai].lots[aj];
        let lb = self.accounts[bi].lots[bj];
        let ghost orig = *self;
        if ai == bi {
            self.accounts[ai].lots[aj] = lb;
            self.accounts[ai].lots[bj] = la;
            proof {
                let s = self.accounts@;
                let pre = orig.accounts@;
                assert(s =~= pre.update(ai as int, s[ai as int]));
                assert(s[ai as int].lots@
                    =~= pre[ai as int].lots@.update(aj as int, lb).update(bj as int, la));
                crate::types::lemma_lots_total_update(pre[ai as int].lots@, aj as int, lb);
                crate::types::lemma_lots_total_update(
                    pre[ai as int].lots@.update(aj as int, lb), bj as int, la);
                assert(aj != bj);
                assert(pre[ai as int].lots@.update(aj as int, lb)[bj as int]
                    == pre[ai as int].lots@[bj as int]);
                assert forall|q: int| 0 <= q < s.len()
                    implies (#[trigger] s[q]).balance_invariant() by {
                    if q != ai as int {
                        assert(s[q] == pre[q]);
                    }
                }
                assert forall|q: int, j: int| #![trigger s[q], s[j]] 0 <= q < j < s.len()
                    implies !s[q].spec_key_matches(s[j].address, s[j].asset) by {
                    if s[q].spec_key_matches(s[j].address, s[j].asset) {
                        assert(pre[q].spec_key_matches(pre[j].address, pre[j].asset));
                    }
                }
                assert forall|q: int, j: int| #![trigger s[q].lots@[j]]
                    0 <= q < s.len() && 0 <= j < s[q].lots@.len()
                    implies s[q].lots@[j].lot_number < self.lot_counter by {
                    if q != ai as int {
                        assert(s[q] == pre[q]);
                    } else {
                        if j != aj as int && j != bj as int {
                            assert(s[q].lots@[j] == pre[ai as int].lots@[j]);
                        }
                    }
                }
            }
            Ok(())
        } else {
            let bal_a = self.accounts[ai].last_update_balance;
            let bal_b = self.accounts[bi].last_update_balance;
            proof {
                assert(orig.accounts@[ai as int].balance_invariant());
                assert(orig.accounts@[bi as int].balance_invariant());
                crate::types::lemma_lots_total_remove(orig.accounts@[ai as int].lots@,
                    aj as int);
                lemma_lots_total_nonneg(orig.accounts@[ai as int].lots@.remove(aj as int));
                crate::types::lemma_lots_total_remove(orig.accounts@[bi as int].lots@,
                    bj as int);
                lemma_lots_total_nonneg(orig.accounts@[bi as int].lots@.remove(bj as int));
            }
            let reduced_a = bal_a - la.amount;
            let reduced_b = bal_b - lb.amount;
            if lb.amount > u64::MAX - reduced_a || la.amount > u64::MAX - reduced_b {
                return Err(LedgerError::InvariantViolation);
            }
            self.accounts[ai].lots[aj] = lb;
            self.accounts[ai].last_update_balance = reduced_a + lb.amount;
            self.accounts[bi].lots[bj] = la;
            self.accounts[bi].last_update_balance = reduced_b + la.amount;
            proof {
                let s = self.accounts@;
                let pre = orig.accounts@;
                assert(s[ai as int].lots@ =~= pre[ai as int].lots@.update(aj as int, lb));
                assert(s[bi as int].lots@ =~= pre[bi as int].lots@.update(bj as int, la));
                crate::types::lemma_lots_total_update(pre[ai as int].lots@, aj as int, lb);
                crate::types::lemma_lots_total_update(pre[bi as int].lots@, bj as int, la);
                assert forall|q: int| 0 <= q < s.len()
                    implies (#[trigger] s[q]).balance_invariant() by {
                    if q != ai as int && q != bi as int {
                        assert(s[q] == pre[q]);
                    }
                }
                assert forall|q: int, j: int| #![trigger s[q], s[j]] 0 <= q < j < s.len()
                    implies !s[q].spec_key_matches(s[j].address, s[j].asset) by {
                    if s[q].spec_key_matches(s[j].address, s[j].asset) {
                        assert(pre[q].spec_key_matches(pre[j].address, pre[j].asset));
                    }
                }
                assert forall|q: int, j: int| #![trigger s[q].lots@[j]]
                    0 <= q < s.len() && 0 <= j < s[q].lots@.len()
                    implies s[q].lots@[j].lot_number < self.lot_counter by {
                    if q != ai as int && q != bi as int {
                        assert(s[q] == pre[q]);
                    } else if q == ai as int {
                        if j != aj as int {
                            assert(s[q].lots@[j] == pre[ai as int].lots@[j]);
                        } else {
                            assert(s[q].lots@[j] == pre[bi as int].lots@[bj as int]);
                        }
                    } else {
                        if j != bj as int {
                            assert(s[q].lots@[j] == pre[bi as int].lots@[j]);
                        } else {
                            assert(s[q].lots@[j] == pre[ai as int].lots@[aj as int]);
                        }
                    }
                }
            }
            Ok(())
        }
    }

    /// Realize a disposal: consume `amount` from the account's lots via
    /// the selection method, leave any split remainder in place, append one
    /// immutable disposal record per consumed lot, and return those
    /// records. No partial disposal: on any failure the store is unchanged.
    pub fn record_disposal(
        &mut self,
        address: Address,
        asset: Asset,
        amount: u64,
        when: Date,
        price: Price,
        kind: DisposalKind,
        lot_selection_method: LotSelectionMethod,
        lot_numbers: Option<&Vec<u64>>,
    ) -> (r: Result<Vec<DisposedLot>, LedgerError>)
        requires
            old(self).wf(),
        ensures
            final(self).wf(),
            r is Ok <==> (spec_find_account(old(self).accounts@, address, asset)
                matches Some(i) && spec_extract_lots(old(self).accounts@[i].lots@,
                    amount as int, lot_selection_method, view_numbers(lot_numbers)) is Ok),
            r is Ok ==> spec_disposal_applied(*old(self), *final(self), address, asset,
                amount as int, when, price, kind, lot_selection_method,
                view_numbers(lot_numbers), r->Ok_0@),
            r is Err ==> *final(self) == *old(self),
            r is Err ==> r->Err_0 == (match spec_find_account(old(self).accounts@, address,
                asset) {
                None => LedgerError::NotFound,
                Some(i) => spec_extract_lots(old(self).accounts@[i].lots@, amount as int,
                    lot_selection_method, view_numbers(lot_numbers))->Err_0,
            }),
            final(self).lot_counter == old(self).lot_counter,
    {
        let idx = match self.find_account_index(address, asset) {
            Some(i) => i,
            None => {
                return Err(LedgerError::NotFound);
            },
        };
        proof {
            lemma_find_account_props(self.accounts@, address, asset);
        }
        let pool = crate::select::copy_tail(&self.accounts[idx].lots, 0);
        proof {
            assert(pool@ =~= self.accounts@[idx as int].lots@);
        }
        let (consumed, remaining) = match extract_lots(pool, amount, lot_selection_method,
            lot_numbers) {
            Ok(t) => t,
            Err(e) => {
                return Err(e);
            },
        };
        let ghost orig = *self;
        let ghost pool_view = orig.accounts@[idx as int].lots@;
        let ghost want = spec_extract_lots(pool_view, amount as int, lot_selection_method,
            view_numbers(lot_numbers))->Ok_0;
        proof {
            lemma_extract_lots_conserves(pool_view, amount as int, lot_selection_method,
                view_numbers(lot_numbers));
            lemma_extract_lots_from_pool(pool_view, amount as int, lot_selection_method,
                view_numbers(lot_numbers));
            lemma_lots_total_nonneg(want.1);
            assert(orig.accounts@[idx as int].balance_invariant());
        }
        let mut records: Vec<DisposedLot> = Vec::new();
        let mut history: Vec<DisposedLot> = Vec::new();
        let mut k: usize = 0;
        while k < consumed.len()
            invariant
                0 <= k <= consumed@.len(),
                records@ == spec_disposed_records(consumed@.take(k as int), asset, when,
                    price, kind),
                history@ == records@,
            decreases consumed@.len() - k,
        {
            proof {
                let f = |l: Lot| DisposedLot { lot: l, asset, when, price, kind };
                assert(consumed@.take(k + 1)
                    =~= consumed@.take(k as int).push(consumed@[k as int]));
                assert(consumed@.take(k + 1).map_values(f)
                    =~= consumed@.take(k as int).map_values(f).push(f(consumed@[k as int])));
            }
            let record = DisposedLot { lot: consumed[k], asset, when, price, kind };
            records.push(record);
            history.push(record);
            k = k + 1;
        }
        proof {
            assert(consumed@.take(consumed@.len() as int) =~= consumed@);
        }
        let old_balance = self.accounts[idx].last_update_balance;
        self.accounts[idx].last_update_balance = old_balance - amount;
        self.accounts[idx].lots = remaining;
        self.disposed.append(&mut history);
        proof {
            let s = self.accounts@;
            assert(s =~= orig.accounts@.update(idx as int, s[idx as int]));
            assert forall|i: int| 0 <= i < s.len()
                implies (#[trigger] s[i]).balance_invariant() by {
                if i != idx as int {
                    assert(s[i] == orig.accounts@[i]);
                }
            }
            assert forall|i: int, j: int| #![trigger s[i], s[j]] 0 <= i < j < s.len()
                implies !s[i].spec_key_matches(s[j].address, s[j].asset) by {
                if s[i].spec_key_matches(s[j].address, s[j].asset) {
                    assert(orig.accounts@[i].spec_key_matches(orig.accounts@[j].address,
                        orig.accounts@[j].asset));
                }
            }
            assert forall|i: int, j: int| #![trigger s[i].lots@[j]]
                0 <= i < s.len() && 0 <= j < s[i].lots@.len()
                implies s[i].lots@[j].lot_number < self.lot_counter by {
                if i != idx as int {
                    assert(s[i] == orig.accounts@[i]);
                } else {
                    assert(spec_pool_has_number(pool_view, s[i].lots@[j].lot_number));
                    let m = choose|m: int| 0 <= m < pool_view.len()
                        && pool_view[m].lot_number == s[i].lots@[j].lot_number;
                    assert(orig.accounts@[idx as int].lots@[m].lot_number
                        < orig.lot_counter);
                }
            }
            assert forall|i: int| 0 <= i < self.disposed@.len()
                implies (#[trigger] self.disposed@[i]).lot.lot_number < self.lot_counter by {
                if i < orig.disposed@.len() {
                    assert(self.disposed@[i] == orig.disposed@[i]);
                } else {
                    let k2 = i - orig.disposed@.len();
                    assert(self.disposed@[i] == records@[k2]);
                    assert(records@[k2].lot == consumed@[k2]);
                    assert(spec_pool_has_number(pool_view, consumed@[k2].lot_number));
                    let m = choose|m: int| 0 <= m < pool_view.len()
                        && pool_view[m].lot_number == consumed@[k2].lot_number;
                    assert(orig.accounts@[idx as int].lots@[m].lot_number
                        < orig.lot_counter);
                }
            }
        }
        Ok(records)
    }

    /// A manual drop: the same disposal pipeline with the `Drop` kind and
    /// no price, correcting bookkeeping rather than recording an economic
    /// event.
    pub fn record_drop(
        &mut self,
        address: Address,
        asset: Asset,
        amount: u64,
        when: Date,
        lot_selection_method: LotSelectionMethod,
        lot_numbers: Option<&Vec<u64>>,
    ) -> (r: Result<Vec<DisposedLot>, LedgerError>)
        requires
            old(self).wf(),
        ensures
            final(self).wf(),
            r is Ok <==> (spec_find_account(old(self).accounts@, address, asset)
                matches Some(i) && spec_extract_lots(old(self).accounts@[i].lots@,
                    amount as int, lot_selection_method, view_numbers(lot_numbers)) is Ok),
            r is Ok ==> spec_disposal_applied(*old(self), *final(self), address, asset,
                amount as int, when, 0, DisposalKind::Drop, lot_selection_method,
                view_numbers(lot_numbers), r->Ok_0@),
            r is Err ==> *final(self) == *old(self),
            r is Err ==> r->Err_0 == (match spec_find_account(old(self).accounts@, address,
                asset) {
                None => LedgerError::NotFound,
                Some(i) => spec_extract_lots(old(self).accounts@[i].lots@, amount as int,
                    lot_selection_method, view_numbers(lot_numbers))->Err_0,
            }),
            final(self).lot_counter == old(self).lot_counter,
    {
        self.record_disposal(address, asset, amount, when, 0, DisposalKind::Drop,
            lot_selection_method, lot_numbers)
    }
}

/// The disposal records produced from the consumed lots.
pub open spec fn spec_disposed_records(
    consumed: Seq<Lot>,
    asset: Asset,
    when: Date,
    price: Price,
    kind: DisposalKind,
) -> Seq<DisposedLot> {
    consumed.map_values(|l: Lot| DisposedLot { lot: l, asset, when, price, kind })
}

/// Exactly how a successful disposal changes the accounts and the
/// history: the found account keeps its identity, loses the consumed
/// amount from balance and lots, and the records of the consumed lots are
/// appended.
pub open spec fn spec_disposal_effect(
    pre_accounts: Seq<TrackedAccount>,
    post_accounts: Seq<TrackedAccount>,
    pre_disposed: Seq<DisposedLot>,
    post_disposed: Seq<DisposedLot>,
    address: Address,
    asset: Asset,
    amount: int,
    when: Date,
    price: Price,
    kind: DisposalKind,
    method: LotSelectionMethod,
    numbers: Option<Seq<u64>>,
    records: Seq<DisposedLot>,
) -> bool {
    let i = spec_find_account(pre_accounts, address, asset)->Some_0;
    let t = spec_extract_lots(pre_accounts[i].lots@, amount, method, numbers)->Ok_0;
    &&& records == spec_disposed_records(t.0, asset, when, price, kind)
    &&& post_accounts.len() == pre_accounts.len()
    &&& forall|q: int| 0 <= q < pre_accounts.len() && q != i
            ==> #[trigger] post_accounts[q] == pre_accounts[q]
    &&& post_accounts[i].address == pre_accounts[i].address
    &&& post_accounts[i].asset == pre_accounts[i].asset
    &&& post_accounts[i].description == pre_accounts[i].description
    &&& post_accounts[i].last_update_epoch == pre_accounts[i].last_update_epoch
    &&& post_accounts[i].no_sync == pre_accounts[i].no_sync
    &&& post_accounts[i].last_update_balance
            == pre_accounts[i].last_update_balance - amount
    &&& post_accounts[i].lots@ == t.1
    &&& post_disposed == pre_disposed + records
}

/// A disposal as a whole-store transformation: the effect above, and
/// nothing else moves.
pub open spec fn spec_disposal_applied(
    pre: Db,
    post: Db,
    address: Address,
    asset: Asset,
    amount: int,
    when: Date,
    price: Price,
    kind: DisposalKind,
    method: LotSelectionMethod,
    numbers: Option<Seq<u64>>,
    records: Seq<DisposedLot>,
) -> bool {
    &&& spec_disposal_effect(pre.accounts@, post.accounts@, pre.disposed@, post.disposed@,
            address, asset, amount, when, price, kind, method, numbers, records)
    &&& post.pending_deposits@ == pre.pending_deposits@
    &&& post.pending_withdrawals@ == pre.pending_withdrawals@
    &&& post.pending_transfers@ == pre.pending_transfers@
    &&& post.pending_swaps@ == pre.pending_swaps@
    &&& post.lot_counter == pre.lot_counter
    &&& post.tax_rate == pre.tax_rate
    &&& post.sweep_stake_account == pre.sweep_stake_account
    &&& post.transitory_sweep_stake_addresses@ == pre.transitory_sweep_stake_addresses@
}

/// Whether a credit of `amount` new units to the account at
/// `(address, asset)` can be applied: a lot number is still available and
/// the destination balance cannot overflow.
pub open spec fn spec_credit_ok(pre: Db, address: Address, asset: Asset, amount: u64) -> bool {
    &&& pre.lot_counter < u64::MAX
    &&& match spec_find_account(pre.accounts@, address, asset) {
        Some(i) => pre.accounts@[i].last_update_balance + amount <= u64::MAX,
        None => true,
    }
}

/// Exactly how a credit changes the accounts and the counter: the
/// destination account (created when absent) gains one freshly numbered
/// lot and `amount` of balance, every other account stays, and the
/// counter advances.
pub open spec fn spec_credit_accounts(
    pre_accounts: Seq<TrackedAccount>,
    post_accounts: Seq<TrackedAccount>,
    pre_counter: u64,
    post_counter: u64,
    address: Address,
    asset: Asset,
    when: Date,
    price: Price,
    kind: AcquisitionKind,
    amount: u64,
) -> bool {
    let lot = (Lot {
        lot_number: pre_counter,
        acquisition: LotAcquisition { when, price, kind },
        amount,
    });
    &&& post_counter == pre_counter + 1
    &&& match spec_find_account(pre_accounts, address, asset) {
        Some(i) => {
            &&& post_accounts.len() == pre_accounts.len()
            &&& forall|q: int| 0 <= q < pre_accounts.len() && q != i
                    ==> #[trigger] post_accounts[q] == pre_accounts[q]
            &&& post_accounts[i].address == pre_accounts[i].address
            &&& post_accounts[i].asset == pre_accounts[i].asset
            &&& post_accounts[i].description == pre_accounts[i].description
            &&& post_accounts[i].last_update_epoch == pre_accounts[i].last_update_epoch
            &&& post_accounts[i].no_sync == pre_accounts[i].no_sync
            &&& post_accounts[i].last_update_balance
                    == pre_accounts[i].last_update_balance + amount
            &&& post_accounts[i].lots@ == pre_accounts[i].lots@.push(lot)
        },
        None => {
            &&& post_accounts.len() == pre_accounts.len() + 1
            &&& forall|q: int| 0 <= q < pre_accounts.len()
                    ==> #[trigger] post_accounts[q] == pre_accounts[q]
            &&& post_accounts.last().address == address
            &&& post_accounts.last().asset == asset
            &&& post_accounts.last().description@ == Seq::<char>::empty()
            &&& post_accounts.last().last_update_epoch == 0
            &&& post_accounts.last().no_sync is None
            &&& post_accounts.last().last_update_balance == amount
            &&& post_accounts.last().lots@ == seq![lot]
        },
    }
}

/// A credit as a whole-store transformation: the account effect above, and
/// nothing else moves.
pub open spec fn spec_credit_applied(
    pre: Db,
    post: Db,
    address: Address,
    asset: Asset,
    when: Date,
    price: Price,
    kind: AcquisitionKind,
    amount: u64,
) -> bool {
    &&& spec_credit_accounts(pre.accounts@, post.accounts@, pre.lot_counter,
            post.lot_counter, address, asset, when, price, kind, amount)
    &&& post.disposed@ == pre.disposed@
    &&& post.pending_deposits@ == pre.pending_deposits@
    &&& post.pending_withdrawals@ == pre.pending_withdrawals@
    &&& post.pending_transfers@ == pre.pending_transfers@
    &&& post.pending_swaps@ == pre.pending_swaps@
    &&& post.tax_rate == pre.tax_rate
    &&& post.sweep_stake_account == pre.sweep_stake_account
    &&& post.transitory_sweep_stake_addresses@ == pre.transitory_sweep_stake_addresses@
}

/// Account lookups depend only on the keys, so two stores whose accounts
/// carry the same keys position for position resolve every key alike.
pub proof fn lemma_find_account_same_keys(
    a: Seq<TrackedAccount>,
    b: Seq<TrackedAccount>,
    address: Address,
    asset: Asset,
)
    requires
        a.len() == b.len(),
        forall|i: int| 0 <= i < a.len() ==> (#[trigger] b[i]).address == a[i].address
            && b[i].asset == a[i].asset,
    ensures
        spec_find_account(a, address, asset) == spec_find_account(b, address, asset),
    decreases a.len(),
{
    if a.len() > 0 {
        assert(b[0].address == a[0].address && b[0].asset == a[0].asset);
        assert forall|i: int| 0 <= i < a.drop_first().len()
            implies (#[trigger] b.drop_first()[i]).address == a.drop_first()[i].address
                && b.drop_first()[i].asset == a.drop_first()[i].asset by {
            assert(b.drop_first()[i] == b[i + 1]);
            assert(a.drop_first()[i] == a[i + 1]);
        }
        lemma_find_account_same_keys(a.drop_first(), b.drop_first(), address, asset);
    }
}

/// First position of a live lot with the given number within one
/// account's lots.
pub open spec fn spec_find_lot_in(lots: Seq<Lot>, n: u64) -> Option<int>
    decreases lots.len(),
{
    if lots.len() == 0 {
        None
    } else if lots[0].lot_number == n {
        Some(0)
    } else {
        match spec_find_lot_in(lots.drop_first(), n) {
            Some(j) => Some(j + 1),
            None => None,
        }
    }
}

pub proof fn lemma_find_lot_in_props(lots: Seq<Lot>, n: u64)
    ensures
        match spec_find_lot_in(lots, n) {
            Some(j) => 0 <= j < lots.len() && lots[j].lot_number == n
                && forall|k: int| 0 <= k < j ==> (#[trigger] lots[k]).lot_number != n,
            None => forall|k: int| 0 <= k < lots.len()
                ==> (#[trigger] lots[k]).lot_number != n,
        },
    decreases lots.len(),
{
    if lots.len() > 0 && lots[0].lot_number != n {
        lemma_find_lot_in_props(lots.drop_first(), n);
        let tail = lots.drop_first();
        assert forall|k: int| 1 <= k < lots.len() implies lots[k] == tail[k - 1] by {}
    }
}

proof fn lemma_find_lot_in_at(lots: Seq<Lot>, n: u64, j: int)
    requires
        0 <= j < lots.len(),
        lots[j].lot_number == n,
        forall|k: int| 0 <= k < j ==> (#[trigger] lots[k]).lot_number != n,
    ensures
        spec_find_lot_in(lots, n) == Some(j),
    decreases lots.len(),
{
    if j > 0 {
        let tail = lots.drop_first();
        assert(tail[j - 1] == lots[j]);
        assert forall|k: int| 0 <= k < j - 1
            implies (#[trigger] tail[k]).lot_number != n by {
            assert(tail[k] == lots[k + 1]);
        }
        lemma_find_lot_in_at(tail, n, j - 1);
    }
}

/// First position — account, then lot — of a live lot with the given
/// number, scanning accounts and lots in store order.
pub open spec fn spec_find_lot(accounts: Seq<TrackedAccount>, n: u64) -> Option<(int, int)>
    decreases accounts.len(),
{
    if accounts.len() == 0 {
        None
    } else {
        match spec_find_lot_in(accounts[0].lots@, n) {
            Some(j) => Some((0, j)),
            None => match spec_find_lot(accounts.drop_first(), n) {
                Some(p) => Some((p.0 + 1, p.1)),
                None => None,
            },
        }
    }
}

pub proof fn lemma_find_lot_props(accounts: Seq<TrackedAccount>, n: u64)
    ensures
        match spec_find_lot(accounts, n) {
            Some(p) => 0 <= p.0 < accounts.len()
                && 0 <= p.1 < accounts[p.0].lots@.len()
                && accounts[p.0].lots@[p.1].lot_number == n,
            None => forall|i: int, j: int| #![trigger accounts[i].lots@[j]]
                0 <= i < accounts.len() && 0 <= j < accounts[i].lots@.len()
                ==> accounts[i].lots@[j].lot_number != n,
        },
    decreases accounts.len(),
{
    if accounts.len() > 0 {
        lemma_find_lot_in_props(accounts[0].lots@, n);
        match spec_find_lot_in(accounts[0].lots@, n) {
            Some(_) => {},
            None => {
                lemma_find_lot_props(accounts.drop_first(), n);
                let tail = accounts.drop_first();
                match spec_find_lot(tail, n) {
                    Some(p) => {
                        assert(accounts[p.0 + 1] == tail[p.0]);
                    },
                    None => {
                        assert forall|i: int, j: int| #![trigger accounts[i].lots@[j]]
                            0 <= i < accounts.len() && 0 <= j < accounts[i].lots@.len()
                            implies accounts[i].lots@[j].lot_number != n by {
                            if i > 0 {
                                assert(accounts[i] == tail[i - 1]);
                                assert(tail[i - 1].lots@[j].lot_number != n);
                            }
                        }
                    },
                }
            },
        }
    }
}

proof fn lemma_find_lot_at(accounts: Seq<TrackedAccount>, n: u64, i: int, j: int)
    requires
        0 <= i < accounts.len(),
        spec_find_lot_in(accounts[i].lots@, n) == Some(j),
        forall|k: int| 0 <= k < i ==> spec_find_lot_in((#[trigger] accounts[k]).lots@, n)
            is None,
    ensures
        spec_find_lot(accounts, n) == Some((i, j)),
    decreases accounts.len(),
{
    if i > 0 {
        let tail = accounts.drop_first();
        assert(tail[i - 1] == accounts[i]);
        assert forall|k: int| 0 <= k < i - 1
            implies spec_find_lot_in((#[trigger] tail[k]).lots@, n) is None by {
            assert(tail[k] == accounts[k + 1]);
        }
        lemma_find_lot_at(tail, n, i - 1, j);
        assert(spec_find_lot_in(accounts[0].lots@, n) is None);
    }
}

proof fn lemma_find_lot_none(accounts: Seq<TrackedAccount>, n: u64)
    requires
        forall|k: int| 0 <= k < accounts.len()
            ==> spec_find_lot_in((#[trigger] accounts[k]).lots@, n) is None,
    ensures
        spec_find_lot(accounts, n) is None,
    decreases accounts.len(),
{
    if accounts.len() > 0 {
        let tail = accounts.drop_first();
        assert forall|k: int| 0 <= k < tail.len()
            implies spec_find_lot_in((#[trigger] tail[k]).lots@, n) is None by {
            assert(tail[k] == accounts[k + 1]);
        }
        lemma_find_lot_none(tail, n);
    }
}

/// Whether exchanging two live lots can be applied: both numbers are
/// live, and across two accounts neither adjusted balance overflows.
pub open spec fn spec_swap_lots_ok(pre: Db, lot_number_a: u64, lot_number_b: u64) -> bool {
    match (spec_find_lot(pre.accounts@, lot_number_a),
        spec_find_lot(pre.accounts@, lot_number_b)) {
        (Some(pa), Some(pb)) => {
            if lot_number_a == lot_number_b || pa.0 == pb.0 {
                true
            } else {
                let la = pre.accounts@[pa.0].lots@[pa.1];
                let lb = pre.accounts@[pb.0].lots@[pb.1];
                &&& pre.accounts@[pa.0].last_update_balance - la.amount + lb.amount
                    <= u64::MAX
                &&& pre.accounts@[pb.0].last_update_balance - lb.amount + la.amount
                    <= u64::MAX
            }
        },
        _ => false,
    }
}

/// Whether the disposal history references a lot number.
pub open spec fn spec_disposed_has_number(disposed: Seq<DisposedLot>, n: u64) -> bool {
    exists|i: int| 0 <= i < disposed.len() && (#[trigger] disposed[i]).lot.lot_number == n
}

/// Balance invariant: in every well-formed store — the state each
/// operation here both requires and re-establishes — every account's
/// recorded balance equals the sum of its lot amounts, whatever sequence
/// of additions, disposals, moves and confirmations produced it.
pub proof fn lemma_balance_invariant(db: Db, i: int)
    requires
        db.wf(),
        0 <= i < db.accounts@.len(),
    ensures
        db.accounts@[i].last_update_balance == lots_total(db.accounts@[i].lots@),
{
}

/// Lot-number uniqueness: `next_lot_number` returns the counter and
/// leaves it strictly larger, and every store operation keeps the counter
/// monotone, so around any two distinct calls the counters differ and the
/// numbers handed out never repeat. Persisting the counter and reloading
/// it extends the argument across process restarts.
pub proof fn lemma_lot_numbers_never_repeat(earlier: Db, later: Db)
    requires
        earlier.lot_counter < later.lot_counter,
    ensures
        earlier.spec_next_lot_number() != later.spec_next_lot_number(),
{
}

/// Total amount recorded by a sequence of disposal records.
pub open spec fn disposed_total(records: Seq<DisposedLot>) -> int
    decreases records.len(),
{
    if records.len() == 0 {
        0
    } else {
        records[0].lot.amount + disposed_total(records.drop_first())
    }
}

proof fn lemma_disposed_records_total(
    consumed: Seq<Lot>,
    asset: Asset,
    when: Date,
    price: Price,
    kind: DisposalKind,
)
    ensures
        disposed_total(spec_disposed_records(consumed, asset, when, price, kind))
            == lots_total(consumed),
    decreases consumed.len(),
{
    let f = |l: Lot| DisposedLot { lot: l, asset, when, price, kind };
    let records = consumed.map_values(f);
    if consumed.len() > 0 {
        assert(records.drop_first() =~= consumed.drop_first().map_values(f));
        assert(records[0] == f(consumed[0]));
        lemma_disposed_records_total(consumed.drop_first(), asset, when, price, kind);
    }
}

/// Disposal conservation: after any successful disposal, the sum of the
/// returned records' amounts plus the account's remaining lot total is
/// exactly the account's original lot total, and the records sum to
/// exactly the requested amount.
pub proof fn lemma_disposal_conserves(
    pre: Db,
    post: Db,
    address: Address,
    asset: Asset,
    amount: int,
    when: Date,
    price: Price,
    kind: DisposalKind,
    method: LotSelectionMethod,
    numbers: Option<Seq<u64>>,
    records: Seq<DisposedLot>,
)
    requires
        0 <= amount,
        spec_find_account(pre.accounts@, address, asset) matches Some(i)
            && spec_extract_lots(pre.accounts@[i].lots@, amount, method, numbers) is Ok,
        spec_disposal_effect(pre.accounts@, post.accounts@, pre.disposed@, post.disposed@,
            address, asset, amount, when, price, kind, method, numbers, records),
    ensures
        ({
            let i = spec_find_account(pre.accounts@, address, asset)->Some_0;
            disposed_total(records) == amount
                && disposed_total(records) + lots_total(post.accounts@[i].lots@)
                    == lots_total(pre.accounts@[i].lots@)
        }),
{
    let i = spec_find_account(pre.accounts@, address, asset)->Some_0;
    let t = spec_extract_lots(pre.accounts@[i].lots@, amount, method, numbers)->Ok_0;
    crate::select::lemma_extract_lots_conserves(pre.accounts@[i].lots@, amount, method,
        numbers);
    lemma_disposed_records_total(t.0, asset, when, price, kind);
}

/// The accounts held at one address, in store order.
pub open spec fn spec_accounts_at(accounts: Seq<TrackedAccount>, address: Address)
    -> Seq<TrackedAccount>
    decreases accounts.len(),
{
    if accounts.len() == 0 {
        Seq::empty()
    } else {
        spec_accounts_at(accounts.drop_last(), address)
            + if accounts.last().address == address { seq![accounts.last()] } else { Seq::empty() }
    }
}

} // verus!
