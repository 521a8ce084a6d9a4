use lot_ledger::gain::Money;
use lot_ledger::pending::{
    classify_pending_deposit, classify_pending_operation, classify_pending_withdrawal,
    is_expired, DepositDisposition, PendingDisposition, WithdrawalDisposition,
    DEPOSIT_MISMATCH_TOLERANCE,
};
use lot_ledger::select::LotSelectionMethod;
use lot_ledger::store::Db;
use lot_ledger::summary::{
    classify_balance_scan, payment_period_of_month, reconcile_no_sync_balance,
    summarize_holdings, swap_within_loss_tolerance, sweep_amount, sweep_meets_minimum,
    AnnualRealizedGain, BalanceScanAction, ReconcileAction,
};
use lot_ledger::types::{
    AcquisitionKind, Asset, DisposalKind, LedgerError, Lot, LotAcquisition, TrackedAccount,
};

fn sol() -> Asset {
    Asset { mint: 0, decimals: 0, fiat_fungible: false }
}

fn usdc() -> Asset {
    Asset { mint: 9, decimals: 0, fiat_fungible: true }
}

fn funded(db: &mut Db, address: u64, asset: Asset, amount: u64) {
    let n = db.next_lot_number();
    db.add_account(TrackedAccount {
        address,
        asset,
        description: String::new(),
        last_update_epoch: 0,
        last_update_balance: amount,
        lots: vec![Lot {
            lot_number: n,
            acquisition: LotAcquisition {
                when: 0,
                price: 1_000_000,
                kind: AcquisitionKind::Fiat,
            },
            amount,
        }],
        no_sync: None,
    })
    .unwrap();
}

#[test]
fn expiry_is_strict() {
    assert!(!is_expired(1000, 1000));
    assert!(is_expired(1001, 1000));
}

#[test]
fn chain_fact_classification() {
    assert_eq!(classify_pending_operation(Some(true), 0, 0), PendingDisposition::Confirm);
    assert_eq!(classify_pending_operation(Some(false), 0, 0), PendingDisposition::Failed);
    assert_eq!(
        classify_pending_operation(None, 1001, 1000),
        PendingDisposition::Expired
    );
    assert_eq!(
        classify_pending_operation(None, 1000, 1000),
        PendingDisposition::StillPending
    );
}

#[test]
fn withdrawal_classification() {
    assert_eq!(classify_pending_withdrawal(true, true), WithdrawalDisposition::Confirm);
    assert_eq!(classify_pending_withdrawal(true, false), WithdrawalDisposition::Cancel);
    assert_eq!(
        classify_pending_withdrawal(false, false),
        WithdrawalDisposition::StillPending
    );
}

#[test]
fn deposit_classification() {
    // In the history with the exact amount: confirm.
    assert_eq!(
        classify_pending_deposit(true, true, Some(Some(100)), false, 100, 0, 10),
        DepositDisposition::Confirm
    );
    // A small shortfall below the tolerance still confirms.
    assert_eq!(
        classify_pending_deposit(true, true, Some(Some(98)), false, 100, 0, 10),
        DepositDisposition::Confirm
    );
    // At the tolerance the deposit is held.
    assert_eq!(
        classify_pending_deposit(
            true,
            true,
            Some(Some(100 + DEPOSIT_MISMATCH_TOLERANCE)),
            false,
            100,
            0,
            10
        ),
        DepositDisposition::AmountMismatch
    );
    // No deposit history: fiat-fungible assets complete blind, others are
    // refused to protect tax history.
    assert_eq!(
        classify_pending_deposit(true, true, None, true, 100, 0, 10),
        DepositDisposition::ConfirmBlind
    );
    assert_eq!(
        classify_pending_deposit(true, true, None, false, 100, 0, 10),
        DepositDisposition::RefuseBlind
    );
    // Chain failure, expiry, and waiting.
    assert_eq!(
        classify_pending_deposit(false, false, None, true, 100, 0, 10),
        DepositDisposition::Failed
    );
    assert_eq!(
        classify_pending_deposit(false, true, None, true, 100, 11, 10),
        DepositDisposition::Expired
    );
    assert_eq!(
        classify_pending_deposit(false, true, None, true, 100, 10, 10),
        DepositDisposition::StillPending
    );
}

#[test]
fn deposit_lifecycle() {
    let mut db = Db::new();
    db.record_deposit(500, 1000, 1, 40, 3, 8, sol(), LotSelectionMethod::default(), None)
        .unwrap();
    // The same signature cannot open a second record.
    assert_eq!(
        db.record_deposit(500, 1000, 1, 40, 3, 8, sol(), LotSelectionMethod::default(),
            None)
            .unwrap_err(),
        LedgerError::InvariantViolation
    );
    assert_eq!(db.pending_deposits().len(), 1);
    // Confirming credits the deposit address with a new lot at the
    // deposit date and removes the record; the source is never debited by
    // this subsystem.
    db.confirm_deposit(500, 123, 2_000_000).unwrap();
    assert!(db.pending_deposits().is_empty());
    let dest = db.get_account(8, sol()).unwrap();
    assert_eq!(dest.last_update_balance, 40);
    assert_eq!(dest.lots.len(), 1);
    assert_eq!(dest.lots[0].acquisition.when, 123);
    // The record is terminal: a second confirm or a cancel reports it gone.
    assert_eq!(db.confirm_deposit(500, 123, 2_000_000).unwrap_err(), LedgerError::NotFound);
    assert_eq!(db.cancel_deposit(500).unwrap_err(), LedgerError::NotFound);
}

#[test]
fn blind_deposit_drop_keeps_ledger_unchanged() {
    let mut db = Db::new();
    db.record_deposit(501, 1000, 1, 40, 3, 8, usdc(), LotSelectionMethod::default(), None)
        .unwrap();
    db.drop_deposit(501).unwrap();
    assert!(db.pending_deposits().is_empty());
    assert!(db.get_account(8, usdc()).is_none());
}

#[test]
fn withdrawal_lifecycle() {
    let mut db = Db::new();
    funded(&mut db, 8, sol(), 100);
    db.record_withdrawal(3, 900, sol(), 30, 2, 8, 1, LotSelectionMethod::default(), None)
        .unwrap();
    // Cancelling restores nothing because nothing was disposed yet.
    db.cancel_withdrawal(900).unwrap();
    assert_eq!(db.get_account(8, sol()).unwrap().last_update_balance, 100);
    // Re-open and confirm: the backing lots are disposed with the fee.
    db.record_withdrawal(3, 901, sol(), 30, 2, 8, 1, LotSelectionMethod::default(), None)
        .unwrap();
    db.confirm_withdrawal(901, 200, 4_000_000).unwrap();
    assert!(db.pending_withdrawals().is_empty());
    assert_eq!(db.get_account(8, sol()).unwrap().last_update_balance, 70);
    let history = db.disposed_lots();
    assert_eq!(history.len(), 1);
    assert_eq!(history[0].lot.amount, 30);
    assert_eq!(history[0].kind, DisposalKind::Withdrawal { fee: 2 });
    assert_eq!(db.confirm_withdrawal(901, 200, 4_000_000).unwrap_err(),
        LedgerError::NotFound);
}

#[test]
fn transfer_lifecycle_moves_lots_intact() {
    let mut db = Db::new();
    funded(&mut db, 1, sol(), 100);
    db.record_transfer(600, 1000, Some(60), 1, sol(), 2, sol(),
        LotSelectionMethod::default(), None)
        .unwrap();
    db.confirm_transfer(600, 50).unwrap();
    assert!(db.pending_transfers().is_empty());
    let src = db.get_account(1, sol()).unwrap();
    let dst = db.get_account(2, sol()).unwrap();
    assert_eq!(src.last_update_balance, 40);
    assert_eq!(dst.last_update_balance, 60);
    // The moved lot keeps its number and acquisition history; the split
    // remainder stays at the source under the same number.
    assert_eq!(dst.lots.len(), 1);
    assert_eq!(dst.lots[0].lot_number, 0);
    assert_eq!(dst.lots[0].acquisition.when, 0);
    assert_eq!(dst.lots[0].amount, 60);
    assert_eq!(src.lots[0].lot_number, 0);
    assert_eq!(src.lots[0].amount, 40);
}

#[test]
fn transfer_sweep_moves_everything() {
    let mut db = Db::new();
    funded(&mut db, 1, sol(), 100);
    db.record_transfer(601, 1000, None, 1, sol(), 2, sol(),
        LotSelectionMethod::default(), None)
        .unwrap();
    db.confirm_transfer(601, 50).unwrap();
    assert_eq!(db.get_account(1, sol()).unwrap().last_update_balance, 0);
    assert!(db.get_account(1, sol()).unwrap().lots.is_empty());
    assert_eq!(db.get_account(2, sol()).unwrap().last_update_balance, 100);
}

#[test]
fn expired_transfer_cancellation_leaves_balances_unchanged() {
    // A pending transfer valid through block height 1000, with the chain
    // at height 1001 and no fact for the signature, may be cancelled by
    // the expiry inference; both accounts keep their balances.
    let mut db = Db::new();
    funded(&mut db, 1, sol(), 100);
    funded(&mut db, 2, sol(), 5);
    db.record_transfer(700, 1000, Some(60), 1, sol(), 2, sol(),
        LotSelectionMethod::default(), None)
        .unwrap();
    assert_eq!(
        classify_pending_operation(None, 1001, 1000),
        PendingDisposition::Expired
    );
    db.cancel_transfer(700).unwrap();
    assert!(db.pending_transfers().is_empty());
    assert_eq!(db.get_account(1, sol()).unwrap().last_update_balance, 100);
    assert_eq!(db.get_account(2, sol()).unwrap().last_update_balance, 5);
    // Terminal: it cannot be confirmed afterwards.
    assert_eq!(db.confirm_transfer(700, 1).unwrap_err(), LedgerError::NotFound);
}

#[test]
fn swap_lifecycle() {
    let mut db = Db::new();
    funded(&mut db, 1, sol(), 100);
    db.record_swap(800, 1000, 1, sol(), 5_000_000, usdc(), 1_000_000,
        LotSelectionMethod::default(), None)
        .unwrap();
    db.confirm_swap(800, 450, 60, 290).unwrap();
    assert!(db.pending_swaps().is_empty());
    // The from leg was disposed at the captured from price.
    let src = db.get_account(1, sol()).unwrap();
    assert_eq!(src.last_update_balance, 40);
    let history = db.disposed_lots();
    assert_eq!(history.len(), 1);
    assert_eq!(history[0].lot.amount, 60);
    assert_eq!(history[0].price, 5_000_000);
    assert_eq!(history[0].kind, DisposalKind::Swap);
    // The to leg landed as one new lot dated at confirmation.
    let dst = db.get_account(1, usdc()).unwrap();
    assert_eq!(dst.last_update_balance, 290);
    assert_eq!(dst.lots.len(), 1);
    assert_eq!(dst.lots[0].acquisition.when, 450);
    assert_eq!(dst.lots[0].acquisition.price, 1_000_000);
    assert!(matches!(
        dst.lots[0].acquisition.kind,
        AcquisitionKind::Swap { from_mint: 0, amount: Some(60) }
    ));
}

#[test]
fn swap_cancel_is_a_ledger_no_op() {
    let mut db = Db::new();
    funded(&mut db, 1, sol(), 100);
    db.record_swap(801, 1000, 1, sol(), 5_000_000, usdc(), 1_000_000,
        LotSelectionMethod::default(), None)
        .unwrap();
    db.cancel_swap(801).unwrap();
    assert!(db.pending_swaps().is_empty());
    assert_eq!(db.get_account(1, sol()).unwrap().last_update_balance, 100);
    assert!(db.get_account(1, usdc()).is_none());
    assert_eq!(db.cancel_swap(801).unwrap_err(), LedgerError::NotFound);
}

#[test]
fn payment_periods_follow_the_calendar() {
    let periods: Vec<usize> = (0..12).map(payment_period_of_month).collect();
    assert_eq!(periods, vec![0, 0, 0, 1, 1, 2, 2, 2, 3, 3, 3, 3]);
}

#[test]
fn annual_realized_gain_buckets() {
    let mut annual = AnnualRealizedGain::new();
    annual.record_income(0, Money::from_magnitude(5));
    annual.record_income(2, Money::from_magnitude(7));
    annual.record_short_term_cap_gain(4, Money::from_difference(0, 3));
    annual.record_long_term_cap_gain(11, Money::from_magnitude(9));
    assert_eq!(annual.by_quarter[0].income, Money::from_magnitude(12));
    assert_eq!(annual.by_quarter[1].short_term_cap_gain, Money { negative: true, magnitude: 3 });
    assert_eq!(annual.by_quarter[3].long_term_cap_gain, Money::from_magnitude(9));
    // May sits in the second payment period, December in the fourth.
    assert_eq!(
        annual.by_payment_period[1].short_term_cap_gain,
        Money { negative: true, magnitude: 3 }
    );
    assert_eq!(annual.by_payment_period[3].long_term_cap_gain, Money::from_magnitude(9));
}

#[test]
fn swap_loss_tolerance_boundary() {
    // A 1% tolerance on a $100 source value allows $99 and refuses less.
    assert!(swap_within_loss_tolerance(100_000_000, 99_000_000, 100));
    assert!(!swap_within_loss_tolerance(100_000_000, 98_999_999, 100));
    assert!(swap_within_loss_tolerance(0, 0, 0));
}

#[test]
fn no_sync_reconciliation_credits_cheapest_lot() {
    let mut account = TrackedAccount {
        address: 1,
        asset: sol(),
        description: String::new(),
        last_update_epoch: 0,
        last_update_balance: 30,
        lots: vec![
            Lot {
                lot_number: 0,
                acquisition: LotAcquisition {
                    when: 0,
                    price: 2_000_000,
                    kind: AcquisitionKind::Fiat,
                },
                amount: 10,
            },
            Lot {
                lot_number: 1,
                acquisition: LotAcquisition {
                    when: 1,
                    price: 1_000_000,
                    kind: AcquisitionKind::Fiat,
                },
                amount: 20,
            },
        ],
        no_sync: Some(true),
    };
    assert_eq!(reconcile_no_sync_balance(&mut account, 29), ReconcileAction::BalanceLow);
    assert_eq!(reconcile_no_sync_balance(&mut account, 30), ReconcileAction::Unchanged);
    assert_eq!(
        reconcile_no_sync_balance(&mut account, 37),
        ReconcileAction::Credited { surplus: 7 }
    );
    assert_eq!(account.last_update_balance, 37);
    assert_eq!(account.lots[1].amount, 27);
    assert_eq!(account.lots[0].amount, 10);
}

#[test]
fn balance_scan_classification() {
    assert_eq!(classify_balance_scan(100, 99, 5), BalanceScanAction::Warn);
    assert_eq!(classify_balance_scan(100, 104, 5), BalanceScanAction::Dust);
    assert_eq!(
        classify_balance_scan(100, 106, 5),
        BalanceScanAction::CreditUnexplained { surplus: 6 }
    );
}

#[test]
fn holdings_summary_totals() {
    let asset = sol();
    let lots = vec![
        Lot {
            lot_number: 0,
            acquisition: LotAcquisition {
                when: 0,
                price: 1_000_000,
                kind: AcquisitionKind::EpochReward { epoch: 1, slot: 5 },
            },
            amount: 100,
        },
        Lot {
            lot_number: 1,
            acquisition: LotAcquisition {
                when: 400,
                price: 2_000_000,
                kind: AcquisitionKind::Fiat,
            },
            amount: 50,
        },
    ];
    let h = summarize_holdings(&lots, &asset, 3_000_000, 401).unwrap();
    assert_eq!(h.total_basis, 200_000_000);
    // Only the staking reward counts as income.
    assert_eq!(h.total_income, 100_000_000);
    assert_eq!(h.total_value, 450_000_000);
    // Day-0 lot held 401 days: long-term, $200 gain; day-400 lot held one
    // day: short-term, $50 gain.
    assert_eq!(h.long_term_cap_gain, Money { negative: false, magnitude: 200_000_000 });
    assert_eq!(h.short_term_cap_gain, Money { negative: false, magnitude: 50_000_000 });
}

#[test]
fn sweep_amount_rules() {
    // Full balance less fee and retained amount, floored at zero.
    assert_eq!(sweep_amount(1_000, 5, 100, None), 895);
    assert_eq!(sweep_amount(90, 5, 100, None), 0);
    // An explicit amount wins.
    assert_eq!(sweep_amount(1_000, 5, 100, Some(42)), 42);
    assert!(sweep_meets_minimum(895, 100));
    assert!(!sweep_meets_minimum(99, 100));
}
