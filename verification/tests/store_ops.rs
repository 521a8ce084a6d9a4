use lot_ledger::gain::{basis, cap_gain, is_long_term_on, Money};
use lot_ledger::select::LotSelectionMethod;
use lot_ledger::store::Db;
use lot_ledger::types::{
    AcquisitionKind, Asset, DisposalKind, LedgerError, Lot, LotAcquisition, TrackedAccount,
};

fn asset_x() -> Asset {
    Asset { mint: 42, decimals: 0, fiat_fungible: false }
}

fn account_with_two_lots(db: &mut Db, address: u64) -> Asset {
    let asset = asset_x();
    let n1 = db.next_lot_number();
    let n2 = db.next_lot_number();
    let account = TrackedAccount {
        address,
        asset,
        description: String::from("tax lots"),
        last_update_epoch: 7,
        last_update_balance: 150,
        lots: vec![
            Lot {
                lot_number: n1,
                acquisition: LotAcquisition {
                    when: 0,
                    price: 1_000_000,
                    kind: AcquisitionKind::Fiat,
                },
                amount: 100,
            },
            Lot {
                lot_number: n2,
                acquisition: LotAcquisition {
                    when: 400,
                    price: 2_000_000,
                    kind: AcquisitionKind::Fiat,
                },
                amount: 50,
            },
        ],
        no_sync: None,
    };
    db.add_account(account).unwrap();
    asset
}

#[test]
fn add_get_update_remove_account() {
    let mut db = Db::new();
    let asset = account_with_two_lots(&mut db, 1);
    assert!(db.get_account(1, asset).is_some());
    assert!(db.get_account(2, asset).is_none());

    // The same key cannot be added twice.
    let copy = db.get_account(1, asset).unwrap().clone();
    assert_eq!(db.add_account(copy.clone()).unwrap_err(), LedgerError::AlreadyExists);

    // A replacement that breaks the balance invariant is refused as fatal.
    let mut broken = copy.clone();
    broken.last_update_balance = 1;
    assert_eq!(db.update_account(broken).unwrap_err(), LedgerError::InvariantViolation);

    // An account that still holds lots may not be removed.
    assert_eq!(db.remove_account(1, asset).unwrap_err(), LedgerError::AccountNotEmpty);
    assert_eq!(db.remove_account(9, asset).unwrap_err(), LedgerError::NotFound);

    // Emptied, it can go.
    let mut emptied = copy;
    emptied.lots = vec![];
    emptied.last_update_balance = 0;
    db.update_account(emptied).unwrap();
    db.remove_account(1, asset).unwrap();
    assert!(db.get_account(1, asset).is_none());
}

#[test]
fn lot_numbers_never_repeat() {
    let mut db = Db::new();
    let a = db.next_lot_number();
    let b = db.next_lot_number();
    let c = db.next_lot_number();
    assert_eq!(a, 0);
    assert_eq!(b, 1);
    assert_eq!(c, 2);
    assert!(a != b && b != c && a != c);
    // Reloading the persisted counter continues the sequence.
    let mut reloaded = Db::new();
    reloaded.lot_counter = db.lot_counter;
    let d = reloaded.next_lot_number();
    assert!(d != a && d != b && d != c);
}

#[test]
fn fifo_disposal_scenario() {
    // Account A holds 100 units at $1 (day 0) and 50 units at $2
    // (day 400). Disposing 120 with first-in-first-out at $3 on day 401:
    let mut db = Db::new();
    let asset = account_with_two_lots(&mut db, 1);
    let records = db
        .record_disposal(
            1,
            asset,
            120,
            401,
            3_000_000,
            DisposalKind::Sale,
            LotSelectionMethod::FirstInFirstOut,
            None,
        )
        .unwrap();
    assert_eq!(records.len(), 2);
    // First record: the whole day-0 lot; basis $100, gain $200, long-term.
    assert_eq!(records[0].lot.amount, 100);
    assert_eq!(basis(&records[0].lot, &asset), 100_000_000);
    assert_eq!(
        cap_gain(&records[0].lot, &asset, records[0].price),
        Money { negative: false, magnitude: 200_000_000 }
    );
    assert!(is_long_term_on(records[0].lot.acquisition.when, records[0].when));
    // Second record: 20 units of the day-400 lot; basis $40, gain $20,
    // short-term (held one day).
    assert_eq!(records[1].lot.amount, 20);
    assert_eq!(basis(&records[1].lot, &asset), 40_000_000);
    assert_eq!(
        cap_gain(&records[1].lot, &asset, records[1].price),
        Money { negative: false, magnitude: 20_000_000 }
    );
    assert!(!is_long_term_on(records[1].lot.acquisition.when, records[1].when));
    // The remaining lot is 30 units at $2, and the balance invariant holds.
    let account = db.get_account(1, asset).unwrap();
    assert_eq!(account.last_update_balance, 30);
    assert_eq!(account.lots.len(), 1);
    assert_eq!(account.lots[0].amount, 30);
    assert_eq!(account.lots[0].acquisition.price, 2_000_000);
    let total: u64 = account.lots.iter().map(|l| l.amount).sum();
    assert_eq!(account.last_update_balance, total);
    // The history kept both records.
    assert_eq!(db.disposed_lots().len(), 2);
}

#[test]
fn disposal_failures_leave_store_unchanged() {
    let mut db = Db::new();
    let asset = account_with_two_lots(&mut db, 1);
    let r = db.record_disposal(
        1,
        asset,
        151,
        401,
        3_000_000,
        DisposalKind::Sale,
        LotSelectionMethod::FirstInFirstOut,
        None,
    );
    assert_eq!(r.unwrap_err(), LedgerError::InsufficientLots);
    let r = db.record_disposal(
        9,
        asset,
        1,
        401,
        3_000_000,
        DisposalKind::Sale,
        LotSelectionMethod::FirstInFirstOut,
        None,
    );
    assert_eq!(r.unwrap_err(), LedgerError::NotFound);
    let account = db.get_account(1, asset).unwrap();
    assert_eq!(account.last_update_balance, 150);
    assert_eq!(account.lots.len(), 2);
    assert!(db.disposed_lots().is_empty());
}

#[test]
fn drop_disposes_without_price() {
    let mut db = Db::new();
    let asset = account_with_two_lots(&mut db, 1);
    let records = db
        .record_drop(1, asset, 25, 10, LotSelectionMethod::LastInFirstOut, None)
        .unwrap();
    assert_eq!(records.len(), 1);
    assert_eq!(records[0].kind, DisposalKind::Drop);
    assert_eq!(records[0].price, 0);
    assert_eq!(db.get_account(1, asset).unwrap().last_update_balance, 125);
}

#[test]
fn delete_lot_respects_history() {
    let mut db = Db::new();
    let asset = account_with_two_lots(&mut db, 1);
    // Dispose part of lot 0 so its number enters the history.
    db.record_disposal(
        1,
        asset,
        10,
        401,
        3_000_000,
        DisposalKind::Sale,
        LotSelectionMethod::FirstInFirstOut,
        None,
    )
    .unwrap();
    // Lot 0 still lives (90 units) but its history is immutable.
    assert_eq!(db.delete_lot(0).unwrap_err(), LedgerError::InvariantViolation);
    // Lot 1 has no history and can be deleted.
    db.delete_lot(1).unwrap();
    let account = db.get_account(1, asset).unwrap();
    assert_eq!(account.last_update_balance, 90);
    assert_eq!(account.lots.len(), 1);
    assert_eq!(db.delete_lot(77).unwrap_err(), LedgerError::NotFound);
}

#[test]
fn move_lot_changes_ownership_only() {
    let mut db = Db::new();
    let asset = account_with_two_lots(&mut db, 1);
    let other = TrackedAccount {
        address: 2,
        asset,
        description: String::from("cold storage"),
        last_update_epoch: 7,
        last_update_balance: 0,
        lots: vec![],
        no_sync: None,
    };
    db.add_account(other).unwrap();
    db.move_lot(1, 2).unwrap();
    let src = db.get_account(1, asset).unwrap();
    let dst = db.get_account(2, asset).unwrap();
    assert_eq!(src.last_update_balance, 100);
    assert_eq!(dst.last_update_balance, 50);
    assert_eq!(dst.lots[0].lot_number, 1);
    assert_eq!(dst.lots[0].acquisition.when, 400);
    assert_eq!(db.move_lot(0, 9).unwrap_err(), LedgerError::NotFound);
}

#[test]
fn swap_lots_exchanges_ownership() {
    let mut db = Db::new();
    let asset = account_with_two_lots(&mut db, 1);
    let n = db.next_lot_number();
    let other = TrackedAccount {
        address: 2,
        asset,
        description: String::from("other"),
        last_update_epoch: 7,
        last_update_balance: 7,
        lots: vec![Lot {
            lot_number: n,
            acquisition: LotAcquisition {
                when: 50,
                price: 9_000_000,
                kind: AcquisitionKind::Fiat,
            },
            amount: 7,
        }],
        no_sync: None,
    };
    db.add_account(other).unwrap();
    db.swap_lots(0, n).unwrap();
    let first = db.get_account(1, asset).unwrap();
    let second = db.get_account(2, asset).unwrap();
    // Balances follow the amounts; acquisition histories are untouched.
    assert_eq!(first.last_update_balance, 57);
    assert_eq!(second.last_update_balance, 100);
    assert!(first.lots.iter().any(|l| l.lot_number == n && l.acquisition.when == 50));
    assert!(second.lots.iter().any(|l| l.lot_number == 0 && l.acquisition.when == 0));
    assert_eq!(db.swap_lots(0, 99).unwrap_err(), LedgerError::NotFound);
}

#[test]
fn credit_new_lot_creates_accounts() {
    let mut db = Db::new();
    let asset = asset_x();
    let n = db
        .credit_new_lot(5, asset, 100, 2_000_000, AcquisitionKind::IncomeInKind, 40)
        .unwrap();
    assert_eq!(n, 0);
    let account = db.get_account(5, asset).unwrap();
    assert_eq!(account.last_update_balance, 40);
    assert_eq!(account.lots.len(), 1);
    let m = db
        .credit_new_lot(5, asset, 101, 3_000_000, AcquisitionKind::Fiat, 2)
        .unwrap();
    assert_eq!(m, 1);
    let account = db.get_account(5, asset).unwrap();
    assert_eq!(account.last_update_balance, 42);
    assert_eq!(account.lots.len(), 2);
}

#[test]
fn configuration_round_trips() {
    let mut db = Db::new();
    assert!(db.get_tax_rate().is_none());
    db.set_tax_rate(lot_ledger::types::TaxRate {
        income_bps: 3_700,
        short_term_cap_gain_bps: 3_700,
        long_term_cap_gain_bps: 2_000,
    });
    assert_eq!(db.get_tax_rate().unwrap().long_term_cap_gain_bps, 2_000);
    db.set_sweep_stake_account(lot_ledger::types::SweepStakeAccount {
        address: 77,
        stake_authority: String::from("authority.json"),
    });
    assert_eq!(db.get_sweep_stake_account().as_ref().unwrap().address, 77);
    db.add_transitory_sweep_stake_address(31);
    assert_eq!(db.get_transitory_sweep_stake_addresses().as_slice(), &[31]);
    db.remove_transitory_sweep_stake_address(31).unwrap();
    assert!(db.get_transitory_sweep_stake_addresses().is_empty());
    assert_eq!(
        db.remove_transitory_sweep_stake_address(31).unwrap_err(),
        LedgerError::NotFound
    );
}

#[test]
fn account_tokens_lists_all_assets_of_an_address() {
    let mut db = Db::new();
    let a = Asset { mint: 1, decimals: 0, fiat_fungible: false };
    let b = Asset { mint: 2, decimals: 6, fiat_fungible: true };
    for asset in [a, b] {
        db.add_account(TrackedAccount {
            address: 1,
            asset,
            description: String::new(),
            last_update_epoch: 0,
            last_update_balance: 0,
            lots: vec![],
            no_sync: None,
        })
        .unwrap();
    }
    db.add_account(TrackedAccount {
        address: 2,
        asset: a,
        description: String::new(),
        last_update_epoch: 0,
        last_update_balance: 0,
        lots: vec![],
        no_sync: None,
    })
    .unwrap();
    let tokens = db.get_account_tokens(1);
    assert_eq!(tokens.len(), 2);
    assert!(tokens.iter().all(|t| t.address == 1));
}
