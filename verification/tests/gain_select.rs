use lot_ledger::app_version;
use lot_ledger::gain::{
    basis, cap_gain, disposed_cap_gain, income, is_long_term_cap_gain, is_long_term_on,
    pow10_u64, today, ui_value, Money,
};
use lot_ledger::types::{DisposalKind, DisposedLot};
use lot_ledger::select::{extract_lots, sort_lots, LotSelectionMethod};
use lot_ledger::types::{AcquisitionKind, Asset, LedgerError, Lot, LotAcquisition};

fn asset(mint: u64, decimals: u32, fiat_fungible: bool) -> Asset {
    Asset { mint, decimals, fiat_fungible }
}

fn lot(lot_number: u64, when: i64, price: u64, amount: u64) -> Lot {
    Lot {
        lot_number,
        acquisition: LotAcquisition::new(when, price, AcquisitionKind::Fiat),
        amount,
    }
}

#[test]
fn version_label() {
    assert_eq!(app_version(), "devbuild");
}

#[test]
fn today_is_a_modern_day_number() {
    // 2020-01-01 is day 737,425 of the common era; the clock runs later.
    assert!(today() > 737_425);
}

#[test]
fn powers_of_ten() {
    assert_eq!(pow10_u64(0), 1);
    assert_eq!(pow10_u64(6), 1_000_000);
    assert_eq!(pow10_u64(19), 10_000_000_000_000_000_000);
}

#[test]
fn value_of_fractional_holding() {
    // 1.5 tokens (9 decimals) at $2 per token is $3.
    assert_eq!(ui_value(1_500_000_000, 2_000_000, 9), 3_000_000);
}

#[test]
fn basis_income_and_gain() {
    let a = asset(1, 0, false);
    // 100 units at $1 each.
    let l = lot(1, 0, 1_000_000, 100);
    assert_eq!(basis(&l, &a), 100_000_000);
    // A fiat purchase is not income.
    assert_eq!(income(&l, &a), 0);
    let mut reward = l;
    reward.acquisition.kind = AcquisitionKind::EpochReward { epoch: 3, slot: 70 };
    assert_eq!(income(&reward, &a), 100_000_000);
    let mut in_kind = l;
    in_kind.acquisition.kind = AcquisitionKind::IncomeInKind;
    assert_eq!(income(&in_kind, &a), 100_000_000);
    // At $3 the gain over a $1 basis is $200.
    let g = cap_gain(&l, &a, 3_000_000);
    assert_eq!(g, Money { negative: false, magnitude: 200_000_000 });
    // At $0.40 the loss is $60.
    let g = cap_gain(&l, &a, 400_000);
    assert_eq!(g, Money { negative: true, magnitude: 60_000_000 });
}

#[test]
fn money_arithmetic() {
    let a = Money::from_difference(5, 9);
    assert_eq!(a, Money { negative: true, magnitude: 4 });
    let b = Money::from_magnitude(10);
    assert_eq!(a.plus(&b), Money { negative: false, magnitude: 6 });
    assert_eq!(b.plus(&a), Money { negative: false, magnitude: 6 });
    let zero = Money::from_difference(7, 7);
    assert_eq!(zero, Money::zero());
}

#[test]
fn long_term_boundary() {
    // Exactly 365 days of holding is long-term; 364 is short-term.
    assert!(is_long_term_on(0, 365));
    assert!(!is_long_term_on(0, 364));
    assert!(is_long_term_cap_gain(100, Some(465)));
    assert!(!is_long_term_cap_gain(100, Some(464)));
}

#[test]
fn sort_orders_per_method() {
    let pool = vec![
        lot(3, 30, 5_000_000, 10),
        lot(1, 10, 9_000_000, 10),
        lot(2, 20, 1_000_000, 10),
    ];
    let fifo = sort_lots(LotSelectionMethod::FirstInFirstOut, pool.clone());
    let fifo_numbers: Vec<u64> = fifo.iter().map(|l| l.lot_number).collect();
    assert_eq!(fifo_numbers, vec![1, 2, 3]);
    let lifo = sort_lots(LotSelectionMethod::LastInFirstOut, pool.clone());
    let lifo_numbers: Vec<u64> = lifo.iter().map(|l| l.lot_number).collect();
    assert_eq!(lifo_numbers, vec![3, 2, 1]);
    let low = sort_lots(LotSelectionMethod::LowestBasis, pool.clone());
    let low_numbers: Vec<u64> = low.iter().map(|l| l.lot_number).collect();
    assert_eq!(low_numbers, vec![2, 3, 1]);
    let high = sort_lots(LotSelectionMethod::HighestBasis, pool.clone());
    let high_numbers: Vec<u64> = high.iter().map(|l| l.lot_number).collect();
    assert_eq!(high_numbers, vec![1, 3, 2]);
}

#[test]
fn sort_breaks_ties_by_lot_number() {
    let pool = vec![lot(9, 10, 1_000_000, 1), lot(4, 10, 1_000_000, 1)];
    let fifo = sort_lots(LotSelectionMethod::FirstInFirstOut, pool);
    let numbers: Vec<u64> = fifo.iter().map(|l| l.lot_number).collect();
    assert_eq!(numbers, vec![4, 9]);
}

#[test]
fn extract_is_deterministic() {
    let pool = vec![lot(2, 20, 2_000_000, 50), lot(1, 10, 1_000_000, 100)];
    let first = extract_lots(pool.clone(), 120, LotSelectionMethod::FirstInFirstOut, None)
        .unwrap();
    let second = extract_lots(pool, 120, LotSelectionMethod::FirstInFirstOut, None).unwrap();
    assert_eq!(first.0, second.0);
    assert_eq!(first.1, second.1);
}

#[test]
fn extract_fifo_splits_last_lot() {
    let pool = vec![lot(2, 400, 2_000_000, 50), lot(1, 0, 1_000_000, 100)];
    let (consumed, remaining) =
        extract_lots(pool, 120, LotSelectionMethod::FirstInFirstOut, None).unwrap();
    assert_eq!(consumed.len(), 2);
    assert_eq!(consumed[0].lot_number, 1);
    assert_eq!(consumed[0].amount, 100);
    assert_eq!(consumed[1].lot_number, 2);
    assert_eq!(consumed[1].amount, 20);
    // The remainder keeps the split lot's number and acquisition.
    assert_eq!(remaining.len(), 1);
    assert_eq!(remaining[0].lot_number, 2);
    assert_eq!(remaining[0].amount, 30);
    assert_eq!(remaining[0].acquisition.price, 2_000_000);
    // Conservation: consumed plus remaining is the original pool total.
    let consumed_total: u64 = consumed.iter().map(|l| l.amount).sum();
    let remaining_total: u64 = remaining.iter().map(|l| l.amount).sum();
    assert_eq!(consumed_total, 120);
    assert_eq!(consumed_total + remaining_total, 150);
}

#[test]
fn extract_lifo_takes_newest_first() {
    let pool = vec![lot(1, 0, 1_000_000, 100), lot(2, 400, 2_000_000, 50)];
    let (consumed, _) =
        extract_lots(pool, 60, LotSelectionMethod::LastInFirstOut, None).unwrap();
    assert_eq!(consumed[0].lot_number, 2);
    assert_eq!(consumed[0].amount, 50);
    assert_eq!(consumed[1].lot_number, 1);
    assert_eq!(consumed[1].amount, 10);
}

#[test]
fn extract_insufficient_lots() {
    let pool = vec![lot(1, 0, 1_000_000, 100)];
    let r = extract_lots(pool, 101, LotSelectionMethod::FirstInFirstOut, None);
    assert_eq!(r.unwrap_err(), LedgerError::InsufficientLots);
}

#[test]
fn extract_zero_consumes_nothing() {
    let pool = vec![lot(1, 0, 1_000_000, 100)];
    let (consumed, remaining) =
        extract_lots(pool, 0, LotSelectionMethod::FirstInFirstOut, None).unwrap();
    assert!(consumed.is_empty());
    assert_eq!(remaining.len(), 1);
    assert_eq!(remaining[0].amount, 100);
}

#[test]
fn extract_explicit_lot_numbers() {
    let pool = vec![
        lot(1, 0, 1_000_000, 100),
        lot(2, 10, 2_000_000, 50),
        lot(3, 20, 3_000_000, 25),
    ];
    let picks = vec![3u64, 1];
    let (consumed, remaining) = extract_lots(
        pool.clone(),
        110,
        LotSelectionMethod::FirstInFirstOut,
        Some(&picks),
    )
    .unwrap();
    // Restricted to lots 1 and 3, walked in pool order.
    assert_eq!(consumed[0].lot_number, 1);
    assert_eq!(consumed[0].amount, 100);
    assert_eq!(consumed[1].lot_number, 3);
    assert_eq!(consumed[1].amount, 10);
    // Lot 2 is untouched, and the split remainder of lot 3 stays.
    let remaining_numbers: Vec<u64> = remaining.iter().map(|l| l.lot_number).collect();
    assert!(remaining_numbers.contains(&2));
    assert!(remaining_numbers.contains(&3));
    let rem3 = remaining.iter().find(|l| l.lot_number == 3).unwrap();
    assert_eq!(rem3.amount, 15);

    let missing = vec![7u64];
    let r = extract_lots(pool.clone(), 1, LotSelectionMethod::FirstInFirstOut,
        Some(&missing));
    assert_eq!(r.unwrap_err(), LedgerError::NotFound);

    let short = vec![2u64];
    let r = extract_lots(pool, 51, LotSelectionMethod::FirstInFirstOut, Some(&short));
    assert_eq!(r.unwrap_err(), LedgerError::InsufficientLots);
}

#[test]
fn realized_gain_of_a_disposal_record() {
    let a = asset(1, 0, false);
    let record = DisposedLot {
        lot: lot(1, 0, 1_000_000, 100),
        asset: a,
        when: 401,
        price: 3_000_000,
        kind: DisposalKind::Sale,
    };
    assert_eq!(
        disposed_cap_gain(&record),
        Money { negative: false, magnitude: 200_000_000 }
    );
}
