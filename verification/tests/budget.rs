//! Unit-cost and token budgets.

use rig_compose::budget::{AtomicBudget, AtomicTokenBudget, BudgetError, BudgetGuard, TokenBudget};

#[test]
fn reserve_until_empty() {
    let mut b = AtomicBudget::new(100);
    assert!(b.try_reserve(60).unwrap());
    assert!(b.try_reserve(40).unwrap());
    assert!(!b.try_reserve(1).unwrap());
    b.release(50);
    assert!(b.try_reserve(50).unwrap());
}

#[test]
fn release_caps_at_capacity() {
    let mut b = AtomicBudget::new(10);
    assert!(b.try_reserve(5).unwrap());
    b.release(100);
    assert_eq!(b.available(), 10);
}

#[test]
fn refill_restores_capacity() {
    let mut b = AtomicBudget::new(100);
    assert!(b.try_reserve(75).unwrap());
    assert_eq!(b.available(), 25);
    b.refill();
    assert_eq!(b.available(), 100);
    assert_eq!(b.capacity(), 100);
}

#[test]
fn token_budget_reserves_records_and_reports() {
    let mut tb = AtomicTokenBudget::new(1_000);
    let reservation = tb.try_reserve_tokens(400).unwrap().unwrap();
    tb.record_usage(reservation, 120, 80);
    assert_eq!(tb.tokens_consumed(), 200);
    let _hold = tb.try_reserve_tokens(800).unwrap().unwrap();
    assert!(tb.try_reserve_tokens(1).unwrap().is_none());
}

#[test]
fn token_budget_debits_overage() {
    let mut tb = AtomicTokenBudget::new(1_000);
    let reservation = tb.try_reserve_tokens(100).unwrap().unwrap();
    tb.record_usage(reservation, 150, 50);
    assert_eq!(tb.tokens_consumed(), 200);
    assert_eq!(tb.available(), 800);
}

#[test]
fn token_budget_reconciles_each_reservation_independently() {
    let mut tb = AtomicTokenBudget::new(1_000);
    let first = tb.try_reserve_tokens(400).unwrap().unwrap();
    let second = tb.try_reserve_tokens(400).unwrap().unwrap();
    assert_eq!(tb.available(), 200);
    tb.record_usage(first, 100, 100);
    assert_eq!(tb.available(), 400);
    assert!(tb.try_reserve_tokens(401).unwrap().is_none());
    tb.record_usage(second, 200, 200);
    assert_eq!(tb.available(), 400);
    assert_eq!(tb.tokens_consumed(), 600);
}

#[test]
fn token_reservation_reports_estimate() {
    let mut tb = AtomicTokenBudget::new(10);
    let reservation = tb.try_reserve_tokens(7).unwrap().unwrap();
    assert_eq!(reservation.estimate(), 7);
}

#[test]
fn token_reservation_refunds_on_drop() {
    let mut tb = AtomicTokenBudget::new(1_000);
    let reservation = tb.try_reserve_tokens(400).unwrap().unwrap();
    assert_eq!(tb.available(), 600);
    tb.cancel(reservation);
    assert_eq!(tb.available(), 1_000);
    assert_eq!(tb.tokens_consumed(), 0);
}

#[test]
fn token_reservation_refund_is_capped_at_capacity() {
    let mut tb = AtomicTokenBudget::new(100);
    let r = tb.try_reserve_tokens(40).unwrap().unwrap();
    tb.cancel(r);
    assert_eq!(tb.available(), 100);
}

#[test]
fn disarmed_reservation_refunds_nothing_on_cancel() {
    let mut tb = AtomicTokenBudget::new(100);
    let mut r = tb.try_reserve_tokens(40).unwrap().unwrap();
    assert!(r.disarm());
    assert!(!r.disarm());
    tb.cancel(r);
    assert_eq!(tb.available(), 60);
}

#[test]
fn budget_error_message() {
    assert_eq!(BudgetError::Backend("down".into()).message(), "budget backend error: down");
}

#[test]
fn budget_stays_within_capacity_over_a_run_of_calls() {
    let mut b = AtomicBudget::new(10);
    assert_eq!(b.try_reserve(4).unwrap(), true);
    b.release(100);
    assert_eq!(b.available(), 10);
    assert_eq!(b.try_reserve(11).unwrap(), false);
    b.release(3);
    assert!(b.available() <= b.capacity());
    assert_eq!(b.capacity(), 10);
}
