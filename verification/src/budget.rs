//! Cost-bounded coordination: a unit-cost budget with symmetric
//! reserve/release, and a token budget with optimistic reservation and
//! reconciliation against reported usage.
//!
//! Each operation is one atomic step on the budget's state; hosts that share
//! a budget between tasks put it behind a lock.

use vstd::prelude::*;

verus! {

/// Errors a budget backend may report. A soft denial (the budget would be
/// exceeded) is not an error: it is `Ok(false)` or `Ok(None)`.
#[derive(Debug)]
pub enum BudgetError {
    /// The backing store could not service the request.
    Backend(String),
}

impl BudgetError {
    /// The error's message.
    pub fn message(&self) -> (r: String)
        ensures
            match self {
                BudgetError::Backend(s) => r@ == "budget backend error: "@ + s@,
            },
    {
        match self {
            BudgetError::Backend(s) => crate::text::concat("budget backend error: ", s.as_str()),
        }
    }
}

/// Symmetric reserve/release budget guard.
pub trait BudgetGuard {
    /// Tries to reserve `cost` units: `Ok(true)` on success, `Ok(false)` on
    /// a soft denial.
    fn try_reserve(&mut self, cost: u64) -> Result<bool, BudgetError>;

    /// Releases previously reserved units back to the pool.
    fn release(&mut self, cost: u64);
}

/// What a reservation of `cost` does to `available`: the new amount and
/// whether it was granted.
pub open spec fn reserve_spec(available: u64, cost: u64) -> (u64, bool) {
    if available < cost {
        (available, false)
    } else {
        ((available - cost) as u64, true)
    }
}

/// `amount` returned to `available`, capped at `capacity`.
pub open spec fn refund_spec(available: u64, amount: u64, capacity: u64) -> u64 {
    let sum = available.saturating_add(amount);
    if sum < capacity {
        sum
    } else {
        capacity
    }
}

/// `amount` taken from `available`, stopping at zero.
pub open spec fn debit_spec(available: u64, amount: u64) -> u64 {
    available.saturating_sub(amount)
}

/// A unit-cost budget with a fixed capacity.
#[derive(Debug)]
pub struct AtomicBudget {
    capacity: u64,
    available: u64,
}

impl AtomicBudget {
    /// A budget never holds more than its capacity.
    #[verifier::type_invariant]
    spec fn within_capacity(self) -> bool {
        self.available <= self.capacity
    }

    /// The capacity.
    pub closed spec fn capacity_spec(&self) -> u64 {
        self.capacity
    }

    /// The units available.
    pub closed spec fn available_spec(&self) -> u64 {
        self.available
    }

    /// A budget with `capacity` units, initially full.
    pub fn new(capacity: u64) -> (r: AtomicBudget)
        ensures
            r.capacity_spec() == capacity,
            r.available_spec() == capacity,
    {
        AtomicBudget { capacity, available: capacity }
    }

    /// Total capacity at construction time.
    pub fn capacity(&self) -> (r: u64)
        ensures
            r == self.capacity_spec(),
    {
        self.capacity
    }

    /// Currently available units; never more than the capacity.
    pub fn available(&self) -> (r: u64)
        ensures
            r == self.available_spec(),
            r <= self.capacity_spec(),
    {
        proof {
            use_type_invariant(self);
        }
        self.available
    }

    /// Restores the budget to capacity.
    pub fn refill(&mut self)
        ensures
            final(self).capacity_spec() == old(self).capacity_spec(),
            final(self).available_spec() == old(self).capacity_spec(),
    {
        self.available = self.capacity;
    }
}

impl BudgetGuard for AtomicBudget {
    fn try_reserve(&mut self, cost: u64) -> (r: Result<bool, BudgetError>)
        ensures
            final(self).capacity_spec() == old(self).capacity_spec(),
            r == Ok::<bool, BudgetError>(reserve_spec(old(self).available_spec(), cost).1),
            final(self).available_spec() == reserve_spec(old(self).available_spec(), cost).0,
    {
        proof {
            use_type_invariant(&*self);
        }
        if self.available < cost {
            return Ok(false);
        }
        self.available = self.available - cost;
        Ok(true)
    }

    fn release(&mut self, cost: u64)
        ensures
            final(self).capacity_spec() == old(self).capacity_spec(),
            final(self).available_spec() == refund_spec(old(self).available_spec(), cost, old(self).capacity_spec()),
    {
        let sum = self.available.saturating_add(cost);
        self.available = if sum < self.capacity { sum } else { self.capacity };
    }
}

/// Reservation handle for one model call: the estimate reserved, and
/// whether a cancellation would still refund it.
#[derive(Debug, PartialEq, Eq)]
pub struct TokenReservation {
    estimate: u64,
    armed: bool,
}

impl TokenReservation {
    /// The estimate reserved.
    pub closed spec fn estimate_spec(&self) -> u64 {
        self.estimate
    }

    /// Whether cancelling the reservation refunds its estimate.
    pub closed spec fn armed_spec(&self) -> bool {
        self.armed
    }

    /// An armed reservation of `estimate` tokens.
    pub fn new(estimate: u64) -> (r: TokenReservation)
        ensures
            r.estimate_spec() == estimate,
            r.armed_spec(),
    {
        TokenReservation { estimate, armed: true }
    }

    /// Estimated tokens reserved for this call.
    pub fn estimate(&self) -> (r: u64)
        ensures
            r == self.estimate_spec(),
    {
        self.estimate
    }

    /// Suppresses the refund on cancellation; reports whether the
    /// reservation was armed.
    pub fn disarm(&mut self) -> (r: bool)
        ensures
            r == old(self).armed_spec(),
            !final(self).armed_spec(),
            final(self).estimate_spec() == old(self).estimate_spec(),
    {
        let was = self.armed;
        self.armed = false;
        was
    }
}

/// Optimistic token accounting: reserve an estimate before a model call,
/// reconcile it against the reported usage after.
pub trait TokenBudget {
    /// Reserves `est` tokens: `Ok(Some(reservation))` on success, `Ok(None)`
    /// on a soft denial.
    fn try_reserve_tokens(&mut self, est: u64) -> Result<Option<TokenReservation>, BudgetError>;

    /// Records the actual usage of a finished call, reconciling its reservation.
    fn record_usage(&mut self, reservation: TokenReservation, prompt: u64, completion: u64);

    /// Total tokens consumed since construction.
    fn tokens_consumed(&self) -> u64;
}

/// A token budget with a fixed capacity.
#[derive(Debug)]
pub struct AtomicTokenBudget {
    capacity: u64,
    available: u64,
    consumed: u64,
}

impl AtomicTokenBudget {
    /// A token budget never holds more than its capacity.
    #[verifier::type_invariant]
    spec fn within_capacity(self) -> bool {
        self.available <= self.capacity
    }

    /// The capacity.
    pub closed spec fn capacity_spec(&self) -> u64 {
        self.capacity
    }

    /// The tokens available.
    pub closed spec fn available_spec(&self) -> u64 {
        self.available
    }

    /// The tokens consumed so far.
    pub closed spec fn consumed_spec(&self) -> u64 {
        self.consumed
    }

    /// A budget of `capacity` tokens, initially full, nothing consumed.
    pub fn new(capacity: u64) -> (r: AtomicTokenBudget)
        ensures
            r.capacity_spec() == capacity,
            r.available_spec() == capacity,
            r.consumed_spec() == 0,
    {
        AtomicTokenBudget { capacity, available: capacity, consumed: 0 }
    }

    /// Total capacity at construction time.
    pub fn capacity(&self) -> (r: u64)
        ensures
            r == self.capacity_spec(),
    {
        self.capacity
    }

    /// Currently available tokens; never more than the capacity.
    pub fn available(&self) -> (r: u64)
        ensures
            r == self.available_spec(),
            r <= self.capacity_spec(),
    {
        proof {
            use_type_invariant(self);
        }
        self.available
    }

    /// Returns `amount` tokens to the pool, capped at capacity.
    fn refund(&mut self, amount: u64)
        ensures
            final(self).capacity_spec() == old(self).capacity_spec(),
            final(self).consumed_spec() == old(self).consumed_spec(),
            final(self).available_spec() == if amount == 0 {
                old(self).available_spec()
            } else {
                refund_spec(old(self).available_spec(), amount, old(self).capacity_spec())
            },
    {
        if amount == 0 {
            return;
        }
        let sum = self.available.saturating_add(amount);
        self.available = if sum < self.capacity { sum } else { self.capacity };
    }

    /// Takes `amount` tokens from the pool, stopping at zero.
    fn debit(&mut self, amount: u64)
        ensures
            final(self).capacity_spec() == old(self).capacity_spec(),
            final(self).consumed_spec() == old(self).consumed_spec(),
            final(self).available_spec() == debit_spec(old(self).available_spec(), amount),
    {
        if amount == 0 {
            return;
        }
        proof {
            use_type_invariant(&*self);
        }
        self.available = self.available.saturating_sub(amount);
    }

    /// Cancels a reservation that was not reconciled: an armed reservation
    /// refunds its estimate, capped at capacity.
    pub fn cancel(&mut self, reservation: TokenReservation)
        ensures
            final(self).capacity_spec() == old(self).capacity_spec(),
            final(self).consumed_spec() == old(self).consumed_spec(),
            final(self).available_spec() == if reservation.armed_spec() && reservation.estimate_spec() != 0 {
                refund_spec(old(self).available_spec(), reservation.estimate_spec(), old(self).capacity_spec())
            } else {
                old(self).available_spec()
            },
    {
        if reservation.armed {
            self.refund(reservation.estimate);
        }
    }
}

/// The available tokens after reconciling a reservation of `estimate`
/// against an actual usage of `actual`.
pub open spec fn reconcile_spec(available: u64, estimate: u64, actual: u64, capacity: u64) -> u64 {
    if estimate >= actual {
        if estimate - actual == 0 {
            available
        } else {
            refund_spec(available, (estimate - actual) as u64, capacity)
        }
    } else {
        debit_spec(available, (actual - estimate) as u64)
    }
}

impl TokenBudget for AtomicTokenBudget {
    fn try_reserve_tokens(&mut self, est: u64) -> (r: Result<Option<TokenReservation>, BudgetError>)
        ensures
            final(self).capacity_spec() == old(self).capacity_spec(),
            final(self).consumed_spec() == old(self).consumed_spec(),
            final(self).available_spec() == reserve_spec(old(self).available_spec(), est).0,
            if reserve_spec(old(self).available_spec(), est).1 {
                r matches Ok(Some(t)) && t.estimate_spec() == est && t.armed_spec()
            } else {
                r matches Ok(None)
            },
    {
        proof {
            use_type_invariant(&*self);
        }
        if self.available < est {
            return Ok(None);
        }
        self.available = self.available - est;
        Ok(Some(TokenReservation::new(est)))
    }

    fn record_usage(&mut self, reservation: TokenReservation, prompt: u64, completion: u64)
        ensures
            ({
                let actual = prompt.saturating_add(completion);
                &&& final(self).capacity_spec() == old(self).capacity_spec()
                &&& final(self).consumed_spec() == old(self).consumed_spec().wrapping_add(actual)
                &&& final(self).available_spec() == reconcile_spec(
                    old(self).available_spec(),
                    reservation.estimate_spec(),
                    actual,
                    old(self).capacity_spec(),
                )
            }),
    {
        let mut reservation = reservation;
        let actual = prompt.saturating_add(completion);
        proof {
            use_type_invariant(&*self);
        }
        self.consumed = self.consumed.wrapping_add(actual);
        let _ = reservation.disarm();
        let estimate = reservation.estimate();
        if estimate >= actual {
            self.refund(estimate - actual);
        } else {
            self.debit(actual - estimate);
        }
    }

    fn tokens_consumed(&self) -> (r: u64)
        ensures
            r == self.consumed_spec(),
    {
        self.consumed
    }
}

/// Reserving `cost` and releasing it again leaves the budget as it was,
/// when the reservation was granted.
pub proof fn law_reserve_release_restores(available: u64, capacity: u64, cost: u64)
    requires
        available <= capacity,
        reserve_spec(available, cost).1,
    ensures
        refund_spec(reserve_spec(available, cost).0, cost, capacity) == available,
{
}

/// A budget never holds more than its capacity: every operation keeps
/// `available <= capacity`.
pub proof fn law_available_within_capacity(available: u64, capacity: u64, amount: u64)
    requires
        available <= capacity,
    ensures
        reserve_spec(available, amount).0 <= capacity,
        refund_spec(available, amount, capacity) <= capacity,
        debit_spec(available, amount) <= capacity,
{
}

/// Reconciling a reservation charges the actual usage: from the amount
/// available before the reservation, exactly `actual` is taken (stopping
/// at zero), whatever the estimate was.
pub proof fn law_reconcile_charges_actual(available: u64, capacity: u64, estimate: u64, actual: u64)
    requires
        available <= capacity,
        estimate <= available,
    ensures
        reconcile_spec(reserve_spec(available, estimate).0, estimate, actual, capacity) == (if available >= actual {
            (available - actual) as u64
        } else {
            0u64
        }),
{
}

/// Cancelling a granted reservation restores the tokens it took.
pub proof fn law_cancel_restores(available: u64, capacity: u64, estimate: u64)
    requires
        available <= capacity,
        reserve_spec(available, estimate).1,
        estimate != 0,
    ensures
        refund_spec(reserve_spec(available, estimate).0, estimate, capacity) == available,
{
}

} // verus!
