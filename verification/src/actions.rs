//! Betting actions a player can take.

use vstd::prelude::*;

verus! {

/// Marker trait for betting actions.
pub trait Action {
}

/// Matching the current bet.
#[derive(Clone, Copy, Debug)]
pub struct Call;

impl Action for Call {
}

/// Leaving the hand.
#[derive(Clone, Copy, Debug)]
pub struct Fold;

impl Action for Fold {
}

/// Raising to an amount.
#[derive(Clone, Copy, Debug)]
pub struct Raise {
    pub amount: u64,
}

impl Action for Raise {
}

impl Raise {
    /// A raise of nothing yet.
    pub fn new() -> (r: Raise)
        ensures
            r.amount == 0,
    {
        Raise { amount: 0 }
    }

    /// Sets the raised amount.
    pub fn set_amount(&mut self, amount: u64)
        ensures
            final(self).amount == amount,
    {
        self.amount = amount;
    }
}

/// A raise restricted to a fixed menu of amounts.
#[derive(Clone, Debug)]
pub struct AbstractedRaise {
    pub amounts: Vec<u64>,
    pub amount: u64,
}

impl Action for AbstractedRaise {
}

impl AbstractedRaise {
    /// A raise menu with nothing chosen yet.
    pub fn new(allowed_amounts: Vec<u64>) -> (r: AbstractedRaise)
        ensures
            r.amounts == allowed_amounts,
            r.amount == 0,
    {
        AbstractedRaise { amounts: allowed_amounts, amount: 0 }
    }

    /// Chooses an amount; only amounts on the menu are accepted.
    pub fn call(&mut self, amount: u64) -> (r: Result<(), &'static str>)
        ensures
            r is Ok <==> old(self).amounts@.contains(amount),
            r is Ok ==> final(self).amount == amount && final(self).amounts == old(self).amounts,
            r is Err ==> *final(self) == *old(self),
    {
        let mut i: usize = 0;
        let mut found: bool = false;
        while i < self.amounts.len()
            invariant
                i <= self.amounts@.len(),
                found <==> exists|k: int| 0 <= k < i && self.amounts@[k] == amount,
            decreases self.amounts@.len() - i,
        {
            if self.amounts[i] == amount {
                found = true;
            }
            i = i + 1;
        }
        if found {
            self.amount = amount;
            Ok(())
        } else {
            Err("amount not allowed by this action abstraction")
        }
    }

    /// The menu of allowed amounts.
    pub fn allowed_amounts(&self) -> (r: &Vec<u64>)
        ensures
            r == &self.amounts,
    {
        &self.amounts
    }
}

} // verus!
