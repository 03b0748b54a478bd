//! A balance split into a free and a locked part.

use vstd::prelude::*;
use crate::error::ErrorType;
use crate::error::EngineResult;

verus! {

/// The mathematical value of an [`Account`].
pub struct AccountView {
    pub total: nat,
    pub locked: nat,
}

impl AccountView {
    /// The locked part never exceeds the total.
    pub open spec fn wf(self) -> bool {
        self.locked <= self.total
    }

    /// What can still be spent or locked.
    pub open spec fn free(self) -> nat {
        (self.total - self.locked) as nat
    }

    /// A balance of `amount`, all of it free.
    pub open spec fn fresh(amount: nat) -> AccountView {
        AccountView { total: amount, locked: 0 }
    }

    /// The balance with `amount` more, all of it free.
    pub open spec fn add(self, amount: nat) -> AccountView {
        AccountView { total: self.total + amount, locked: self.locked }
    }

    /// The balance with `amount` moved from the free part to the locked part,
    /// if the free part has that much.
    pub open spec fn lock(self, amount: nat) -> Result<AccountView, ErrorType> {
        if self.free() >= amount {
            Ok(AccountView { total: self.total, locked: self.locked + amount })
        } else {
            Err(ErrorType::InsufficientFreeAmount)
        }
    }

    /// The balance with `amount` moved from the locked part back to the free
    /// part, if the locked part has that much.
    pub open spec fn unlock(self, amount: nat) -> Result<AccountView, ErrorType> {
        if self.locked >= amount {
            Ok(AccountView { total: self.total, locked: (self.locked - amount) as nat })
        } else {
            Err(ErrorType::InsufficientLockedAmount)
        }
    }

    /// The balance with `amount` less, taken from the free part, if the free
    /// part has that much. The locked part stays.
    pub open spec fn spend_from_free(self, amount: nat) -> Result<AccountView, ErrorType> {
        if self.free() >= amount {
            Ok(AccountView { total: (self.total - amount) as nat, locked: self.locked })
        } else {
            Err(ErrorType::InsufficientFreeAmount)
        }
    }

    /// The balance with `amount` less, taken from the locked part, if the
    /// locked part has that much: what was reserved is now consumed.
    pub open spec fn spend_from_locked(self, amount: nat) -> Result<AccountView, ErrorType> {
        if self.locked >= amount {
            Ok(
                AccountView {
                    total: (self.total - amount) as nat,
                    locked: (self.locked - amount) as nat,
                },
            )
        } else {
            Err(ErrorType::InsufficientLockedAmount)
        }
    }
}

/// A balance of coins or of one asset.
#[derive(Clone, Debug)]
pub struct Account {
    total_amount: usize,
    locked_amount: usize,
}

impl View for Account {
    type V = AccountView;

    closed spec fn view(&self) -> AccountView {
        AccountView { total: self.total_amount as nat, locked: self.locked_amount as nat }
    }
}

impl Account {
    /// A balance of `initial_amount`, all of it free.
    pub fn new(initial_amount: usize) -> (account: Account)
        ensures
            account@ == AccountView::fresh(initial_amount as nat),
    {
        Account { total_amount: initial_amount, locked_amount: 0 }
    }

    /// All that the balance holds, locked or free.
    pub fn total_amount(&self) -> (amount: usize)
        ensures
            amount == self@.total,
    {
        self.total_amount
    }

    /// What is reserved for resting orders.
    pub fn locked_amount(&self) -> (amount: usize)
        ensures
            amount == self@.locked,
    {
        self.locked_amount
    }

    /// What can still be spent or locked.
    pub fn get_free_amount(&self) -> (amount: usize)
        requires
            self@.wf(),
        ensures
            amount == self@.free(),
    {
        self.total_amount - self.locked_amount
    }

    /// Adds `amount` to the balance, all of it free.
    pub fn add(&mut self, amount: usize)
        requires
            old(self)@.total + amount <= usize::MAX,
        ensures
            final(self)@ == old(self)@.add(amount as nat),
    {
        self.total_amount += amount;
    }

    /// Reserves `amount_to_lock` of the free part.
    pub fn lock_amount(&mut self, amount_to_lock: usize) -> (result: EngineResult<()>)
        requires
            old(self)@.wf(),
        ensures
            match result {
                Ok(()) => old(self)@.lock(amount_to_lock as nat) == Ok::<AccountView, ErrorType>(
                    final(self)@,
                ),
                Err(e) => old(self)@.lock(amount_to_lock as nat) == Err::<AccountView, ErrorType>(e)
                    && final(self)@ == old(self)@,
            },
    {
        if self.get_free_amount() >= amount_to_lock {
            self.locked_amount += amount_to_lock;
            Ok(())
        } else {
            Err(ErrorType::InsufficientFreeAmount)
        }
    }

    /// Consumes `amount_to_spend` of the locked part: both the locked part
    /// and the total shrink.
    pub fn spend_from_locked_amount(&mut self, amount_to_spend: usize) -> (result: EngineResult<()>)
        requires
            old(self)@.wf(),
        ensures
            match result {
                Ok(()) => old(self)@.spend_from_locked(amount_to_spend as nat) == Ok::<
                    AccountView,
                    ErrorType,
                >(final(self)@),
                Err(e) => old(self)@.spend_from_locked(amount_to_spend as nat) == Err::<
                    AccountView,
                    ErrorType,
                >(e) && final(self)@ == old(self)@,
            },
    {
        if self.locked_amount >= amount_to_spend {
            self.locked_amount -= amount_to_spend;
            self.total_amount -= amount_to_spend;
            Ok(())
        } else {
            Err(ErrorType::InsufficientLockedAmount)
        }
    }

    /// Spends `amount_to_spend` of the free part: only the total shrinks.
    pub fn spend_from_free_amount(&mut self, amount_to_spend: usize) -> (result: EngineResult<()>)
        requires
            old(self)@.wf(),
        ensures
            match result {
                Ok(()) => old(self)@.spend_from_free(amount_to_spend as nat) == Ok::<
                    AccountView,
                    ErrorType,
                >(final(self)@),
                Err(e) => old(self)@.spend_from_free(amount_to_spend as nat) == Err::<
                    AccountView,
                    ErrorType,
                >(e) && final(self)@ == old(self)@,
            },
    {
        if self.get_free_amount() >= amount_to_spend {
            self.total_amount -= amount_to_spend;
            Ok(())
        } else {
            Err(ErrorType::InsufficientFreeAmount)
        }
    }

    /// Releases `amount_to_unlock` of the locked part.
    pub fn unlock_amount(&mut self, amount_to_unlock: usize) -> (result: EngineResult<()>)
        requires
            old(self)@.wf(),
        ensures
            match result {
                Ok(()) => old(self)@.unlock(amount_to_unlock as nat) == Ok::<AccountView, ErrorType>(
                    final(self)@,
                ),
                Err(e) => old(self)@.unlock(amount_to_unlock as nat) == Err::<AccountView, ErrorType>(
                    e,
                ) && final(self)@ == old(self)@,
            },
    {
        if self.locked_amount >= amount_to_unlock {
            self.locked_amount -= amount_to_unlock;
            Ok(())
        } else {
            Err(ErrorType::InsufficientLockedAmount)
        }
    }

    /// Both parts of a balance are numbers that the machine can hold.
    pub proof fn lemma_fits(&self)
        ensures
            self@.total <= usize::MAX,
            self@.locked <= usize::MAX,
    {
    }
}

/// Every operation that succeeds on a well-formed balance leaves it well-formed.
pub proof fn lemma_account_operations_keep_wf(a: AccountView, amount: nat)
    requires
        a.wf(),
    ensures
        a.add(amount).wf(),
        a.lock(amount) is Ok ==> a.lock(amount)->Ok_0.wf(),
        a.unlock(amount) is Ok ==> a.unlock(amount)->Ok_0.wf(),
        a.spend_from_free(amount) is Ok ==> a.spend_from_free(amount)->Ok_0.wf(),
        a.spend_from_locked(amount) is Ok ==> a.spend_from_locked(amount)->Ok_0.wf(),
{
}

} // verus!
