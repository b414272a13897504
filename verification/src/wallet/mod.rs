//! The player's purse.

use vstd::prelude::*;

verus! {

/// Chips the player holds, in euros.
pub struct Wallet {
    balance: u32,
}

impl View for Wallet {
    type V = nat;

    /// The balance held.
    closed spec fn view(&self) -> nat {
        self.balance as nat
    }
}

/// The balance after asking to withdraw `amount` from `balance`:
/// the withdrawal happens only when the balance covers it.
pub open spec fn balance_after_withdrawal(balance: nat, amount: nat) -> nat {
    if amount <= balance {
        (balance - amount) as nat
    } else {
        balance
    }
}

/// The balance after depositing `amount`.
pub open spec fn balance_after_deposit(balance: nat, amount: nat) -> nat {
    balance + amount
}

/// The message given when a withdrawal exceeds the balance.
pub open spec fn insufficient_funds_message() -> Seq<char> {
    "Fonds insuffisants !"@
}

impl Wallet {
    /// A wallet holding `initial_funds`.
    pub fn new(initial_funds: u32) -> (w: Wallet)
        ensures
            w@ == initial_funds,
    {
        Wallet { balance: initial_funds }
    }

    /// The balance held.
    pub fn balance(&self) -> (b: u32)
        ensures
            b == self@,
    {
        self.balance
    }

    /// Puts `amount` into the wallet; the balance must stay within a `u32`.
    pub fn add_funds(&mut self, amount: u32)
        requires
            old(self)@ + amount <= u32::MAX,
        ensures
            final(self)@ == balance_after_deposit(old(self)@, amount as nat),
    {
        self.balance += amount;
    }

    /// Takes `amount` out of the wallet when it holds that much; otherwise
    /// leaves it untouched and says the funds are insufficient.
    pub fn remove_funds(&mut self, amount: u32) -> (r: Result<(), String>)
        ensures
            final(self)@ == balance_after_withdrawal(old(self)@, amount as nat),
            amount <= old(self)@ ==> r is Ok && final(self)@ == old(self)@ - amount,
            amount > old(self)@ ==> r is Err && final(self)@ == old(self)@
                && r->Err_0@ == insufficient_funds_message(),
    {
        if amount <= self.balance {
            self.balance -= amount;
            Ok(())
        } else {
            Err("Fonds insuffisants !".to_string())
        }
    }
}

/// A call made on a wallet: depositing an amount, or asking to withdraw one.
pub enum WalletCall {
    Deposit(nat),
    Withdraw(nat),
}

/// The balance after making `calls`, in order, on a wallet holding `start`
/// (each call acts as `add_funds` and `remove_funds` do).
pub open spec fn balance_after_calls(start: nat, calls: Seq<WalletCall>) -> nat
    decreases calls.len(),
{
    if calls.len() == 0 {
        start
    } else {
        let before = balance_after_calls(start, calls.drop_last());
        match calls.last() {
            WalletCall::Deposit(x) => balance_after_deposit(before, x),
            WalletCall::Withdraw(y) => balance_after_withdrawal(before, y),
        }
    }
}

/// The sum of the deposits among `calls`.
pub open spec fn total_deposits(calls: Seq<WalletCall>) -> nat
    decreases calls.len(),
{
    if calls.len() == 0 {
        0
    } else {
        total_deposits(calls.drop_last()) + match calls.last() {
            WalletCall::Deposit(x) => x,
            WalletCall::Withdraw(_) => 0nat,
        }
    }
}

/// The sum of the withdrawals among `calls` that the wallet accepted, that
/// is, those it held enough for when they were asked.
pub open spec fn accepted_withdrawals(start: nat, calls: Seq<WalletCall>) -> nat
    decreases calls.len(),
{
    if calls.len() == 0 {
        0
    } else {
        let before = balance_after_calls(start, calls.drop_last());
        accepted_withdrawals(start, calls.drop_last()) + match calls.last() {
            WalletCall::Deposit(_) => 0nat,
            WalletCall::Withdraw(y) => if y <= before {
                y
            } else {
                0nat
            },
        }
    }
}

/// Whatever calls are made on a wallet, its balance is what it started with,
/// plus every deposit, minus exactly the withdrawals it accepted.
pub proof fn lemma_balance_accounts_for_calls(start: nat, calls: Seq<WalletCall>)
    ensures
        balance_after_calls(start, calls) + accepted_withdrawals(start, calls) == start
            + total_deposits(calls),
    decreases calls.len(),
{
    if calls.len() > 0 {
        lemma_balance_accounts_for_calls(start, calls.drop_last());
    }
}

/// A wallet never holds more than a `u32` counts.
pub proof fn lemma_balance_fits(w: &Wallet)
    ensures
        w@ <= u32::MAX,
{
}

/// Taking out an amount the wallet covers and putting it back leaves the
/// balance as it was; so does putting an amount in and taking it out again.
/// A refused withdrawal changes nothing.
pub proof fn lemma_withdraw_deposit_round_trip(balance: nat, amount: nat)
    ensures
        amount <= balance ==> balance_after_deposit(balance_after_withdrawal(balance, amount), amount)
            == balance,
        balance_after_withdrawal(balance_after_deposit(balance, amount), amount) == balance,
        amount > balance ==> balance_after_withdrawal(balance, amount) == balance,
{
}

} // verus!
