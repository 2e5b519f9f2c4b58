//! The deposit ledger: free and reserved funds per account.  The beacon
//! never reads raw balances elsewhere; every movement of collateral or fees
//! goes through the operations here, which are atomic per call.  Slashed
//! amounts and charged fees leave the ledger (they are burned; routing them
//! to a sink is an economic choice outside the state machine).

use vstd::prelude::*;
use crate::assoc::{entries_as_map, distinct_keys, find_entry,
    lemma_entries_contains, lemma_entries_index, lemma_entries_push, lemma_entries_update};
use vstd::pervasive::VecAdditionalExecFns;

verus! {

/// The funds of one account: freely spendable, and reserved as collateral.
#[derive(Clone, Copy, PartialEq, Eq, Structural, Debug)]
pub struct Balances {
    pub free: u64,
    pub reserved: u64,
}

/// The balance a ledger map assigns to an account; absent accounts hold
/// nothing.
pub open spec fn bal_of(m: Map<u64, Balances>, a: u64) -> Balances {
    if m.contains_key(a) {
        m[a]
    } else {
        Balances { free: 0, reserved: 0 }
    }
}

/// An account's funds always fit in one 64-bit total.
pub open spec fn bounded_balances(m: Map<u64, Balances>) -> bool {
    forall|a: u64| m.contains_key(a) ==> #[trigger] m[a].free + m[a].reserved <= u64::MAX
}

pub struct Ledger {
    pub accounts: Vec<(u64, Balances)>,
}

impl View for Ledger {
    type V = Map<u64, Balances>;

    open spec fn view(&self) -> Map<u64, Balances> {
        entries_as_map(self.accounts@)
    }
}

impl Ledger {
    /// The representation keeps one entry per account, and every account's
    /// funds fit in one 64-bit total.
    pub open spec fn inv(&self) -> bool {
        &&& distinct_keys(self.accounts@)
        &&& bounded_balances(self@)
    }

    /// An empty ledger.
    pub fn new() -> (r: Ledger)
        ensures
            r.inv(),
            r@ == Map::<u64, Balances>::empty(),
    {
        Ledger { accounts: Vec::new() }
    }

    /// An exact copy, used to stage a compound change that must either
    /// apply as a whole or not at all.
    pub fn duplicate(&self) -> (r: Ledger)
        requires
            self.inv(),
        ensures
            r.inv(),
            r@ == self@,
            r.accounts@ == self.accounts@,
    {
        let mut accounts: Vec<(u64, Balances)> = Vec::new();
        let mut i: usize = 0;
        while i < self.accounts.len()
            invariant
                i <= self.accounts@.len(),
                accounts@ == self.accounts@.take(i as int),
            decreases self.accounts@.len() - i,
        {
            accounts.push(self.accounts[i]);
            i = i + 1;
            proof {
                assert(accounts@ =~= self.accounts@.take(i as int));
            }
        }
        proof {
            assert(self.accounts@.take(self.accounts@.len() as int) =~= self.accounts@);
        }
        Ledger { accounts }
    }

    /// Reads an account's funds.
    pub fn balance_of(&self, a: u64) -> (r: Balances)
        requires
            self.inv(),
        ensures
            r == bal_of(self@, a),
    {
        proof {
            lemma_entries_contains(self.accounts@, a);
        }
        match find_entry(&self.accounts, a) {
            Some(i) => {
                proof {
                    lemma_entries_index(self.accounts@, i as int);
                }
                self.accounts[i].1
            },
            None => Balances { free: 0, reserved: 0 },
        }
    }

    /// Stores an account's funds, creating the entry if it is absent.
    fn put(&mut self, a: u64, b: Balances)
        requires
            old(self).inv(),
            b.free + b.reserved <= u64::MAX,
        ensures
            final(self).inv(),
            final(self)@ == old(self)@.insert(a, b),
    {
        proof {
            lemma_entries_contains(self.accounts@, a);
        }
        match find_entry(&self.accounts, a) {
            Some(i) => {
                proof {
                    lemma_entries_update(self.accounts@, i as int, b);
                }
                self.accounts.set(i, (a, b));
            },
            None => {
                proof {
                    lemma_entries_push(self.accounts@, a, b);
                }
                self.accounts.push((a, b));
                assert(distinct_keys(self.accounts@));
            },
        }
        assert(bounded_balances(self@)) by {
            assert(forall|x: u64| self@.contains_key(x) && x != a ==>
                old(self)@.contains_key(x) && self@[x] == old(self)@[x]);
        }
    }

    /// Adds free funds to an account; fails without any change if the
    /// account's total would no longer fit.
    pub fn endow(&mut self, a: u64, amount: u64) -> (r: Result<(), crate::pallet::Error>)
        requires
            old(self).inv(),
        ensures
            final(self).inv(),
            match r {
                Ok(()) => {
                    &&& bal_of(old(self)@, a).free + bal_of(old(self)@, a).reserved + amount
                        <= u64::MAX
                    &&& final(self)@ == old(self)@.insert(a, Balances {
                        free: (bal_of(old(self)@, a).free + amount) as u64,
                        reserved: bal_of(old(self)@, a).reserved,
                    })
                },
                Err(e) => {
                    &&& e == crate::pallet::Error::BalanceOverflow
                    &&& bal_of(old(self)@, a).free + bal_of(old(self)@, a).reserved + amount
                        > u64::MAX
                    &&& *final(self) == *old(self)
                },
            },
    {
        let b = self.balance_of(a);
        if amount <= u64::MAX - b.free && b.free + amount <= u64::MAX - b.reserved {
            self.put(a, Balances { free: b.free + amount, reserved: b.reserved });
            Ok(())
        } else {
            Err(crate::pallet::Error::BalanceOverflow)
        }
    }

    /// Moves `amount` of an account's free funds into reserve; fails without
    /// any change if the free funds do not cover it.
    pub fn reserve(&mut self, a: u64, amount: u64) -> (r: Result<(), crate::pallet::Error>)
        requires
            old(self).inv(),
        ensures
            final(self).inv(),
            match r {
                Ok(()) => {
                    &&& bal_of(old(self)@, a).free >= amount
                    &&& final(self)@ == old(self)@.insert(a, Balances {
                        free: (bal_of(old(self)@, a).free - amount) as u64,
                        reserved: (bal_of(old(self)@, a).reserved + amount) as u64,
                    })
                },
                Err(e) => {
                    &&& e == crate::pallet::Error::InsufficientBalance
                    &&& bal_of(old(self)@, a).free < amount
                    &&& *final(self) == *old(self)
                },
            },
    {
        let b = self.balance_of(a);
        if b.free >= amount {
            proof {
                lemma_entries_contains(self.accounts@, a);
            }
            assert(b.free + b.reserved <= u64::MAX);
            self.put(a, Balances { free: b.free - amount, reserved: b.reserved + amount });
            Ok(())
        } else {
            Err(crate::pallet::Error::InsufficientBalance)
        }
    }

    /// Returns up to `amount` of an account's reserve to its free funds;
    /// reports how much actually moved.
    pub fn release(&mut self, a: u64, amount: u64) -> (r: u64)
        requires
            old(self).inv(),
        ensures
            final(self).inv(),
            r == if amount <= bal_of(old(self)@, a).reserved {
                amount
            } else {
                bal_of(old(self)@, a).reserved
            },
            final(self)@ == old(self)@.insert(a, Balances {
                free: (bal_of(old(self)@, a).free + r) as u64,
                reserved: (bal_of(old(self)@, a).reserved - r) as u64,
            }),
    {
        let b = self.balance_of(a);
        let actual = if amount <= b.reserved { amount } else { b.reserved };
        proof {
            lemma_entries_contains(self.accounts@, a);
        }
        assert(b.free + b.reserved <= u64::MAX);
        self.put(a, Balances { free: b.free + actual, reserved: b.reserved - actual });
        actual
    }

    /// Takes up to `amount` out of an account's reserve; the taken funds
    /// leave the ledger.  Reports how much was actually taken.
    pub fn slash(&mut self, a: u64, amount: u64) -> (r: u64)
        requires
            old(self).inv(),
        ensures
            final(self).inv(),
            r == if amount <= bal_of(old(self)@, a).reserved {
                amount
            } else {
                bal_of(old(self)@, a).reserved
            },
            final(self)@ == old(self)@.insert(a, Balances {
                free: bal_of(old(self)@, a).free,
                reserved: (bal_of(old(self)@, a).reserved - r) as u64,
            }),
    {
        let b = self.balance_of(a);
        let actual = if amount <= b.reserved { amount } else { b.reserved };
        proof {
            lemma_entries_contains(self.accounts@, a);
        }
        assert(b.free + b.reserved <= u64::MAX);
        self.put(a, Balances { free: b.free, reserved: b.reserved - actual });
        actual
    }

    /// Charges a fee out of an account's free funds; fails without any
    /// change if they do not cover it.  The fee leaves the ledger.
    pub fn charge_fee(&mut self, a: u64, amount: u64) -> (r: Result<(), crate::pallet::Error>)
        requires
            old(self).inv(),
        ensures
            final(self).inv(),
            match r {
                Ok(()) => {
                    &&& bal_of(old(self)@, a).free >= amount
                    &&& final(self)@ == old(self)@.insert(a, Balances {
                        free: (bal_of(old(self)@, a).free - amount) as u64,
                        reserved: bal_of(old(self)@, a).reserved,
                    })
                },
                Err(e) => {
                    &&& e == crate::pallet::Error::InsufficientBalance
                    &&& bal_of(old(self)@, a).free < amount
                    &&& *final(self) == *old(self)
                },
            },
    {
        let b = self.balance_of(a);
        if b.free >= amount {
            proof {
                lemma_entries_contains(self.accounts@, a);
            }
            assert(b.free + b.reserved <= u64::MAX);
            self.put(a, Balances { free: b.free - amount, reserved: b.reserved });
            Ok(())
        } else {
            Err(crate::pallet::Error::InsufficientBalance)
        }
    }
}

} // verus!
