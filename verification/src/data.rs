//! The data structures of the ledger: money, the calendar, accounts,
//! transactions, and the database that ties them together.

pub mod assoc;
pub mod datetime;
pub mod digits;
pub mod money;
pub mod tags;
pub mod account;
pub mod transaction;

use vstd::prelude::*;
use crate::data::account::{Account, AccountName, AccountType};
use crate::data::assoc::{
    kv_map, kv_unique, lemma_kv_map_contains, lemma_kv_map_index, lemma_kv_map_push,
    lemma_kv_map_remove,
};
use crate::data::datetime::{datetime_le, DateTime};
use crate::data::money::{
    amount_add, amount_add_ok, amount_neg, amount_neg_ok, Amount, Number,
};
use crate::data::transaction::{Transaction, TransactionId};

verus! {

/// A complete ledger: accounts and the transactions that move amounts
/// between them, with every stored transaction balancing to zero and the
/// accounts' transaction indices kept consistent with the stored set.
#[derive(Debug)]
pub struct Database {
    accounts: Vec<(AccountName, Account)>,
    transactions: Vec<(TransactionId, Transaction)>,
}

/// Everything that can go wrong when the ledger is changed or read.
#[derive(Debug)]
pub enum Error {
    /// The account name is already in use.
    AccountNameInUse(AccountName),
    /// The account still has transactions associated with it.
    AccountHasTransactions(AccountName),
    /// The transaction id is already in use.
    TransactionIdInUse(TransactionId),
    /// No account carries this name.
    UnknownAccount(AccountName),
    /// No transaction carries this id.
    UnknownTransaction(TransactionId),
    /// The transaction does not touch the account; with consistent
    /// indices this can never be observed.
    AccountNotAssociatedWithTransaction((AccountName, TransactionId)),
    /// The transaction's signed sum is not zero.
    UnbalancedTransaction,
}

/// Whether a date falls in an inclusive range; a missing bound is no
/// bound.
pub open spec fn in_range(dt: DateTime, start: Option<DateTime>, end: Option<DateTime>) -> bool {
    &&& match start {
        Some(s) => datetime_le(s, dt),
        None => true,
    }
    &&& match end {
        Some(e) => datetime_le(dt, e),
        None => true,
    }
}

/// The signed double-entry fold: each amount is added for an asset
/// account and subtracted for a flow account, currency by currency;
/// nothing is yielded when an account is missing or the arithmetic would
/// leave the machine.
pub open spec fn signed_fold(
    accounts: Map<Seq<char>, Account>,
    entries: Seq<(AccountName, Amount)>,
    init: Map<Seq<char>, Number>,
) -> Option<Map<Seq<char>, Number>>
    decreases entries.len(),
{
    if entries.len() == 0 {
        Some(init)
    } else {
        match signed_fold(accounts, entries.drop_last(), init) {
            None => None,
            Some(total) => {
                let name = entries.last().0@;
                let e = entries.last().1@;
                if !accounts.contains_key(name) {
                    None
                } else {
                    match accounts[name].spec_type() {
                        AccountType::Asset => {
                            if amount_add_ok(total, e) {
                                Some(amount_add(total, e))
                            } else {
                                None
                            }
                        },
                        AccountType::Flow => {
                            if amount_neg_ok(e) && amount_add_ok(total, amount_neg(e)) {
                                Some(amount_add(total, amount_neg(e)))
                            } else {
                                None
                            }
                        },
                    }
                }
            },
        }
    }
}

/// The signed sum of one transaction against a set of accounts.
pub open spec fn txn_balance(accounts: Map<Seq<char>, Account>, t: Transaction) -> Option<
    Map<Seq<char>, Number>,
> {
    signed_fold(accounts, t.amount_seq(), Map::<Seq<char>, Number>::empty())
}

/// A transaction balances: its signed sum is exactly zero.
pub open spec fn txn_balanced(accounts: Map<Seq<char>, Account>, t: Transaction) -> bool {
    txn_balance(accounts, t) == Some(Map::<Seq<char>, Number>::empty())
}

/// The fold only reads whether a referenced account exists and its
/// classification, so it is stable under any change that keeps both.
pub proof fn lemma_signed_fold_frame(
    a1: Map<Seq<char>, Account>,
    a2: Map<Seq<char>, Account>,
    entries: Seq<(AccountName, Amount)>,
    init: Map<Seq<char>, Number>,
)
    requires
        forall|i: int|
            0 <= i < entries.len() ==> {
                let n = (#[trigger] entries[i]).0@;
                &&& a1.contains_key(n) == a2.contains_key(n)
                &&& (a1.contains_key(n) ==> a1[n].spec_type() == a2[n].spec_type())
            },
    ensures
        signed_fold(a1, entries, init) == signed_fold(a2, entries, init),
    decreases entries.len(),
{
    if entries.len() > 0 {
        assert forall|i: int| 0 <= i < entries.drop_last().len() implies {
            let n = (#[trigger] entries.drop_last()[i]).0@;
            &&& a1.contains_key(n) == a2.contains_key(n)
            &&& (a1.contains_key(n) ==> a1[n].spec_type() == a2[n].spec_type())
        } by {
            assert(entries.drop_last()[i] == entries[i]);
        }
        lemma_signed_fold_frame(a1, a2, entries.drop_last(), init);
        assert(entries[entries.len() - 1] == entries.last());
    }
}

/// A fold that yields a total also yields one on every prefix.
pub proof fn lemma_signed_fold_prefix(
    accounts: Map<Seq<char>, Account>,
    entries: Seq<(AccountName, Amount)>,
    init: Map<Seq<char>, Number>,
    i: int,
)
    requires
        0 <= i <= entries.len(),
        signed_fold(accounts, entries, init) is Some,
    ensures
        signed_fold(accounts, entries.take(i), init) is Some,
    decreases entries.len() - i,
{
    if i == entries.len() {
        assert(entries.take(i) =~= entries);
    } else {
        lemma_signed_fold_prefix(accounts, entries, init, i + 1);
        assert(entries.take(i + 1).drop_last() =~= entries.take(i));
    }
}

impl Database {
    /// The stored accounts, keyed by name, in storage order.
    pub closed spec fn account_seq(self) -> Seq<(AccountName, Account)> {
        self.accounts@
    }

    /// The stored transactions, keyed by id, in storage order.
    pub closed spec fn txn_seq(self) -> Seq<(TransactionId, Transaction)> {
        self.transactions@
    }

    /// The accounts as a map from names.
    pub open spec fn accounts_map(self) -> Map<Seq<char>, Account> {
        kv_map(self.account_seq())
    }

    /// The transactions as a map from raw ids.
    pub open spec fn txns_map(self) -> Map<u64, Transaction> {
        kv_map(self.txn_seq())
    }

    /// The ledger's invariant.
    ///
    /// Both tables are keyed consistently and hold well-formed values;
    /// every account referenced by a stored transaction exists; every
    /// account's transaction index holds exactly the ids of the stored
    /// transactions that mention the account; and every stored
    /// transaction balances to zero.
    pub open spec fn wf(self) -> bool {
        &&& kv_unique(self.account_seq())
        &&& kv_unique(self.txn_seq())
        &&& forall|i: int|
            0 <= i < self.account_seq().len() ==> {
                let p = #[trigger] self.account_seq()[i];
                p.0@ == p.1.spec_name() && p.1.wf()
            }
        &&& forall|i: int|
            0 <= i < self.txn_seq().len() ==> {
                let p = #[trigger] self.txn_seq()[i];
                p.0 == TransactionId(p.1.digest()) && p.1.wf()
            }
        &&& forall|i: int, n: Seq<char>|
            0 <= i < self.txn_seq().len() && #[trigger] self.txn_seq()[i].1.amounts_map().contains_key(n)
                ==> self.accounts_map().contains_key(n)
        &&& forall|i: int, t: TransactionId|
            0 <= i < self.account_seq().len() ==> (#[trigger] self.account_seq()[i].1.txn_ids().contains(
                t,
            ) <==> self.txns_map().contains_key(t.0)
                && self.txns_map()[t.0].amounts_map().contains_key(self.account_seq()[i].0@))
        &&& forall|i: int|
            0 <= i < self.txn_seq().len() ==> txn_balanced(
                self.accounts_map(),
                (#[trigger] self.txn_seq()[i]).1,
            )
    }

    /// Index of the account carrying a name, if any.
    fn find_account(&self, name: &AccountName) -> (r: Option<usize>)
        ensures
            match r {
                Some(i) => i < self.account_seq().len() && self.account_seq()[i as int].0@
                    == name@,
                None => !self.accounts_map().contains_key(name@),
            },
    {
        let mut i: usize = 0;
        while i < self.accounts.len()
            invariant
                i <= self.account_seq().len(),
                forall|j: int| 0 <= j < i ==> (#[trigger] self.account_seq()[j]).0@ != name@,
            decreases self.account_seq().len() - i,
        {
            if self.accounts[i].0.eq_name(name) {
                return Some(i);
            }
            i += 1;
        }
        proof {
            lemma_kv_map_contains(self.account_seq(), name@);
        }
        None
    }

    /// Index of the transaction carrying an id, if any.
    fn find_txn(&self, id: &TransactionId) -> (r: Option<usize>)
        ensures
            match r {
                Some(i) => i < self.txn_seq().len() && self.txn_seq()[i as int].0 == *id,
                None => !self.txns_map().contains_key(id.0),
            },
    {
        let mut i: usize = 0;
        while i < self.transactions.len()
            invariant
                i <= self.txn_seq().len(),
                forall|j: int| 0 <= j < i ==> (#[trigger] self.txn_seq()[j]).0 != *id,
            decreases self.txn_seq().len() - i,
        {
            if self.transactions[i].0.raw() == id.raw() {
                return Some(i);
            }
            i += 1;
        }
        proof {
            lemma_kv_map_contains(self.txn_seq(), id.0);
            if self.txns_map().contains_key(id.0) {
                let w = choose|w: int|
                    0 <= w < self.txn_seq().len() && (#[trigger] self.txn_seq()[w]).0@ == id.0;
                assert(self.txn_seq()[w].0 == *id);
            }
        }
        None
    }

    /// Adds a new account, with an empty transaction index, under its own
    /// name; a name already in use is rejected and nothing changes.
    pub fn add_account(&mut self, new_acc: Account) -> (r: Result<(), Error>)
        requires
            old(self).wf(),
        ensures
            final(self).wf(),
            final(self).txn_seq() == old(self).txn_seq(),
            match r {
                Err(e) => {
                    &&& old(self).accounts_map().contains_key(new_acc.spec_name())
                    &&& *final(self) == *old(self)
                    &&& e matches Error::AccountNameInUse(n) && n@ == new_acc.spec_name()
                },
                Ok(()) => {
                    &&& !old(self).accounts_map().contains_key(new_acc.spec_name())
                    &&& final(self).accounts_map() == old(self).accounts_map().insert(
                        new_acc.spec_name(),
                        final(self).accounts_map()[new_acc.spec_name()],
                    )
                    &&& final(self).accounts_map()[new_acc.spec_name()].spec_name()
                        == new_acc.spec_name()
                    &&& final(self).accounts_map()[new_acc.spec_name()].spec_type()
                        == new_acc.spec_type()
                    &&& final(self).accounts_map()[new_acc.spec_name()].txn_ids() == Set::<
                        TransactionId,
                    >::empty()
                },
            },
    {
        let name = AccountName::new(new_acc.get_name().as_str());
        match self.find_account(&name) {
            Some(i) => {
                proof {
                    lemma_kv_map_index(self.account_seq(), i as int);
                }
                Err(Error::AccountNameInUse(name))
            },
            None => {
                let ghost prev = self.accounts@;
                let ghost prev_map = kv_map(prev);
                let stored = new_acc.with_empty_index();
                proof {
                    lemma_kv_map_push(prev, (name, stored));
                }
                self.accounts.push((name, stored));
                proof {
                    assert(self.accounts@ =~= prev.push((name, stored)));
                    self.lemma_add_account_wf(*old(self), stored);
                }
                Ok(())
            },
        }
    }

    /// After a fresh, empty-indexed account is appended, the invariant
    /// still holds.
    proof fn lemma_add_account_wf(self, prev: Database, stored: Account)
        requires
            prev.wf(),
            stored.wf(),
            stored.txn_ids() == Set::<TransactionId>::empty(),
            stored.txn_id_seq() == Seq::<TransactionId>::empty(),
            !prev.accounts_map().contains_key(stored.spec_name()),
            self.account_seq() == prev.account_seq().push(
                (self.account_seq().last().0, stored),
            ),
            self.account_seq().last().0@ == stored.spec_name(),
            self.txn_seq() == prev.txn_seq(),
        ensures
            self.wf(),
            self.accounts_map() == prev.accounts_map().insert(stored.spec_name(), stored),
    {
        let s = self.account_seq();
        let p = prev.account_seq();
        lemma_kv_map_push(p, s.last());
        assert(self.accounts_map() =~= prev.accounts_map().insert(stored.spec_name(), stored));
        assert forall|i: int| 0 <= i < s.len() implies {
            let q = #[trigger] s[i];
            q.0@ == q.1.spec_name() && q.1.wf()
        } by {
            if i < p.len() {
                assert(s[i] == p[i]);
            }
        }
        // no stored transaction mentions the new name
        assert forall|i: int, n: Seq<char>|
            0 <= i < self.txn_seq().len() && #[trigger] self.txn_seq()[i].1.amounts_map().contains_key(n)
                implies self.accounts_map().contains_key(n) by {
            assert(prev.accounts_map().contains_key(n));
        }
        assert forall|i: int, t: TransactionId|
            0 <= i < s.len() implies (#[trigger] s[i].1.txn_ids().contains(t)
            <==> self.txns_map().contains_key(t.0) && self.txns_map()[t.0].amounts_map().contains_key(
            s[i].0@)) by {
            if i < p.len() {
                assert(s[i] == p[i]);
            } else {
                assert(s[i].1 == stored);
                assert(!stored.txn_ids().contains(t));
                if self.txns_map().contains_key(t.0) && self.txns_map()[t.0].amounts_map().contains_key(
                    s[i].0@,
                ) {
                    lemma_kv_map_contains(self.txn_seq(), t.0);
                    let w = choose|w: int|
                        0 <= w < self.txn_seq().len() && (#[trigger] self.txn_seq()[w]).0@ == t.0;
                    lemma_kv_map_index(self.txn_seq(), w);
                    assert(prev.accounts_map().contains_key(s[i].0@));
                    assert(false);
                }
            }
        }
        assert forall|i: int| 0 <= i < self.txn_seq().len() implies txn_balanced(
            self.accounts_map(),
            (#[trigger] self.txn_seq()[i]).1,
        ) by {
            let t = self.txn_seq()[i].1;
            assert forall|k: int| 0 <= k < t.amount_seq().len() implies {
                let n = (#[trigger] t.amount_seq()[k]).0@;
                &&& prev.accounts_map().contains_key(n) == self.accounts_map().contains_key(n)
                &&& (prev.accounts_map().contains_key(n) ==> prev.accounts_map()[n].spec_type()
                    == self.accounts_map()[n].spec_type())
            } by {
                let n = t.amount_seq()[k].0@;
                crate::data::assoc::lemma_kv_map_index(t.amount_seq(), k);
                assert(t.amounts_map().contains_key(n)) by {
                    lemma_kv_map_contains(t.amount_seq(), n);
                }
                assert(prev.accounts_map().contains_key(n));
            }
            lemma_signed_fold_frame(
                prev.accounts_map(),
                self.accounts_map(),
                t.amount_seq(),
                Map::<Seq<char>, Number>::empty(),
            );
        }
    }

    /// Removes an account; an unknown name or an account still carrying
    /// transactions is rejected and nothing changes.
    pub fn remove_account(&mut self, account_name: AccountName) -> (r: Result<(), Error>)
        requires
            old(self).wf(),
        ensures
            final(self).wf(),
            final(self).txn_seq() == old(self).txn_seq(),
            match r {
                Err(e) => {
                    &&& *final(self) == *old(self)
                    &&& (e matches Error::UnknownAccount(n) ==> n@ == account_name@ && !old(
                        self,
                    ).accounts_map().contains_key(account_name@))
                    &&& (e matches Error::AccountHasTransactions(n) ==> n@ == account_name@
                        && old(self).accounts_map().contains_key(account_name@) && old(
                        self,
                    ).accounts_map()[account_name@].txn_ids() != Set::<TransactionId>::empty())
                    &&& (e matches Error::UnknownAccount(_) || e
                        matches Error::AccountHasTransactions(_))
                },
                Ok(()) => {
                    &&& old(self).accounts_map().contains_key(account_name@)
                    &&& old(self).accounts_map()[account_name@].txn_ids() == Set::<
                        TransactionId,
                    >::empty()
                    &&& final(self).accounts_map() == old(self).accounts_map().remove(
                        account_name@,
                    )
                },
            },
    {
        let found = self.find_account(&account_name);
        match found {
            None => Err(Error::UnknownAccount(account_name)),
            Some(i) => {
                proof {
                    lemma_kv_map_index(self.account_seq(), i as int);
                }
                if self.accounts[i].1.has_transactions() {
                    return Err(Error::AccountHasTransactions(account_name));
                }
                let ghost prev = *self;
                proof {
                    lemma_kv_map_remove(self.account_seq(), i as int);
                }
                let _ = self.accounts.remove(i);
                proof {
                    self.lemma_remove_account_wf(prev, account_name@, i as int);
                }
                Ok(())
            },
        }
    }

    /// After an account with an empty index is removed, the invariant
    /// still holds.
    proof fn lemma_remove_account_wf(self, prev: Database, name: Seq<char>, i: int)
        requires
            prev.wf(),
            0 <= i < prev.account_seq().len(),
            prev.account_seq()[i].0@ == name,
            prev.account_seq()[i].1.txn_ids() == Set::<TransactionId>::empty(),
            self.account_seq() == prev.account_seq().remove(i),
            self.txn_seq() == prev.txn_seq(),
        ensures
            self.wf(),
            self.accounts_map() == prev.accounts_map().remove(name),
    {
        let s = self.account_seq();
        let p = prev.account_seq();
        lemma_kv_map_remove(p, i);
        assert(self.accounts_map() == prev.accounts_map().remove(name));
        assert forall|a: int| 0 <= a < s.len() implies {
            let q = #[trigger] s[a];
            q.0@ == q.1.spec_name() && q.1.wf()
        } by {
            let a0 = if a < i {
                a
            } else {
                a + 1
            };
            assert(s[a] == p[a0]);
        }
        // no stored transaction mentions the removed name: its id would
        // have to sit in the removed account's empty index
        assert forall|j: int, n: Seq<char>|
            0 <= j < self.txn_seq().len() && #[trigger] self.txn_seq()[j].1.amounts_map().contains_key(n)
                implies self.accounts_map().contains_key(n) by {
            assert(prev.accounts_map().contains_key(n));
            if n == name {
                lemma_kv_map_index(prev.txn_seq(), j);
                assert(prev.txns_map().contains_key(prev.txn_seq()[j].0.0));
                assert(prev.account_seq()[i].1.txn_ids().contains(prev.txn_seq()[j].0));
                assert(false);
            }
            lemma_kv_map_contains(p, n);
            let w = choose|w: int| 0 <= w < p.len() && (#[trigger] p[w]).0@ == n;
            let w1 = if w < i {
                w
            } else {
                w - 1
            };
            assert(w != i);
            assert(s[w1].0@ == n);
            lemma_kv_map_contains(s, n);
        }
        assert forall|a: int, t: TransactionId|
            0 <= a < s.len() implies (#[trigger] s[a].1.txn_ids().contains(t)
            <==> self.txns_map().contains_key(t.0) && self.txns_map()[t.0].amounts_map().contains_key(
            s[a].0@)) by {
            let a0 = if a < i {
                a
            } else {
                a + 1
            };
            assert(s[a] == p[a0]);
        }
        assert forall|j: int| 0 <= j < self.txn_seq().len() implies txn_balanced(
            self.accounts_map(),
            (#[trigger] self.txn_seq()[j]).1,
        ) by {
            let t = self.txn_seq()[j].1;
            assert forall|k: int| 0 <= k < t.amount_seq().len() implies {
                let n = (#[trigger] t.amount_seq()[k]).0@;
                &&& prev.accounts_map().contains_key(n) == self.accounts_map().contains_key(n)
                &&& (prev.accounts_map().contains_key(n) ==> prev.accounts_map()[n].spec_type()
                    == self.accounts_map()[n].spec_type())
            } by {
                let n = t.amount_seq()[k].0@;
                lemma_kv_map_index(t.amount_seq(), k);
                assert(t.amounts_map().contains_key(n)) by {
                    lemma_kv_map_contains(t.amount_seq(), n);
                }
                if n == name {
                    lemma_kv_map_index(prev.txn_seq(), j);
                    assert(prev.account_seq()[i].1.txn_ids().contains(prev.txn_seq()[j].0));
                    assert(false);
                }
            }
            lemma_signed_fold_frame(
                prev.accounts_map(),
                self.accounts_map(),
                t.amount_seq(),
                Map::<Seq<char>, Number>::empty(),
            );
        }
    }
}


impl Database {
    /// The signed sum of a transaction: each amount added on an asset
    /// account, subtracted on a flow account. Every referenced account
    /// must exist and the fold must stay within the machine.
    pub fn get_transaction_balance(&self, transaction: &Transaction) -> (r: Amount)
        requires
            self.wf(),
            transaction.wf(),
            forall|n: Seq<char>| #[trigger]
                transaction.amounts_map().contains_key(n)
                    ==> self.accounts_map().contains_key(n),
            txn_balance(self.accounts_map(), *transaction) is Some,
        ensures
            r.wf(),
            txn_balance(self.accounts_map(), *transaction) == Some(r@),
    {
        let entries = transaction.get_amounts();
        let mut total = Amount::default();
        let mut i: usize = 0;
        proof {
            assert(entries@.take(0) =~= Seq::<(AccountName, Amount)>::empty());
        }
        while i < entries.len()
            invariant
                self.wf(),
                transaction.wf(),
                entries@ == transaction.amount_seq(),
                i <= entries@.len(),
                forall|n: Seq<char>| #[trigger]
                    transaction.amounts_map().contains_key(n)
                        ==> self.accounts_map().contains_key(n),
                txn_balance(self.accounts_map(), *transaction) is Some,
                total.wf(),
                signed_fold(
                    self.accounts_map(),
                    entries@.take(i as int),
                    Map::<Seq<char>, Number>::empty(),
                ) == Some(total@),
            decreases entries@.len() - i,
        {
            proof {
                lemma_signed_fold_prefix(
                    self.accounts_map(),
                    transaction.amount_seq(),
                    Map::<Seq<char>, Number>::empty(),
                    i as int + 1,
                );
                assert(entries@.take(i as int + 1).drop_last() =~= entries@.take(i as int));
                assert(entries@.take(i as int + 1).last() == entries@[i as int]);
                lemma_kv_map_index(transaction.amount_seq(), i as int);
                assert(transaction.amounts_map().contains_key(entries@[i as int].0@)) by {
                    lemma_kv_map_contains(transaction.amount_seq(), entries@[i as int].0@);
                }
            }
            let idx = match self.find_account(&entries[i].0) {
                Some(idx) => idx,
                None => {
                    proof {
                        assert(false);
                    }
                    0
                },
            };
            proof {
                lemma_kv_map_index(self.account_seq(), idx as int);
            }
            let amt = &entries[i].1;
            let asset = match self.accounts[idx].1.get_account_type() {
                AccountType::Asset => true,
                AccountType::Flow => false,
            };
            if asset {
                total = match total.checked_add(amt) {
                    Some(t) => t,
                    None => {
                        proof {
                            assert(false);
                        }
                        Amount::default()
                    },
                };
            } else {
                let negated = amt.neg();
                total = match total.checked_add(&negated) {
                    Some(t) => t,
                    None => {
                        proof {
                            assert(false);
                        }
                        Amount::default()
                    },
                };
            }
            i += 1;
        }
        proof {
            assert(entries@.take(entries@.len() as int) =~= entries@);
        }
        total
    }

    /// The inputs on which adding a transaction has a defined outcome:
    /// either one of the two early rejections fires, or the signed fold
    /// stays within the machine.
    pub open spec fn can_add(self, t: Transaction) -> bool {
        ||| self.txns_map().contains_key(t.digest())
        ||| (exists|n: Seq<char>| #[trigger]
            t.amounts_map().contains_key(n) && !self.accounts_map().contains_key(n))
        ||| txn_balance(self.accounts_map(), t) is Some
    }

    /// Validates and commits a transaction: its id must be new, every
    /// referenced account must exist, and its signed sum must be exactly
    /// zero; then it is stored and every referenced account's index
    /// learns its id. A rejection leaves the ledger unchanged.
    pub fn add_transaction(&mut self, new_trns: Transaction) -> (r: Result<(), Error>)
        requires
            old(self).wf(),
            new_trns.wf(),
            old(self).can_add(new_trns),
        ensures
            final(self).wf(),
            match r {
                Err(e) => *final(self) == *old(self) && {
                    ||| (e matches Error::TransactionIdInUse(id) && id == TransactionId(
                        new_trns.digest(),
                    ) && old(self).txns_map().contains_key(new_trns.digest()))
                    ||| (e matches Error::UnknownAccount(n) && new_trns.amounts_map().contains_key(
                        n@,
                    ) && !old(self).accounts_map().contains_key(n@) && !old(
                        self,
                    ).txns_map().contains_key(new_trns.digest()))
                    ||| (e matches Error::UnbalancedTransaction && !old(
                        self,
                    ).txns_map().contains_key(new_trns.digest()) && (forall|n: Seq<char>|
                        #[trigger] new_trns.amounts_map().contains_key(n) ==> old(
                            self,
                        ).accounts_map().contains_key(n)) && !txn_balanced(
                        old(self).accounts_map(),
                        new_trns,
                    ))
                },
                Ok(()) => {
                    &&& !old(self).txns_map().contains_key(new_trns.digest())
                    &&& forall|n: Seq<char>| #[trigger]
                        new_trns.amounts_map().contains_key(n) ==> old(
                            self,
                        ).accounts_map().contains_key(n)
                    &&& txn_balanced(old(self).accounts_map(), new_trns)
                    &&& final(self).txns_map() == old(self).txns_map().insert(
                        new_trns.digest(),
                        new_trns,
                    )
                    &&& final(self).accounts_map().dom() == old(self).accounts_map().dom()
                    &&& forall|n: Seq<char>| #[trigger]
                        old(self).accounts_map().contains_key(n) ==> {
                            let a0 = old(self).accounts_map()[n];
                            let a1 = final(self).accounts_map()[n];
                            &&& a1.spec_name() == a0.spec_name()
                            &&& a1.spec_type() == a0.spec_type()
                            &&& a1.txn_ids() == if new_trns.amounts_map().contains_key(n) {
                                a0.txn_ids().insert(TransactionId(new_trns.digest()))
                            } else {
                                a0.txn_ids()
                            }
                        }
                },
            },
    {
        let transaction_id = new_trns.generate_id();
        match self.find_txn(&transaction_id) {
            Some(i) => {
                proof {
                    lemma_kv_map_index(self.txn_seq(), i as int);
                }
                return Err(Error::TransactionIdInUse(transaction_id));
            },
            None => {},
        }
        let accs = new_trns.get_associated_accounts();
        let mut i: usize = 0;
        while i < accs.len()
            invariant
                old(self).wf(),
                *self == *old(self),
                new_trns.wf(),
                !old(self).txns_map().contains_key(new_trns.digest()),
                i <= accs@.len(),
                accs@.len() == new_trns.amount_seq().len(),
                forall|k: int|
                    0 <= k < accs@.len() ==> (#[trigger] accs@[k])@
                        == new_trns.amount_seq()[k].0@,
                forall|n: Seq<char>| #[trigger]
                    new_trns.amounts_map().contains_key(n) <==> exists|k: int|
                        0 <= k < accs@.len() && (#[trigger] accs@[k])@ == n,
                forall|k: int|
                    0 <= k < i ==> self.accounts_map().contains_key((#[trigger] accs@[k])@),
            decreases accs@.len() - i,
        {
            match self.find_account(&accs[i]) {
                None => {
                    proof {
                        assert(new_trns.amounts_map().contains_key(accs@[i as int]@));
                    }
                    return Err(Error::UnknownAccount(AccountName::new(accs[i].as_str())));
                },
                Some(fi) => {
                    proof {
                        assert(self.account_seq()[fi as int].0@ == accs@[i as int]@);
                        lemma_kv_map_contains(self.account_seq(), accs@[i as int]@);
                    }
                },
            }
            i += 1;
        }
        proof {
            assert forall|n: Seq<char>| #[trigger]
                new_trns.amounts_map().contains_key(n) implies self.accounts_map().contains_key(
                n,
            ) by {
                let k = choose|k: int| 0 <= k < accs@.len() && (#[trigger] accs@[k])@ == n;
                assert(self.accounts_map().contains_key(accs@[k]@));
            }
            assert(txn_balance(self.accounts_map(), new_trns) is Some);
        }
        let balance = self.get_transaction_balance(&new_trns);
        if !balance.is_zero() {
            proof {
                assert(txn_balance(self.accounts_map(), new_trns) == Some(balance@));
            }
            return Err(Error::UnbalancedTransaction);
        }
        // commit: every referenced account learns the id, then the
        // transaction itself is stored
        let mut j: usize = 0;
        while j < accs.len()
            invariant
                old(self).wf(),
                new_trns.wf(),
                j <= accs@.len(),
                accs@.len() == new_trns.amount_seq().len(),
                forall|k: int|
                    0 <= k < accs@.len() ==> (#[trigger] accs@[k])@
                        == new_trns.amount_seq()[k].0@,
                forall|n: Seq<char>| #[trigger]
                    new_trns.amounts_map().contains_key(n) <==> exists|k: int|
                        0 <= k < accs@.len() && (#[trigger] accs@[k])@ == n,
                forall|n: Seq<char>| #[trigger]
                    new_trns.amounts_map().contains_key(n) ==> old(
                        self,
                    ).accounts_map().contains_key(n),
                self.txn_seq() == old(self).txn_seq(),
                self.account_seq().len() == old(self).account_seq().len(),
                forall|k: int|
                    0 <= k < self.account_seq().len() ==> (#[trigger] self.account_seq()[k]).0
                        == old(self).account_seq()[k].0,
                forall|k: int|
                    0 <= k < self.account_seq().len() ==> {
                        let a0 = old(self).account_seq()[k].1;
                        let a1 = (#[trigger] self.account_seq()[k]).1;
                        &&& a1.spec_name() == a0.spec_name()
                        &&& a1.spec_type() == a0.spec_type()
                        &&& a1.wf()
                        &&& a1.txn_ids() == if exists|m: int|
                            0 <= m < j && (#[trigger] accs@[m])@ == old(
                                self,
                            ).account_seq()[k].0@ {
                            a0.txn_ids().insert(transaction_id)
                        } else {
                            a0.txn_ids()
                        }
                    },
            decreases accs@.len() - j,
        {
            proof {
                // names are keys, so the current table still holds every
                // referenced account
                assert(kv_unique(self.account_seq())) by {
                    assert forall|a: int, b: int|
                        0 <= a < b < self.account_seq().len() implies (
                        #[trigger] self.account_seq()[a]).0@ != (
                        #[trigger] self.account_seq()[b]).0@ by {
                        assert(old(self).account_seq()[a].0@ != old(self).account_seq()[b].0@);
                    }
                }
                assert(new_trns.amounts_map().contains_key(accs@[j as int]@));
                assert(old(self).accounts_map().contains_key(accs@[j as int]@));
                lemma_kv_map_contains(old(self).account_seq(), accs@[j as int]@);
                let w = choose|w: int|
                    0 <= w < old(self).account_seq().len() && (#[trigger] old(
                        self,
                    ).account_seq()[w]).0@ == accs@[j as int]@;
                assert(self.account_seq()[w].0@ == accs@[j as int]@);
                lemma_kv_map_contains(self.account_seq(), accs@[j as int]@);
            }
            let idx = match self.find_account(&accs[j]) {
                Some(idx) => idx,
                None => {
                    proof {
                        assert(false);
                    }
                    0
                },
            };
            let ghost before = *self;
            self.accounts[idx].1.add_transaction(transaction_id);
            proof {
                assert(self.account_seq() =~= before.account_seq().update(
                    idx as int,
                    (before.account_seq()[idx as int].0, self.account_seq()[idx as int].1),
                ));
                assert forall|k: int|
                    0 <= k < self.account_seq().len() implies {
                        let a0 = old(self).account_seq()[k].1;
                        let a1 = (#[trigger] self.account_seq()[k]).1;
                        &&& a1.spec_name() == a0.spec_name()
                        &&& a1.spec_type() == a0.spec_type()
                        &&& a1.wf()
                        &&& a1.txn_ids() == if exists|m: int|
                            0 <= m < j + 1 && (#[trigger] accs@[m])@ == old(
                                self,
                            ).account_seq()[k].0@ {
                            a0.txn_ids().insert(transaction_id)
                        } else {
                            a0.txn_ids()
                        }
                    } by {
                    let a0 = old(self).account_seq()[k].1;
                    let a1 = self.account_seq()[k].1;
                    if k == idx {
                        assert(accs@[j as int]@ == old(self).account_seq()[k].0@);
                        if exists|m: int|
                            0 <= m < j && (#[trigger] accs@[m])@ == old(
                                self,
                            ).account_seq()[k].0@ {
                            assert(a1.txn_ids() =~= a0.txn_ids().insert(transaction_id));
                        } else {
                            assert(a1.txn_ids() =~= a0.txn_ids().insert(transaction_id));
                        }
                    } else {
                        assert(self.account_seq()[k] == before.account_seq()[k]);
                        if exists|m: int|
                            0 <= m < j + 1 && (#[trigger] accs@[m])@ == old(
                                self,
                            ).account_seq()[k].0@ {
                            let m = choose|m: int|
                                0 <= m < j + 1 && (#[trigger] accs@[m])@ == old(
                                    self,
                                ).account_seq()[k].0@;
                            if m == j {
                                // two distinct rows cannot share the name
                                assert(old(self).account_seq()[k].0@ == accs@[j as int]@);
                                assert(old(self).account_seq()[idx as int].0@
                                    == accs@[j as int]@);
                                assert(false);
                            }
                        }
                    }
                }
            }
            j += 1;
        }
        let ghost pre_push = *self;
        self.transactions.push((transaction_id, new_trns));
        proof {
            assert(self.txn_seq() =~= pre_push.txn_seq().push((transaction_id, new_trns)));
            self.lemma_add_transaction_wf(*old(self), new_trns, transaction_id, accs@);
        }
        Ok(())
    }

    /// After a fresh, balanced transaction over existing accounts is
    /// stored and indexed, the invariant still holds.
    proof fn lemma_add_transaction_wf(
        self,
        prev: Database,
        t: Transaction,
        id: TransactionId,
        accs: Seq<AccountName>,
    )
        requires
            prev.wf(),
            t.wf(),
            id == TransactionId(t.digest()),
            !prev.txns_map().contains_key(id.0),
            forall|n: Seq<char>| #[trigger]
                t.amounts_map().contains_key(n) ==> prev.accounts_map().contains_key(n),
            txn_balanced(prev.accounts_map(), t),
            accs.len() == t.amount_seq().len(),
            forall|k: int| 0 <= k < accs.len() ==> (#[trigger] accs[k])@ == t.amount_seq()[k].0@,
            forall|n: Seq<char>| #[trigger]
                t.amounts_map().contains_key(n) <==> exists|k: int|
                    0 <= k < accs.len() && (#[trigger] accs[k])@ == n,
            self.txn_seq() == prev.txn_seq().push((id, t)),
            self.account_seq().len() == prev.account_seq().len(),
            forall|k: int|
                0 <= k < self.account_seq().len() ==> (#[trigger] self.account_seq()[k]).0
                    == prev.account_seq()[k].0,
            forall|k: int|
                0 <= k < self.account_seq().len() ==> {
                    let a0 = prev.account_seq()[k].1;
                    let a1 = (#[trigger] self.account_seq()[k]).1;
                    &&& a1.spec_name() == a0.spec_name()
                    &&& a1.spec_type() == a0.spec_type()
                    &&& a1.wf()
                    &&& a1.txn_ids() == if exists|m: int|
                        0 <= m < accs.len() && (#[trigger] accs[m])@ == prev.account_seq()[k].0@ {
                        a0.txn_ids().insert(id)
                    } else {
                        a0.txn_ids()
                    }
                },
        ensures
            self.wf(),
            self.txns_map() == prev.txns_map().insert(t.digest(), t),
            self.accounts_map().dom() == prev.accounts_map().dom(),
            forall|n: Seq<char>| #[trigger]
                prev.accounts_map().contains_key(n) ==> {
                    let a0 = prev.accounts_map()[n];
                    let a1 = self.accounts_map()[n];
                    &&& a1.spec_name() == a0.spec_name()
                    &&& a1.spec_type() == a0.spec_type()
                    &&& a1.txn_ids() == if t.amounts_map().contains_key(n) {
                        a0.txn_ids().insert(id)
                    } else {
                        a0.txn_ids()
                    }
                },
    {
        let s = self.account_seq();
        let p = prev.account_seq();
        // the account table keeps its keys
        assert(kv_unique(s)) by {
            assert forall|a: int, b: int| 0 <= a < b < s.len() implies (#[trigger] s[a]).0@ != (
            #[trigger] s[b]).0@ by {
                assert(p[a].0@ != p[b].0@);
            }
        }
        lemma_kv_map_contains(prev.txn_seq(), id.0);
        lemma_kv_map_push(prev.txn_seq(), (id, t));
        assert(self.txns_map() == prev.txns_map().insert(id.0, t));
        assert(kv_unique(self.txn_seq()));

        // the two account maps have the same keys, and related values
        assert forall|n: Seq<char>|
            self.accounts_map().contains_key(n) <==> prev.accounts_map().contains_key(n) by {
            lemma_kv_map_contains(s, n);
            lemma_kv_map_contains(p, n);
            if exists|k: int| 0 <= k < s.len() && (#[trigger] s[k]).0@ == n {
                let k = choose|k: int| 0 <= k < s.len() && (#[trigger] s[k]).0@ == n;
                assert(p[k].0@ == n);
            }
            if exists|k: int| 0 <= k < p.len() && (#[trigger] p[k]).0@ == n {
                let k = choose|k: int| 0 <= k < p.len() && (#[trigger] p[k]).0@ == n;
                assert(s[k].0@ == n);
            }
        }
        assert(self.accounts_map().dom() =~= prev.accounts_map().dom());
        assert forall|n: Seq<char>| #[trigger]
            prev.accounts_map().contains_key(n) implies {
            let a0 = prev.accounts_map()[n];
            let a1 = self.accounts_map()[n];
            &&& a1.spec_name() == a0.spec_name()
            &&& a1.spec_type() == a0.spec_type()
            &&& a1.txn_ids() == if t.amounts_map().contains_key(n) {
                a0.txn_ids().insert(id)
            } else {
                a0.txn_ids()
            }
        } by {
            lemma_kv_map_contains(p, n);
            let k = choose|k: int| 0 <= k < p.len() && (#[trigger] p[k]).0@ == n;
            lemma_kv_map_index(p, k);
            lemma_kv_map_index(s, k);
            assert((exists|m: int| 0 <= m < accs.len() && (#[trigger] accs[m])@ == n)
                <==> t.amounts_map().contains_key(n));
        }

        // rows remain well formed
        assert forall|i: int| 0 <= i < s.len() implies {
            let q = #[trigger] s[i];
            q.0@ == q.1.spec_name() && q.1.wf()
        } by {
            assert(p[i].0@ == p[i].1.spec_name());
        }
        assert forall|i: int| 0 <= i < self.txn_seq().len() implies {
            let q = #[trigger] self.txn_seq()[i];
            q.0 == TransactionId(q.1.digest()) && q.1.wf()
        } by {
            if i < prev.txn_seq().len() {
                assert(self.txn_seq()[i] == prev.txn_seq()[i]);
            }
        }

        // referential integrity
        assert forall|i: int, n: Seq<char>|
            0 <= i < self.txn_seq().len() && #[trigger] self.txn_seq()[i].1.amounts_map().contains_key(
                n,
            ) implies self.accounts_map().contains_key(n) by {
            if i < prev.txn_seq().len() {
                assert(self.txn_seq()[i] == prev.txn_seq()[i]);
                assert(prev.accounts_map().contains_key(n));
            } else {
                assert(self.txn_seq()[i].1 == t);
                assert(prev.accounts_map().contains_key(n));
            }
        }

        // the back-index
        assert forall|i: int, t2: TransactionId|
            0 <= i < s.len() implies (#[trigger] s[i].1.txn_ids().contains(t2)
            <==> self.txns_map().contains_key(t2.0) && self.txns_map()[t2.0].amounts_map().contains_key(
            s[i].0@)) by {
            let n = s[i].0@;
            let a0 = p[i].1;
            let a1 = s[i].1;
            lemma_kv_map_index(p, i);
            assert(prev.accounts_map().contains_key(n)) by {
                lemma_kv_map_contains(p, n);
            }
            if t2 == id {
                // the new id sits in exactly the indices of referenced
                // accounts
                assert(!prev.txns_map().contains_key(id.0));
                assert(!a0.txn_ids().contains(id));
                assert(self.txns_map().contains_key(id.0) && self.txns_map()[id.0] == t);
                assert((exists|m: int| 0 <= m < accs.len() && (#[trigger] accs[m])@ == n)
                    <==> t.amounts_map().contains_key(n));
                if t.amounts_map().contains_key(n) {
                    assert(a1.txn_ids().contains(id));
                } else {
                    assert(a1.txn_ids() == a0.txn_ids());
                }
            } else {
                assert(t2.0 != id.0);
                assert(a1.txn_ids().contains(t2) == a0.txn_ids().contains(t2));
                assert(self.txns_map().contains_key(t2.0) == prev.txns_map().contains_key(t2.0));
                if prev.txns_map().contains_key(t2.0) {
                    assert(self.txns_map()[t2.0] == prev.txns_map()[t2.0]);
                }
            }
        }

        // every stored transaction still balances
        assert forall|i: int| 0 <= i < self.txn_seq().len() implies txn_balanced(
            self.accounts_map(),
            (#[trigger] self.txn_seq()[i]).1,
        ) by {
            let tr = self.txn_seq()[i].1;
            if i < prev.txn_seq().len() {
                assert(self.txn_seq()[i] == prev.txn_seq()[i]);
                assert(txn_balanced(prev.accounts_map(), tr));
            } else {
                assert(tr == t);
            }
            assert forall|k: int| 0 <= k < tr.amount_seq().len() implies {
                let n = (#[trigger] tr.amount_seq()[k]).0@;
                &&& prev.accounts_map().contains_key(n) == self.accounts_map().contains_key(n)
                &&& (prev.accounts_map().contains_key(n) ==> prev.accounts_map()[n].spec_type()
                    == self.accounts_map()[n].spec_type())
            } by {
                let n = tr.amount_seq()[k].0@;
                lemma_kv_map_index(tr.amount_seq(), k);
                assert(tr.amounts_map().contains_key(n)) by {
                    lemma_kv_map_contains(tr.amount_seq(), n);
                }
                if i < prev.txn_seq().len() {
                    assert(prev.accounts_map().contains_key(n));
                } else {
                    assert(prev.accounts_map().contains_key(n));
                }
            }
            lemma_signed_fold_frame(
                prev.accounts_map(),
                self.accounts_map(),
                tr.amount_seq(),
                Map::<Seq<char>, Number>::empty(),
            );
        }
    }
}


impl Database {
    /// Removes a stored transaction: every referenced account forgets its
    /// id, then the transaction leaves the table. An unknown id is
    /// rejected and nothing changes.
    pub fn remove_transaction(&mut self, transaction_id: TransactionId) -> (r: Result<(), Error>)
        requires
            old(self).wf(),
        ensures
            final(self).wf(),
            match r {
                Err(e) => {
                    &&& *final(self) == *old(self)
                    &&& e matches Error::UnknownTransaction(id2) && id2 == transaction_id
                    &&& !old(self).txns_map().contains_key(transaction_id.0)
                },
                Ok(()) => {
                    &&& old(self).txns_map().contains_key(transaction_id.0)
                    &&& final(self).txns_map() == old(self).txns_map().remove(transaction_id.0)
                    &&& final(self).accounts_map().dom() == old(self).accounts_map().dom()
                    &&& forall|n: Seq<char>| #[trigger]
                        old(self).accounts_map().contains_key(n) ==> {
                            let a0 = old(self).accounts_map()[n];
                            let a1 = final(self).accounts_map()[n];
                            &&& a1.spec_name() == a0.spec_name()
                            &&& a1.spec_type() == a0.spec_type()
                            &&& a1.txn_ids() == a0.txn_ids().remove(transaction_id)
                        }
                },
            },
    {
        let tidx = match self.find_txn(&transaction_id) {
            None => {
                return Err(Error::UnknownTransaction(transaction_id));
            },
            Some(i) => i,
        };
        proof {
            lemma_kv_map_index(self.txn_seq(), tidx as int);
        }
        let ghost t = self.txn_seq()[tidx as int].1;
        let accs = self.transactions[tidx].1.get_associated_accounts();
        let mut j: usize = 0;
        while j < accs.len()
            invariant
                old(self).wf(),
                0 <= tidx < old(self).txn_seq().len(),
                old(self).txn_seq()[tidx as int].0 == transaction_id,
                old(self).txn_seq()[tidx as int].1 == t,
                old(self).txns_map().contains_key(transaction_id.0),
                old(self).txns_map()[transaction_id.0] == t,
                t.wf(),
                j <= accs@.len(),
                accs@.len() == t.amount_seq().len(),
                forall|k: int|
                    0 <= k < accs@.len() ==> (#[trigger] accs@[k])@ == t.amount_seq()[k].0@,
                forall|n: Seq<char>| #[trigger]
                    t.amounts_map().contains_key(n) <==> exists|k: int|
                        0 <= k < accs@.len() && (#[trigger] accs@[k])@ == n,
                self.txn_seq() == old(self).txn_seq(),
                self.account_seq().len() == old(self).account_seq().len(),
                forall|k: int|
                    0 <= k < self.account_seq().len() ==> (#[trigger] self.account_seq()[k]).0
                        == old(self).account_seq()[k].0,
                forall|k: int|
                    0 <= k < self.account_seq().len() ==> {
                        let a0 = old(self).account_seq()[k].1;
                        let a1 = (#[trigger] self.account_seq()[k]).1;
                        &&& a1.spec_name() == a0.spec_name()
                        &&& a1.spec_type() == a0.spec_type()
                        &&& a1.wf()
                        &&& a1.txn_ids() == if exists|m: int|
                            0 <= m < j && (#[trigger] accs@[m])@ == old(
                                self,
                            ).account_seq()[k].0@ {
                            a0.txn_ids().remove(transaction_id)
                        } else {
                            a0.txn_ids()
                        }
                    },
            decreases accs@.len() - j,
        {
            proof {
                assert(kv_unique(self.account_seq())) by {
                    assert forall|a: int, b: int|
                        0 <= a < b < self.account_seq().len() implies (
                        #[trigger] self.account_seq()[a]).0@ != (
                        #[trigger] self.account_seq()[b]).0@ by {
                        assert(old(self).account_seq()[a].0@ != old(self).account_seq()[b].0@);
                    }
                }
                lemma_kv_map_index(self.txn_seq(), tidx as int);
                assert(t.amounts_map().contains_key(accs@[j as int]@));
                assert(old(self).accounts_map().contains_key(accs@[j as int]@));
                lemma_kv_map_contains(old(self).account_seq(), accs@[j as int]@);
                let w = choose|w: int|
                    0 <= w < old(self).account_seq().len() && (#[trigger] old(
                        self,
                    ).account_seq()[w]).0@ == accs@[j as int]@;
                assert(self.account_seq()[w].0@ == accs@[j as int]@);
                lemma_kv_map_contains(self.account_seq(), accs@[j as int]@);
            }
            let idx = match self.find_account(&accs[j]) {
                Some(idx) => idx,
                None => {
                    proof {
                        assert(false);
                    }
                    0
                },
            };
            proof {
                // the transaction is stored and touches this account, so
                // under the invariant its id sits in the index, which this
                // pass has not visited yet
                let n = old(self).account_seq()[idx as int].0@;
                assert(old(self).account_seq()[idx as int].1.txn_ids().contains(transaction_id));
                if exists|m: int| 0 <= m < j && (#[trigger] accs@[m])@ == n {
                    let m = choose|m: int| 0 <= m < j && (#[trigger] accs@[m])@ == n;
                    assert(t.amount_seq()[m].0@ == n);
                    assert(t.amount_seq()[j as int].0@ == n);
                    crate::data::assoc::lemma_kv_map_index(t.amount_seq(), m);
                    crate::data::assoc::lemma_kv_map_index(t.amount_seq(), j as int);
                    assert(false);
                }
                assert(self.account_seq()[idx as int].1.txn_ids().contains(transaction_id));
            }
            let ghost before = *self;
            let res = self.accounts[idx].1.remove_transaction(&transaction_id);
            match res {
                Ok(()) => {},
                Err(_) => {
                    proof {
                        assert(false);
                    }
                    return Err(
                        Error::AccountNotAssociatedWithTransaction(
                            (AccountName::new(accs[j].as_str()), transaction_id),
                        ),
                    );
                },
            }
            proof {
                assert(self.account_seq() =~= before.account_seq().update(
                    idx as int,
                    (before.account_seq()[idx as int].0, self.account_seq()[idx as int].1),
                ));
                assert forall|k: int|
                    0 <= k < self.account_seq().len() implies {
                        let a0 = old(self).account_seq()[k].1;
                        let a1 = (#[trigger] self.account_seq()[k]).1;
                        &&& a1.spec_name() == a0.spec_name()
                        &&& a1.spec_type() == a0.spec_type()
                        &&& a1.wf()
                        &&& a1.txn_ids() == if exists|m: int|
                            0 <= m < j + 1 && (#[trigger] accs@[m])@ == old(
                                self,
                            ).account_seq()[k].0@ {
                            a0.txn_ids().remove(transaction_id)
                        } else {
                            a0.txn_ids()
                        }
                    } by {
                    let a0 = old(self).account_seq()[k].1;
                    let a1 = self.account_seq()[k].1;
                    if k == idx {
                        assert(accs@[j as int]@ == old(self).account_seq()[k].0@);
                    } else {
                        assert(self.account_seq()[k] == before.account_seq()[k]);
                        if exists|m: int|
                            0 <= m < j + 1 && (#[trigger] accs@[m])@ == old(
                                self,
                            ).account_seq()[k].0@ {
                            let m = choose|m: int|
                                0 <= m < j + 1 && (#[trigger] accs@[m])@ == old(
                                    self,
                                ).account_seq()[k].0@;
                            if m == j {
                                assert(old(self).account_seq()[k].0@ == accs@[j as int]@);
                                assert(old(self).account_seq()[idx as int].0@
                                    == accs@[j as int]@);
                                assert(false);
                            }
                        }
                    }
                }
            }
            j += 1;
        }
        let ghost pre_remove = *self;
        proof {
            assert(kv_unique(self.txn_seq()));
            lemma_kv_map_remove(self.txn_seq(), tidx as int);
        }
        let _ = self.transactions.remove(tidx);
        proof {
            self.lemma_remove_transaction_wf(*old(self), t, transaction_id, tidx as int, accs@);
        }
        Ok(())
    }

    /// After a stored transaction is forgotten by every referenced
    /// account's index and removed from the table, the invariant still
    /// holds.
    proof fn lemma_remove_transaction_wf(
        self,
        prev: Database,
        t: Transaction,
        id: TransactionId,
        tidx: int,
        accs: Seq<AccountName>,
    )
        requires
            prev.wf(),
            0 <= tidx < prev.txn_seq().len(),
            prev.txn_seq()[tidx].0 == id,
            prev.txn_seq()[tidx].1 == t,
            accs.len() == t.amount_seq().len(),
            forall|k: int| 0 <= k < accs.len() ==> (#[trigger] accs[k])@ == t.amount_seq()[k].0@,
            forall|n: Seq<char>| #[trigger]
                t.amounts_map().contains_key(n) <==> exists|k: int|
                    0 <= k < accs.len() && (#[trigger] accs[k])@ == n,
            self.txn_seq() == prev.txn_seq().remove(tidx),
            self.account_seq().len() == prev.account_seq().len(),
            forall|k: int|
                0 <= k < self.account_seq().len() ==> (#[trigger] self.account_seq()[k]).0
                    == prev.account_seq()[k].0,
            forall|k: int|
                0 <= k < self.account_seq().len() ==> {
                    let a0 = prev.account_seq()[k].1;
                    let a1 = (#[trigger] self.account_seq()[k]).1;
                    &&& a1.spec_name() == a0.spec_name()
                    &&& a1.spec_type() == a0.spec_type()
                    &&& a1.wf()
                    &&& a1.txn_ids() == if exists|m: int|
                        0 <= m < accs.len() && (#[trigger] accs[m])@ == prev.account_seq()[k].0@ {
                        a0.txn_ids().remove(id)
                    } else {
                        a0.txn_ids()
                    }
                },
        ensures
            self.wf(),
            self.txns_map() == prev.txns_map().remove(id.0),
            self.accounts_map().dom() == prev.accounts_map().dom(),
            forall|n: Seq<char>| #[trigger]
                prev.accounts_map().contains_key(n) ==> {
                    let a0 = prev.accounts_map()[n];
                    let a1 = self.accounts_map()[n];
                    &&& a1.spec_name() == a0.spec_name()
                    &&& a1.spec_type() == a0.spec_type()
                    &&& a1.txn_ids() == a0.txn_ids().remove(id)
                },
    {
        let s = self.account_seq();
        let p = prev.account_seq();
        lemma_kv_map_index(prev.txn_seq(), tidx);
        lemma_kv_map_remove(prev.txn_seq(), tidx);
        assert(self.txns_map() == prev.txns_map().remove(id.0));
        assert(kv_unique(s)) by {
            assert forall|a: int, b: int| 0 <= a < b < s.len() implies (#[trigger] s[a]).0@ != (
            #[trigger] s[b]).0@ by {
                assert(p[a].0@ != p[b].0@);
            }
        }
        assert forall|n: Seq<char>|
            self.accounts_map().contains_key(n) <==> prev.accounts_map().contains_key(n) by {
            lemma_kv_map_contains(s, n);
            lemma_kv_map_contains(p, n);
            if exists|k: int| 0 <= k < s.len() && (#[trigger] s[k]).0@ == n {
                let k = choose|k: int| 0 <= k < s.len() && (#[trigger] s[k]).0@ == n;
                assert(p[k].0@ == n);
            }
            if exists|k: int| 0 <= k < p.len() && (#[trigger] p[k]).0@ == n {
                let k = choose|k: int| 0 <= k < p.len() && (#[trigger] p[k]).0@ == n;
                assert(s[k].0@ == n);
            }
        }
        assert(self.accounts_map().dom() =~= prev.accounts_map().dom());

        // an account keeps every id but the removed one; an account the
        // transaction never touched never held the id at all
        assert forall|n: Seq<char>| #[trigger]
            prev.accounts_map().contains_key(n) implies {
            let a0 = prev.accounts_map()[n];
            let a1 = self.accounts_map()[n];
            &&& a1.spec_name() == a0.spec_name()
            &&& a1.spec_type() == a0.spec_type()
            &&& a1.txn_ids() == a0.txn_ids().remove(id)
        } by {
            lemma_kv_map_contains(p, n);
            let k = choose|k: int| 0 <= k < p.len() && (#[trigger] p[k]).0@ == n;
            lemma_kv_map_index(p, k);
            lemma_kv_map_index(s, k);
            if !(exists|m: int| 0 <= m < accs.len() && (#[trigger] accs[m])@ == n) {
                assert(!t.amounts_map().contains_key(n));
                assert(!p[k].1.txn_ids().contains(id));
                assert(s[k].1.txn_ids() =~= p[k].1.txn_ids().remove(id));
            }
        }

        assert forall|a: int| 0 <= a < s.len() implies {
            let q = #[trigger] s[a];
            q.0@ == q.1.spec_name() && q.1.wf()
        } by {
            assert(p[a].0@ == p[a].1.spec_name());
        }
        assert forall|i: int| 0 <= i < self.txn_seq().len() implies {
            let q = #[trigger] self.txn_seq()[i];
            q.0 == TransactionId(q.1.digest()) && q.1.wf()
        } by {
            let i0 = if i < tidx {
                i
            } else {
                i + 1
            };
            assert(self.txn_seq()[i] == prev.txn_seq()[i0]);
        }
        assert forall|i: int, n: Seq<char>|
            0 <= i < self.txn_seq().len() && #[trigger] self.txn_seq()[i].1.amounts_map().contains_key(
                n,
            ) implies self.accounts_map().contains_key(n) by {
            let i0 = if i < tidx {
                i
            } else {
                i + 1
            };
            assert(self.txn_seq()[i] == prev.txn_seq()[i0]);
            assert(prev.accounts_map().contains_key(n));
        }

        assert forall|a: int, t2: TransactionId|
            0 <= a < s.len() implies (#[trigger] s[a].1.txn_ids().contains(t2)
            <==> self.txns_map().contains_key(t2.0) && self.txns_map()[t2.0].amounts_map().contains_key(
            s[a].0@)) by {
            let n = s[a].0@;
            let a0 = p[a].1;
            let a1 = s[a].1;
            if t2 == id {
                assert(!a1.txn_ids().contains(id)) by {
                    if exists|m: int| 0 <= m < accs.len() && (#[trigger] accs[m])@ == n {
                    } else {
                        assert(!t.amounts_map().contains_key(n));
                        assert(!a0.txn_ids().contains(id));
                    }
                }
                assert(!self.txns_map().contains_key(id.0));
            } else {
                assert(t2.0 != id.0);
                assert(a1.txn_ids().contains(t2) == a0.txn_ids().contains(t2));
                assert(self.txns_map().contains_key(t2.0) == prev.txns_map().contains_key(t2.0));
                if prev.txns_map().contains_key(t2.0) {
                    assert(self.txns_map()[t2.0] == prev.txns_map()[t2.0]);
                }
            }
        }

        assert forall|i: int| 0 <= i < self.txn_seq().len() implies txn_balanced(
            self.accounts_map(),
            (#[trigger] self.txn_seq()[i]).1,
        ) by {
            let i0 = if i < tidx {
                i
            } else {
                i + 1
            };
            assert(self.txn_seq()[i] == prev.txn_seq()[i0]);
            let tr = self.txn_seq()[i].1;
            assert(txn_balanced(prev.accounts_map(), tr));
            assert forall|k: int| 0 <= k < tr.amount_seq().len() implies {
                let n = (#[trigger] tr.amount_seq()[k]).0@;
                &&& prev.accounts_map().contains_key(n) == self.accounts_map().contains_key(n)
                &&& (prev.accounts_map().contains_key(n) ==> prev.accounts_map()[n].spec_type()
                    == self.accounts_map()[n].spec_type())
            } by {
                let n = tr.amount_seq()[k].0@;
                lemma_kv_map_index(tr.amount_seq(), k);
                assert(tr.amounts_map().contains_key(n)) by {
                    lemma_kv_map_contains(tr.amount_seq(), n);
                }
                assert(prev.accounts_map().contains_key(n));
            }
            lemma_signed_fold_frame(
                prev.accounts_map(),
                self.accounts_map(),
                tr.amount_seq(),
                Map::<Seq<char>, Number>::empty(),
            );
        }
    }
}


impl Database {
    /// The fold a balance query performs: each stored transaction in the
    /// account's index whose date falls in the range contributes the
    /// amount it moves on the account. Nothing is yielded when an id is
    /// dangling, an indexed transaction does not touch the account, or
    /// the running sum would leave the machine; under the ledger's
    /// invariant only the arithmetic can fail.
    pub open spec fn balance_fold(
        self,
        ids: Seq<TransactionId>,
        name: Seq<char>,
        start: Option<DateTime>,
        end: Option<DateTime>,
        init: Map<Seq<char>, Number>,
    ) -> Option<Map<Seq<char>, Number>>
        decreases ids.len(),
    {
        if ids.len() == 0 {
            Some(init)
        } else {
            match self.balance_fold(ids.drop_last(), name, start, end, init) {
                None => None,
                Some(total) => {
                    let id = ids.last();
                    if !self.txns_map().contains_key(id.0) {
                        None
                    } else {
                        let t = self.txns_map()[id.0];
                        if !in_range(t.spec_datetime(), start, end) {
                            Some(total)
                        } else if !t.amounts_map().contains_key(name) {
                            None
                        } else {
                            let e = t.amounts_map()[name]@;
                            if amount_add_ok(total, e) {
                                Some(amount_add(total, e))
                            } else {
                                None
                            }
                        }
                    }
                },
            }
        }
    }

    /// The balance of a named account over an inclusive date range.
    pub open spec fn account_balance(
        self,
        name: Seq<char>,
        start: Option<DateTime>,
        end: Option<DateTime>,
    ) -> Option<Map<Seq<char>, Number>> {
        self.balance_fold(
            self.accounts_map()[name].txn_id_seq(),
            name,
            start,
            end,
            Map::<Seq<char>, Number>::empty(),
        )
    }

    /// A balance fold that yields a total also yields one on every
    /// prefix.
    pub proof fn lemma_balance_fold_prefix(
        self,
        ids: Seq<TransactionId>,
        name: Seq<char>,
        start: Option<DateTime>,
        end: Option<DateTime>,
        init: Map<Seq<char>, Number>,
        i: int,
    )
        requires
            0 <= i <= ids.len(),
            self.balance_fold(ids, name, start, end, init) is Some,
        ensures
            self.balance_fold(ids.take(i), name, start, end, init) is Some,
        decreases ids.len() - i,
    {
        if i == ids.len() {
            assert(ids.take(i) =~= ids);
        } else {
            self.lemma_balance_fold_prefix(ids, name, start, end, init, i + 1);
            assert(ids.take(i + 1).drop_last() =~= ids.take(i));
        }
    }

    /// The variation of money on one account over an inclusive date
    /// range: the sum of what every matching stored transaction moves on
    /// it. An unknown account, or a sum that would leave the machine, is
    /// an error.
    pub fn get_account_balance(
        &self,
        account_name: &AccountName,
        start_date: Option<DateTime>,
        end_date: Option<DateTime>,
    ) -> (r: Result<Amount, &'static str>)
        requires
            self.wf(),
        ensures
            match r {
                Ok(a) => self.accounts_map().contains_key(account_name@) && a.wf()
                    && self.account_balance(account_name@, start_date, end_date) == Some(a@),
                Err(m) => (!self.accounts_map().contains_key(account_name@) && m@
                    == "Account not found"@) || (self.accounts_map().contains_key(account_name@)
                    && self.account_balance(account_name@, start_date, end_date) is None && m@
                    == "Balance overflow"@),
            },
    {
        let aidx = match self.find_account(account_name) {
            None => {
                return Err("Account not found");
            },
            Some(i) => i,
        };
        proof {
            lemma_kv_map_index(self.account_seq(), aidx as int);
        }
        let ids = self.accounts[aidx].1.get_transaction_ids();
        let mut total = Amount::default();
        let mut i: usize = 0;
        proof {
            assert(ids@.take(0) =~= Seq::<TransactionId>::empty());
        }
        while i < ids.len()
            invariant
                self.wf(),
                aidx < self.account_seq().len(),
                self.account_seq()[aidx as int].0@ == account_name@,
                self.accounts_map().contains_key(account_name@),
                self.accounts_map()[account_name@] == self.account_seq()[aidx as int].1,
                ids@ == self.account_seq()[aidx as int].1.txn_id_seq(),
                i <= ids@.len(),
                total.wf(),
                self.balance_fold(
                    ids@.take(i as int),
                    account_name@,
                    start_date,
                    end_date,
                    Map::<Seq<char>, Number>::empty(),
                ) == Some(total@),
            decreases ids@.len() - i,
        {
            proof {
                assert(ids@.take(i as int + 1).drop_last() =~= ids@.take(i as int));
                assert(ids@.take(i as int + 1).last() == ids@[i as int]);
                // the indexed id names a stored transaction that touches
                // this account
                assert(self.account_seq()[aidx as int].1.txn_id_seq().contains(ids@[i as int]));
                assert(self.account_seq()[aidx as int].1.txn_ids().contains(ids@[i as int]));
                assert(self.txns_map().contains_key(ids@[i as int].0));
                assert(self.txns_map()[ids@[i as int].0].amounts_map().contains_key(
                    account_name@,
                ));
            }
            let tidx = match self.find_txn(&ids[i]) {
                Some(t) => t,
                None => {
                    proof {
                        assert(false);
                    }
                    0
                },
            };
            proof {
                lemma_kv_map_index(self.txn_seq(), tidx as int);
            }
            let t = &self.transactions[tidx].1;
            let dt = t.get_date();
            let in_lo = match &start_date {
                None => true,
                Some(s) => s.le(dt),
            };
            let in_hi = match &end_date {
                None => true,
                Some(e) => dt.le(e),
            };
            if in_lo && in_hi {
                match t.get_amount(account_name) {
                    Ok(amt) => {
                        proof {
                            // the stored amount is canonical
                            lemma_kv_map_contains(t.amount_seq(), account_name@);
                            let w = choose|w: int|
                                0 <= w < t.amount_seq().len() && (#[trigger] t.amount_seq()[w]).0@
                                    == account_name@;
                            lemma_kv_map_index(t.amount_seq(), w);
                            assert(amt.wf());
                        }
                        match total.checked_add(amt) {
                            Some(nt) => {
                                total = nt;
                            },
                            None => {
                                proof {
                                    self.lemma_balance_fold_none(
                                        ids@,
                                        account_name@,
                                        start_date,
                                        end_date,
                                        Map::<Seq<char>, Number>::empty(),
                                        i as int + 1,
                                    );
                                }
                                return Err("Balance overflow");
                            },
                        }
                    },
                    Err(_) => {
                        proof {
                            assert(false);
                        }
                    },
                }
            }
            i += 1;
        }
        proof {
            assert(ids@.take(ids@.len() as int) =~= ids@);
        }
        Ok(total)
    }

    /// A balance fold with a failing prefix fails as a whole.
    proof fn lemma_balance_fold_none(
        self,
        ids: Seq<TransactionId>,
        name: Seq<char>,
        start: Option<DateTime>,
        end: Option<DateTime>,
        init: Map<Seq<char>, Number>,
        i: int,
    )
        requires
            0 <= i <= ids.len(),
            self.balance_fold(ids.take(i), name, start, end, init) is None,
        ensures
            self.balance_fold(ids, name, start, end, init) is None,
    {
        if self.balance_fold(ids, name, start, end, init) is Some {
            self.lemma_balance_fold_prefix(ids, name, start, end, init, i);
        }
    }

    /// The ids of every stored transaction, in storage order.
    pub fn get_transaction_ids(&self) -> (r: Vec<TransactionId>)
        ensures
            r@.len() == self.txn_seq().len(),
            forall|i: int| 0 <= i < r@.len() ==> #[trigger] r@[i] == self.txn_seq()[i].0,
            forall|id: TransactionId|
                #[trigger] self.txns_map().contains_key(id.0) <==> exists|i: int|
                    0 <= i < r@.len() && #[trigger] r@[i] == id,
    {
        let mut r: Vec<TransactionId> = Vec::new();
        let mut i: usize = 0;
        while i < self.transactions.len()
            invariant
                i <= self.txn_seq().len(),
                r@.len() == i,
                forall|j: int| 0 <= j < i ==> #[trigger] r@[j] == self.txn_seq()[j].0,
            decreases self.txn_seq().len() - i,
        {
            r.push(self.transactions[i].0);
            i += 1;
        }
        proof {
            assert forall|id: TransactionId| #[trigger]
                self.txns_map().contains_key(id.0) <==> exists|i: int|
                    0 <= i < r@.len() && #[trigger] r@[i] == id by {
                lemma_kv_map_contains(self.txn_seq(), id.0);
                if exists|i: int|
                    0 <= i < self.txn_seq().len() && (#[trigger] self.txn_seq()[i]).0@ == id.0 {
                    let i = choose|i: int|
                        0 <= i < self.txn_seq().len() && (#[trigger] self.txn_seq()[i]).0@ == id.0;
                    assert(r@[i] == id);
                }
                if exists|i: int| 0 <= i < r@.len() && #[trigger] r@[i] == id {
                    let i = choose|i: int| 0 <= i < r@.len() && #[trigger] r@[i] == id;
                    assert(self.txn_seq()[i].0@ == id.0);
                }
            }
        }
        r
    }

    /// The stored transaction carrying an id.
    pub fn get_transaction(&self, id: &TransactionId) -> (r: &Transaction)
        requires
            self.wf(),
            self.txns_map().contains_key(id.0),
        ensures
            *r == self.txns_map()[id.0],
    {
        match self.find_txn(id) {
            Some(i) => {
                proof {
                    lemma_kv_map_index(self.txn_seq(), i as int);
                }
                &self.transactions[i].1
            },
            None => {
                proof {
                    assert(false);
                }
                &self.transactions[0].1
            },
        }
    }

    /// The names of every account, in storage order.
    pub fn get_account_names(&self) -> (r: Vec<AccountName>)
        ensures
            r@.len() == self.account_seq().len(),
            forall|i: int| 0 <= i < r@.len() ==> (#[trigger] r@[i])@ == self.account_seq()[i].0@,
            forall|n: Seq<char>|
                #[trigger] self.accounts_map().contains_key(n) <==> exists|i: int|
                    0 <= i < r@.len() && (#[trigger] r@[i])@ == n,
    {
        let mut r: Vec<AccountName> = Vec::new();
        let mut i: usize = 0;
        while i < self.accounts.len()
            invariant
                i <= self.account_seq().len(),
                r@.len() == i,
                forall|j: int| 0 <= j < i ==> (#[trigger] r@[j])@ == self.account_seq()[j].0@,
            decreases self.account_seq().len() - i,
        {
            r.push(AccountName::new(self.accounts[i].0.as_str()));
            i += 1;
        }
        proof {
            assert forall|n: Seq<char>| #[trigger]
                self.accounts_map().contains_key(n) <==> exists|i: int|
                    0 <= i < r@.len() && (#[trigger] r@[i])@ == n by {
                lemma_kv_map_contains(self.account_seq(), n);
                if exists|i: int|
                    0 <= i < self.account_seq().len() && (#[trigger] self.account_seq()[i]).0@
                        == n {
                    let i = choose|i: int|
                        0 <= i < self.account_seq().len() && (#[trigger] self.account_seq()[i]).0@
                            == n;
                    assert(r@[i]@ == n);
                }
                if exists|i: int| 0 <= i < r@.len() && (#[trigger] r@[i])@ == n {
                    let i = choose|i: int| 0 <= i < r@.len() && (#[trigger] r@[i])@ == n;
                    assert(self.account_seq()[i].0@ == n);
                }
            }
        }
        r
    }

    /// The account carrying a name.
    pub fn get_account(&self, name: &AccountName) -> (r: &Account)
        requires
            self.wf(),
            self.accounts_map().contains_key(name@),
        ensures
            *r == self.accounts_map()[name@],
    {
        match self.find_account(name) {
            Some(i) => {
                proof {
                    lemma_kv_map_index(self.account_seq(), i as int);
                }
                &self.accounts[i].1
            },
            None => {
                proof {
                    assert(false);
                }
                &self.accounts[0].1
            },
        }
    }

    /// Rebuilds every account's transaction index from the stored
    /// transactions. On a ledger whose indices are already consistent —
    /// the only kind this crate can build — this changes nothing.
    pub fn build_account_transaction_map(&mut self) -> (r: Result<(), Error>)
        requires
            old(self).wf(),
        ensures
            final(self).wf(),
            final(self).account_seq() == old(self).account_seq(),
            final(self).txn_seq() == old(self).txn_seq(),
            r is Ok,
    {
        let n_txns = self.transactions.len();
        let mut ti: usize = 0;
        while ti < n_txns
            invariant
                old(self).wf(),
                self.account_seq() == old(self).account_seq(),
                self.txn_seq() == old(self).txn_seq(),
                n_txns == self.txn_seq().len(),
                ti <= n_txns,
            decreases n_txns - ti,
        {
            let trns_id = self.transactions[ti].0;
            let accs = self.transactions[ti].1.get_associated_accounts();
            proof {
                lemma_kv_map_index(self.txn_seq(), ti as int);
            }
            let mut j: usize = 0;
            while j < accs.len()
                invariant
                    old(self).wf(),
                    self.account_seq() == old(self).account_seq(),
                    self.txn_seq() == old(self).txn_seq(),
                    ti < self.txn_seq().len(),
                    trns_id == self.txn_seq()[ti as int].0,
                    j <= accs@.len(),
                    accs@.len() == self.txn_seq()[ti as int].1.amount_seq().len(),
                    forall|k: int|
                        0 <= k < accs@.len() ==> (#[trigger] accs@[k])@
                            == self.txn_seq()[ti as int].1.amount_seq()[k].0@,
                decreases accs@.len() - j,
            {
                proof {
                    lemma_kv_map_index(self.txn_seq(), ti as int);
                    lemma_kv_map_index(self.txn_seq()[ti as int].1.amount_seq(), j as int);
                    assert(self.txn_seq()[ti as int].1.amounts_map().contains_key(
                        accs@[j as int]@,
                    )) by {
                        lemma_kv_map_contains(
                            self.txn_seq()[ti as int].1.amount_seq(),
                            accs@[j as int]@,
                        );
                    }
                    assert(self.accounts_map().contains_key(accs@[j as int]@));
                }
                let idx = match self.find_account(&accs[j]) {
                    Some(idx) => idx,
                    None => {
                        proof {
                            assert(false);
                        }
                        0
                    },
                };
                proof {
                    // the id already sits in the index, so recording it
                    // changes nothing
                    lemma_kv_map_index(self.account_seq(), idx as int);
                    assert(self.account_seq()[idx as int].1.txn_ids().contains(trns_id));
                }
                let ghost before = *self;
                self.accounts[idx].1.add_transaction(trns_id);
                proof {
                    assert(self.account_seq() =~= before.account_seq());
                }
                j += 1;
            }
            ti += 1;
        }
        Ok(())
    }
}

impl Default for Database {
    /// The empty ledger.
    fn default() -> (r: Database)
        ensures
            r.wf(),
            r.accounts_map() == Map::<Seq<char>, Account>::empty(),
            r.txns_map() == Map::<u64, Transaction>::empty(),
            r.account_seq() == Seq::<(AccountName, Account)>::empty(),
            r.txn_seq() == Seq::<(TransactionId, Transaction)>::empty(),
    {
        let r = Database { accounts: Vec::new(), transactions: Vec::new() };
        proof {
            assert(r.accounts_map() =~= Map::<Seq<char>, Account>::empty());
            assert(r.txns_map() =~= Map::<u64, Transaction>::empty());
        }
        r
    }
}

/// An account referenced by any stored transaction holds that
/// transaction's id in its index, so its index is not empty and
/// [`Database::remove_account`] can never remove it.
pub proof fn lemma_referenced_account_keeps_transactions(
    db: Database,
    id: TransactionId,
    n: Seq<char>,
)
    requires
        db.wf(),
        db.txns_map().contains_key(id.0),
        db.txns_map()[id.0].amounts_map().contains_key(n),
    ensures
        db.accounts_map().contains_key(n),
        db.accounts_map()[n].txn_ids().contains(id),
        db.accounts_map()[n].txn_ids() != Set::<TransactionId>::empty(),
{
    lemma_kv_map_contains(db.txn_seq(), id.0);
    let w = choose|w: int|
        0 <= w < db.txn_seq().len() && (#[trigger] db.txn_seq()[w]).0@ == id.0;
    lemma_kv_map_index(db.txn_seq(), w);
    assert(db.txn_seq()[w].1.amounts_map().contains_key(n));
    assert(db.accounts_map().contains_key(n));
    lemma_kv_map_contains(db.account_seq(), n);
    let k = choose|k: int|
        0 <= k < db.account_seq().len() && (#[trigger] db.account_seq()[k]).0@ == n;
    lemma_kv_map_index(db.account_seq(), k);
    assert(db.account_seq()[k].1.txn_ids().contains(id));
    assert(db.accounts_map()[n].txn_ids().contains(id));
}

} // verus!
