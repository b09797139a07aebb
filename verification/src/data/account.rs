//! Accounts: a path-like name, a classification, and the derived index of
//! transactions that touch the account.

use vstd::prelude::*;
use vstd::string::*;
use crate::data::tags::Tag;
use crate::data::transaction::TransactionId;
use crate::data::digits::strs_equal;

verus! {

/// An account's unique key: an interned path-like name.
#[derive(Debug, Clone)]
pub struct AccountName(String);

impl View for AccountName {
    type V = Seq<char>;

    closed spec fn view(&self) -> Seq<char> {
        self.0@
    }
}

impl AccountName {
    pub fn new(name: &str) -> (r: AccountName)
        ensures
            r@ == name@,
    {
        AccountName(name.to_owned())
    }

    /// The name as text.
    pub fn as_str(&self) -> (r: &str)
        ensures
            r@ == self@,
    {
        self.0.as_str()
    }

    /// Name equality, the identity accounts are keyed by.
    pub fn eq_name(&self, other: &AccountName) -> (r: bool)
        ensures
            r == (self@ == other@),
    {
        strs_equal(self.0.as_str(), other.0.as_str())
    }
}

impl PartialEq for AccountName {
    /// Names are equal exactly when their text is.
    fn eq(&self, other: &AccountName) -> (r: bool) {
        strs_equal(self.0.as_str(), other.0.as_str())
    }
}

impl vstd::std_specs::cmp::PartialEqSpecImpl for AccountName {
    open spec fn obeys_eq_spec() -> bool {
        true
    }

    open spec fn eq_spec(&self, other: &AccountName) -> bool {
        self@ == other@
    }
}

/// How an account enters the double-entry sum: assets count positively,
/// flows negatively.
#[derive(Debug, Clone, Copy, PartialEq, Eq, Structural)]
pub enum AccountType {
    Asset,
    Flow,
}

/// An account: name, classification, tags, and the derived set of
/// identifiers of transactions that mention the account. The index is
/// maintained by the database, not persisted.
#[derive(Debug)]
pub struct Account {
    name: AccountName,
    account_type: AccountType,
    tags: Vec<Tag>,
    transactions: Vec<TransactionId>,
}

impl Account {
    /// The account's name, as text.
    pub closed spec fn spec_name(self) -> Seq<char> {
        self.name@
    }

    /// The account's classification.
    pub closed spec fn spec_type(self) -> AccountType {
        self.account_type
    }

    /// The stored transaction identifiers, in storage order.
    pub closed spec fn txn_id_seq(self) -> Seq<TransactionId> {
        self.transactions@
    }

    /// The transaction index as a set.
    pub open spec fn txn_ids(self) -> Set<TransactionId> {
        Set::new(|t: TransactionId| self.txn_id_seq().contains(t))
    }

    /// The index holds each identifier at most once.
    pub open spec fn wf(self) -> bool {
        forall|i: int, j: int|
            0 <= i < j < self.txn_id_seq().len() ==> self.txn_id_seq()[i] != self.txn_id_seq()[j]
    }

    pub fn new(account_name: &str, account_type: AccountType) -> (r: Account)
        ensures
            r.spec_name() == account_name@,
            r.spec_type() == account_type,
            r.txn_id_seq() == Seq::<TransactionId>::empty(),
            r.txn_ids() == Set::<TransactionId>::empty(),
            r.wf(),
    {
        let r = Account {
            name: AccountName::new(account_name),
            tags: Vec::new(),
            account_type,
            transactions: Vec::new(),
        };
        proof {
            assert(r.txn_ids() =~= Set::<TransactionId>::empty());
        }
        r
    }

    /// The same account with an empty transaction index, as it enters a
    /// database.
    pub fn with_empty_index(self) -> (r: Account)
        ensures
            r.spec_name() == self.spec_name(),
            r.spec_type() == self.spec_type(),
            r.txn_id_seq() == Seq::<TransactionId>::empty(),
            r.txn_ids() == Set::<TransactionId>::empty(),
            r.wf(),
    {
        let r = Account { transactions: Vec::new(), ..self };
        proof {
            assert(r.txn_ids() =~= Set::<TransactionId>::empty());
        }
        r
    }

    /// Index of a stored identifier, if present.
    fn find(&self, id: &TransactionId) -> (r: Option<usize>)
        ensures
            match r {
                Some(i) => i < self.txn_id_seq().len() && self.txn_id_seq()[i as int] == *id,
                None => !self.txn_ids().contains(*id),
            },
    {
        let mut i: usize = 0;
        while i < self.transactions.len()
            invariant
                i <= self.txn_id_seq().len(),
                forall|j: int| 0 <= j < i ==> self.txn_id_seq()[j] != *id,
            decreases self.txn_id_seq().len() - i,
        {
            if self.transactions[i] == *id {
                return Some(i);
            }
            i += 1;
        }
        proof {
            if self.txn_id_seq().contains(*id) {
                let w = choose|w: int|
                    0 <= w < self.txn_id_seq().len() && self.txn_id_seq()[w] == *id;
                assert(false);
            }
        }
        None
    }

    /// Records that a transaction touches this account; recording the
    /// same identifier twice changes nothing.
    pub fn add_transaction(&mut self, id: TransactionId)
        requires
            old(self).wf(),
        ensures
            final(self).wf(),
            final(self).spec_name() == old(self).spec_name(),
            final(self).spec_type() == old(self).spec_type(),
            final(self).txn_ids() == old(self).txn_ids().insert(id),
            old(self).txn_ids().contains(id) ==> *final(self) == *old(self),
    {
        let found = self.find(&id);
        match found {
            Some(_) => {
                proof {
                    assert(old(self).txn_ids().contains(id));
                    assert(self.txn_ids() =~= old(self).txn_ids().insert(id));
                }
            },
            None => {
                let ghost prev = self.transactions@;
                self.transactions.push(id);
                proof {
                    assert forall|i: int, j: int|
                        0 <= i < j < self.txn_id_seq().len() implies self.txn_id_seq()[i]
                        != self.txn_id_seq()[j] by {
                        if j < prev.len() {
                            assert(self.txn_id_seq()[i] == prev[i]);
                            assert(self.txn_id_seq()[j] == prev[j]);
                        } else {
                            assert(self.txn_id_seq()[j] == id);
                            assert(self.txn_id_seq()[i] == prev[i]);
                            assert(prev.contains(prev[i]));
                        }
                    }
                    assert forall|t: TransactionId|
                        self.txn_ids().contains(t) <==> old(self).txn_ids().insert(
                            id,
                        ).contains(t) by {
                        if self.txn_id_seq().contains(t) {
                            let w = choose|w: int|
                                0 <= w < self.txn_id_seq().len() && self.txn_id_seq()[w] == t;
                            if w < prev.len() {
                                assert(prev.contains(t));
                            }
                        }
                        if old(self).txn_id_seq().contains(t) {
                            let w = choose|w: int| 0 <= w < prev.len() && prev[w] == t;
                            assert(self.txn_id_seq()[w] == t);
                        }
                        if t == id {
                            assert(self.txn_id_seq().last() == id);
                        }
                    }
                    assert(self.txn_ids() =~= old(self).txn_ids().insert(id));
                }
            },
        }
    }

    pub fn get_name(&self) -> (r: &AccountName)
        ensures
            r@ == self.spec_name(),
    {
        &self.name
    }

    pub fn get_account_type(&self) -> (r: &AccountType)
        ensures
            *r == self.spec_type(),
    {
        &self.account_type
    }

    /// The transaction index, as a list of identifiers.
    pub fn get_transaction_ids(&self) -> (r: Vec<TransactionId>)
        ensures
            r@ == self.txn_id_seq(),
    {
        let mut r: Vec<TransactionId> = Vec::new();
        let mut i: usize = 0;
        while i < self.transactions.len()
            invariant
                i <= self.txn_id_seq().len(),
                r@ == self.txn_id_seq().take(i as int),
            decreases self.txn_id_seq().len() - i,
        {
            r.push(self.transactions[i]);
            proof {
                assert(self.txn_id_seq().take(i as int + 1) =~= self.txn_id_seq().take(
                    i as int,
                ).push(self.txn_id_seq()[i as int]));
            }
            i += 1;
        }
        proof {
            assert(self.txn_id_seq().take(self.txn_id_seq().len() as int) =~= self.txn_id_seq());
        }
        r
    }

    /// Forgets that a transaction touches this account; an identifier
    /// that was never recorded is an error.
    pub fn remove_transaction(&mut self, transaction_id: &TransactionId) -> (r: Result<
        (),
        &'static str,
    >)
        requires
            old(self).wf(),
        ensures
            final(self).wf(),
            final(self).spec_name() == old(self).spec_name(),
            final(self).spec_type() == old(self).spec_type(),
            match r {
                Ok(()) => old(self).txn_ids().contains(*transaction_id) && final(self).txn_ids()
                    == old(self).txn_ids().remove(*transaction_id),
                Err(m) => !old(self).txn_ids().contains(*transaction_id) && *final(self) == *old(
                    self,
                ) && m@ == "Transaction ID not associated"@,
            },
    {
        let found = self.find(transaction_id);
        match found {
            Some(i) => {
                let ghost prev = self.transactions@;
                let _ = self.transactions.remove(i);
                proof {
                    assert(prev.contains(*transaction_id));
                    assert forall|a: int, b: int|
                        0 <= a < b < self.txn_id_seq().len() implies self.txn_id_seq()[a]
                        != self.txn_id_seq()[b] by {
                        let a0 = if a < i {
                            a
                        } else {
                            a + 1
                        };
                        let b0 = if b < i {
                            b
                        } else {
                            b + 1
                        };
                        assert(self.txn_id_seq()[a] == prev[a0]);
                        assert(self.txn_id_seq()[b] == prev[b0]);
                    }
                    assert forall|t: TransactionId|
                        self.txn_ids().contains(t) <==> old(self).txn_ids().remove(
                            *transaction_id,
                        ).contains(t) by {
                        if self.txn_id_seq().contains(t) {
                            let w = choose|w: int|
                                0 <= w < self.txn_id_seq().len() && self.txn_id_seq()[w] == t;
                            let w0 = if w < i {
                                w
                            } else {
                                w + 1
                            };
                            assert(prev[w0] == t);
                            assert(prev.contains(t));
                            assert(t != prev[i as int] || w0 == i);
                        }
                        if old(self).txn_id_seq().contains(t) && t != *transaction_id {
                            let w = choose|w: int| 0 <= w < prev.len() && prev[w] == t;
                            assert(w != i);
                            let w1 = if w < i {
                                w
                            } else {
                                w - 1
                            };
                            assert(self.txn_id_seq()[w1] == t);
                        }
                    }
                    assert(self.txn_ids() =~= old(self).txn_ids().remove(*transaction_id));
                }
                Ok(())
            },
            None => Err("Transaction ID not associated"),
        }
    }

    /// Whether any transaction still touches this account.
    pub fn has_transactions(&self) -> (r: bool)
        ensures
            r == (self.txn_ids() != Set::<TransactionId>::empty()),
            r == (self.txn_id_seq().len() != 0),
    {
        let r = self.transactions.len() != 0;
        proof {
            if self.txn_id_seq().len() == 0 {
                assert(self.txn_ids() =~= Set::<TransactionId>::empty());
            } else {
                assert(self.txn_id_seq().contains(self.txn_id_seq()[0]));
                assert(self.txn_ids().contains(self.txn_id_seq()[0]));
            }
        }
        r
    }
}

} // verus!
