//! Transactions: immutable economic events, each moving amounts between
//! named accounts, identified by a digest of their full content.

use vstd::prelude::*;
use vstd::string::*;
use crate::data::account::AccountName;
use crate::data::assoc::{
    kv_map, kv_unique, lemma_kv_map_contains, lemma_kv_map_index, lemma_kv_map_push,
    lemma_kv_map_update,
};
use crate::data::datetime::{datetime_valid, DateTime};
use crate::data::money::{amount_from_text, entries_to_map, Amount, Currency, Number};
use crate::data::tags::Tag;

verus! {

/// A transaction's identity: a digest of its full content.
#[derive(Debug, Clone, Copy, PartialEq, Eq, Structural)]
pub struct TransactionId(pub u64);

impl View for TransactionId {
    type V = u64;

    open spec fn view(&self) -> u64 {
        self.0
    }
}

impl TransactionId {
    /// The raw digest value.
    pub fn raw(&self) -> (r: u64)
        ensures
            r == self.0,
    {
        self.0
    }
}

/// An immutable economic event: metadata, a date, and one amount per
/// account it touches.
#[derive(Debug)]
pub struct Transaction {
    name: String,
    notes: String,
    tags: Vec<Tag>,
    datetime: DateTime,
    amounts: Vec<(AccountName, Amount)>,
}

// ---------------------------------------------------------------------------
// The content digest
// ---------------------------------------------------------------------------

/// Multiplication modulo `2^64`.
pub open spec fn wmul(a: u64, b: u64) -> u64 {
    (((a as nat) * (b as nat)) % 0x10000000000000000) as u64
}

/// One absorption step of the digest.
pub open spec fn fnv_step(h: u64, t: u64) -> u64 {
    wmul(h ^ t, 0x100000001b3)
}

/// A Fowler/Noll/Vo-style fold over a token stream.
pub open spec fn fnv64(s: Seq<u64>) -> u64
    decreases s.len(),
{
    if s.len() == 0 {
        0xcbf29ce484222325
    } else {
        fnv_step(fnv64(s.drop_last()), s.last())
    }
}

/// Characters as digest tokens.
pub open spec fn char_tokens(s: Seq<char>) -> Seq<u64> {
    s.map_values(|c: char| c as u64)
}

/// A marker no character token can collide with.
pub const SEP_TOKEN: u64 = 0xffffffffffffffff;

pub open spec fn tag_tokens(tags: Seq<Tag>) -> Seq<u64>
    decreases tags.len(),
{
    if tags.len() == 0 {
        Seq::<u64>::empty()
    } else {
        tag_tokens(tags.drop_last()) + char_tokens(tags.last()@) + seq![SEP_TOKEN]
    }
}

/// The tokens of one amount: each currency's name, then the number's
/// integer and scale.
pub open spec fn amount_tokens(e: Seq<(Currency, Number)>) -> Seq<u64>
    decreases e.len(),
{
    if e.len() == 0 {
        Seq::<u64>::empty()
    } else {
        amount_tokens(e.drop_last()) + char_tokens(e.last().0@) + seq![
            SEP_TOKEN,
            e.last().1.value as u64,
            e.last().1.n_decimals as u64,
            SEP_TOKEN,
        ]
    }
}

/// The tokens of the account-to-amount listing.
pub open spec fn posting_tokens(e: Seq<(AccountName, Amount)>) -> Seq<u64>
    decreases e.len(),
{
    if e.len() == 0 {
        Seq::<u64>::empty()
    } else {
        posting_tokens(e.drop_last()) + char_tokens(e.last().0@) + seq![SEP_TOKEN]
            + amount_tokens(e.last().1.entry_seq()) + seq![SEP_TOKEN]
    }
}

pub open spec fn datetime_tokens(dt: DateTime) -> Seq<u64> {
    seq![
        dt.date.year as u64,
        dt.date.month as u64,
        dt.date.day as u64,
        match dt.time {
            Some(_) => 1u64,
            None => 0u64,
        },
        match dt.time {
            Some(t) => t.hour as u64,
            None => 0u64,
        },
        match dt.time {
            Some(t) => t.minute as u64,
            None => 0u64,
        },
        SEP_TOKEN,
    ]
}

fn push_sep(out: &mut Vec<u64>)
    ensures
        final(out)@ == old(out)@ + seq![SEP_TOKEN],
{
    out.push(0xffffffffffffffff);
    proof {
        assert(out@ =~= old(out)@ + seq![SEP_TOKEN]);
    }
}

fn push_char_tokens(out: &mut Vec<u64>, s: &str)
    ensures
        final(out)@ == old(out)@ + char_tokens(s@),
{
    let n = s.unicode_len();
    let mut i: usize = 0;
    while i < n
        invariant
            i <= n == s@.len(),
            out@ == old(out)@ + char_tokens(s@.take(i as int)),
        decreases n - i,
    {
        let c = s.get_char(i);
        out.push(c as u64);
        proof {
            assert(old(out)@ + char_tokens(s@.take(i as int + 1)) =~= (old(out)@ + char_tokens(
                s@.take(i as int),
            )).push(s@[i as int] as u64));
        }
        i += 1;
    }
    proof {
        assert(s@.take(n as int) =~= s@);
    }
}

fn push_amount_tokens(out: &mut Vec<u64>, a: &Amount)
    ensures
        final(out)@ == old(out)@ + amount_tokens(a.entry_seq()),
{
    let entries = a.entries_ref();
    let mut i: usize = 0;
    while i < entries.len()
        invariant
            i <= entries@.len(),
            entries@ == a.entry_seq(),
            out@ == old(out)@ + amount_tokens(a.entry_seq().take(i as int)),
        decreases entries@.len() - i,
    {
        push_char_tokens(out, entries[i].0.0.as_str());
        push_sep(out);
        out.push(#[verifier::truncate] (entries[i].1.value as u64));
        out.push(entries[i].1.n_decimals as u64);
        push_sep(out);
        proof {
            let t = a.entry_seq().take(i as int + 1);
            assert(t.drop_last() =~= a.entry_seq().take(i as int));
            assert(t.last() == a.entry_seq()[i as int]);
            assert(out@ =~= old(out)@ + amount_tokens(t));
        }
        i += 1;
    }
    proof {
        assert(a.entry_seq().take(a.entry_seq().len() as int) =~= a.entry_seq());
    }
}

/// Digests a token stream.
fn fnv_hash(tokens: &Vec<u64>) -> (r: u64)
    ensures
        r == fnv64(tokens@),
{
    let mut h: u64 = 0xcbf29ce484222325;
    let mut i: usize = 0;
    while i < tokens.len()
        invariant
            i <= tokens@.len(),
            h == fnv64(tokens@.take(i as int)),
        decreases tokens@.len() - i,
    {
        let x = h ^ tokens[i];
        let wide: u128 = (x as u128) * 0x100000001b3u128;
        h = #[verifier::truncate] (wide as u64);
        proof {
            let t = tokens@.take(i as int + 1);
            assert(t.drop_last() =~= tokens@.take(i as int));
            assert(t.last() == tokens@[i as int]);
            assert(wide == (x as nat) * (0x100000001b3 as nat));
            assert(wide as u64 == (wide % 0x10000000000000000u128) as u64) by (bit_vector);
            assert(wide % 0x10000000000000000u128 < 0x10000000000000000u128);
            assert(h == wide % 0x10000000000000000);
            assert(h == wmul(x, 0x100000001b3));
            assert(h == fnv_step(fnv64(tokens@.take(i as int)), tokens@[i as int]));
        }
        i += 1;
    }
    proof {
        assert(tokens@.take(tokens@.len() as int) =~= tokens@);
    }
    h
}

// ---------------------------------------------------------------------------
// The transaction itself
// ---------------------------------------------------------------------------

impl Transaction {
    pub closed spec fn spec_name(self) -> Seq<char> {
        self.name@
    }

    pub closed spec fn spec_notes(self) -> Seq<char> {
        self.notes@
    }

    pub closed spec fn spec_datetime(self) -> DateTime {
        self.datetime
    }

    pub closed spec fn spec_tags(self) -> Seq<Tag> {
        self.tags@
    }

    /// The stored account/amount pairs, in storage order.
    pub closed spec fn amount_seq(self) -> Seq<(AccountName, Amount)> {
        self.amounts@
    }

    /// The account-to-amount mapping.
    pub open spec fn amounts_map(self) -> Map<Seq<char>, Amount> {
        kv_map(self.amount_seq())
    }

    /// The account-to-amount mapping, fully abstracted.
    pub open spec fn amounts_view(self) -> Map<Seq<char>, Map<Seq<char>, Number>> {
        Map::new(
            |n: Seq<char>| self.amounts_map().contains_key(n),
            |n: Seq<char>| self.amounts_map()[n]@,
        )
    }

    /// One entry per account, each amount canonical, and the date valid.
    pub open spec fn wf(self) -> bool {
        &&& kv_unique(self.amount_seq())
        &&& forall|i: int| 0 <= i < self.amount_seq().len() ==> (#[trigger] self.amount_seq()[i]).1.wf()
        &&& datetime_valid(self.spec_datetime())
    }

    /// The digest the transaction is identified by: a fold over its full
    /// content, in storage order.
    pub closed spec fn digest(self) -> u64 {
        fnv64(
            char_tokens(self.name@) + seq![SEP_TOKEN] + char_tokens(self.notes@) + seq![SEP_TOKEN]
                + datetime_tokens(self.datetime) + tag_tokens(self.tags@) + seq![SEP_TOKEN]
                + posting_tokens(self.amounts@),
        )
    }

    /// Computes the transaction's identity from its content alone: equal
    /// content always yields the same identifier.
    pub fn generate_id(&self) -> (r: TransactionId)
        ensures
            r == TransactionId(self.digest()),
    {
        let mut tokens: Vec<u64> = Vec::new();
        push_char_tokens(&mut tokens, self.name.as_str());
        push_sep(&mut tokens);
        push_char_tokens(&mut tokens, self.notes.as_str());
        push_sep(&mut tokens);
        tokens.push(self.datetime.date.year as u64);
        tokens.push(self.datetime.date.month as u64);
        tokens.push(self.datetime.date.day as u64);
        match &self.datetime.time {
            Some(t) => {
                tokens.push(1);
                tokens.push(t.hour as u64);
                tokens.push(t.minute as u64);
            },
            None => {
                tokens.push(0);
                tokens.push(0);
                tokens.push(0);
            },
        }
        push_sep(&mut tokens);
        proof {
            assert(tokens@ =~= char_tokens(self.name@) + seq![SEP_TOKEN] + char_tokens(self.notes@)
                + seq![SEP_TOKEN] + datetime_tokens(self.datetime));
        }
        let ghost header = tokens@;
        let mut i: usize = 0;
        while i < self.tags.len()
            invariant
                i <= self.tags@.len(),
                tokens@ == header + tag_tokens(self.tags@.take(i as int)),
            decreases self.tags@.len() - i,
        {
            push_char_tokens(&mut tokens, self.tags[i].as_str());
            push_sep(&mut tokens);
            proof {
                let t = self.tags@.take(i as int + 1);
                assert(t.drop_last() =~= self.tags@.take(i as int));
                assert(t.last() == self.tags@[i as int]);
                assert(tokens@ =~= header + tag_tokens(t));
            }
            i += 1;
        }
        proof {
            assert(self.tags@.take(self.tags@.len() as int) =~= self.tags@);
        }
        push_sep(&mut tokens);
        let ghost mid = tokens@;
        let mut j: usize = 0;
        while j < self.amounts.len()
            invariant
                j <= self.amounts@.len(),
                tokens@ == mid + posting_tokens(self.amounts@.take(j as int)),
            decreases self.amounts@.len() - j,
        {
            push_char_tokens(&mut tokens, self.amounts[j].0.as_str());
            push_sep(&mut tokens);
            push_amount_tokens(&mut tokens, &self.amounts[j].1);
            push_sep(&mut tokens);
            proof {
                let t = self.amounts@.take(j as int + 1);
                assert(t.drop_last() =~= self.amounts@.take(j as int));
                assert(t.last() == self.amounts@[j as int]);
                assert(tokens@ =~= mid + posting_tokens(t));
            }
            j += 1;
        }
        proof {
            assert(self.amounts@.take(self.amounts@.len() as int) =~= self.amounts@);
            assert(tokens@ =~= char_tokens(self.name@) + seq![SEP_TOKEN] + char_tokens(self.notes@)
                + seq![SEP_TOKEN] + datetime_tokens(self.datetime) + tag_tokens(self.tags@) + seq![
                SEP_TOKEN,
            ] + posting_tokens(self.amounts@));
        }
        TransactionId(fnv_hash(&tokens))
    }
}

/// The abstract mapping of a posting sequence: account names to the
/// views of their amounts.
pub open spec fn postings_view(s: Seq<(AccountName, Amount)>) -> Map<
    Seq<char>,
    Map<Seq<char>, Number>,
> {
    Map::new(|n: Seq<char>| kv_map(s).contains_key(n), |n: Seq<char>| kv_map(s)[n]@)
}

/// The mapping described by a list of account names and amount texts;
/// a repeated account keeps the amount listed last.
pub open spec fn example_amounts_map(entries: Seq<(&str, &str)>) -> Map<
    Seq<char>,
    Map<Seq<char>, Number>,
>
    decreases entries.len(),
{
    if entries.len() == 0 {
        Map::<Seq<char>, Map<Seq<char>, Number>>::empty()
    } else {
        example_amounts_map(entries.drop_last()).insert(
            entries.last().0@,
            entries_to_map(amount_from_text(entries.last().1@)->Ok_0),
        )
    }
}

/// The mapping described by a list of account names and amounts; a
/// repeated account keeps the amount listed last.
pub open spec fn listed_amounts_map(entries: Seq<(String, Amount)>) -> Map<
    Seq<char>,
    Map<Seq<char>, Number>,
>
    decreases entries.len(),
{
    if entries.len() == 0 {
        Map::<Seq<char>, Map<Seq<char>, Number>>::empty()
    } else {
        listed_amounts_map(entries.drop_last()).insert(entries.last().0@, entries.last().1@)
    }
}

/// Stores an amount under an account name; a name already present keeps
/// its place and takes the new amount.
fn insert_amount(v: &mut Vec<(AccountName, Amount)>, name: AccountName, amount: Amount)
    requires
        kv_unique(old(v)@),
        forall|i: int| 0 <= i < old(v)@.len() ==> (#[trigger] old(v)@[i]).1.wf(),
        amount.wf(),
    ensures
        kv_unique(final(v)@),
        forall|i: int| 0 <= i < final(v)@.len() ==> (#[trigger] final(v)@[i]).1.wf(),
        kv_map(final(v)@) == kv_map(old(v)@).insert(name@, amount),
        !kv_map(old(v)@).contains_key(name@) ==> final(v)@ == old(v)@.push((name, amount)),
{
    let mut i: usize = 0;
    while i < v.len()
        invariant
            i <= v@.len(),
            forall|j: int| 0 <= j < i ==> (#[trigger] v@[j]).0@ != name@,
            v@ == old(v)@,
            kv_unique(v@),
            forall|j: int| 0 <= j < v@.len() ==> (#[trigger] v@[j]).1.wf(),
            amount.wf(),
        decreases v@.len() - i,
    {
        if v[i].0.eq_name(&name) {
            let ghost prev = v@;
            v[i].1 = amount;
            proof {
                assert(prev[i as int].0@ == name@);
                lemma_kv_map_contains(prev, name@);
                assert(kv_map(prev).contains_key(name@));
                lemma_kv_map_update(prev, i as int, (prev[i as int].0, amount));
                assert(v@ =~= prev.update(i as int, (prev[i as int].0, amount)));
                assert forall|j: int| 0 <= j < v@.len() implies (#[trigger] v@[j]).1.wf() by {
                    if j != i {
                        assert(v@[j] == prev[j]);
                    }
                }
            }
            return ;
        }
        i += 1;
    }
    let ghost prev = v@;
    proof {
        lemma_kv_map_contains(prev, name@);
        assert(!kv_map(prev).contains_key(name@));
        lemma_kv_map_push(prev, (name, amount));
    }
    v.push((name, amount));
    proof {
        assert(v@ =~= prev.push((name, amount)));
        assert forall|j: int| 0 <= j < v@.len() implies (#[trigger] v@[j]).1.wf() by {
            if j < prev.len() {
                assert(v@[j] == prev[j]);
            }
        }
    }
}

impl Transaction {
    /// Builds a transaction from account names and amount listings given
    /// as text; every listing must be readable.
    pub fn example_transaction(
        name: &str,
        notes: &str,
        datetime: DateTime,
        amounts: &[(&str, &str)],
    ) -> (r: Transaction)
        requires
            datetime_valid(datetime),
            forall|i: int|
                0 <= i < amounts@.len() ==> amount_from_text((#[trigger] amounts@[i]).1@) is Ok,
        ensures
            r.wf(),
            r.spec_name() == name@,
            r.spec_notes() == notes@,
            r.spec_datetime() == datetime,
            r.spec_tags() == Seq::<Tag>::empty(),
            r.amounts_view() == example_amounts_map(amounts@),
            (forall|i: int, j: int|
                0 <= i < j < amounts@.len() ==> (#[trigger] amounts@[i]).0@ != (
                #[trigger] amounts@[j]).0@) ==> r.amount_seq().len() == amounts@.len() && (
            forall|k: int|
                0 <= k < amounts@.len() ==> (#[trigger] r.amount_seq()[k]).0@ == amounts@[k].0@
                    && r.amount_seq()[k].1@ == entries_to_map(
                    amount_from_text(amounts@[k].1@)->Ok_0,
                )),
    {
        let mut v: Vec<(AccountName, Amount)> = Vec::new();
        let mut i: usize = 0;
        proof {
            assert(postings_view(v@) =~= example_amounts_map(amounts@.take(0)));
        }
        while i < amounts.len()
            invariant
                i <= amounts@.len(),
                forall|k: int|
                    0 <= k < amounts@.len() ==> amount_from_text(
                        (#[trigger] amounts@[k]).1@,
                    ) is Ok,
                kv_unique(v@),
                forall|k: int| 0 <= k < v@.len() ==> (#[trigger] v@[k]).1.wf(),
                postings_view(v@) == example_amounts_map(amounts@.take(i as int)),
                (forall|a: int, b: int|
                    0 <= a < b < amounts@.len() ==> (#[trigger] amounts@[a]).0@ != (
                    #[trigger] amounts@[b]).0@) ==> v@.len() == i && (forall|k: int|
                    0 <= k < i ==> (#[trigger] v@[k]).0@ == amounts@[k].0@ && v@[k].1@
                        == entries_to_map(amount_from_text(amounts@[k].1@)->Ok_0)),
            decreases amounts@.len() - i,
        {
            let a = match Amount::parse_str(amounts[i].1) {
                Ok(a) => a,
                Err(_) => {
                    proof {
                        assert(amount_from_text(amounts@[i as int].1@) is Ok);
                        assert(false);
                    }
                    Amount::default()
                },
            };
            let ghost prev = v@;
            insert_amount(&mut v, AccountName::new(amounts[i].0), a);
            proof {
                let t = amounts@.take(i as int + 1);
                assert(t.drop_last() =~= amounts@.take(i as int));
                assert(t.last() == amounts@[i as int]);
                assert(a@ == entries_to_map(amount_from_text(amounts@[i as int].1@)->Ok_0));
                assert(postings_view(v@) =~= example_amounts_map(t)) by {
                    assert(kv_map(v@) == kv_map(prev).insert(amounts@[i as int].0@, a));
                }
                if forall|a2: int, b2: int|
                    0 <= a2 < b2 < amounts@.len() ==> (#[trigger] amounts@[a2]).0@ != (
                    #[trigger] amounts@[b2]).0@ {
                    // with pairwise distinct names the new key was fresh,
                    // so the entry went to the end
                    assert(!kv_map(prev).contains_key(amounts@[i as int].0@)) by {
                        lemma_kv_map_contains(prev, amounts@[i as int].0@);
                        if exists|w: int|
                            0 <= w < prev.len() && (#[trigger] prev[w]).0@
                                == amounts@[i as int].0@ {
                            let w = choose|w: int|
                                0 <= w < prev.len() && (#[trigger] prev[w]).0@
                                    == amounts@[i as int].0@;
                            assert(amounts@[w].0@ == amounts@[i as int].0@);
                            assert(false);
                        }
                    }
                    assert forall|k: int| 0 <= k < i + 1 implies (#[trigger] v@[k]).0@
                        == amounts@[k].0@ && v@[k].1@ == entries_to_map(
                        amount_from_text(amounts@[k].1@)->Ok_0,
                    ) by {
                        if k < i {
                            assert(v@[k] == prev[k]);
                        } else {
                            assert(v@[k].1 == a);
                        }
                    }
                }
            }
            i += 1;
        }
        proof {
            assert(amounts@.take(amounts@.len() as int) =~= amounts@);
        }
        Transaction {
            name: name.to_owned(),
            notes: notes.to_owned(),
            tags: Vec::new(),
            datetime,
            amounts: v,
        }
    }

    /// Builds a transaction from account names and ready amounts.
    pub fn from_amounts(
        name: &str,
        notes: &str,
        datetime: DateTime,
        amounts: &[(String, Amount)],
    ) -> (r: Transaction)
        requires
            datetime_valid(datetime),
            forall|i: int| 0 <= i < amounts@.len() ==> (#[trigger] amounts@[i]).1.wf(),
        ensures
            r.wf(),
            r.spec_name() == name@,
            r.spec_notes() == notes@,
            r.spec_datetime() == datetime,
            r.spec_tags() == Seq::<Tag>::empty(),
            r.amounts_view() == listed_amounts_map(amounts@),
            (forall|i: int, j: int|
                0 <= i < j < amounts@.len() ==> (#[trigger] amounts@[i]).0@ != (
                #[trigger] amounts@[j]).0@) ==> r.amount_seq().len() == amounts@.len() && (
            forall|k: int|
                0 <= k < amounts@.len() ==> (#[trigger] r.amount_seq()[k]).0@ == amounts@[k].0@
                    && r.amount_seq()[k].1@ == amounts@[k].1@),
    {
        let mut v: Vec<(AccountName, Amount)> = Vec::new();
        let mut i: usize = 0;
        proof {
            assert(postings_view(v@) =~= listed_amounts_map(amounts@.take(0)));
        }
        while i < amounts.len()
            invariant
                i <= amounts@.len(),
                forall|k: int| 0 <= k < amounts@.len() ==> (#[trigger] amounts@[k]).1.wf(),
                kv_unique(v@),
                forall|k: int| 0 <= k < v@.len() ==> (#[trigger] v@[k]).1.wf(),
                postings_view(v@) == listed_amounts_map(amounts@.take(i as int)),
                (forall|a: int, b: int|
                    0 <= a < b < amounts@.len() ==> (#[trigger] amounts@[a]).0@ != (
                    #[trigger] amounts@[b]).0@) ==> v@.len() == i && (forall|k: int|
                    0 <= k < i ==> (#[trigger] v@[k]).0@ == amounts@[k].0@ && v@[k].1@
                        == amounts@[k].1@),
            decreases amounts@.len() - i,
        {
            let a = amounts[i].1.duplicate();
            let ghost prev = v@;
            insert_amount(&mut v, AccountName::new(amounts[i].0.as_str()), a);
            proof {
                let t = amounts@.take(i as int + 1);
                assert(t.drop_last() =~= amounts@.take(i as int));
                assert(t.last() == amounts@[i as int]);
                assert(postings_view(v@) =~= listed_amounts_map(t)) by {
                    assert(kv_map(v@) == kv_map(prev).insert(amounts@[i as int].0@, a));
                }
                if forall|a2: int, b2: int|
                    0 <= a2 < b2 < amounts@.len() ==> (#[trigger] amounts@[a2]).0@ != (
                    #[trigger] amounts@[b2]).0@ {
                    assert(!kv_map(prev).contains_key(amounts@[i as int].0@)) by {
                        lemma_kv_map_contains(prev, amounts@[i as int].0@);
                        if exists|w: int|
                            0 <= w < prev.len() && (#[trigger] prev[w]).0@
                                == amounts@[i as int].0@ {
                            let w = choose|w: int|
                                0 <= w < prev.len() && (#[trigger] prev[w]).0@
                                    == amounts@[i as int].0@;
                            assert(amounts@[w].0@ == amounts@[i as int].0@);
                            assert(false);
                        }
                    }
                    assert forall|k: int| 0 <= k < i + 1 implies (#[trigger] v@[k]).0@
                        == amounts@[k].0@ && v@[k].1@ == amounts@[k].1@ by {
                        if k < i {
                            assert(v@[k] == prev[k]);
                        } else {
                            assert(v@[k].1 == a);
                        }
                    }
                }
            }
            i += 1;
        }
        proof {
            assert(amounts@.take(amounts@.len() as int) =~= amounts@);
        }
        Transaction {
            name: name.to_owned(),
            notes: notes.to_owned(),
            tags: Vec::new(),
            datetime,
            amounts: v,
        }
    }

    /// The accounts this transaction touches, in storage order.
    pub fn get_associated_accounts(&self) -> (r: Vec<AccountName>)
        ensures
            r@.len() == self.amount_seq().len(),
            forall|i: int| 0 <= i < r@.len() ==> (#[trigger] r@[i])@ == self.amount_seq()[i].0@,
            forall|n: Seq<char>|
                #[trigger] self.amounts_map().contains_key(n) <==> exists|i: int|
                    0 <= i < r@.len() && (#[trigger] r@[i])@ == n,
    {
        let mut r: Vec<AccountName> = Vec::new();
        let mut i: usize = 0;
        while i < self.amounts.len()
            invariant
                i <= self.amount_seq().len(),
                r@.len() == i,
                forall|j: int| 0 <= j < i ==> (#[trigger] r@[j])@ == self.amount_seq()[j].0@,
            decreases self.amount_seq().len() - i,
        {
            r.push(AccountName::new(self.amounts[i].0.as_str()));
            i += 1;
        }
        proof {
            assert forall|n: Seq<char>| #[trigger]
                self.amounts_map().contains_key(n) <==> exists|i: int|
                    0 <= i < r@.len() && (#[trigger] r@[i])@ == n by {
                lemma_kv_map_contains(self.amount_seq(), n);
                if exists|i: int|
                    0 <= i < self.amount_seq().len() && (#[trigger] self.amount_seq()[i]).0@
                        == n {
                    let i = choose|i: int|
                        0 <= i < self.amount_seq().len() && (#[trigger] self.amount_seq()[i]).0@
                            == n;
                    assert(r@[i]@ == n);
                }
                if exists|i: int| 0 <= i < r@.len() && (#[trigger] r@[i])@ == n {
                    let i = choose|i: int| 0 <= i < r@.len() && (#[trigger] r@[i])@ == n;
                    assert(self.amount_seq()[i].0@ == n);
                }
            }
        }
        r
    }

    /// The amount this transaction moves on one account.
    pub fn get_amount(&self, account_name: &AccountName) -> (r: Result<&Amount, &'static str>)
        requires
            self.wf(),
        ensures
            match r {
                Ok(a) => self.amounts_map().contains_key(account_name@) && *a
                    == self.amounts_map()[account_name@],
                Err(m) => !self.amounts_map().contains_key(account_name@) && m@ == "Nope"@,
            },
    {
        let mut i: usize = 0;
        while i < self.amounts.len()
            invariant
                self.wf(),
                i <= self.amount_seq().len(),
                forall|j: int| 0 <= j < i ==> (#[trigger] self.amount_seq()[j]).0@ != account_name@,
            decreases self.amount_seq().len() - i,
        {
            if self.amounts[i].0.eq_name(account_name) {
                proof {
                    lemma_kv_map_index(self.amount_seq(), i as int);
                }
                return Ok(&self.amounts[i].1);
            }
            i += 1;
        }
        proof {
            lemma_kv_map_contains(self.amount_seq(), account_name@);
        }
        Err("Nope")
    }

    /// The transaction's title.
    pub fn get_name(&self) -> (r: &String)
        ensures
            r@ == self.spec_name(),
    {
        &self.name
    }

    /// The transaction's free-form notes.
    pub fn get_notes(&self) -> (r: &String)
        ensures
            r@ == self.spec_notes(),
    {
        &self.notes
    }

    /// The full account-to-amount listing.
    pub fn get_amounts(&self) -> (r: &Vec<(AccountName, Amount)>)
        ensures
            r@ == self.amount_seq(),
    {
        &self.amounts
    }

    /// When the transaction took place.
    pub fn get_date(&self) -> (r: &DateTime)
        ensures
            *r == self.spec_datetime(),
    {
        &self.datetime
    }
}

} // verus!
