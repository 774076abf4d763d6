//! The Node Contract catalog of a Compatibility Profile, keyed by
//! `namespace/name/version`.

use crate::json::{self, Json, JsonV};
use crate::model::{LockV, NodeContractLock};
use crate::text;
use vstd::prelude::*;

verus! {

/// A Node Contract document with the lock that pins it.
#[derive(Debug)]
pub struct ContractEntry {
    pub lock: NodeContractLock,
    pub contract: Json,
}

/// A catalog entry, by value.
pub struct EntryV {
    pub lock: LockV,
    pub contract: JsonV,
}

impl View for ContractEntry {
    type V = EntryV;

    open spec fn view(&self) -> EntryV {
        EntryV { lock: self.lock@, contract: self.contract@ }
    }
}

/// The catalog key of a lock: `namespace/name/version`.
pub open spec fn lock_key_of(lock: LockV) -> Seq<char> {
    lock.namespace + "/"@ + lock.name + "/"@ + lock.version
}

/// The catalog key of a lock.
pub fn lock_key(lock: &NodeContractLock) -> (key: String)
    ensures
        key@ == lock_key_of(lock@),
{
    let mut key = text::owned(lock.namespace.as_str());
    text::push_str(&mut key, "/");
    text::push_str(&mut key, lock.name.as_str());
    text::push_str(&mut key, "/");
    text::push_str(&mut key, lock.version.as_str());
    key
}

/// The entry stored under `key`, if any.
pub open spec fn entry_at(entries: Seq<EntryV>, key: Seq<char>) -> Option<EntryV>
    decreases entries.len(),
{
    if entries.len() == 0 {
        None
    } else if lock_key_of(entries[0].lock) == key {
        Some(entries[0])
    } else {
        entry_at(entries.drop_first(), key)
    }
}

/// Contracts by key; a later entry under the same key replaces the earlier.
#[derive(Debug)]
pub struct ContractCatalog {
    entries: Vec<ContractEntry>,
}

impl View for ContractCatalog {
    type V = Seq<EntryV>;

    closed spec fn view(&self) -> Seq<EntryV> {
        self.entries@.map_values(|e: ContractEntry| e@)
    }
}

/// The catalog after storing `e` under its key.
pub open spec fn stored(entries: Seq<EntryV>, e: EntryV) -> Seq<EntryV>
    decreases entries.len(),
{
    if entries.len() == 0 {
        seq![e]
    } else if lock_key_of(entries[0].lock) == lock_key_of(e.lock) {
        seq![e] + entries.drop_first()
    } else {
        seq![entries[0]] + stored(entries.drop_first(), e)
    }
}

/// Storing an entry makes it the one found under its key and leaves every
/// other key as it was.
pub proof fn lemma_stored(entries: Seq<EntryV>, e: EntryV, key: Seq<char>)
    ensures
        entry_at(stored(entries, e), key) == if key == lock_key_of(e.lock) {
            Some(e)
        } else {
            entry_at(entries, key)
        },
    decreases entries.len(),
{
    let s = stored(entries, e);
    if entries.len() == 0 {
        assert(s == seq![e]);
        assert(s.drop_first() =~= Seq::<EntryV>::empty());
        assert(s[0] == e);
        assert(entry_at(s.drop_first(), key) is None);
    } else if lock_key_of(entries[0].lock) != lock_key_of(e.lock) {
        lemma_stored(entries.drop_first(), e, key);
        assert(s == seq![entries[0]] + stored(entries.drop_first(), e));
        assert(s.drop_first() =~= stored(entries.drop_first(), e));
        assert(s[0] == entries[0]);
    } else {
        assert(s == seq![e] + entries.drop_first());
        assert(s.drop_first() =~= entries.drop_first());
        assert(s[0] == e);
    }
}

impl ContractCatalog {
    /// An empty catalog.
    pub fn new() -> (c: ContractCatalog)
        ensures
            c@ == Seq::<EntryV>::empty(),
    {
        let c = ContractCatalog { entries: Vec::new() };
        assert(c@ =~= Seq::<EntryV>::empty());
        c
    }

    /// Stores `entry` under the key of its lock, replacing any entry there.
    pub fn insert(&mut self, entry: ContractEntry)
        ensures
            final(self)@ == stored(old(self)@, entry@),
    {
        let ghost before = self@;
        let key = lock_key(&entry.lock);
        let mut i: usize = 0;
        while i < self.entries.len()
            invariant
                0 <= i <= self.entries@.len(),
                self@ == before,
                before == old(self)@,
                key@ == lock_key_of(entry@.lock),
                forall|k: int| 0 <= k < i ==> lock_key_of(#[trigger] before[k].lock) != key@,
                before.len() == self.entries@.len(),
                forall|k: int| 0 <= k < self.entries@.len() ==> #[trigger] before[k] == self.entries@[k]@,
            decreases self.entries@.len() - i,
        {
            let k = lock_key(&self.entries[i].lock);
            if text::str_eq(k.as_str(), key.as_str()) {
                proof {
                    assert(before[i as int].lock == self.entries@[i as int].lock@);
                    lemma_stored_at(before, entry@, i as int);
                }
                let ghost ev = entry@;
                self.entries.set(i, entry);
                assert(self@ =~= before.update(i as int, ev));
                assert(self@ == stored(before, ev));
                return;
            }
            i = i + 1;
        }
        self.entries.push(entry);
        proof {
            lemma_stored_at(before, entry@, i as int);
            assert(self@ =~= before.push(entry@));
        }
    }

    /// The entry stored under `key`.
    pub fn get(&self, key: &str) -> (r: Option<&ContractEntry>)
        ensures
            match r {
                Some(e) => entry_at(self@, key@) == Some(e@),
                None => entry_at(self@, key@) is None,
            },
    {
        let ghost all = self@;
        let mut i: usize = 0;
        assert(all.skip(0) =~= all);
        while i < self.entries.len()
            invariant
                0 <= i <= self.entries@.len(),
                all == self@,
                all.len() == self.entries@.len(),
                forall|k: int| 0 <= k < self.entries@.len() ==> #[trigger] all[k] == self.entries@[k]@,
                entry_at(all, key@) == entry_at(all.skip(i as int), key@),
            decreases self.entries@.len() - i,
        {
            assert(all.skip(i as int)[0] == all[i as int]);
            assert(all.skip(i as int).drop_first() =~= all.skip(i + 1));
            let k = lock_key(&self.entries[i].lock);
            if text::str_eq(k.as_str(), key) {
                return Some(&self.entries[i]);
            }
            i = i + 1;
        }
        None
    }
}

/// Where `stored` puts an entry: over the first entry with its key, or at
/// the end when there is none.
proof fn lemma_stored_at(entries: Seq<EntryV>, e: EntryV, i: int)
    requires
        0 <= i <= entries.len(),
        forall|k: int| 0 <= k < i ==> lock_key_of(#[trigger] entries[k].lock) != lock_key_of(e.lock),
        i < entries.len() ==> lock_key_of(entries[i].lock) == lock_key_of(e.lock),
    ensures
        stored(entries, e) == if i < entries.len() {
            entries.update(i, e)
        } else {
            entries.push(e)
        },
    decreases entries.len(),
{
    if entries.len() == 0 {
        assert(entries.push(e) =~= seq![e]);
    } else if i == 0 {
        assert(seq![e] + entries.drop_first() =~= entries.update(0, e));
    } else {
        lemma_stored_at(entries.drop_first(), e, i - 1);
        if i < entries.len() {
            assert(seq![entries[0]] + entries.drop_first().update(i - 1, e) =~= entries.update(i, e));
        } else {
            assert(seq![entries[0]] + entries.drop_first().push(e) =~= entries.push(e));
        }
    }
}

} // verus!
