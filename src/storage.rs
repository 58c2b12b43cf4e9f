use vstd::prelude::*;

use crate::value::{MetricValue, ValueModel};

verus! {

/// The storage key of a record: (ping name, category, metric name).
pub type Key = (Seq<char>, Seq<char>, Seq<char>);

/// One stored value, tagged with the ping it is sent in.
#[derive(Debug)]
pub struct Record {
    pub ping: String,
    pub category: String,
    pub name: String,
    pub value: MetricValue,
}

/// The mathematical content of a [`Record`].
pub struct RecordModel {
    pub ping: Seq<char>,
    pub category: Seq<char>,
    pub name: Seq<char>,
    pub value: ValueModel,
}

impl Record {
    /// A copy of the record.
    pub fn duplicate(&self) -> (r: Record)
        ensures
            r@ == self@,
    {
        Record {
            ping: self.ping.clone(),
            category: self.category.clone(),
            name: self.name.clone(),
            value: self.value.duplicate(),
        }
    }
}

impl View for Record {
    type V = RecordModel;

    open spec fn view(&self) -> RecordModel {
        RecordModel {
            ping: self.ping@,
            category: self.category@,
            name: self.name@,
            value: self.value@,
        }
    }
}

/// One metric of a ping snapshot.
#[derive(Debug)]
pub struct Entry {
    pub category: String,
    pub name: String,
    pub value: MetricValue,
}

/// The mathematical content of an [`Entry`].
pub struct EntryModel {
    pub category: Seq<char>,
    pub name: Seq<char>,
    pub value: ValueModel,
}

impl View for Entry {
    type V = EntryModel;

    open spec fn view(&self) -> EntryModel {
        EntryModel { category: self.category@, name: self.name@, value: self.value@ }
    }
}

pub open spec fn key_of(r: RecordModel) -> Key {
    (r.ping, r.category, r.name)
}

/// No two records share a key.
pub open spec fn unique_keys(s: Seq<RecordModel>) -> bool {
    forall|i: int, j: int|
        0 <= i < s.len() && 0 <= j < s.len() && i != j ==> key_of(#[trigger] s[i]) != key_of(
            #[trigger] s[j],
        )
}

pub open spec fn has_key(s: Seq<RecordModel>, k: Key) -> bool {
    exists|i: int| 0 <= i < s.len() && key_of(#[trigger] s[i]) == k
}

/// The position of the record with key `k`.
pub open spec fn index_of(s: Seq<RecordModel>, k: Key) -> int {
    choose|i: int| 0 <= i < s.len() && key_of(#[trigger] s[i]) == k
}

/// The value stored under `k`, if any.
pub open spec fn value_at(s: Seq<RecordModel>, k: Key) -> Option<ValueModel> {
    if has_key(s, k) {
        Some(s[index_of(s, k)].value)
    } else {
        None
    }
}

pub open spec fn record_of(k: Key, v: ValueModel) -> RecordModel {
    RecordModel { ping: k.0, category: k.1, name: k.2, value: v }
}

/// Upsert: the record of `k` is overwritten in place, or appended when new.
pub open spec fn upsert(s: Seq<RecordModel>, k: Key, v: ValueModel) -> Seq<RecordModel> {
    if has_key(s, k) {
        s.update(index_of(s, k), record_of(k, v))
    } else {
        s.push(record_of(k, v))
    }
}

/// The records that are not tagged with ping `p`, in their order.
pub open spec fn without_ping(s: Seq<RecordModel>, p: Seq<char>) -> Seq<RecordModel>
    decreases s.len(),
{
    if s.len() == 0 {
        s
    } else {
        let rest = without_ping(s.drop_last(), p);
        if s.last().ping == p {
            rest
        } else {
            rest.push(s.last())
        }
    }
}

pub open spec fn entry_of(r: RecordModel) -> EntryModel {
    EntryModel { category: r.category, name: r.name, value: r.value }
}

/// The snapshot of ping `p`: its records, in storage order, without the ping name.
pub open spec fn ping_entries(s: Seq<RecordModel>, p: Seq<char>) -> Seq<EntryModel>
    decreases s.len(),
{
    if s.len() == 0 {
        Seq::empty()
    } else {
        let rest = ping_entries(s.drop_last(), p);
        if s.last().ping == p {
            rest.push(entry_of(s.last()))
        } else {
            rest
        }
    }
}

/// If `k` is present at `i`, `index_of` finds exactly `i`.
pub proof fn lemma_index_of_unique(s: Seq<RecordModel>, k: Key, i: int)
    requires
        unique_keys(s),
        0 <= i < s.len(),
        key_of(s[i]) == k,
    ensures
        has_key(s, k),
        index_of(s, k) == i,
        value_at(s, k) == Some(s[i].value),
{
    assert(has_key(s, k));
}

/// Writing keeps keys unique, and afterwards `k` holds `v`.
pub proof fn lemma_upsert(s: Seq<RecordModel>, k: Key, v: ValueModel)
    requires
        unique_keys(s),
    ensures
        unique_keys(upsert(s, k, v)),
        value_at(upsert(s, k, v), k) == Some(v),
        forall|k2: Key| k2 != k ==> value_at(upsert(s, k, v), k2) == value_at(s, k2),
{
    let t = upsert(s, k, v);
    if has_key(s, k) {
        let i = index_of(s, k);
        assert forall|a: int, b: int|
            0 <= a < t.len() && 0 <= b < t.len() && a != b implies key_of(#[trigger] t[a])
            != key_of(#[trigger] t[b]) by {
            assert(key_of(t[a]) == key_of(s[a]));
            assert(key_of(t[b]) == key_of(s[b]));
        }
        lemma_index_of_unique(t, k, i);
        assert forall|k2: Key| k2 != k implies value_at(t, k2) == value_at(s, k2) by {
            if has_key(s, k2) {
                let j = index_of(s, k2);
                lemma_index_of_unique(t, k2, j);
            }
            if has_key(t, k2) {
                let j = index_of(t, k2);
                lemma_index_of_unique(s, k2, j);
            }
        }
    } else {
        assert forall|a: int, b: int|
            0 <= a < t.len() && 0 <= b < t.len() && a != b implies key_of(#[trigger] t[a])
            != key_of(#[trigger] t[b]) by {
            if a < s.len() && b < s.len() {
                assert(t[a] == s[a] && t[b] == s[b]);
            } else if a < s.len() {
                assert(t[a] == s[a]);
            } else {
                assert(t[b] == s[b]);
            }
        }
        lemma_index_of_unique(t, k, s.len() as int);
        assert forall|k2: Key| k2 != k implies value_at(t, k2) == value_at(s, k2) by {
            if has_key(s, k2) {
                let j = index_of(s, k2);
                assert(t[j] == s[j]);
                lemma_index_of_unique(t, k2, j);
            }
            if has_key(t, k2) {
                let j = index_of(t, k2);
                assert(t[j] == s[j]);
                lemma_index_of_unique(s, k2, j);
            }
        }
    }
}

/// Every record of `without_ping(s, p)` is a record of `s` not tagged `p`,
/// and keys stay unique.
pub proof fn lemma_without_ping(s: Seq<RecordModel>, p: Seq<char>)
    requires
        unique_keys(s),
    ensures
        unique_keys(without_ping(s, p)),
        forall|i: int|
            0 <= i < without_ping(s, p).len() ==> (#[trigger] without_ping(s, p)[i]).ping != p
                && exists|j: int| 0 <= j < s.len() && s[j] == without_ping(s, p)[i],
    decreases s.len(),
{
    if s.len() > 0 {
        let s0 = s.drop_last();
        assert(unique_keys(s0)) by {
            assert forall|a: int, b: int|
                0 <= a < s0.len() && 0 <= b < s0.len() && a != b implies key_of(
                #[trigger] s0[a],
            ) != key_of(#[trigger] s0[b]) by {
                assert(s0[a] == s[a] && s0[b] == s[b]);
            }
        }
        lemma_without_ping(s0, p);
        let r0 = without_ping(s0, p);
        let r = without_ping(s, p);
        assert forall|i: int| 0 <= i < r0.len() implies exists|j: int|
            0 <= j < s.len() && s[j] == #[trigger] r0[i] by {
            let j = choose|j: int| 0 <= j < s0.len() && s0[j] == r0[i];
            assert(s[j] == s0[j]);
        }
        if s.last().ping != p {
            assert forall|a: int, b: int|
                0 <= a < r.len() && 0 <= b < r.len() && a != b implies key_of(#[trigger] r[a])
                != key_of(#[trigger] r[b]) by {
                if a < r0.len() && b < r0.len() {
                    assert(r[a] == r0[a] && r[b] == r0[b]);
                } else if a < r0.len() {
                    assert(r[a] == r0[a]);
                    let j = choose|j: int| 0 <= j < s0.len() && s0[j] == r0[a];
                    assert(s[j] == s0[j]);
                    assert(r[b] == s[s.len() - 1]);
                } else {
                    assert(r[b] == r0[b]);
                    let j = choose|j: int| 0 <= j < s0.len() && s0[j] == r0[b];
                    assert(s[j] == s0[j]);
                    assert(r[a] == s[s.len() - 1]);
                }
            }
            assert forall|i: int| 0 <= i < r.len() implies (#[trigger] r[i]).ping != p
                && exists|j: int| 0 <= j < s.len() && s[j] == r[i] by {
                if i < r0.len() {
                    assert(r[i] == r0[i]);
                } else {
                    assert(s[s.len() - 1] == r[i]);
                }
            }
        }
    }
}

/// The records of the store, with unique keys.
#[derive(Debug)]
pub struct Storage {
    records: Vec<Record>,
}

impl View for Storage {
    type V = Seq<RecordModel>;

    closed spec fn view(&self) -> Seq<RecordModel> {
        self.records@.map_values(|r: Record| r@)
    }
}

impl Storage {
    pub open spec fn wf(&self) -> bool {
        unique_keys(self@)
    }

    /// An empty store.
    pub fn new() -> (r: Storage)
        ensures
            r.wf(),
            r@ == Seq::<RecordModel>::empty(),
    {
        let r = Storage { records: Vec::new() };
        assert(r@ =~= Seq::<RecordModel>::empty());
        r
    }

    /// Where the record of (`ping`, `category`, `name`) stands, if anywhere.
    pub fn find(&self, ping: &String, category: &String, name: &String) -> (r: Option<usize>)
        requires
            self.wf(),
        ensures
            match r {
                Some(i) => i < self@.len() && key_of(self@[i as int]) == (ping@, category@, name@),
                None => !has_key(self@, (ping@, category@, name@)),
            },
    {
        let ghost k = (ping@, category@, name@);
        let mut i: usize = 0;
        while i < self.records.len()
            invariant
                i <= self.records.len(),
                k == (ping@, category@, name@),
                forall|j: int| 0 <= j < i ==> key_of(#[trigger] self@[j]) != k,
            decreases self.records.len() - i,
        {
            let r = &self.records[i];
            assert(self@[i as int] == r@);
            if r.ping == *ping && r.category == *category && r.name == *name {
                return Some(i);
            }
            i += 1;
        }
        None
    }

    /// The value stored under (`ping`, `category`, `name`).
    pub fn get(&self, ping: &String, category: &String, name: &String) -> (r: Option<MetricValue>)
        requires
            self.wf(),
        ensures
            match r {
                Some(v) => value_at(self@, (ping@, category@, name@)) == Some(v@),
                None => value_at(self@, (ping@, category@, name@)) is None,
            },
    {
        match self.find(ping, category, name) {
            Some(i) => {
                proof {
                    lemma_index_of_unique(self@, (ping@, category@, name@), i as int);
                }
                Some(self.records[i].value.duplicate())
            },
            None => None,
        }
    }

    /// Upserts `value` under (`ping`, `category`, `name`).
    pub fn write(&mut self, ping: &String, category: &String, name: &String, value: MetricValue)
        requires
            old(self).wf(),
        ensures
            final(self).wf(),
            final(self)@ == upsert(old(self)@, (ping@, category@, name@), value@),
    {
        let ghost k = (ping@, category@, name@);
        let ghost v = value@;
        proof {
            lemma_upsert(self@, k, v);
        }
        match self.find(ping, category, name) {
            Some(i) => {
                proof {
                    lemma_index_of_unique(self@, k, i as int);
                }
                self.records.set(
                    i,
                    Record {
                        ping: ping.clone(),
                        category: category.clone(),
                        name: name.clone(),
                        value,
                    },
                );
                assert(self@ =~= upsert(old(self)@, k, v));
            },
            None => {
                self.records.push(
                    Record {
                        ping: ping.clone(),
                        category: category.clone(),
                        name: name.clone(),
                        value,
                    },
                );
                assert(self@ =~= upsert(old(self)@, k, v));
            },
        }
    }

    /// The entries of ping `ping`, in storage order.
    pub fn snapshot(&self, ping: &String) -> (r: Vec<Entry>)
        ensures
            r@.map_values(|e: Entry| e@) == ping_entries(self@, ping@),
    {
        let mut out: Vec<Entry> = Vec::new();
        let mut i: usize = 0;
        while i < self.records.len()
            invariant
                i <= self.records.len(),
                out@.map_values(|e: Entry| e@) == ping_entries(self@.take(i as int), ping@),
            decreases self.records.len() - i,
        {
            let r = &self.records[i];
            assert(self@.take(i + 1).drop_last() =~= self@.take(i as int));
            if r.ping == *ping {
                out.push(
                    Entry {
                        category: r.category.clone(),
                        name: r.name.clone(),
                        value: r.value.duplicate(),
                    },
                );
            }
            i += 1;
            assert(out@.map_values(|e: Entry| e@) =~= ping_entries(self@.take(i as int), ping@));
        }
        assert(self@.take(i as int) =~= self@);
        out
    }

    /// Removes every record tagged with `ping`.
    pub fn clear_ping(&mut self, ping: &String)
        requires
            old(self).wf(),
        ensures
            final(self).wf(),
            final(self)@ == without_ping(old(self)@, ping@),
    {
        let ghost s = self@;
        let mut kept: Vec<Record> = Vec::new();
        let mut i: usize = 0;
        while i < self.records.len()
            invariant
                i <= self.records.len(),
                s == self@,
                kept@.map_values(|r: Record| r@) == without_ping(s.take(i as int), ping@),
            decreases self.records.len() - i,
        {
            assert(s.take(i + 1).drop_last() =~= s.take(i as int));
            let r = &self.records[i];
            if r.ping != *ping {
                kept.push(r.duplicate());
            }
            i += 1;
            assert(kept@.map_values(|r: Record| r@) =~= without_ping(s.take(i as int), ping@));
        }
        proof {
            lemma_without_ping(s, ping@);
        }
        assert(s.take(i as int) =~= s);
        self.records = kept;
    }

    /// Removes every record.
    pub fn clear_all(&mut self)
        ensures
            final(self).wf(),
            final(self)@ == Seq::<RecordModel>::empty(),
    {
        self.records = Vec::new();
        assert(self@ =~= Seq::<RecordModel>::empty());
    }
}

} // verus!
