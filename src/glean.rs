use vstd::prelude::*;
use vstd::string::StrSliceExecFns;
use vstd::string::StringExecFns;

use crate::error::ErrorKind;
use crate::payload::{ping_text, render_ping};
use crate::storage::{
    lemma_without_ping, ping_entries, unique_keys, upsert, value_at, without_ping,
    Entry, RecordModel, Storage,
};
use crate::parse::Pair;
use crate::reader::{parse_ping, split_key, split_member_key, ParsedMetric, ParsedPing};
use crate::value::{count_of, saturating, MetricValue, ValueModel};

verus! {

/// A ping known to the engine, with its lifetime and next sequence number.
#[derive(Debug)]
pub struct PingEntry {
    pub name: String,
    pub persistent: bool,
    pub seq: u64,
}

pub struct PingModel {
    pub name: Seq<char>,
    pub persistent: bool,
    pub seq: u64,
}

impl View for PingEntry {
    type V = PingModel;

    open spec fn view(&self) -> PingModel {
        PingModel { name: self.name@, persistent: self.persistent, seq: self.seq }
    }
}

/// No two pings share a name.
pub open spec fn unique_pings(ps: Seq<PingModel>) -> bool {
    forall|i: int, j: int|
        0 <= i < ps.len() && 0 <= j < ps.len() && i != j ==> (#[trigger] ps[i]).name != (
        #[trigger] ps[j]).name
}

pub open spec fn has_ping(ps: Seq<PingModel>, name: Seq<char>) -> bool {
    exists|i: int| 0 <= i < ps.len() && (#[trigger] ps[i]).name == name
}

pub open spec fn ping_index(ps: Seq<PingModel>, name: Seq<char>) -> int {
    choose|i: int| 0 <= i < ps.len() && (#[trigger] ps[i]).name == name
}

/// Registers ping `name`; a ping already known keeps its lifetime and sequence.
pub open spec fn register(ps: Seq<PingModel>, name: Seq<char>, persistent: bool) -> Seq<
    PingModel,
> {
    if has_ping(ps, name) {
        ps
    } else {
        ps.push(PingModel { name, persistent, seq: 0 })
    }
}

/// Registers each of `names` as a non-persistent ping, in order.
pub open spec fn register_all(ps: Seq<PingModel>, names: Seq<Seq<char>>) -> Seq<PingModel>
    decreases names.len(),
{
    if names.len() == 0 {
        ps
    } else {
        register(register_all(ps, names.drop_last()), names.last(), false)
    }
}

/// Stores `v` for metric (`c`, `n`) in each ping of `pings`, in order.
pub open spec fn write_all(
    s: Seq<RecordModel>,
    pings: Seq<Seq<char>>,
    c: Seq<char>,
    n: Seq<char>,
    v: ValueModel,
) -> Seq<RecordModel>
    decreases pings.len(),
{
    if pings.len() == 0 {
        s
    } else {
        upsert(write_all(s, pings.drop_last(), c, n, v), (pings.last(), c, n), v)
    }
}

/// Adds `a` to the counter under `k` (0 when absent), saturating.
pub open spec fn add_one(s: Seq<RecordModel>, k: (Seq<char>, Seq<char>, Seq<char>), a: u64) -> Seq<
    RecordModel,
> {
    upsert(s, k, ValueModel::Counter(saturating(count_of(value_at(s, k)), a)))
}

/// Adds `a` to the counter of metric (`c`, `n`) in each ping of `pings`, in order.
pub open spec fn add_all(
    s: Seq<RecordModel>,
    pings: Seq<Seq<char>>,
    c: Seq<char>,
    n: Seq<char>,
    a: u64,
) -> Seq<RecordModel>
    decreases pings.len(),
{
    if pings.len() == 0 {
        s
    } else {
        add_one(add_all(s, pings.drop_last(), c, n, a), (pings.last(), c, n), a)
    }
}

/// The state of the engine.
pub struct GleanModel {
    pub initialized: bool,
    pub upload_enabled: bool,
    pub data_dir: Seq<char>,
    /// Identifies this client in every payload.
    pub client_id: Seq<char>,
    pub records: Seq<RecordModel>,
    pub pings: Seq<PingModel>,
    /// How many values were clamped because they were out of range.
    pub clamped_values: u64,
}

/// The process-wide metrics engine: lifecycle, upload flag, storage and the
/// registry of pings.
#[derive(Debug)]
pub struct Glean {
    initialized: bool,
    upload_enabled: bool,
    data_dir: String,
    client_id: String,
    storage: Storage,
    pings: Vec<PingEntry>,
    clamped_values: u64,
}

impl View for Glean {
    type V = GleanModel;

    closed spec fn view(&self) -> GleanModel {
        GleanModel {
            initialized: self.initialized,
            upload_enabled: self.upload_enabled,
            data_dir: self.data_dir@,
            client_id: self.client_id@,
            records: self.storage@,
            pings: self.pings@.map_values(|p: PingEntry| p@),
            clamped_values: self.clamped_values,
        }
    }
}

/// Well-formedness of an engine state: records and pings are keyed uniquely.
pub open spec fn model_wf(g: GleanModel) -> bool {
    unique_keys(g.records) && unique_pings(g.pings)
}

/// The outcome of `initialize(dir)`.
pub open spec fn initialize_model(g: GleanModel, dir: Seq<char>) -> (GleanModel, Result<(), ErrorKind>) {
    if dir.len() == 0 {
        (g, Err(ErrorKind::StorageUnavailable))
    } else if g.initialized {
        (g, Ok(()))
    } else {
        (GleanModel { initialized: true, data_dir: dir, ..g }, Ok(()))
    }
}

/// The outcome of `set_upload_enabled(flag)`: turning upload off purges every
/// stored record at once.
pub open spec fn set_upload_model(g: GleanModel, flag: bool) -> GleanModel {
    if flag {
        GleanModel { upload_enabled: true, ..g }
    } else {
        GleanModel { upload_enabled: false, records: Seq::empty(), ..g }
    }
}

/// Whether a mutation is taken: the engine is initialized, upload is on and the
/// metric is enabled.
pub open spec fn records_now(g: GleanModel, disabled: bool) -> bool {
    g.initialized && g.upload_enabled && !disabled
}

/// The outcome of storing `v` for a metric; nothing changes unless `records_now`.
pub open spec fn set_model(
    g: GleanModel,
    c: Seq<char>,
    n: Seq<char>,
    pings: Seq<Seq<char>>,
    disabled: bool,
    v: ValueModel,
) -> (GleanModel, Result<(), ErrorKind>) {
    if !g.initialized {
        (g, Err(ErrorKind::NotInitialized))
    } else if !records_now(g, disabled) {
        (g, Ok(()))
    } else {
        (GleanModel { records: write_all(g.records, pings, c, n, v), ..g }, Ok(()))
    }
}

/// The outcome of adding `a` to a counter; nothing changes unless `records_now`,
/// and adding 0 changes nothing.
pub open spec fn add_model(
    g: GleanModel,
    c: Seq<char>,
    n: Seq<char>,
    pings: Seq<Seq<char>>,
    disabled: bool,
    a: u64,
) -> (GleanModel, Result<(), ErrorKind>) {
    if !g.initialized {
        (g, Err(ErrorKind::NotInitialized))
    } else if !records_now(g, disabled) || a == 0 {
        (g, Ok(()))
    } else {
        (GleanModel { records: add_all(g.records, pings, c, n, a), ..g }, Ok(()))
    }
}

/// The outcome of `collect(p, time)`: the payload of ping `p` with its
/// current sequence number and the caller's `time`; the number goes up by one
/// (saturating), and a non-persistent ping's records are deleted.
pub open spec fn collect_model(g: GleanModel, p: Seq<char>, time: u64) -> (GleanModel, Result<
    Seq<char>,
    ErrorKind,
>) {
    if !g.initialized {
        (g, Err(ErrorKind::NotInitialized))
    } else if !has_ping(g.pings, p) {
        (g, Err(ErrorKind::UnknownPing))
    } else {
        let i = ping_index(g.pings, p);
        let e = g.pings[i];
        let text = ping_text(p, e.seq, time, g.client_id, ping_entries(g.records, p));
        let pings = g.pings.update(i, PingModel { seq: saturating(e.seq, 1), ..e });
        let records = if e.persistent {
            g.records
        } else {
            without_ping(g.records, p)
        };
        (GleanModel { pings, records, ..g }, Ok(text))
    }
}

/// Stores each member of `ms` under ping `p`, in order; a key without a dot
/// is skipped.
pub open spec fn restore_entries(s: Seq<RecordModel>, p: Seq<char>, ms: Seq<Pair>) -> Seq<
    RecordModel,
>
    decreases ms.len(),
{
    if ms.len() == 0 {
        s
    } else {
        let s1 = restore_entries(s, p, ms.drop_last());
        match split_key(ms.last().0) {
            Some((c, n)) => upsert(s1, (p, c, n), ms.last().1),
            None => s1,
        }
    }
}

/// `ps` with ping `name` at sequence number `seq`.
pub open spec fn with_seq(ps: Seq<PingModel>, name: Seq<char>, seq: u64) -> Seq<PingModel> {
    let i = ping_index(ps, name);
    ps.update(i, PingModel { seq, ..ps[i] })
}

/// The saved line of a ping: its lifetime (`p` persistent, `t` not), a
/// space, and its state.
pub open spec fn store_line(persistent: bool, state: Seq<char>) -> Seq<char> {
    (if persistent {
        "p "@
    } else {
        "t "@
    }) + state
}

/// The start of a saved store: a version line, then the client identifier.
pub open spec fn store_prefix(client_id: Seq<char>) -> Seq<char> {
    "glean-store 1\nclient "@ + client_id + "\n"@
}

/// The saved lines of the pings `ps`, each ending in a newline.
pub open spec fn store_lines(g: GleanModel, ps: Seq<PingModel>) -> Seq<char>
    decreases ps.len(),
{
    if ps.len() == 0 {
        Seq::empty()
    } else {
        store_lines(g, ps.drop_last()) + store_line(
            ps.last().persistent,
            ping_text(ps.last().name, ps.last().seq, 0, g.client_id, ping_entries(g.records, ps.last().name)),
        ) + "\n"@
    }
}

/// The whole saved store of an engine.
pub open spec fn store_text(g: GleanModel) -> Seq<char> {
    store_prefix(g.client_id) + store_lines(g, g.pings)
}

/// The outcome of loading the saved state `text` with lifetime `persistent`.
pub open spec fn restore_model(g: GleanModel, text: Seq<char>, persistent: bool) -> (GleanModel, Result<
    (),
    ErrorKind,
>) {
    match crate::parse::read_ping(text) {
        None => (g, Err(ErrorKind::StorageUnavailable)),
        Some(c) => (
            GleanModel {
                pings: with_seq(register(g.pings, c.name, persistent), c.name, c.seq),
                records: if g.upload_enabled {
                    restore_entries(
                        restore_entries(restore_entries(g.records, c.name, c.booleans), c.name, c.counters),
                        c.name,
                        c.strings,
                    )
                } else {
                    g.records
                },
                ..g
            },
            Ok(()),
        ),
    }
}

impl Glean {
    pub open spec fn wf(&self) -> bool {
        model_wf(self@)
    }

    /// A fresh, uninitialized engine with upload enabled.
    pub fn new() -> (r: Glean)
        ensures
            r.wf(),
            r@.initialized == false,
            r@.upload_enabled == true,
            r@.data_dir.len() == 0,
            r@.client_id.len() == 0,
            r@.records.len() == 0,
            r@.pings.len() == 0,
            r@.clamped_values == 0,
    {
        let r = Glean {
            initialized: false,
            upload_enabled: true,
            data_dir: String::new(),
            client_id: String::new(),
            storage: Storage::new(),
            pings: Vec::new(),
            clamped_values: 0,
        };
        assert(r@.pings =~= Seq::<PingModel>::empty());
        r
    }

    /// Binds the engine to `data_dir`, once. An empty path is refused.
    pub fn initialize(&mut self, data_dir: &String) -> (r: Result<(), ErrorKind>)
        requires
            old(self).wf(),
        ensures
            final(self).wf(),
            (final(self)@, r) == initialize_model(old(self)@, data_dir@),
    {
        if data_dir.as_str().is_empty() {
            return Err(ErrorKind::StorageUnavailable);
        }
        if self.initialized {
            return Ok(());
        }
        self.initialized = true;
        self.data_dir = data_dir.clone();
        assert(self@ == initialize_model(old(self)@, data_dir@).0);
        Ok(())
    }

    pub fn is_initialized(&self) -> (r: bool)
        ensures
            r == self@.initialized,
    {
        self.initialized
    }

    pub fn is_upload_enabled(&self) -> (r: bool)
        ensures
            r == self@.upload_enabled,
    {
        self.upload_enabled
    }

    /// The directory the engine was bound to (empty before `initialize`).
    pub fn data_dir(&self) -> (r: &String)
        ensures
            r@ == self@.data_dir,
    {
        &self.data_dir
    }

    /// The identifier of this client.
    pub fn client_id(&self) -> (r: &String)
        ensures
            r@ == self@.client_id,
    {
        &self.client_id
    }

    /// Sets the identifier that payloads carry.
    pub fn set_client_id(&mut self, id: &String)
        requires
            old(self).wf(),
        ensures
            final(self).wf(),
            final(self)@ == (GleanModel { client_id: id@, ..old(self)@ }),
    {
        self.client_id = id.clone();
    }

    /// How many values were clamped so far.
    pub fn clamped_values(&self) -> (r: u64)
        ensures
            r == self@.clamped_values,
    {
        self.clamped_values
    }

    /// Turns upload on or off. Turning it off deletes every stored record
    /// before returning; while off, mutations store nothing.
    pub fn set_upload_enabled(&mut self, flag: bool)
        requires
            old(self).wf(),
        ensures
            final(self).wf(),
            final(self)@ == set_upload_model(old(self)@, flag),
    {
        self.upload_enabled = flag;
        if !flag {
            self.storage.clear_all();
        }
        assert(self@ == set_upload_model(old(self)@, flag));
    }

    /// Where ping `name` stands in the registry, if anywhere.
    pub(crate) fn find_ping(&self, name: &String) -> (r: Option<usize>)
        requires
            self.wf(),
        ensures
            match r {
                Some(i) => i < self@.pings.len() && self@.pings[i as int].name == name@
                    && ping_index(self@.pings, name@) == i,
                None => !has_ping(self@.pings, name@),
            },
    {
        let mut i: usize = 0;
        while i < self.pings.len()
            invariant
                i <= self.pings.len(),
                self.wf(),
                forall|j: int| 0 <= j < i ==> (#[trigger] self@.pings[j]).name != name@,
            decreases self.pings.len() - i,
        {
            assert(self@.pings[i as int] == self.pings@[i as int]@);
            if self.pings[i].name == *name {
                assert(has_ping(self@.pings, name@));
                return Some(i);
            }
            i += 1;
        }
        None
    }

    /// Registers ping `name`; a ping already known is left as it is.
    pub fn register_ping(&mut self, name: &String, persistent: bool)
        requires
            old(self).wf(),
        ensures
            final(self).wf(),
            final(self)@ == (GleanModel {
                pings: register(old(self)@.pings, name@, persistent),
                ..old(self)@
            }),
    {
        match self.find_ping(name) {
            Some(_) => {},
            None => {
                self.pings.push(PingEntry { name: name.clone(), persistent, seq: 0 });
                let ghost ps = self@.pings;
                assert(ps =~= register(old(self)@.pings, name@, persistent));
                assert(unique_pings(ps)) by {
                    assert forall|a: int, b: int|
                        0 <= a < ps.len() && 0 <= b < ps.len() && a != b implies (
                        #[trigger] ps[a]).name != (#[trigger] ps[b]).name by {
                        if a < ps.len() - 1 {
                            assert(ps[a] == old(self)@.pings[a]);
                        }
                        if b < ps.len() - 1 {
                            assert(ps[b] == old(self)@.pings[b]);
                        }
                    }
                }
            },
        }
    }

    /// Registers each of `names` as a non-persistent ping.
    pub fn register_pings(&mut self, names: &Vec<String>)
        requires
            old(self).wf(),
        ensures
            final(self).wf(),
            final(self)@ == (GleanModel {
                pings: register_all(old(self)@.pings, names@.map_values(|s: String| s@)),
                ..old(self)@
            }),
    {
        let ghost ns = names@.map_values(|s: String| s@);
        let mut i: usize = 0;
        while i < names.len()
            invariant
                i <= names.len(),
                ns == names@.map_values(|s: String| s@),
                self.wf(),
                self@ == (GleanModel {
                    pings: register_all(old(self)@.pings, ns.take(i as int)),
                    ..old(self)@
                }),
            decreases names.len() - i,
        {
            assert(ns.take(i + 1).drop_last() =~= ns.take(i as int));
            self.register_ping(&names[i], false);
            i += 1;
        }
        assert(ns.take(i as int) =~= ns);
    }

    /// Stores `value` for metric (`category`, `name`) in each of `pings`,
    /// when the engine is recording; see `set_model`.
    pub fn record_set(
        &mut self,
        category: &String,
        name: &String,
        pings: &Vec<String>,
        disabled: bool,
        value: &MetricValue,
    ) -> (r: Result<(), ErrorKind>)
        requires
            old(self).wf(),
        ensures
            final(self).wf(),
            (final(self)@, r) == set_model(
                old(self)@,
                category@,
                name@,
                pings@.map_values(|s: String| s@),
                disabled,
                value@,
            ),
    {
        if !self.initialized {
            return Err(ErrorKind::NotInitialized);
        }
        if !self.upload_enabled || disabled {
            return Ok(());
        }
        let ghost ps = pings@.map_values(|s: String| s@);
        let mut i: usize = 0;
        while i < pings.len()
            invariant
                i <= pings.len(),
                ps == pings@.map_values(|s: String| s@),
                self.wf(),
                self@ == (GleanModel {
                    records: write_all(old(self)@.records, ps.take(i as int), category@, name@, value@),
                    ..old(self)@
                }),
            decreases pings.len() - i,
        {
            assert(ps.take(i + 1).drop_last() =~= ps.take(i as int));
            self.storage.write(&pings[i], category, name, value.duplicate());
            i += 1;
        }
        assert(ps.take(i as int) =~= ps);
        Ok(())
    }

    /// Adds `amount` to the counter (`category`, `name`) in each of `pings`,
    /// saturating at `u64::MAX`, when the engine is recording; see `add_model`.
    pub fn record_add(
        &mut self,
        category: &String,
        name: &String,
        pings: &Vec<String>,
        disabled: bool,
        amount: u64,
    ) -> (r: Result<(), ErrorKind>)
        requires
            old(self).wf(),
        ensures
            final(self).wf(),
            (final(self)@, r) == add_model(
                old(self)@,
                category@,
                name@,
                pings@.map_values(|s: String| s@),
                disabled,
                amount,
            ),
    {
        if !self.initialized {
            return Err(ErrorKind::NotInitialized);
        }
        if !self.upload_enabled || disabled || amount == 0 {
            return Ok(());
        }
        let ghost ps = pings@.map_values(|s: String| s@);
        let mut i: usize = 0;
        while i < pings.len()
            invariant
                i <= pings.len(),
                ps == pings@.map_values(|s: String| s@),
                self.wf(),
                self@ == (GleanModel {
                    records: add_all(old(self)@.records, ps.take(i as int), category@, name@, amount),
                    ..old(self)@
                }),
            decreases pings.len() - i,
        {
            assert(ps.take(i + 1).drop_last() =~= ps.take(i as int));
            let current = self.storage.get(&pings[i], category, name);
            let base: u64 = match current {
                Some(MetricValue::Counter(n)) => n,
                _ => 0,
            };
            self.storage.write(&pings[i], category, name, MetricValue::Counter(base.saturating_add(amount)));
            i += 1;
        }
        assert(ps.take(i as int) =~= ps);
        Ok(())
    }

    /// The value stored for metric (`category`, `name`) in ping `ping`.
    pub fn stored_value(&self, ping: &String, category: &String, name: &String) -> (r: Option<
        MetricValue,
    >)
        requires
            self.wf(),
        ensures
            match r {
                Some(v) => value_at(self@.records, (ping@, category@, name@)) == Some(v@),
                None => value_at(self@.records, (ping@, category@, name@)) is None,
            },
    {
        self.storage.get(ping, category, name)
    }

    /// The metrics of ping `ping` as they are stored now, in storage order.
    pub fn snapshot(&self, ping: &String) -> (r: Vec<Entry>)
        ensures
            r@.map_values(|e: Entry| e@) == ping_entries(self@.records, ping@),
    {
        self.storage.snapshot(ping)
    }

    /// Assembles the payload of ping `ping_name` collected at `time`; see
    /// `collect_model`.
    pub fn collect(&mut self, ping_name: &String, time: u64) -> (r: Result<String, ErrorKind>)
        requires
            old(self).wf(),
        ensures
            final(self).wf(),
            final(self)@ == collect_model(old(self)@, ping_name@, time).0,
            match r {
                Ok(s) => collect_model(old(self)@, ping_name@, time).1 == Ok::<Seq<char>, ErrorKind>(s@),
                Err(e) => collect_model(old(self)@, ping_name@, time).1 == Err::<Seq<char>, ErrorKind>(e),
            },
    {
        if !self.initialized {
            return Err(ErrorKind::NotInitialized);
        }
        let i = match self.find_ping(ping_name) {
            Some(i) => i,
            None => return Err(ErrorKind::UnknownPing),
        };
        let entries = self.storage.snapshot(ping_name);
        let seq = self.pings[i].seq;
        let persistent = self.pings[i].persistent;
        assert(self@.pings[i as int] == self.pings@[i as int]@);
        let text = render_ping(ping_name, seq, time, &self.client_id, &entries);
        let ghost ps0 = self@.pings;
        self.pings.set(i, PingEntry { name: ping_name.clone(), persistent, seq: seq.saturating_add(1) });
        assert(self@.pings =~= ps0.update(i as int, PingModel { seq: saturating(seq, 1), ..ps0[i as int] }));
        assert(unique_pings(self@.pings)) by {
            let ps = self@.pings;
            assert forall|a: int, b: int|
                0 <= a < ps.len() && 0 <= b < ps.len() && a != b implies (
                #[trigger] ps[a]).name != (#[trigger] ps[b]).name by {
                assert(ps[a].name == ps0[a].name);
                assert(ps[b].name == ps0[b].name);
            }
        }
        if !persistent {
            proof {
                lemma_without_ping(self@.records, ping_name@);
            }
            self.storage.clear_ping(ping_name);
        }
        Ok(text)
    }

    /// The saved state of ping `ping_name`: the payload `collect` at time 0
    /// would give now, with nothing changed.
    pub fn ping_state(&self, ping_name: &String) -> (r: Result<String, ErrorKind>)
        requires
            self.wf(),
        ensures
            match r {
                Ok(s) => has_ping(self@.pings, ping_name@) && s@ == ping_text(
                    ping_name@,
                    self@.pings[ping_index(self@.pings, ping_name@)].seq,
                    0,
                    self@.client_id,
                    ping_entries(self@.records, ping_name@),
                ),
                Err(e) => e == ErrorKind::UnknownPing && !has_ping(self@.pings, ping_name@),
            },
    {
        let i = match self.find_ping(ping_name) {
            Some(i) => i,
            None => return Err(ErrorKind::UnknownPing),
        };
        assert(self@.pings[i as int] == self.pings@[i as int]@);
        let entries = self.storage.snapshot(ping_name);
        Ok(render_ping(ping_name, self.pings[i].seq, 0, &self.client_id, &entries))
    }

    /// The registered pings, in registration order.
    pub fn ping_registry(&self) -> (r: Vec<PingEntry>)
        ensures
            r@.map_values(|p: PingEntry| p@) == self@.pings,
    {
        let mut out: Vec<PingEntry> = Vec::new();
        let mut i: usize = 0;
        while i < self.pings.len()
            invariant
                i <= self.pings.len(),
                out@.map_values(|p: PingEntry| p@) == self@.pings.take(i as int),
            decreases self.pings.len() - i,
        {
            let e = &self.pings[i];
            assert(self@.pings[i as int] == e@);
            let ghost before = out@.map_values(|p: PingEntry| p@);
            let copy = PingEntry { name: e.name.clone(), persistent: e.persistent, seq: e.seq };
            assert(copy@ == e@);
            out.push(copy);
            assert(out@.map_values(|p: PingEntry| p@) =~= before.push(e@));
            assert(self@.pings.take(i + 1) =~= self@.pings.take(i as int).push(self@.pings[i as int]));
            i += 1;
            assert(out@.map_values(|p: PingEntry| p@) =~= self@.pings.take(i as int));
        }
        assert(self@.pings.take(i as int) =~= self@.pings);
        out
    }

    fn restore_members(&mut self, ping: &String, ms: &Vec<ParsedMetric>)
        requires
            old(self).wf(),
        ensures
            final(self).wf(),
            final(self)@ == (GleanModel {
                records: restore_entries(
                    old(self)@.records,
                    ping@,
                    ms@.map_values(|m: ParsedMetric| m@),
                ),
                ..old(self)@
            }),
    {
        let ghost mv = ms@.map_values(|m: ParsedMetric| m@);
        let mut i: usize = 0;
        while i < ms.len()
            invariant
                i <= ms.len(),
                mv == ms@.map_values(|m: ParsedMetric| m@),
                self.wf(),
                self@ == (GleanModel {
                    records: restore_entries(old(self)@.records, ping@, mv.take(i as int)),
                    ..old(self)@
                }),
            decreases ms.len() - i,
        {
            assert(mv.take(i + 1).drop_last() =~= mv.take(i as int));
            assert(mv.take(i + 1).last() == ms@[i as int]@);
            match split_member_key(&ms[i].key) {
                Some((c, n)) => {
                    self.storage.write(ping, &c, &n, ms[i].value.duplicate());
                },
                None => {},
            }
            i += 1;
        }
        assert(mv.take(i as int) =~= mv);
    }

    /// Loads the saved state `text` of a ping: the ping is registered with
    /// lifetime `persistent` and the saved sequence number, and, while upload
    /// is on, every saved metric is stored under it (with upload off nothing
    /// is stored). A text that does not read back is
    /// `StorageUnavailable`, and nothing changes.
    pub fn restore_ping(&mut self, text: &String, persistent: bool) -> (r: Result<(), ErrorKind>)
        requires
            old(self).wf(),
        ensures
            final(self).wf(),
            (final(self)@, r) == restore_model(old(self)@, text@, persistent),
    {
        let parsed: ParsedPing = match parse_ping(text) {
            Some(p) => p,
            None => return Err(ErrorKind::StorageUnavailable),
        };
        self.register_ping(&parsed.name, persistent);
        let i = match self.find_ping(&parsed.name) {
            Some(i) => i,
            None => {
                assert(has_ping(self@.pings, parsed.name@)) by {
                    let ps = old(self)@.pings;
                    if !has_ping(ps, parsed.name@) {
                        assert(self@.pings[ps.len() as int].name == parsed.name@);
                    }
                }
                return Err(ErrorKind::StorageUnavailable);
            },
        };
        let ghost ps0 = self@.pings;
        let persistent_now = self.pings[i].persistent;
        assert(ps0[i as int] == self.pings@[i as int]@);
        self.pings.set(i, PingEntry { name: parsed.name.clone(), persistent: persistent_now, seq: parsed.seq });
        assert(self@.pings =~= with_seq(ps0, parsed.name@, parsed.seq));
        assert(unique_pings(self@.pings)) by {
            let ps = self@.pings;
            assert forall|a: int, b: int|
                0 <= a < ps.len() && 0 <= b < ps.len() && a != b implies (
                #[trigger] ps[a]).name != (#[trigger] ps[b]).name by {
                assert(ps[a].name == ps0[a].name);
                assert(ps[b].name == ps0[b].name);
            }
        }
        if self.upload_enabled {
            self.restore_members(&parsed.name, &parsed.booleans);
            self.restore_members(&parsed.name, &parsed.counters);
            self.restore_members(&parsed.name, &parsed.strings);
        }
        Ok(())
    }

    /// The saved line of ping `ping_name`; see `store_line`.
    pub fn save_line(&self, ping_name: &String) -> (r: Result<String, ErrorKind>)
        requires
            self.wf(),
        ensures
            match r {
                Ok(s) => has_ping(self@.pings, ping_name@) && s@ == store_line(
                    self@.pings[ping_index(self@.pings, ping_name@)].persistent,
                    ping_text(
                        ping_name@,
                        self@.pings[ping_index(self@.pings, ping_name@)].seq,
                        0,
                        self@.client_id,
                        ping_entries(self@.records, ping_name@),
                    ),
                ),
                Err(e) => e == ErrorKind::UnknownPing && !has_ping(self@.pings, ping_name@),
            },
    {
        let state = match self.ping_state(ping_name) {
            Ok(s) => s,
            Err(e) => return Err(e),
        };
        let i = match self.find_ping(ping_name) {
            Some(i) => i,
            None => return Err(ErrorKind::UnknownPing),
        };
        assert(self@.pings[i as int] == self.pings@[i as int]@);
        let mut line = if self.pings[i].persistent {
            String::from_str("p ")
        } else {
            String::from_str("t ")
        };
        line.append(state.as_str());
        Ok(line)
    }

    /// Loads a saved line; see `store_line` and `restore_ping`. A line that
    /// does not start with `p ` or `t ` is `StorageUnavailable`, and nothing
    /// changes.
    pub fn restore_line(&mut self, line: &String) -> (r: Result<(), ErrorKind>)
        requires
            old(self).wf(),
        ensures
            final(self).wf(),
            (exists|st: Seq<char>, p: bool| line@ == #[trigger] store_line(p, st)) || (r == Err::<
                (),
                ErrorKind,
            >(ErrorKind::StorageUnavailable) && final(self)@ == old(self)@),
            forall|st: Seq<char>, p: bool|
                line@ == #[trigger] store_line(p, st) ==> (final(self)@, r) == restore_model(
                    old(self)@,
                    st,
                    p,
                ),
    {
        proof {
            reveal_strlit("p ");
            reveal_strlit("t ");
        }
        let st = line.as_str();
        let n = st.unicode_len();
        if n < 2 || st.get_char(1) != ' ' {
            return Err(ErrorKind::StorageUnavailable);
        }
        let flag = st.get_char(0);
        if flag != 'p' && flag != 't' {
            return Err(ErrorKind::StorageUnavailable);
        }
        let state = st.substring_char(2, n).to_owned();
        let persistent = flag == 'p';
        assert(line@ =~= store_line(persistent, state@));
        proof {
            assert forall|st2: Seq<char>, p2: bool| line@ == #[trigger] store_line(p2, st2) implies
                st2 == state@ && p2 == persistent by {
                assert(line@[0] == store_line(p2, st2)[0]);
                assert(st2 =~= line@.skip(2));
                assert(state@ =~= line@.skip(2));
            }
        }
        self.restore_ping(&state, persistent)
    }

    fn store_line_at(&self, i: usize) -> (r: String)
        requires
            self.wf(),
            i < self@.pings.len(),
        ensures
            r@ == store_line(
                self@.pings[i as int].persistent,
                ping_text(
                    self@.pings[i as int].name,
                    self@.pings[i as int].seq,
                    0,
                    self@.client_id,
                    ping_entries(self@.records, self@.pings[i as int].name),
                ),
            ) + "\n"@,
    {
        let e = &self.pings[i];
        assert(self@.pings[i as int] == e@);
        let entries = self.storage.snapshot(&e.name);
        let state = render_ping(&e.name, e.seq, 0, &self.client_id, &entries);
        let mut out = if e.persistent {
            String::from_str("p ")
        } else {
            String::from_str("t ")
        };
        out.append(state.as_str());
        out.append("\n");
        out
    }

    /// The saved store: `store_text`.
    pub fn save_store(&self) -> (r: String)
        requires
            self.wf(),
        ensures
            r@ == store_text(self@),
    {
        let mut out = String::from_str("glean-store 1\nclient ");
        out.append(self.client_id.as_str());
        out.append("\n");
        let ghost g = self@;
        let mut i: usize = 0;
        while i < self.pings.len()
            invariant
                i <= self.pings.len(),
                self.wf(),
                g == self@,
                g.pings.len() == self.pings.len(),
                out@ == store_prefix(g.client_id) + store_lines(g, g.pings.take(i as int)),
            decreases self.pings.len() - i,
        {
            let line = self.store_line_at(i);
            let ghost before = out@;
            out.append(line.as_str());
            proof {
                let ps = g.pings.take(i + 1);
                assert(ps.drop_last() =~= g.pings.take(i as int));
                assert(ps.last() == g.pings[i as int]);
                assert(out@ =~= store_prefix(g.client_id) + store_lines(g, ps));
            }
            i += 1;
        }
        assert(g.pings.take(i as int) =~= g.pings);
        out
    }

    /// Counts one more clamped value, saturating.
    pub(crate) fn note_clamped(&mut self)
        requires
            old(self).wf(),
        ensures
            final(self).wf(),
            final(self)@ == (GleanModel {
                clamped_values: saturating(old(self)@.clamped_values, 1),
                ..old(self)@
            }),
    {
        self.clamped_values = self.clamped_values.saturating_add(1);
    }
}

} // verus!
