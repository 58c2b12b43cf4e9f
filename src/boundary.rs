use vstd::prelude::*;
use vstd::string::StringExecFns;

use crate::error::ErrorKind;
use crate::glean::{
    add_model, collect_model, initialize_model, restore_model, set_upload_model, store_line, Glean,
    GleanModel,
};
use crate::metrics::{
    create_model, metric_wf, BooleanMetric, CommonMetricData, CounterMetric, MetaModel,
    StringMetric,
};

verus! {

/// The ping that metrics created through handles are sent in.
pub open spec fn core_ping() -> Seq<char> {
    "core"@
}

/// The identity a handle-created metric asks for.
pub open spec fn handle_meta(name: Seq<char>, category: Seq<char>) -> MetaModel {
    MetaModel { category, name, pings: seq![core_ping()], disabled: false }
}

pub struct HostModel {
    pub glean: GleanModel,
    pub booleans: Seq<MetaModel>,
    /// Which boolean handles have not been destroyed.
    pub boolean_live: Seq<bool>,
    pub strings: Seq<MetaModel>,
    pub counters: Seq<MetaModel>,
}

/// One engine and the metrics created for callers that hold integer handles;
/// a handle is the metric's position in the arena of its type.
#[derive(Debug)]
pub struct GleanHost {
    glean: Glean,
    booleans: Vec<BooleanMetric>,
    boolean_live: Vec<bool>,
    strings: Vec<StringMetric>,
    counters: Vec<CounterMetric>,
}

impl View for GleanHost {
    type V = HostModel;

    closed spec fn view(&self) -> HostModel {
        HostModel {
            glean: self.glean@,
            booleans: self.booleans@.map_values(|m: BooleanMetric| m@),
            boolean_live: self.boolean_live@,
            strings: self.strings@.map_values(|m: StringMetric| m@),
            counters: self.counters@.map_values(|m: CounterMetric| m@),
        }
    }
}

/// A metric as handles create it: valid, sent in the core ping only, enabled.
pub open spec fn handle_metric_wf(m: MetaModel) -> bool {
    metric_wf(m) && m.pings == seq![core_ping()] && !m.disabled
}

/// The engine is well formed and every metric in the arenas is a valid,
/// enabled metric of the core ping.
pub open spec fn host_wf(h: HostModel) -> bool {
    &&& crate::glean::model_wf(h.glean)
    &&& forall|i: int| 0 <= i < h.booleans.len() ==> handle_metric_wf(#[trigger] h.booleans[i])
    &&& h.boolean_live.len() == h.booleans.len()
    &&& forall|i: int| 0 <= i < h.strings.len() ==> handle_metric_wf(#[trigger] h.strings[i])
    &&& forall|i: int| 0 <= i < h.counters.len() ==> handle_metric_wf(#[trigger] h.counters[i])
}

/// How many handles each metric type has room for.
pub const HANDLE_SPAN: u64 = 0x0001_0000_0000_0000;

/// Handles of boolean metrics lie just above this base.
pub const BOOLEAN_HANDLE_BASE: u64 = 0x0001_0000_0000_0000;

/// Handles of string metrics lie just above this base.
pub const STRING_HANDLE_BASE: u64 = 0x0002_0000_0000_0000;

/// Handles of counter metrics lie just above this base.
pub const COUNTER_HANDLE_BASE: u64 = 0x0003_0000_0000_0000;

/// Whether `id` names the metric at a place of an arena of length `len`
/// whose handles lie above `base`; 0 and other types' handles never do.
pub open spec fn handle_in(base: u64, len: int, id: u64) -> bool {
    base < id && id - base <= len
}

/// The arena place a handle names: handles count from `base + 1`.
pub open spec fn handle_index(base: u64, id: u64) -> int {
    id - base - 1
}

proof fn lemma_handle_meta_normalized(name: Seq<char>, category: Seq<char>)
    ensures
        crate::metrics::normalized(handle_meta(name, category)).pings == seq![core_ping()],
{
    let one = seq![core_ping()];
    assert(one.drop_last() =~= Seq::<Seq<char>>::empty());
    assert(crate::metrics::dedup(one.drop_last()) == Seq::<Seq<char>>::empty());
    assert(!Seq::<Seq<char>>::empty().contains(core_ping()));
    assert(Seq::<Seq<char>>::empty().push(core_ping()) =~= one);
}

impl GleanHost {
    pub open spec fn wf(&self) -> bool {
        host_wf(self@)
    }

    /// A host with a fresh engine and no metrics.
    pub fn new() -> (r: GleanHost)
        ensures
            r.wf(),
            r@.glean.initialized == false,
            r@.glean.upload_enabled == true,
            r@.glean.records.len() == 0,
            r@.glean.pings.len() == 0,
            r@.booleans.len() == 0,
            r@.strings.len() == 0,
            r@.counters.len() == 0,
    {
        let r = GleanHost {
            glean: Glean::new(),
            booleans: Vec::new(),
            boolean_live: Vec::new(),
            strings: Vec::new(),
            counters: Vec::new(),
        };
        assert(r@.booleans =~= Seq::<MetaModel>::empty());
        assert(r@.boolean_live =~= Seq::<bool>::empty());
        assert(r@.strings =~= Seq::<MetaModel>::empty());
        assert(r@.counters =~= Seq::<MetaModel>::empty());
        r
    }

    /// The engine itself.
    pub fn glean(&self) -> (r: &Glean)
        ensures
            r@ == self@.glean,
    {
        &self.glean
    }
}

fn core_meta(name: &String, category: &String) -> (r: CommonMetricData)
    ensures
        r@ == handle_meta(name@, category@),
{
    let mut pings: Vec<String> = Vec::new();
    pings.push(String::from_str("core"));
    let r = CommonMetricData {
        name: name.clone(),
        category: category.clone(),
        send_in_pings: pings,
        disabled: false,
    };
    assert(r@.pings =~= seq![core_ping()]);
    r
}

/// Binds the engine to `data_dir`; see `initialize_model`.
pub fn glean_initialize(host: &mut GleanHost, data_dir: &String) -> (r: Result<(), ErrorKind>)
    requires
        old(host).wf(),
    ensures
        final(host).wf(),
        (final(host)@.glean, r) == initialize_model(old(host)@.glean, data_dir@),
        final(host)@ == (HostModel { glean: final(host)@.glean, ..old(host)@ }),
{
    host.glean.initialize(data_dir)
}

/// 1 when the engine is initialized, else 0.
pub fn glean_is_initialized(host: &GleanHost) -> (r: u8)
    ensures
        r == (if host@.glean.initialized { 1u8 } else { 0u8 }),
{
    if host.glean.is_initialized() {
        1
    } else {
        0
    }
}

/// 1 when upload is enabled, else 0.
pub fn glean_is_upload_enabled(host: &GleanHost) -> (r: u8)
    ensures
        r == (if host@.glean.upload_enabled { 1u8 } else { 0u8 }),
{
    if host.glean.is_upload_enabled() {
        1
    } else {
        0
    }
}

/// Enables upload for any non-zero `flag`, disables it (and purges) for 0.
pub fn glean_set_upload_enabled(host: &mut GleanHost, flag: u8)
    requires
        old(host).wf(),
    ensures
        final(host).wf(),
        final(host)@ == (HostModel {
            glean: set_upload_model(old(host)@.glean, flag != 0),
            ..old(host)@
        }),
{
    host.glean.set_upload_enabled(flag != 0);
    assert(host@.booleans == old(host)@.booleans);
    assert(host@.boolean_live == old(host)@.boolean_live);
    assert(host@.strings == old(host)@.strings);
    assert(host@.counters == old(host)@.counters);
}

/// Creates a boolean metric sent in the core ping; the result is its handle,
/// `BOOLEAN_HANDLE_BASE` plus its place in the boolean arena counted
/// from 1.
pub fn glean_new_boolean_metric(host: &mut GleanHost, name: &String, category: &String) -> (r:
    Result<u64, ErrorKind>)
    requires
        old(host).wf(),
    ensures
        final(host).wf(),
        old(host)@.booleans.len() >= HANDLE_SPAN - 1 ==> r == Err::<u64, ErrorKind>(ErrorKind::InvalidHandle) && final(host)@
            == old(host)@,
        old(host)@.booleans.len() < HANDLE_SPAN - 1 ==> final(host)@.glean == create_model(
            old(host)@.glean,
            handle_meta(name@, category@),
        ).0,
        final(host)@.strings == old(host)@.strings,
        final(host)@.counters == old(host)@.counters,
        old(host)@.booleans.len() < HANDLE_SPAN - 1 ==> match r {
            Ok(id) => {
                &&& create_model(old(host)@.glean, handle_meta(name@, category@)).1 is Ok
                &&& id == BOOLEAN_HANDLE_BASE + old(host)@.booleans.len() + 1
                &&& final(host)@.boolean_live == old(host)@.boolean_live.push(true)
                &&& final(host)@.booleans == old(host)@.booleans.push(
                    create_model(old(host)@.glean, handle_meta(name@, category@)).1->Ok_0,
                )
            },
            Err(e) => {
                &&& create_model(old(host)@.glean, handle_meta(name@, category@)).1 == Err::<
                    MetaModel,
                    ErrorKind,
                >(e)
                &&& final(host)@.booleans == old(host)@.booleans
                &&& final(host)@.boolean_live == old(host)@.boolean_live
            },
        },
{
    if host.booleans.len() as u64 >= HANDLE_SPAN - 1 {
        return Err(ErrorKind::InvalidHandle);
    }
    let meta = core_meta(name, category);
    let r = BooleanMetric::new(&mut host.glean, meta);
    assert(host@.booleans == old(host)@.booleans);
    assert(host@.boolean_live == old(host)@.boolean_live);
    assert(host@.strings == old(host)@.strings);
    assert(host@.counters == old(host)@.counters);
    match r {
        Ok(m) => {
            let id = BOOLEAN_HANDLE_BASE + host.booleans.len() as u64 + 1;
            proof {
                lemma_handle_meta_normalized(name@, category@);
            }
            let ghost pre = host@.booleans;
            host.booleans.push(m);
            host.boolean_live.push(true);
            assert(host@.booleans =~= pre.push(m@));
            assert forall|j: int| 0 <= j < host@.booleans.len() implies handle_metric_wf(#[trigger] host@.booleans[j]) by {
                if j < pre.len() {
                    assert(host@.booleans[j] == old(host)@.booleans[j]);
                }
            }
            assert(host@.booleans =~= old(host)@.booleans.push(
                create_model(old(host)@.glean, handle_meta(name@, category@)).1->Ok_0,
            ));
            Ok(id)
        },
        Err(e) => Err(e),
    }
}

/// Creates a string metric sent in the core ping; the result is its handle,
/// `STRING_HANDLE_BASE` plus its place in the string arena counted
/// from 1.
pub fn glean_new_string_metric(host: &mut GleanHost, name: &String, category: &String) -> (r:
    Result<u64, ErrorKind>)
    requires
        old(host).wf(),
    ensures
        final(host).wf(),
        old(host)@.strings.len() >= HANDLE_SPAN - 1 ==> r == Err::<u64, ErrorKind>(ErrorKind::InvalidHandle) && final(host)@
            == old(host)@,
        old(host)@.strings.len() < HANDLE_SPAN - 1 ==> final(host)@.glean == create_model(
            old(host)@.glean,
            handle_meta(name@, category@),
        ).0,
        final(host)@.booleans == old(host)@.booleans,
        final(host)@.boolean_live == old(host)@.boolean_live,
        final(host)@.counters == old(host)@.counters,
        old(host)@.strings.len() < HANDLE_SPAN - 1 ==> match r {
            Ok(id) => {
                &&& create_model(old(host)@.glean, handle_meta(name@, category@)).1 is Ok
                &&& id == STRING_HANDLE_BASE + old(host)@.strings.len() + 1
                &&& final(host)@.strings == old(host)@.strings.push(
                    create_model(old(host)@.glean, handle_meta(name@, category@)).1->Ok_0,
                )
            },
            Err(e) => {
                &&& create_model(old(host)@.glean, handle_meta(name@, category@)).1 == Err::<
                    MetaModel,
                    ErrorKind,
                >(e)
                &&& final(host)@.strings == old(host)@.strings
            },
        },
{
    if host.strings.len() as u64 >= HANDLE_SPAN - 1 {
        return Err(ErrorKind::InvalidHandle);
    }
    let meta = core_meta(name, category);
    let r = StringMetric::new(&mut host.glean, meta);
    assert(host@.strings == old(host)@.strings);
    assert(host@.booleans == old(host)@.booleans);
    assert(host@.boolean_live == old(host)@.boolean_live);
    assert(host@.counters == old(host)@.counters);
    match r {
        Ok(m) => {
            let id = STRING_HANDLE_BASE + host.strings.len() as u64 + 1;
            proof {
                lemma_handle_meta_normalized(name@, category@);
            }
            let ghost pre = host@.strings;
            host.strings.push(m);
            assert(host@.strings =~= pre.push(m@));
            assert forall|j: int| 0 <= j < host@.strings.len() implies handle_metric_wf(#[trigger] host@.strings[j]) by {
                if j < pre.len() {
                    assert(host@.strings[j] == old(host)@.strings[j]);
                }
            }
            assert(host@.strings =~= old(host)@.strings.push(
                create_model(old(host)@.glean, handle_meta(name@, category@)).1->Ok_0,
            ));
            Ok(id)
        },
        Err(e) => Err(e),
    }
}

/// Creates a counter metric sent in the core ping; the result is its handle,
/// `COUNTER_HANDLE_BASE` plus its place in the counter arena counted
/// from 1.
pub fn glean_new_counter_metric(host: &mut GleanHost, name: &String, category: &String) -> (r:
    Result<u64, ErrorKind>)
    requires
        old(host).wf(),
    ensures
        final(host).wf(),
        old(host)@.counters.len() >= HANDLE_SPAN - 1 ==> r == Err::<u64, ErrorKind>(ErrorKind::InvalidHandle) && final(host)@
            == old(host)@,
        old(host)@.counters.len() < HANDLE_SPAN - 1 ==> final(host)@.glean == create_model(
            old(host)@.glean,
            handle_meta(name@, category@),
        ).0,
        final(host)@.booleans == old(host)@.booleans,
        final(host)@.boolean_live == old(host)@.boolean_live,
        final(host)@.strings == old(host)@.strings,
        old(host)@.counters.len() < HANDLE_SPAN - 1 ==> match r {
            Ok(id) => {
                &&& create_model(old(host)@.glean, handle_meta(name@, category@)).1 is Ok
                &&& id == COUNTER_HANDLE_BASE + old(host)@.counters.len() + 1
                &&& final(host)@.counters == old(host)@.counters.push(
                    create_model(old(host)@.glean, handle_meta(name@, category@)).1->Ok_0,
                )
            },
            Err(e) => {
                &&& create_model(old(host)@.glean, handle_meta(name@, category@)).1 == Err::<
                    MetaModel,
                    ErrorKind,
                >(e)
                &&& final(host)@.counters == old(host)@.counters
            },
        },
{
    if host.counters.len() as u64 >= HANDLE_SPAN - 1 {
        return Err(ErrorKind::InvalidHandle);
    }
    let meta = core_meta(name, category);
    let r = CounterMetric::new(&mut host.glean, meta);
    assert(host@.counters == old(host)@.counters);
    assert(host@.booleans == old(host)@.booleans);
    assert(host@.boolean_live == old(host)@.boolean_live);
    assert(host@.strings == old(host)@.strings);
    match r {
        Ok(m) => {
            let id = COUNTER_HANDLE_BASE + host.counters.len() as u64 + 1;
            proof {
                lemma_handle_meta_normalized(name@, category@);
            }
            let ghost pre = host@.counters;
            host.counters.push(m);
            assert(host@.counters =~= pre.push(m@));
            assert forall|j: int| 0 <= j < host@.counters.len() implies handle_metric_wf(#[trigger] host@.counters[j]) by {
                if j < pre.len() {
                    assert(host@.counters[j] == old(host)@.counters[j]);
                }
            }
            assert(host@.counters =~= old(host)@.counters.push(
                create_model(old(host)@.glean, handle_meta(name@, category@)).1->Ok_0,
            ));
            Ok(id)
        },
        Err(e) => Err(e),
    }
}

/// Adds `amount` to the counter with handle `metric_id`; a handle that names
/// no counter (0, another type's, one past the arena) is `InvalidHandle`.
pub fn glean_counter_add(host: &mut GleanHost, metric_id: u64, amount: u64) -> (r: Result<
    (),
    ErrorKind,
>)
    requires
        old(host).wf(),
    ensures
        final(host).wf(),
        final(host)@.booleans == old(host)@.booleans,
        final(host)@.boolean_live == old(host)@.boolean_live,
        final(host)@.strings == old(host)@.strings,
        final(host)@.counters == old(host)@.counters,
        !handle_in(COUNTER_HANDLE_BASE, old(host)@.counters.len() as int, metric_id) ==> r == Err::<(), ErrorKind>(
            ErrorKind::InvalidHandle,
        ) && final(host)@.glean == old(host)@.glean,
        handle_in(COUNTER_HANDLE_BASE, old(host)@.counters.len() as int, metric_id) ==> ({
            let m = old(host)@.counters[handle_index(COUNTER_HANDLE_BASE, metric_id)];
            (final(host)@.glean, r) == add_model(
                old(host)@.glean,
                m.category,
                m.name,
                seq![core_ping()],
                false,
                amount,
            )
        }),
{
    if metric_id <= COUNTER_HANDLE_BASE || metric_id - COUNTER_HANDLE_BASE > host.counters.len() as u64 {
        return Err(ErrorKind::InvalidHandle);
    }
    let i = (metric_id - COUNTER_HANDLE_BASE - 1) as usize;
    assert(host@.counters[i as int] == host.counters@[i as int]@);
    let r = host.counters[i].add(&mut host.glean, amount);
    assert(host@.counters == old(host)@.counters);
    assert(host@.booleans == old(host)@.booleans);
    assert(host@.boolean_live == old(host)@.boolean_live);
    assert(host@.strings == old(host)@.strings);
    r
}

/// Destroys the boolean metric with handle `metric_id`; 0, a handle past the
/// arena and a handle already destroyed are `InvalidHandle`. A destroyed
/// handle is never issued again.
pub fn glean_destroy_boolean_metric(host: &mut GleanHost, metric_id: u64) -> (r: Result<
    (),
    ErrorKind,
>)
    requires
        old(host).wf(),
    ensures
        final(host).wf(),
        ({
            let live = handle_in(BOOLEAN_HANDLE_BASE, old(host)@.booleans.len() as int, metric_id)
                && old(host)@.boolean_live[handle_index(BOOLEAN_HANDLE_BASE, metric_id)];
            &&& live ==> r == Ok::<(), ErrorKind>(()) && final(host)@ == (HostModel {
                boolean_live: old(host)@.boolean_live.update(
                    handle_index(BOOLEAN_HANDLE_BASE, metric_id),
                    false,
                ),
                ..old(host)@
            })
            &&& !live ==> r == Err::<(), ErrorKind>(ErrorKind::InvalidHandle) && final(host)@
                == old(host)@
        }),
{
    if metric_id <= BOOLEAN_HANDLE_BASE || metric_id - BOOLEAN_HANDLE_BASE > host.booleans.len() as u64 {
        return Err(ErrorKind::InvalidHandle);
    }
    let i = (metric_id - BOOLEAN_HANDLE_BASE - 1) as usize;
    if !host.boolean_live[i] {
        return Err(ErrorKind::InvalidHandle);
    }
    host.boolean_live.set(i, false);
    assert(host@.booleans == old(host)@.booleans);
    Ok(())
}

/// Sets the identifier that payloads carry.
pub fn glean_set_client_id(host: &mut GleanHost, id: &String)
    requires
        old(host).wf(),
    ensures
        final(host).wf(),
        final(host)@ == (HostModel {
            glean: GleanModel { client_id: id@, ..old(host)@.glean },
            ..old(host)@
        }),
{
    host.glean.set_client_id(id);
    assert(host@.counters == old(host)@.counters);
    assert(host@.booleans == old(host)@.booleans);
    assert(host@.boolean_live == old(host)@.boolean_live);
    assert(host@.strings == old(host)@.strings);
}

/// Loads one saved line into the engine; see `Glean::restore_line`.
pub fn glean_restore_line(host: &mut GleanHost, line: &String) -> (r: Result<(), ErrorKind>)
    requires
        old(host).wf(),
    ensures
        final(host).wf(),
        final(host)@ == (HostModel { glean: final(host)@.glean, ..old(host)@ }),
        (exists|st: Seq<char>, p: bool| line@ == #[trigger] store_line(p, st)) || (r == Err::<
            (),
            ErrorKind,
        >(ErrorKind::StorageUnavailable) && final(host)@.glean == old(host)@.glean),
        forall|st: Seq<char>, p: bool|
            line@ == #[trigger] store_line(p, st) ==> (final(host)@.glean, r) == restore_model(
                old(host)@.glean,
                st,
                p,
            ),
{
    let r = host.glean.restore_line(line);
    assert(host@.counters == old(host)@.counters);
    assert(host@.booleans == old(host)@.booleans);
    assert(host@.boolean_live == old(host)@.boolean_live);
    assert(host@.strings == old(host)@.strings);
    r
}

/// Assembles the payload of ping `ping_name` collected at `time`; see
/// `collect_model`.
pub fn glean_ping_collect(host: &mut GleanHost, ping_name: &String, time: u64) -> (r: Result<
    String,
    ErrorKind,
>)
    requires
        old(host).wf(),
    ensures
        final(host).wf(),
        final(host)@ == (HostModel {
            glean: collect_model(old(host)@.glean, ping_name@, time).0,
            ..old(host)@
        }),
        match r {
            Ok(s) => collect_model(old(host)@.glean, ping_name@, time).1 == Ok::<Seq<char>, ErrorKind>(
                s@,
            ),
            Err(e) => collect_model(old(host)@.glean, ping_name@, time).1 == Err::<
                Seq<char>,
                ErrorKind,
            >(e),
        },
{
    let r = host.glean.collect(ping_name, time);
    assert(host@.counters == old(host)@.counters);
    r
}

} // verus!
