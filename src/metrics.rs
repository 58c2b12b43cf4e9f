use vstd::prelude::*;
use vstd::string::StrSliceExecFns;
use vstd::string::StringExecFns;

use crate::error::ErrorKind;
use crate::glean::{
    add_model, records_now, register_all, set_model, Glean, GleanModel,
};
use crate::value::{saturating, MetricValue, ValueModel};

verus! {

/// Longest text a string metric stores, in characters; longer values are cut
/// to this length.
pub const MAX_STRING_LENGTH: usize = 100;

/// Identity and routing of a metric.
#[derive(Debug)]
pub struct CommonMetricData {
    pub name: String,
    pub category: String,
    /// The pings the metric is sent in; empty means the default ping.
    pub send_in_pings: Vec<String>,
    /// A disabled metric records nothing.
    pub disabled: bool,
}

pub struct MetaModel {
    pub category: Seq<char>,
    pub name: Seq<char>,
    pub pings: Seq<Seq<char>>,
    pub disabled: bool,
}

impl View for CommonMetricData {
    type V = MetaModel;

    open spec fn view(&self) -> MetaModel {
        MetaModel {
            category: self.category@,
            name: self.name@,
            pings: self.send_in_pings@.map_values(|s: String| s@),
            disabled: self.disabled,
        }
    }
}

/// Characters allowed in a category or a name.
pub open spec fn allowed_char(c: char) -> bool {
    ('a' <= c && c <= 'z') || ('0' <= c && c <= '9') || c == '_'
}

/// A category or a metric name: not empty, only `[a-z0-9_]`.
pub open spec fn valid_identifier(s: Seq<char>) -> bool {
    s.len() > 0 && forall|i: int| 0 <= i < s.len() ==> allowed_char(#[trigger] s[i])
}

/// `s` without repeats, each ping at its first place.
pub open spec fn dedup(s: Seq<Seq<char>>) -> Seq<Seq<char>>
    decreases s.len(),
{
    if s.len() == 0 {
        s
    } else {
        let d = dedup(s.drop_last());
        if d.contains(s.last()) {
            d
        } else {
            d.push(s.last())
        }
    }
}

/// The ping a metric is sent in when it names none.
pub open spec fn default_ping() -> Seq<char> {
    "baseline"@
}

/// The pings a metric ends up with.
pub open spec fn normalized_pings(s: Seq<Seq<char>>) -> Seq<Seq<char>> {
    if s.len() == 0 {
        seq![default_ping()]
    } else {
        dedup(s)
    }
}

/// The identity a new metric gets from `meta`.
pub open spec fn normalized(meta: MetaModel) -> MetaModel {
    MetaModel { pings: normalized_pings(meta.pings), ..meta }
}

/// What a metric handle holds: a valid identity and a non-empty list of
/// distinct pings.
pub open spec fn metric_wf(m: MetaModel) -> bool {
    valid_identifier(m.category) && valid_identifier(m.name) && m.pings.len() > 0
        && m.pings.no_duplicates()
}

/// The outcome of creating a metric from `meta`: its pings are registered.
pub open spec fn create_model(g: GleanModel, meta: MetaModel) -> (GleanModel, Result<
    MetaModel,
    ErrorKind,
>) {
    if valid_identifier(meta.category) && valid_identifier(meta.name) {
        (
            GleanModel { pings: register_all(g.pings, normalized(meta).pings), ..g },
            Ok(normalized(meta)),
        )
    } else {
        (g, Err(ErrorKind::InvalidMetricIdentity))
    }
}

/// A text value as a string metric stores it.
pub open spec fn clamp_text(t: Seq<char>) -> Seq<char> {
    if t.len() > MAX_STRING_LENGTH {
        t.take(MAX_STRING_LENGTH as int)
    } else {
        t
    }
}

/// The outcome of setting a string metric: the text is clamped, and a clamp
/// that is recorded is counted.
pub open spec fn set_text_model(g: GleanModel, m: MetaModel, t: Seq<char>) -> (GleanModel, Result<
    (),
    ErrorKind,
>) {
    let (g1, r) = set_model(g, m.category, m.name, m.pings, m.disabled, ValueModel::Text(clamp_text(t)));
    if records_now(g, m.disabled) && t.len() > MAX_STRING_LENGTH {
        (GleanModel { clamped_values: saturating(g1.clamped_values, 1), ..g1 }, r)
    } else {
        (g1, r)
    }
}

/// Whether `s` is a valid category or name.
pub fn is_valid_identifier(s: &String) -> (r: bool)
    ensures
        r == valid_identifier(s@),
{
    let st = s.as_str();
    let n = st.unicode_len();
    if n == 0 {
        return false;
    }
    let mut i: usize = 0;
    while i < n
        invariant
            i <= n,
            n == s@.len(),
            st@ == s@,
            forall|j: int| 0 <= j < i ==> allowed_char(#[trigger] s@[j]),
        decreases n - i,
    {
        let c = st.get_char(i);
        if !(('a' <= c && c <= 'z') || ('0' <= c && c <= '9') || c == '_') {
            return false;
        }
        i += 1;
    }
    true
}

/// The pings of `pings` without repeats, or the default ping when empty.
pub fn normalize_pings(pings: &Vec<String>) -> (r: Vec<String>)
    ensures
        r@.map_values(|s: String| s@) == normalized_pings(pings@.map_values(|s: String| s@)),
{
    let ghost ps = pings@.map_values(|s: String| s@);
    if pings.len() == 0 {
        let mut r: Vec<String> = Vec::new();
        r.push(String::from_str("baseline"));
        assert(r@.map_values(|s: String| s@) =~= normalized_pings(ps));
        return r;
    }
    let mut out: Vec<String> = Vec::new();
    let mut i: usize = 0;
    while i < pings.len()
        invariant
            i <= pings.len(),
            ps == pings@.map_values(|s: String| s@),
            out@.map_values(|s: String| s@) == dedup(ps.take(i as int)),
        decreases pings.len() - i,
    {
        assert(ps.take(i + 1).drop_last() =~= ps.take(i as int));
        let ghost d = dedup(ps.take(i as int));
        let mut found = false;
        let mut j: usize = 0;
        while j < out.len()
            invariant
                j <= out.len(),
                d == out@.map_values(|s: String| s@),
                i < pings.len(),
                found == exists|k: int| 0 <= k < j && d[k] == pings@[i as int]@,
            decreases out.len() - j,
        {
            let ghost p = pings@[i as int]@;
            assert(d[j as int] == out@[j as int]@);
            if out[j] == pings[i] {
                found = true;
                assert(0 <= j < j + 1 && d[j as int] == p);
            }
            proof {
                if exists|k: int| 0 <= k < j + 1 && d[k] == p {
                    let k = choose|k: int| 0 <= k < j + 1 && d[k] == p;
                    if k < j {
                        assert(exists|k2: int| 0 <= k2 < j && d[k2] == p);
                    }
                }
            }
            j += 1;
        }
        assert(ps.take(i + 1).last() == pings@[i as int]@);
        if !found {
            out.push(pings[i].clone());
        }
        i += 1;
        assert(out@.map_values(|s: String| s@) =~= dedup(ps.take(i as int)));
    }
    assert(ps.take(i as int) =~= ps);
    out
}

/// `dedup` leaves no repeats.
pub proof fn lemma_dedup_distinct(s: Seq<Seq<char>>)
    ensures
        dedup(s).no_duplicates(),
        dedup(s).len() > 0 || s.len() == 0,
    decreases s.len(),
{
    if s.len() > 0 {
        lemma_dedup_distinct(s.drop_last());
    }
}

/// Validates `meta`, fixes its pings, and registers them with `glean`.
pub fn prepare_metric(glean: &mut Glean, meta: CommonMetricData) -> (r: Result<
    CommonMetricData,
    ErrorKind,
>)
    requires
        old(glean).wf(),
    ensures
        final(glean).wf(),
        final(glean)@ == create_model(old(glean)@, meta@).0,
        match r {
            Ok(m) => create_model(old(glean)@, meta@).1 == Ok::<MetaModel, ErrorKind>(m@)
                && metric_wf(m@),
            Err(e) => create_model(old(glean)@, meta@).1 == Err::<MetaModel, ErrorKind>(e),
        },
{
    if !is_valid_identifier(&meta.category) || !is_valid_identifier(&meta.name) {
        return Err(ErrorKind::InvalidMetricIdentity);
    }
    let pings = normalize_pings(&meta.send_in_pings);
    proof {
        lemma_dedup_distinct(meta@.pings);
        reveal_strlit("baseline");
        assert(seq![default_ping()].no_duplicates());
    }
    glean.register_pings(&pings);
    let m = CommonMetricData {
        name: meta.name,
        category: meta.category,
        send_in_pings: pings,
        disabled: meta.disabled,
    };
    assert(m@ == normalized(meta@));
    Ok(m)
}

/// A metric holding a flag; the last write wins.
#[derive(Debug)]
pub struct BooleanMetric {
    meta: CommonMetricData,
}

/// A metric holding a text of at most `MAX_STRING_LENGTH` characters; the
/// last write wins.
#[derive(Debug)]
pub struct StringMetric {
    meta: CommonMetricData,
}

/// A metric counting up from 0, saturating at `u64::MAX`.
#[derive(Debug)]
pub struct CounterMetric {
    meta: CommonMetricData,
}

impl View for BooleanMetric {
    type V = MetaModel;

    closed spec fn view(&self) -> MetaModel {
        self.meta@
    }
}

impl View for StringMetric {
    type V = MetaModel;

    closed spec fn view(&self) -> MetaModel {
        self.meta@
    }
}

impl View for CounterMetric {
    type V = MetaModel;

    closed spec fn view(&self) -> MetaModel {
        self.meta@
    }
}

impl BooleanMetric {
    /// Creates the metric and registers its pings with `glean`.
    pub fn new(glean: &mut Glean, meta: CommonMetricData) -> (r: Result<BooleanMetric, ErrorKind>)
        requires
            old(glean).wf(),
        ensures
            final(glean).wf(),
            final(glean)@ == create_model(old(glean)@, meta@).0,
            match r {
                Ok(m) => create_model(old(glean)@, meta@).1 == Ok::<MetaModel, ErrorKind>(m@)
                    && metric_wf(m@),
                Err(e) => create_model(old(glean)@, meta@).1 == Err::<MetaModel, ErrorKind>(e),
            },
    {
        match prepare_metric(glean, meta) {
            Ok(m) => Ok(BooleanMetric { meta: m }),
            Err(e) => Err(e),
        }
    }

    pub fn meta(&self) -> (r: &CommonMetricData)
        ensures
            r@ == self@,
    {
        &self.meta
    }

    /// Stores `value` in each of the metric's pings.
    pub fn set(&self, glean: &mut Glean, value: bool) -> (r: Result<(), ErrorKind>)
        requires
            old(glean).wf(),
        ensures
            final(glean).wf(),
            (final(glean)@, r) == set_model(
                old(glean)@,
                self@.category,
                self@.name,
                self@.pings,
                self@.disabled,
                ValueModel::Boolean(value),
            ),
    {
        let v = MetricValue::Boolean(value);
        glean.record_set(
            &self.meta.category,
            &self.meta.name,
            &self.meta.send_in_pings,
            self.meta.disabled,
            &v,
        )
    }
}

impl StringMetric {
    /// Creates the metric and registers its pings with `glean`.
    pub fn new(glean: &mut Glean, meta: CommonMetricData) -> (r: Result<StringMetric, ErrorKind>)
        requires
            old(glean).wf(),
        ensures
            final(glean).wf(),
            final(glean)@ == create_model(old(glean)@, meta@).0,
            match r {
                Ok(m) => create_model(old(glean)@, meta@).1 == Ok::<MetaModel, ErrorKind>(m@)
                    && metric_wf(m@),
                Err(e) => create_model(old(glean)@, meta@).1 == Err::<MetaModel, ErrorKind>(e),
            },
    {
        match prepare_metric(glean, meta) {
            Ok(m) => Ok(StringMetric { meta: m }),
            Err(e) => Err(e),
        }
    }

    pub fn meta(&self) -> (r: &CommonMetricData)
        ensures
            r@ == self@,
    {
        &self.meta
    }

    /// Stores `value`, cut to `MAX_STRING_LENGTH` characters, in each of the
    /// metric's pings; a cut is counted, not reported to the caller.
    pub fn set(&self, glean: &mut Glean, value: &String) -> (r: Result<(), ErrorKind>)
        requires
            old(glean).wf(),
        ensures
            final(glean).wf(),
            (final(glean)@, r) == set_text_model(old(glean)@, self@, value@),
    {
        let st = value.as_str();
        let n = st.unicode_len();
        let too_long = n > MAX_STRING_LENGTH;
        let text = if too_long {
            String::from_str(st.substring_char(0, MAX_STRING_LENGTH))
        } else {
            value.clone()
        };
        assert(text@ == clamp_text(value@));
        let recording = glean.is_initialized() && glean.is_upload_enabled() && !self.meta.disabled;
        let v = MetricValue::String(text);
        let r = glean.record_set(
            &self.meta.category,
            &self.meta.name,
            &self.meta.send_in_pings,
            self.meta.disabled,
            &v,
        );
        if recording && too_long {
            glean.note_clamped();
        }
        r
    }
}

impl CounterMetric {
    /// Creates the metric and registers its pings with `glean`.
    pub fn new(glean: &mut Glean, meta: CommonMetricData) -> (r: Result<CounterMetric, ErrorKind>)
        requires
            old(glean).wf(),
        ensures
            final(glean).wf(),
            final(glean)@ == create_model(old(glean)@, meta@).0,
            match r {
                Ok(m) => create_model(old(glean)@, meta@).1 == Ok::<MetaModel, ErrorKind>(m@)
                    && metric_wf(m@),
                Err(e) => create_model(old(glean)@, meta@).1 == Err::<MetaModel, ErrorKind>(e),
            },
    {
        match prepare_metric(glean, meta) {
            Ok(m) => Ok(CounterMetric { meta: m }),
            Err(e) => Err(e),
        }
    }

    pub fn meta(&self) -> (r: &CommonMetricData)
        ensures
            r@ == self@,
    {
        &self.meta
    }

    /// Adds `amount` to the counter in each of the metric's pings,
    /// saturating at `u64::MAX`; adding 0 is valid and changes nothing,
    /// not even creating a record.
    pub fn add(&self, glean: &mut Glean, amount: u64) -> (r: Result<(), ErrorKind>)
        requires
            old(glean).wf(),
        ensures
            final(glean).wf(),
            (final(glean)@, r) == add_model(
                old(glean)@,
                self@.category,
                self@.name,
                self@.pings,
                self@.disabled,
                amount,
            ),
    {
        glean.record_add(
            &self.meta.category,
            &self.meta.name,
            &self.meta.send_in_pings,
            self.meta.disabled,
            amount,
        )
    }
}

} // verus!
