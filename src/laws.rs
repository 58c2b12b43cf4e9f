use vstd::prelude::*;

use crate::glean::{
    add_all, add_model, collect_model, has_ping, model_wf, ping_index, records_now, set_model,
    set_upload_model, write_all, GleanModel,
};
use crate::metrics::{metric_wf, set_text_model, MetaModel};
use crate::parse::{lemma_payload_round_trip, pairs, read_ping, PingContent};
use crate::payload::ping_text;
use crate::storage::{
    has_key, index_of, key_of, lemma_index_of_unique, lemma_upsert, ping_entries, record_of,
    unique_keys, upsert, value_at, without_ping, Key, RecordModel,
};
use crate::value::{count_of, saturating, ValueModel};

verus! {

/// Whether key `k` belongs to metric (`c`, `n`) in one of `pings`.
pub open spec fn in_metric(k: Key, pings: Seq<Seq<char>>, c: Seq<char>, n: Seq<char>) -> bool {
    k.1 == c && k.2 == n && pings.contains(k.0)
}

/// Storing through `write_all` sets exactly the metric's keys in its pings.
pub proof fn lemma_write_all_values(
    s: Seq<RecordModel>,
    pings: Seq<Seq<char>>,
    c: Seq<char>,
    n: Seq<char>,
    v: ValueModel,
)
    requires
        unique_keys(s),
    ensures
        unique_keys(write_all(s, pings, c, n, v)),
        forall|k: Key|
            #[trigger] value_at(write_all(s, pings, c, n, v), k) == if in_metric(k, pings, c, n) {
                Some(v)
            } else {
                value_at(s, k)
            },
    decreases pings.len(),
{
    if pings.len() > 0 {
        let p0 = pings.drop_last();
        lemma_write_all_values(s, p0, c, n, v);
        let t = write_all(s, p0, c, n, v);
        lemma_upsert(t, (pings.last(), c, n), v);
        assert forall|k: Key| #[trigger]
            value_at(write_all(s, pings, c, n, v), k) == if in_metric(k, pings, c, n) {
                Some(v)
            } else {
                value_at(s, k)
            } by {
            if k != (pings.last(), c, n) {
                assert(value_at(t, k) == if in_metric(k, p0, c, n) {
                    Some(v)
                } else {
                    value_at(s, k)
                });
                if pings.contains(k.0) && k.1 == c && k.2 == n {
                    let j = choose|j: int| 0 <= j < pings.len() && pings[j] == k.0;
                    assert(j < pings.len() - 1);
                    assert(p0[j] == k.0);
                }
                if p0.contains(k.0) {
                    let j = choose|j: int| 0 <= j < p0.len() && p0[j] == k.0;
                    assert(pings[j] == k.0);
                }
            } else {
                assert(pings[pings.len() - 1] == k.0);
            }
        }
    }
}

/// Adding through `add_all` over distinct pings adds once to each of the
/// metric's keys and leaves the other keys alone.
pub proof fn lemma_add_all_values(
    s: Seq<RecordModel>,
    pings: Seq<Seq<char>>,
    c: Seq<char>,
    n: Seq<char>,
    a: u64,
)
    requires
        unique_keys(s),
        pings.no_duplicates(),
    ensures
        unique_keys(add_all(s, pings, c, n, a)),
        forall|k: Key|
            #[trigger] value_at(add_all(s, pings, c, n, a), k) == if in_metric(k, pings, c, n) {
                Some(ValueModel::Counter(saturating(count_of(value_at(s, k)), a)))
            } else {
                value_at(s, k)
            },
    decreases pings.len(),
{
    if pings.len() > 0 {
        let p0 = pings.drop_last();
        assert(p0.no_duplicates()) by {
            assert forall|i: int, j: int|
                0 <= i < p0.len() && 0 <= j < p0.len() && i != j implies p0[i] != p0[j] by {
                assert(p0[i] == pings[i] && p0[j] == pings[j]);
            }
        }
        lemma_add_all_values(s, p0, c, n, a);
        let t = add_all(s, p0, c, n, a);
        let kl = (pings.last(), c, n);
        lemma_upsert(t, kl, ValueModel::Counter(saturating(count_of(value_at(t, kl)), a)));
        assert(!p0.contains(pings.last())) by {
            if p0.contains(pings.last()) {
                let j = choose|j: int| 0 <= j < p0.len() && p0[j] == pings.last();
                assert(pings[j] == pings[pings.len() - 1]);
            }
        }
        assert forall|k: Key| #[trigger]
            value_at(add_all(s, pings, c, n, a), k) == if in_metric(k, pings, c, n) {
                Some(ValueModel::Counter(saturating(count_of(value_at(s, k)), a)))
            } else {
                value_at(s, k)
            } by {
            if k != kl {
                if pings.contains(k.0) && k.1 == c && k.2 == n {
                    let j = choose|j: int| 0 <= j < pings.len() && pings[j] == k.0;
                    assert(j < pings.len() - 1);
                    assert(p0[j] == k.0);
                }
                if p0.contains(k.0) {
                    let j = choose|j: int| 0 <= j < p0.len() && p0[j] == k.0;
                    assert(pings[j] == k.0);
                }
                assert(value_at(t, k) == if in_metric(k, p0, c, n) {
                    Some(ValueModel::Counter(saturating(count_of(value_at(s, k)), a)))
                } else {
                    value_at(s, k)
                });
            } else {
                assert(pings[pings.len() - 1] == k.0);
                assert(!in_metric(k, p0, c, n));
                assert(value_at(t, k) == value_at(s, k));
            }
        }
    }
}

/// Two metrics of the same identity write to the same records: storing `v1`
/// through one and then `v2` through the other leaves every key as storing
/// `v2` through the first alone does, with one record per key.
pub proof fn lemma_same_identity_last_write_wins(
    g: GleanModel,
    m1: MetaModel,
    m2: MetaModel,
    v1: ValueModel,
    v2: ValueModel,
)
    requires
        model_wf(g),
        metric_wf(m1),
        metric_wf(m2),
        m1.category == m2.category,
        m1.name == m2.name,
        m1.pings == m2.pings,
        m1.disabled == m2.disabled,
    ensures
        ({
            let g1 = set_model(g, m1.category, m1.name, m1.pings, m1.disabled, v1).0;
            let g2 = set_model(g1, m2.category, m2.name, m2.pings, m2.disabled, v2).0;
            let h = set_model(g, m1.category, m1.name, m1.pings, m1.disabled, v2).0;
            unique_keys(g2.records) && forall|k: Key|
                #[trigger] value_at(g2.records, k) == value_at(h.records, k)
        }),
{
    let g1 = set_model(g, m1.category, m1.name, m1.pings, m1.disabled, v1).0;
    lemma_write_all_values(g.records, m1.pings, m1.category, m1.name, v1);
    lemma_write_all_values(g.records, m1.pings, m1.category, m1.name, v2);
    lemma_write_all_values(g1.records, m1.pings, m1.category, m1.name, v2);
}

/// `s` with the records of metric (`c`, `n`) in `pings` holding `v`.
pub open spec fn relabel(
    s: Seq<RecordModel>,
    pings: Seq<Seq<char>>,
    c: Seq<char>,
    n: Seq<char>,
    v: ValueModel,
) -> Seq<RecordModel> {
    Seq::new(
        s.len(),
        |i: int|
            if in_metric(key_of(s[i]), pings, c, n) {
                record_of(key_of(s[i]), v)
            } else {
                s[i]
            },
    )
}

proof fn lemma_in_metric_push(k: Key, pings: Seq<Seq<char>>, c: Seq<char>, n: Seq<char>)
    requires
        pings.len() > 0,
    ensures
        in_metric(k, pings, c, n) <==> (in_metric(k, pings.drop_last(), c, n) || k == (
            pings.last(),
            c,
            n,
        )),
{
    let p0 = pings.drop_last();
    if pings.contains(k.0) {
        let j = choose|j: int| 0 <= j < pings.len() && pings[j] == k.0;
        if j < pings.len() - 1 {
            assert(p0[j] == k.0);
        }
    }
    if p0.contains(k.0) {
        let j = choose|j: int| 0 <= j < p0.len() && p0[j] == k.0;
        assert(pings[j] == k.0);
    }
    if k.0 == pings.last() {
        assert(pings[pings.len() - 1] == k.0);
    }
}

/// Storing one value or another through `write_all` puts records at the same
/// places: the results differ only in the values.
proof fn lemma_write_all_relabel(
    s: Seq<RecordModel>,
    pings: Seq<Seq<char>>,
    c: Seq<char>,
    n: Seq<char>,
    v1: ValueModel,
    v2: ValueModel,
)
    requires
        unique_keys(s),
    ensures
        write_all(s, pings, c, n, v2) == relabel(write_all(s, pings, c, n, v1), pings, c, n, v2),
    decreases pings.len(),
{
    if pings.len() == 0 {
        assert(relabel(s, pings, c, n, v2) =~= s);
    } else {
        let p0 = pings.drop_last();
        let k = (pings.last(), c, n);
        lemma_write_all_relabel(s, p0, c, n, v1, v2);
        lemma_write_all_values(s, p0, c, n, v1);
        lemma_write_all_values(s, p0, c, n, v2);
        let w1 = write_all(s, p0, c, n, v1);
        let w2 = write_all(s, p0, c, n, v2);
        assert forall|i: int| 0 <= i < w1.len() implies key_of(#[trigger] w2[i]) == key_of(w1[i]) by {
        }
        let r = relabel(upsert(w1, k, v1), pings, c, n, v2);
        let l = upsert(w2, k, v2);
        if has_key(w1, k) {
            let i = index_of(w1, k);
            lemma_index_of_unique(w1, k, i);
            assert(key_of(w2[i]) == k);
            lemma_index_of_unique(w2, k, i);
            assert forall|j: int| 0 <= j < l.len() implies #[trigger] l[j] == r[j] by {
                lemma_in_metric_push(key_of(w1[j]), pings, c, n);
            }
            assert(l =~= r);
        } else {
            assert(!has_key(w2, k)) by {
                if has_key(w2, k) {
                    let i = index_of(w2, k);
                    assert(key_of(w1[i]) == k);
                }
            }
            assert forall|j: int| 0 <= j < l.len() implies #[trigger] l[j] == r[j] by {
                if j < w1.len() {
                    lemma_in_metric_push(key_of(w1[j]), pings, c, n);
                    assert(key_of(w1[j]) != k);
                } else {
                    lemma_in_metric_push(k, pings, c, n);
                }
            }
            assert(l =~= r);
        }
    }
}

/// When every key of the metric is already stored, `write_all` only changes
/// values.
proof fn lemma_write_all_present(
    t: Seq<RecordModel>,
    pings: Seq<Seq<char>>,
    c: Seq<char>,
    n: Seq<char>,
    v: ValueModel,
)
    requires
        unique_keys(t),
        forall|p: Seq<char>| #[trigger] pings.contains(p) ==> has_key(t, (p, c, n)),
    ensures
        write_all(t, pings, c, n, v) == relabel(t, pings, c, n, v),
    decreases pings.len(),
{
    if pings.len() == 0 {
        assert(relabel(t, pings, c, n, v) =~= t);
    } else {
        let p0 = pings.drop_last();
        let k = (pings.last(), c, n);
        assert forall|p: Seq<char>| #[trigger] p0.contains(p) implies has_key(t, (p, c, n)) by {
            let j = choose|j: int| 0 <= j < p0.len() && p0[j] == p;
            assert(pings[j] == p);
            assert(pings.contains(p));
        }
        lemma_write_all_present(t, p0, c, n, v);
        assert(pings[pings.len() - 1] == pings.last());
        assert(pings.contains(pings.last()));
        let w = relabel(t, p0, c, n, v);
        let i = index_of(t, k);
        lemma_index_of_unique(t, k, i);
        assert(unique_keys(w)) by {
            assert forall|a: int, b: int|
                0 <= a < w.len() && 0 <= b < w.len() && a != b implies key_of(#[trigger] w[a])
                != key_of(#[trigger] w[b]) by {
                assert(key_of(w[a]) == key_of(t[a]));
                assert(key_of(w[b]) == key_of(t[b]));
            }
        }
        assert(key_of(w[i]) == k);
        lemma_index_of_unique(w, k, i);
        let l = upsert(w, k, v);
        let r = relabel(t, pings, c, n, v);
        assert forall|j: int| 0 <= j < l.len() implies #[trigger] l[j] == r[j] by {
            lemma_in_metric_push(key_of(t[j]), pings, c, n);
        }
        assert(l =~= r);
    }
}

/// Two metrics of the same identity share their records: storing `v1`
/// through one and then `v2` through the other leaves the engine exactly as
/// storing `v2` through the first alone, so every later payload is the same.
pub proof fn lemma_same_identity_same_state(
    g: GleanModel,
    m1: MetaModel,
    m2: MetaModel,
    v1: ValueModel,
    v2: ValueModel,
    p: Seq<char>,
    time: u64,
)
    requires
        model_wf(g),
        metric_wf(m1),
        metric_wf(m2),
        m1.category == m2.category,
        m1.name == m2.name,
        m1.pings == m2.pings,
        m1.disabled == m2.disabled,
    ensures
        ({
            let g1 = set_model(g, m1.category, m1.name, m1.pings, m1.disabled, v1).0;
            let g2 = set_model(g1, m2.category, m2.name, m2.pings, m2.disabled, v2).0;
            let h = set_model(g, m1.category, m1.name, m1.pings, m1.disabled, v2).0;
            g2 == h && collect_model(g2, p, time) == collect_model(h, p, time)
        }),
{
    let (c, n, ps) = (m1.category, m1.name, m1.pings);
    if records_now(g, m1.disabled) {
        let t = write_all(g.records, ps, c, n, v1);
        lemma_write_all_values(g.records, ps, c, n, v1);
        assert forall|q: Seq<char>| #[trigger] ps.contains(q) implies has_key(t, (q, c, n)) by {
            assert(in_metric((q, c, n), ps, c, n));
            assert(value_at(t, (q, c, n)) is Some);
        }
        lemma_write_all_present(t, ps, c, n, v2);
        lemma_write_all_relabel(g.records, ps, c, n, v1, v2);
    }
}

/// Two counters of the same identity share one count: adding `a` through one
/// and `b` through the other leaves every key as adding `a + b` (saturating)
/// through the first alone does.
pub proof fn lemma_same_identity_counts_sum(
    g: GleanModel,
    m1: MetaModel,
    m2: MetaModel,
    a: u64,
    b: u64,
)
    requires
        model_wf(g),
        metric_wf(m1),
        metric_wf(m2),
        m1.category == m2.category,
        m1.name == m2.name,
        m1.pings == m2.pings,
        m1.disabled == m2.disabled,
    ensures
        ({
            let g1 = add_model(g, m1.category, m1.name, m1.pings, m1.disabled, a).0;
            let g2 = add_model(g1, m2.category, m2.name, m2.pings, m2.disabled, b).0;
            let h = add_model(g, m1.category, m1.name, m1.pings, m1.disabled, saturating(a, b)).0;
            unique_keys(g2.records) && forall|k: Key|
                #[trigger] value_at(g2.records, k) == value_at(h.records, k)
        }),
{
    let g1 = add_model(g, m1.category, m1.name, m1.pings, m1.disabled, a).0;
    lemma_add_all_values(g.records, m1.pings, m1.category, m1.name, a);
    lemma_add_all_values(g.records, m1.pings, m1.category, m1.name, saturating(a, b));
    lemma_add_all_values(g1.records, m1.pings, m1.category, m1.name, b);
}

/// Counter adds commute: `a` then `b` leaves every key as `b` then `a` does.
pub proof fn lemma_counter_add_commutes(g: GleanModel, m: MetaModel, a: u64, b: u64)
    requires
        model_wf(g),
        metric_wf(m),
    ensures
        ({
            let ab = add_model(
                add_model(g, m.category, m.name, m.pings, m.disabled, a).0,
                m.category,
                m.name,
                m.pings,
                m.disabled,
                b,
            ).0;
            let ba = add_model(
                add_model(g, m.category, m.name, m.pings, m.disabled, b).0,
                m.category,
                m.name,
                m.pings,
                m.disabled,
                a,
            ).0;
            forall|k: Key| #[trigger] value_at(ab.records, k) == value_at(ba.records, k)
        }),
{
    let ga = add_model(g, m.category, m.name, m.pings, m.disabled, a).0;
    let gb = add_model(g, m.category, m.name, m.pings, m.disabled, b).0;
    lemma_add_all_values(g.records, m.pings, m.category, m.name, a);
    lemma_add_all_values(g.records, m.pings, m.category, m.name, b);
    lemma_add_all_values(ga.records, m.pings, m.category, m.name, b);
    lemma_add_all_values(gb.records, m.pings, m.category, m.name, a);
}

/// The state after `count` calls of `add(1)` on counter `m`.
pub open spec fn add_one_times(g: GleanModel, m: MetaModel, count: nat) -> GleanModel
    decreases count,
{
    if count == 0 {
        g
    } else {
        add_model(add_one_times(g, m, (count - 1) as nat), m.category, m.name, m.pings, m.disabled, 1).0
    }
}

/// `count` calls of `add(1)`, in whatever order they were serialized, raise
/// the count `v` in each of the metric's pings to `v + count` (no value counts
/// as 0); the other keys keep their values.
pub proof fn lemma_counter_counts_calls(g: GleanModel, m: MetaModel, v: u64, count: nat)
    requires
        model_wf(g),
        metric_wf(m),
        records_now(g, m.disabled),
        v + count <= u64::MAX,
        forall|p: Seq<char>| #[trigger]
            m.pings.contains(p) ==> count_of(value_at(g.records, (p, m.category, m.name))) == v,
    ensures
        model_wf(add_one_times(g, m, count)),
        records_now(add_one_times(g, m, count), m.disabled),
        add_one_times(g, m, count).pings == g.pings,
        forall|p: Seq<char>| #[trigger]
            m.pings.contains(p) ==> value_at(add_one_times(g, m, count).records, (p, m.category, m.name))
                == if count == 0 {
                value_at(g.records, (p, m.category, m.name))
            } else {
                Some(ValueModel::Counter((v + count) as u64))
            },
        forall|k: Key|
            !in_metric(k, m.pings, m.category, m.name) ==> #[trigger] value_at(
                add_one_times(g, m, count).records,
                k,
            ) == value_at(g.records, k),
    decreases count,
{
    if count > 0 {
        lemma_counter_counts_calls(g, m, v, (count - 1) as nat);
        let prev = add_one_times(g, m, (count - 1) as nat);
        lemma_add_all_values(prev.records, m.pings, m.category, m.name, 1);
        assert forall|p: Seq<char>| #[trigger] m.pings.contains(p) implies value_at(
            add_one_times(g, m, count).records,
            (p, m.category, m.name),
        ) == Some(ValueModel::Counter((v + count) as u64)) by {
            assert(in_metric((p, m.category, m.name), m.pings, m.category, m.name));
            assert(count_of(value_at(prev.records, (p, m.category, m.name))) == v + count - 1);
        }
        assert forall|k: Key| !in_metric(k, m.pings, m.category, m.name) implies #[trigger]
            value_at(add_one_times(g, m, count).records, k) == value_at(g.records, k) by {
            assert(value_at(prev.records, k) == value_at(g.records, k));
        }
    }
}

/// One metric mutation: a boolean or text `set`, a string `set`, or a
/// counter `add`.
pub enum Mutation {
    SetValue { meta: MetaModel, value: ValueModel },
    SetText { meta: MetaModel, text: Seq<char> },
    Add { meta: MetaModel, amount: u64 },
}

/// The state after mutation `m`.
pub open spec fn apply(g: GleanModel, m: Mutation) -> GleanModel {
    match m {
        Mutation::SetValue { meta, value } => set_model(
            g,
            meta.category,
            meta.name,
            meta.pings,
            meta.disabled,
            value,
        ).0,
        Mutation::SetText { meta, text } => set_text_model(g, meta, text).0,
        Mutation::Add { meta, amount } => add_model(
            g,
            meta.category,
            meta.name,
            meta.pings,
            meta.disabled,
            amount,
        ).0,
    }
}

/// The state after the mutations `ms`, in order.
pub open spec fn apply_all(g: GleanModel, ms: Seq<Mutation>) -> GleanModel
    decreases ms.len(),
{
    if ms.len() == 0 {
        g
    } else {
        apply(apply_all(g, ms.drop_last()), ms.last())
    }
}

/// After upload is turned off, any sequence of mutations leaves the engine
/// exactly as it was: the store stays empty and nothing reaches a payload.
pub proof fn lemma_upload_off_ignores_mutations(g: GleanModel, ms: Seq<Mutation>)
    ensures
        apply_all(set_upload_model(g, false), ms) == set_upload_model(g, false),
        set_upload_model(g, false).records.len() == 0,
    decreases ms.len(),
{
    if ms.len() > 0 {
        lemma_upload_off_ignores_mutations(g, ms.drop_last());
    }
}

/// After the records of ping `p` are deleted, its snapshot is empty.
pub proof fn lemma_cleared_ping_is_empty(s: Seq<RecordModel>, p: Seq<char>)
    ensures
        ping_entries(without_ping(s, p), p) == Seq::<crate::storage::EntryModel>::empty(),
    decreases s.len(),
{
    if s.len() > 0 {
        lemma_cleared_ping_is_empty(s.drop_last(), p);
        let r = without_ping(s.drop_last(), p);
        if s.last().ping != p {
            assert(r.push(s.last()).drop_last() =~= r);
        }
    }
}

/// Collecting a non-persistent ping twice with no write between: the second
/// payload has the next sequence number and no metrics.
pub proof fn lemma_collect_twice(g: GleanModel, p: Seq<char>, t1: u64, t2: u64)
    requires
        model_wf(g),
        g.initialized,
        has_ping(g.pings, p),
        !g.pings[ping_index(g.pings, p)].persistent,
    ensures
        ({
            let g1 = collect_model(g, p, t1).0;
            collect_model(g1, p, t2).1 == Ok::<Seq<char>, crate::error::ErrorKind>(
                ping_text(
                    p,
                    saturating(g.pings[ping_index(g.pings, p)].seq, 1),
                    t2,
                    g.client_id,
                    Seq::empty(),
                ),
            )
        }),
{
    let i = ping_index(g.pings, p);
    let g1 = collect_model(g, p, t1).0;
    assert(g1.pings[i].name == p);
    assert(has_ping(g1.pings, p));
    let j = ping_index(g1.pings, p);
    assert(g1.pings[j].name == g.pings[j].name);
    assert(j == i);
    lemma_cleared_ping_is_empty(g.records, p);
}

/// With upload off, nothing is stored: the purge empties the store, and no
/// boolean, string or counter write puts anything back.
pub proof fn lemma_upload_off_stores_nothing(
    g: GleanModel,
    m: MetaModel,
    v: ValueModel,
    t: Seq<char>,
    a: u64,
)
    ensures
        ({
            let off = set_upload_model(g, false);
            &&& off.records.len() == 0
            &&& set_model(off, m.category, m.name, m.pings, m.disabled, v).0 == off
            &&& set_text_model(off, m, t).0 == off
            &&& add_model(off, m.category, m.name, m.pings, m.disabled, a).0 == off
        }),
{
}

/// What `collect` returns reads back to the ping's name, its sequence number,
/// the collection time, the client's identifier and, section by section, the `(category.name, value)`
/// pairs of the snapshot of the ping taken just before.
pub proof fn lemma_collected_payload_reads_back(g: GleanModel, p: Seq<char>, time: u64)
    requires
        collect_model(g, p, time).1 is Ok,
    ensures
        read_ping(collect_model(g, p, time).1->Ok_0) == Some(
            PingContent {
                name: p,
                seq: g.pings[ping_index(g.pings, p)].seq,
                time,
                client_id: g.client_id,
                booleans: pairs(ping_entries(g.records, p), 0),
                counters: pairs(ping_entries(g.records, p), 1),
                strings: pairs(ping_entries(g.records, p), 2),
            },
        ),
{
    lemma_payload_round_trip(
        p,
        g.pings[ping_index(g.pings, p)].seq,
        time,
        g.client_id,
        ping_entries(g.records, p),
    );
}

} // verus!
