use glean::boundary::{
    BOOLEAN_HANDLE_BASE, COUNTER_HANDLE_BASE, STRING_HANDLE_BASE,
    glean_counter_add, glean_destroy_boolean_metric, glean_initialize, glean_is_initialized, glean_is_upload_enabled,
    glean_restore_line, glean_set_client_id,
    glean_new_boolean_metric, glean_new_counter_metric, glean_new_string_metric,
    glean_ping_collect, glean_set_upload_enabled, GleanHost,
};
use glean::error::ErrorKind;
use glean::glean::Glean;
use glean::metrics::{
    is_valid_identifier, normalize_pings, BooleanMetric, CommonMetricData, CounterMetric,
    StringMetric, MAX_STRING_LENGTH,
};
use glean::reader::{parse_ping, split_store, ParsedMetric};
use glean::value::MetricValue;

fn ready() -> Glean {
    let mut g = Glean::new();
    g.initialize(&"/tmp/glean-data".to_string()).unwrap();
    g
}

fn meta(category: &str, name: &str, pings: &[&str]) -> CommonMetricData {
    CommonMetricData {
        name: name.to_string(),
        category: category.to_string(),
        send_in_pings: pings.iter().map(|p| p.to_string()).collect(),
        disabled: false,
    }
}

fn counter_in(g: &Glean, ping: &str, category: &str, name: &str) -> Option<u64> {
    match g.stored_value(&ping.to_string(), &category.to_string(), &name.to_string()) {
        Some(MetricValue::Counter(n)) => Some(n),
        None => None,
        Some(other) => panic!("not a counter: {:?}", other),
    }
}

fn payload(ping: &str, seq: u64, boolean: &str, counter: &str, string: &str) -> String {
    format!(
        "{{\"ping_info\":{{\"ping_name\":\"{}\",\"seq\":{},\"time\":0,\"client_id\":\"\"}},\"metrics\":{{\"boolean\":{{{}}},\"counter\":{{{}}},\"string\":{{{}}}}}}}",
        ping, seq, boolean, counter, string
    )
}

#[test]
fn launches_counted_by_three_callers() {
    let mut g = ready();
    let callers: Vec<CounterMetric> = (0..3)
        .map(|_| CounterMetric::new(&mut g, meta("app", "launches", &["metrics"])).unwrap())
        .collect();
    for c in &callers {
        c.add(&mut g, 1).unwrap();
    }
    let text = g.collect(&"metrics".to_string(), 0).unwrap();
    assert_eq!(text, payload("metrics", 0, "", "\"app.launches\":3", ""));
}

#[test]
fn unregistered_ping_is_unknown() {
    let mut g = ready();
    assert_eq!(g.collect(&"unregistered_ping".to_string(), 0), Err(ErrorKind::UnknownPing));
}

#[test]
fn same_identity_booleans_merge_last_write_wins() {
    let mut g = ready();
    let a = BooleanMetric::new(&mut g, meta("ui", "dark_mode", &["core"])).unwrap();
    let b = BooleanMetric::new(&mut g, meta("ui", "dark_mode", &["core"])).unwrap();
    a.set(&mut g, true).unwrap();
    b.set(&mut g, false).unwrap();
    let snap = g.snapshot(&"core".to_string());
    assert_eq!(snap.len(), 1);
    assert!(matches!(snap[0].value, MetricValue::Boolean(false)));
}

#[test]
fn same_identity_strings_merge_last_write_wins() {
    let mut g = ready();
    let a = StringMetric::new(&mut g, meta("ui", "theme", &["core"])).unwrap();
    let b = StringMetric::new(&mut g, meta("ui", "theme", &["core"])).unwrap();
    a.set(&mut g, &"light".to_string()).unwrap();
    b.set(&mut g, &"dark".to_string()).unwrap();
    let text = g.collect(&"core".to_string(), 0).unwrap();
    assert_eq!(text, payload("core", 0, "", "", "\"ui.theme\":\"dark\""));
}

#[test]
fn same_identity_counters_sum() {
    let mut g = ready();
    let a = CounterMetric::new(&mut g, meta("net", "requests", &["core", "metrics"])).unwrap();
    let b = CounterMetric::new(&mut g, meta("net", "requests", &["core", "metrics"])).unwrap();
    a.add(&mut g, 4).unwrap();
    b.add(&mut g, 6).unwrap();
    assert_eq!(counter_in(&g, "core", "net", "requests"), Some(10));
    assert_eq!(counter_in(&g, "metrics", "net", "requests"), Some(10));
    assert_eq!(g.snapshot(&"core".to_string()).len(), 1);
}

#[test]
fn counter_adds_in_any_order_agree() {
    let mut g1 = ready();
    let mut g2 = ready();
    let c1 = CounterMetric::new(&mut g1, meta("app", "clicks", &["m"])).unwrap();
    let c2 = CounterMetric::new(&mut g2, meta("app", "clicks", &["m"])).unwrap();
    for a in [3u64, 0, 9, 1] {
        c1.add(&mut g1, a).unwrap();
    }
    for a in [1u64, 9, 0, 3] {
        c2.add(&mut g2, a).unwrap();
    }
    assert_eq!(counter_in(&g1, "m", "app", "clicks"), Some(13));
    assert_eq!(counter_in(&g2, "m", "app", "clicks"), Some(13));
}

#[test]
fn counter_counts_many_single_adds() {
    let mut g = ready();
    let c = CounterMetric::new(&mut g, meta("app", "ticks", &["m"])).unwrap();
    for _ in 0..250 {
        c.add(&mut g, 1).unwrap();
    }
    assert_eq!(counter_in(&g, "m", "app", "ticks"), Some(250));
}

#[test]
fn counter_add_zero_keeps_count() {
    let mut g = ready();
    let c = CounterMetric::new(&mut g, meta("app", "zero", &["m"])).unwrap();
    c.add(&mut g, 0).unwrap();
    assert_eq!(counter_in(&g, "m", "app", "zero"), None);
    assert_eq!(g.collect(&"m".to_string(), 0).unwrap(), payload("m", 0, "", "", ""));
    c.add(&mut g, 2).unwrap();
    c.add(&mut g, 0).unwrap();
    assert_eq!(counter_in(&g, "m", "app", "zero"), Some(2));
}

#[test]
fn counter_saturates() {
    let mut g = ready();
    let c = CounterMetric::new(&mut g, meta("app", "big", &["m"])).unwrap();
    c.add(&mut g, u64::MAX - 1).unwrap();
    c.add(&mut g, 5).unwrap();
    assert_eq!(counter_in(&g, "m", "app", "big"), Some(u64::MAX));
    let text = g.collect(&"m".to_string(), 0).unwrap();
    assert_eq!(text, payload("m", 0, "", "\"app.big\":18446744073709551615", ""));
}

#[test]
fn second_collect_is_empty_with_next_seq() {
    let mut g = ready();
    let c = CounterMetric::new(&mut g, meta("app", "opens", &["metrics"])).unwrap();
    let b = BooleanMetric::new(&mut g, meta("app", "first", &["metrics"])).unwrap();
    c.add(&mut g, 2).unwrap();
    b.set(&mut g, true).unwrap();
    let first = g.collect(&"metrics".to_string(), 0).unwrap();
    assert_eq!(first, payload("metrics", 0, "\"app.first\":true", "\"app.opens\":2", ""));
    let second = g.collect(&"metrics".to_string(), 0).unwrap();
    assert_eq!(second, payload("metrics", 1, "", "", ""));
}

#[test]
fn persistent_ping_keeps_records() {
    let mut g = ready();
    g.register_ping(&"daily".to_string(), true);
    let c = CounterMetric::new(&mut g, meta("app", "days", &["daily"])).unwrap();
    c.add(&mut g, 1).unwrap();
    let first = g.collect(&"daily".to_string(), 0).unwrap();
    let second = g.collect(&"daily".to_string(), 0).unwrap();
    assert_eq!(first, payload("daily", 0, "", "\"app.days\":1", ""));
    assert_eq!(second, payload("daily", 1, "", "\"app.days\":1", ""));
}

#[test]
fn collect_leaves_other_pings_alone() {
    let mut g = ready();
    let c = CounterMetric::new(&mut g, meta("app", "shared", &["a", "b"])).unwrap();
    c.add(&mut g, 7).unwrap();
    g.collect(&"a".to_string(), 0).unwrap();
    assert_eq!(counter_in(&g, "a", "app", "shared"), None);
    assert_eq!(counter_in(&g, "b", "app", "shared"), Some(7));
}

#[test]
fn empty_ping_payload_is_valid() {
    let mut g = ready();
    CounterMetric::new(&mut g, meta("app", "never", &["quiet"])).unwrap();
    assert_eq!(g.collect(&"quiet".to_string(), 0).unwrap(), payload("quiet", 0, "", "", ""));
}

#[test]
fn upload_off_purges_and_stores_nothing() {
    let mut g = ready();
    let c = CounterMetric::new(&mut g, meta("app", "hits", &["m"])).unwrap();
    let s = StringMetric::new(&mut g, meta("app", "who", &["m"])).unwrap();
    c.add(&mut g, 5).unwrap();
    g.set_upload_enabled(false);
    assert!(!g.is_upload_enabled());
    assert_eq!(counter_in(&g, "m", "app", "hits"), None);
    assert_eq!(c.add(&mut g, 3), Ok(()));
    assert_eq!(s.set(&mut g, &"x".to_string()), Ok(()));
    assert_eq!(g.collect(&"m".to_string(), 0).unwrap(), payload("m", 0, "", "", ""));
    g.set_upload_enabled(true);
    c.add(&mut g, 1).unwrap();
    assert_eq!(counter_in(&g, "m", "app", "hits"), Some(1));
}

#[test]
fn disabled_metric_records_nothing() {
    let mut g = ready();
    let mut m = meta("app", "off", &["m"]);
    m.disabled = true;
    let c = CounterMetric::new(&mut g, m).unwrap();
    assert_eq!(c.add(&mut g, 3), Ok(()));
    assert_eq!(counter_in(&g, "m", "app", "off"), None);
}

#[test]
fn mutation_before_initialize_fails() {
    let mut g = Glean::new();
    assert!(!g.is_initialized());
    let c = CounterMetric::new(&mut g, meta("app", "early", &["m"])).unwrap();
    let b = BooleanMetric::new(&mut g, meta("app", "early_flag", &["m"])).unwrap();
    assert_eq!(c.add(&mut g, 1), Err(ErrorKind::NotInitialized));
    assert_eq!(b.set(&mut g, true), Err(ErrorKind::NotInitialized));
    assert_eq!(g.collect(&"m".to_string(), 0), Err(ErrorKind::NotInitialized));
}

#[test]
fn initialize_with_empty_dir_fails() {
    let mut g = Glean::new();
    assert_eq!(g.initialize(&String::new()), Err(ErrorKind::StorageUnavailable));
    assert!(!g.is_initialized());
}

#[test]
fn initialize_happens_once() {
    let mut g = Glean::new();
    g.initialize(&"/first".to_string()).unwrap();
    g.initialize(&"/second".to_string()).unwrap();
    assert!(g.is_initialized());
    assert_eq!(g.data_dir(), "/first");
}

#[test]
fn invalid_identities_are_refused() {
    let mut g = ready();
    let cases = [("", "name"), ("cat", ""), ("Cat", "name"), ("cat", "na-me"), ("c.t", "n")];
    for (c, n) in cases {
        assert_eq!(
            CounterMetric::new(&mut g, meta(c, n, &["m"])).map(|_| ()),
            Err(ErrorKind::InvalidMetricIdentity)
        );
    }
    assert_eq!(g.collect(&"m".to_string(), 0), Err(ErrorKind::UnknownPing));
    assert!(is_valid_identifier(&"a_b9".to_string()));
    assert!(!is_valid_identifier(&"a b".to_string()));
}

#[test]
fn pings_default_and_dedup() {
    let none: Vec<String> = Vec::new();
    assert_eq!(normalize_pings(&none), vec!["baseline".to_string()]);
    let dup = vec!["a".to_string(), "b".to_string(), "a".to_string(), "c".to_string(), "b".to_string()];
    assert_eq!(normalize_pings(&dup), vec!["a".to_string(), "b".to_string(), "c".to_string()]);
    let mut g = ready();
    let c = CounterMetric::new(&mut g, meta("app", "twice", &["x", "x"])).unwrap();
    c.add(&mut g, 1).unwrap();
    assert_eq!(counter_in(&g, "x", "app", "twice"), Some(1));
    let d = CounterMetric::new(&mut g, meta("app", "plain", &[])).unwrap();
    assert_eq!(d.meta().send_in_pings, vec!["baseline".to_string()]);
}

#[test]
fn long_string_is_clamped_and_counted() {
    let mut g = ready();
    let s = StringMetric::new(&mut g, meta("app", "note", &["m"])).unwrap();
    let long: String = "é".repeat(MAX_STRING_LENGTH + 50);
    s.set(&mut g, &long).unwrap();
    assert_eq!(g.clamped_values(), 1);
    match g.stored_value(&"m".to_string(), &"app".to_string(), &"note".to_string()) {
        Some(MetricValue::String(t)) => assert_eq!(t, "é".repeat(MAX_STRING_LENGTH)),
        other => panic!("unexpected {:?}", other),
    }
    s.set(&mut g, &"short".to_string()).unwrap();
    assert_eq!(g.clamped_values(), 1);
}

#[test]
fn strings_are_escaped() {
    let mut g = ready();
    let s = StringMetric::new(&mut g, meta("app", "q", &["m"])).unwrap();
    s.set(&mut g, &"a\"b\\c\nd\u{1f}".to_string()).unwrap();
    let text = g.collect(&"m".to_string(), 0).unwrap();
    assert_eq!(text, payload("m", 0, "", "", "\"app.q\":\"a\\\"b\\\\c\\u000ad\\u001f\""));
}

#[test]
fn payload_groups_by_type_in_storage_order() {
    let mut g = ready();
    let c1 = CounterMetric::new(&mut g, meta("a", "one", &["p"])).unwrap();
    let b1 = BooleanMetric::new(&mut g, meta("a", "flag", &["p"])).unwrap();
    let c2 = CounterMetric::new(&mut g, meta("b", "two", &["p"])).unwrap();
    c1.add(&mut g, 1234567890).unwrap();
    b1.set(&mut g, false).unwrap();
    c2.add(&mut g, 10).unwrap();
    let text = g.collect(&"p".to_string(), 0).unwrap();
    assert_eq!(text, payload("p", 0, "\"a.flag\":false", "\"a.one\":1234567890,\"b.two\":10", ""));
}

#[test]
fn error_messages() {
    assert_eq!(ErrorKind::UnknownPing.message(), "unknown ping");
    assert_eq!(ErrorKind::NotInitialized.message(), "glean is not initialized");
}

#[test]
fn handles_through_the_boundary() {
    let mut h = GleanHost::new();
    assert_eq!(glean_is_initialized(&h), 0);
    assert_eq!(glean_is_upload_enabled(&h), 1);
    glean_initialize(&mut h, &"/data".to_string()).unwrap();
    assert_eq!(glean_is_initialized(&h), 1);
    let b = glean_new_boolean_metric(&mut h, &"flag".to_string(), &"ui".to_string()).unwrap();
    let s = glean_new_string_metric(&mut h, &"label".to_string(), &"ui".to_string()).unwrap();
    let c0 = glean_new_counter_metric(&mut h, &"taps".to_string(), &"ui".to_string()).unwrap();
    let c1 = glean_new_counter_metric(&mut h, &"swipes".to_string(), &"ui".to_string()).unwrap();
    assert_eq!(
        (b, s, c0, c1),
        (
            BOOLEAN_HANDLE_BASE + 1,
            STRING_HANDLE_BASE + 1,
            COUNTER_HANDLE_BASE + 1,
            COUNTER_HANDLE_BASE + 2
        )
    );
    glean_counter_add(&mut h, c1, 2).unwrap();
    glean_counter_add(&mut h, c0, 1).unwrap();
    assert_eq!(glean_counter_add(&mut h, 7, 1), Err(ErrorKind::InvalidHandle));
    assert_eq!(glean_counter_add(&mut h, 0, 1), Err(ErrorKind::InvalidHandle));
    assert_eq!(glean_counter_add(&mut h, c1 + 1, 1), Err(ErrorKind::InvalidHandle));
    assert_eq!(glean_counter_add(&mut h, b, 1), Err(ErrorKind::InvalidHandle));
    assert_eq!(glean_counter_add(&mut h, COUNTER_HANDLE_BASE, 1), Err(ErrorKind::InvalidHandle));
    let text = glean_ping_collect(&mut h, &"core".to_string(), 0).unwrap();
    assert_eq!(text, payload("core", 0, "", "\"ui.swipes\":2,\"ui.taps\":1", ""));
    assert_eq!(
        glean_new_counter_metric(&mut h, &"Bad".to_string(), &"ui".to_string()),
        Err(ErrorKind::InvalidMetricIdentity)
    );
    glean_set_upload_enabled(&mut h, 0);
    assert_eq!(glean_is_upload_enabled(&h), 0);
    glean_counter_add(&mut h, c0, 1).unwrap();
    assert_eq!(glean_ping_collect(&mut h, &"core".to_string(), 0).unwrap(), payload("core", 1, "", "", ""));
    assert_eq!(
        glean_ping_collect(&mut h, &"other".to_string(), 0),
        Err(ErrorKind::UnknownPing)
    );
}

fn same_value(a: &MetricValue, b: &MetricValue) -> bool {
    match (a, b) {
        (MetricValue::Boolean(x), MetricValue::Boolean(y)) => x == y,
        (MetricValue::Counter(x), MetricValue::Counter(y)) => x == y,
        (MetricValue::String(x), MetricValue::String(y)) => x == y,
        _ => false,
    }
}

fn keys(ms: &[ParsedMetric]) -> Vec<String> {
    ms.iter().map(|m| m.key.clone()).collect()
}

#[test]
fn payload_reads_back_as_snapshot() {
    let mut g = ready();
    let c = CounterMetric::new(&mut g, meta("app", "launches", &["metrics"])).unwrap();
    let b = BooleanMetric::new(&mut g, meta("app", "first_run", &["metrics"])).unwrap();
    let s = StringMetric::new(&mut g, meta("device", "label", &["metrics"])).unwrap();
    let c2 = CounterMetric::new(&mut g, meta("net", "bytes", &["metrics"])).unwrap();
    c.add(&mut g, 3).unwrap();
    s.set(&mut g, &"quote \" back \\ tab\t é".to_string()).unwrap();
    b.set(&mut g, true).unwrap();
    c2.add(&mut g, 6).unwrap();
    let snapshot = g.snapshot(&"metrics".to_string());
    let text = g.collect(&"metrics".to_string(), 0).unwrap();
    let parsed = parse_ping(&text).expect("payload reads back");
    assert_eq!(parsed.name, "metrics");
    assert_eq!(parsed.seq, 0);
    let all: Vec<&ParsedMetric> =
        parsed.booleans.iter().chain(parsed.counters.iter()).chain(parsed.strings.iter()).collect();
    assert_eq!(all.len(), snapshot.len());
    for e in &snapshot {
        let key = format!("{}.{}", e.category, e.name);
        let found: Vec<&&ParsedMetric> = all.iter().filter(|m| m.key == key).collect();
        assert_eq!(found.len(), 1, "{}", key);
        assert!(same_value(&found[0].value, &e.value), "{}", key);
    }
    assert_eq!(keys(&parsed.counters), vec!["app.launches".to_string(), "net.bytes".to_string()]);
    assert_eq!(keys(&parsed.booleans), vec!["app.first_run".to_string()]);
    assert_eq!(keys(&parsed.strings), vec!["device.label".to_string()]);
}

#[test]
fn parse_reads_escapes_and_sequence() {
    let text = "{\"ping_info\":{\"ping_name\":\"p\\\"q\",\"seq\":42,\"time\":5,\"client_id\":\"c-1\"},\"metrics\":{\"boolean\":{\"a.b\":false},\"counter\":{},\"string\":{\"a.s\":\"x\\u000ay\\\\\"}}}";
    let parsed = parse_ping(&text.to_string()).unwrap();
    assert_eq!(parsed.name, "p\"q");
    assert_eq!(parsed.seq, 42);
    assert_eq!(parsed.time, 5);
    assert_eq!(parsed.client_id, "c-1");
    assert_eq!(parsed.booleans.len(), 1);
    assert!(same_value(&parsed.booleans[0].value, &MetricValue::Boolean(false)));
    assert!(parsed.counters.is_empty());
    assert_eq!(parsed.strings[0].key, "a.s");
    assert!(same_value(&parsed.strings[0].value, &MetricValue::String("x\ny\\".to_string())));
}

#[test]
fn parse_rejects_malformed_payloads() {
    let good = payload("m", 1, "", "\"a.b\":5", "");
    assert!(parse_ping(&good).is_some());
    assert!(parse_ping(&String::new()).is_none());
    assert!(parse_ping(&"{}".to_string()).is_none());
    assert!(parse_ping(&good[..good.len() - 1].to_string()).is_none());
    assert!(parse_ping(&format!("{} ", good)).is_none());
    let too_big = payload("m", 1, "", "\"a.b\":18446744073709551616", "");
    assert!(parse_ping(&too_big).is_none());
    let max = payload("m", 1, "", "\"a.b\":18446744073709551615", "");
    assert!(same_value(&parse_ping(&max).unwrap().counters[0].value, &MetricValue::Counter(u64::MAX)));
    let wrong_kind = payload("m", 1, "\"a.b\":7", "", "");
    assert!(parse_ping(&wrong_kind).is_none());
}

#[test]
fn saved_lines_restore_the_store() {
    let mut g1 = ready();
    g1.register_ping(&"daily".to_string(), true);
    let c = CounterMetric::new(&mut g1, meta("app", "launches", &["metrics", "daily"])).unwrap();
    let b = BooleanMetric::new(&mut g1, meta("app", "dark", &["metrics"])).unwrap();
    let s = StringMetric::new(&mut g1, meta("app", "who", &["metrics"])).unwrap();
    s.set(&mut g1, &"line\nbreak \"q\"".to_string()).unwrap();
    c.add(&mut g1, 4).unwrap();
    b.set(&mut g1, true).unwrap();
    g1.collect(&"daily".to_string(), 0).unwrap();
    c.add(&mut g1, 1).unwrap();
    let lines: Vec<String> = g1
        .ping_registry()
        .iter()
        .map(|p| g1.save_line(&p.name).unwrap())
        .collect();
    assert!(lines.iter().all(|l| !l.contains('\n')));
    assert!(lines.iter().any(|l| l.starts_with("p ")));
    let mut g2 = ready();
    for l in &lines {
        g2.restore_line(l).unwrap();
    }
    let again: Vec<String> = g2
        .ping_registry()
        .iter()
        .map(|p| g2.save_line(&p.name).unwrap())
        .collect();
    assert_eq!(again, lines);
    assert_eq!(g2.collect(&"daily".to_string(), 0), g1.collect(&"daily".to_string(), 0));
    assert_eq!(g2.collect(&"metrics".to_string(), 0), g1.collect(&"metrics".to_string(), 0));
    assert_eq!(counter_in(&g2, "daily", "app", "launches"), Some(5));
}

#[test]
fn bad_saved_lines_are_refused() {
    let mut g = ready();
    let good = payload("m", 3, "", "\"a.b\":1", "");
    let bad_lines = vec![
        String::new(),
        "p".to_string(),
        format!("x {}", good),
        "p {}".to_string(),
        format!("t{}", good),
    ];
    for bad in &bad_lines {
        assert_eq!(g.restore_line(bad), Err(ErrorKind::StorageUnavailable));
    }
    assert!(g.ping_registry().is_empty());
    assert_eq!(g.collect(&"m".to_string(), 0), Err(ErrorKind::UnknownPing));
    g.restore_line(&format!("t {}", good)).unwrap();
    assert_eq!(counter_in(&g, "m", "a", "b"), Some(1));
    assert_eq!(g.collect(&"m".to_string(), 0).unwrap(), good);
    assert_eq!(g.ping_state(&"nope".to_string()), Err(ErrorKind::UnknownPing));
}

#[test]
fn restore_through_the_boundary() {
    let mut h = GleanHost::new();
    glean_initialize(&mut h, &"/data".to_string()).unwrap();
    glean_set_client_id(&mut h, &"".to_string());
    assert_eq!(h.glean().client_id(), "");
    let line = format!("p {}", payload("core", 7, "", "\"ui.taps\":2", ""));
    glean_restore_line(&mut h, &line).unwrap();
    assert_eq!(glean_restore_line(&mut h, &"junk".to_string()), Err(ErrorKind::StorageUnavailable));
    let c = glean_new_counter_metric(&mut h, &"taps".to_string(), &"ui".to_string()).unwrap();
    glean_counter_add(&mut h, c, 3).unwrap();
    let text = glean_ping_collect(&mut h, &"core".to_string(), 0).unwrap();
    assert_eq!(text, payload("core", 7, "", "\"ui.taps\":5", ""));
    assert_eq!(
        glean_ping_collect(&mut h, &"core".to_string(), 0).unwrap(),
        payload("core", 8, "", "\"ui.taps\":5", "")
    );
}

#[test]
fn payload_carries_collection_time() {
    let mut g = ready();
    g.set_client_id(&"abc\"1".to_string());
    assert_eq!(g.client_id(), "abc\"1");
    let c = CounterMetric::new(&mut g, meta("app", "opens", &["m"])).unwrap();
    c.add(&mut g, 2).unwrap();
    let text = g.collect(&"m".to_string(), 1700000000).unwrap();
    assert_eq!(
        text,
        "{\"ping_info\":{\"ping_name\":\"m\",\"seq\":0,\"time\":1700000000,\"client_id\":\"abc\\\"1\"},\"metrics\":{\"boolean\":{},\"counter\":{\"app.opens\":2},\"string\":{}}}"
    );
    let parsed = parse_ping(&text).unwrap();
    assert_eq!((parsed.seq, parsed.time), (0, 1700000000));
    assert_eq!(parsed.client_id, "abc\"1");
}

#[test]
fn restore_with_upload_off_stores_nothing() {
    let mut g = ready();
    g.set_upload_enabled(false);
    let line = format!("t {}", payload("m", 4, "", "\"a.b\":9", ""));
    assert_eq!(g.restore_line(&line), Ok(()));
    assert_eq!(counter_in(&g, "m", "a", "b"), None);
    assert_eq!(g.collect(&"m".to_string(), 0).unwrap(), payload("m", 4, "", "", ""));
}

#[test]
fn counts_continue_from_a_stored_value() {
    let mut g = ready();
    let c = CounterMetric::new(&mut g, meta("app", "runs", &["m", "n"])).unwrap();
    c.add(&mut g, 40).unwrap();
    for _ in 0..7 {
        c.add(&mut g, 1).unwrap();
    }
    assert_eq!(counter_in(&g, "m", "app", "runs"), Some(47));
    assert_eq!(counter_in(&g, "n", "app", "runs"), Some(47));
}

#[test]
fn saved_store_splits_into_identifier_and_lines() {
    let mut g = ready();
    g.set_client_id(&"client-9".to_string());
    let c = CounterMetric::new(&mut g, meta("app", "opens", &["m"])).unwrap();
    c.add(&mut g, 3).unwrap();
    let text = g.save_store();
    assert!(text.starts_with("glean-store 1\nclient client-9\n"));
    let (id, rest) = split_store(&text).unwrap();
    assert_eq!(id, "client-9");
    assert_eq!(rest, format!("t {}\n", g.ping_state(&"m".to_string()).unwrap()));
    let mut h = ready();
    h.set_client_id(&id);
    for line in rest.lines() {
        h.restore_line(&line.to_string()).unwrap();
    }
    assert_eq!(h.save_store(), text);
    assert!(split_store(&"glean-store 2\nclient x\n".to_string()).is_none());
    assert!(split_store(&"glean-store 1\nclient x".to_string()).is_none());
    assert!(split_store(&String::new()).is_none());
}

#[test]
fn boolean_handles_can_be_destroyed_once() {
    let mut h = GleanHost::new();
    glean_initialize(&mut h, &"/data".to_string()).unwrap();
    let b1 = glean_new_boolean_metric(&mut h, &"a".to_string(), &"ui".to_string()).unwrap();
    let b2 = glean_new_boolean_metric(&mut h, &"b".to_string(), &"ui".to_string()).unwrap();
    assert_eq!((b1, b2), (BOOLEAN_HANDLE_BASE + 1, BOOLEAN_HANDLE_BASE + 2));
    assert_eq!(glean_destroy_boolean_metric(&mut h, b1), Ok(()));
    assert_eq!(glean_destroy_boolean_metric(&mut h, b1), Err(ErrorKind::InvalidHandle));
    assert_eq!(glean_destroy_boolean_metric(&mut h, 0), Err(ErrorKind::InvalidHandle));
    assert_eq!(glean_destroy_boolean_metric(&mut h, b2 + 1), Err(ErrorKind::InvalidHandle));
    let b3 = glean_new_boolean_metric(&mut h, &"c".to_string(), &"ui".to_string()).unwrap();
    assert_eq!(b3, BOOLEAN_HANDLE_BASE + 3);
    assert_eq!(glean_destroy_boolean_metric(&mut h, b2), Ok(()));
}
