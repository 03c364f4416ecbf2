use metrics64::registry::mid;
use metrics64::tags::normalize_tags;
use metrics64::{Counter, CounterDef, Gauge, GaugeDef, Metric, MetricKind, RegisterError, Registry, TagSchema};
use std::hash::{BuildHasher, Hash, Hasher};
use metrics64::collector::{resource_attributes, service_name, ProcessAttributes};

fn alleycat_client() -> CounterDef {
    CounterDef::new("alleycat/client/requests", &["service", "method", "status"])
}

#[test]
fn test_counter_must() {
    let mut registry: Registry<Counter> = Registry::new();
    let counter = alleycat_client()
        .must_with_registry(
            &mut registry,
            &[
                ("service", "metrics64.MetricCollector"),
                ("method", "Push"),
                ("status", "ok"),
            ],
            Counter::must(),
        )
        .unwrap()
        .clone();
    counter.incr()
}

#[test]
fn test_counter_dispatch() {
    let mut registry: Registry<Counter> = Registry::new();
    let counter = alleycat_client()
        .must_with_registry(
            &mut registry,
            &[
                ("service", "metrics64.MetricCollector"),
                ("method", "Push"),
                ("status", "test"),
            ],
            Counter::must(),
        )
        .unwrap()
        .clone();

    let counter2 = alleycat_client()
        .must_with_registry(
            &mut registry,
            &[
                ("service", "metrics64.MetricCollector"),
                ("status", "test"),
                ("method", "Push"),
            ],
            Counter::must(),
        )
        .unwrap()
        .clone();

    let counter3 = counter2.clone();
    counter.incr();
    counter2.incr();
    counter3.incr();
    println!("{:#?}", registry.metric_ids());
}

#[test]
fn counter_dispatch_finds_one_metric() {
    let mut registry: Registry<Counter> = Registry::new();
    let def = alleycat_client();
    let first = def
        .must_with_registry(&mut registry, &[("service", "a"), ("method", "Push"), ("status", "ok")], Counter::must())
        .unwrap()
        .clone();
    let second = def
        .must_with_registry(
            &mut registry,
            &[("status", "ok"), ("service", "a"), ("method", "Push"), ("status", "ok")],
            Counter::must(),
        )
        .unwrap()
        .clone();
    let other = def
        .must_with_registry(&mut registry, &[("service", "b"), ("method", "Push"), ("status", "ok")], Counter::must())
        .unwrap()
        .clone();
    first.incr();
    second.incr_by(2);
    other.incr();
    assert_eq!(registry.len(), 2);
    assert_eq!(first.value(), 3);
    assert_eq!(second.value(), 0);
    assert_eq!(other.value(), 1);
}

#[test]
fn register_refuses_another_kind() {
    let mut registry: Registry<MetricKind> = Registry::new();
    let tags: &[(&str, &str)] = &[("k", "v")];
    assert_eq!(registry.register("m", tags, MetricKind::Counter, MetricKind::Counter), Ok(&MetricKind::Counter));
    assert_eq!(registry.register("m", tags, MetricKind::Gauge, MetricKind::Gauge), Err(RegisterError::KindMismatch));
    assert_eq!(registry.len(), 1);
    assert_eq!(registry.register("n", tags, MetricKind::Gauge, MetricKind::Gauge), Ok(&MetricKind::Gauge));
    assert_eq!(registry.len(), 2);
}

#[test]
fn registered_metric_keeps_name_and_normal_tags() {
    let mut registry: Registry<u32> = Registry::new();
    let tags: &[(&str, &str)] = &[("z", "1"), ("a", "2"), ("z", "1"), ("a", "1")];
    assert_eq!(registry.register("metric", tags, MetricKind::Gauge, 7), Ok(&7));
    let normal = normalize_tags(tags);
    let id = mid("metric", &normal);
    let meta = registry.get(id).unwrap();
    assert_eq!(meta.name(), "metric");
    assert_eq!(meta.kind(), MetricKind::Gauge);
    assert_eq!(*meta.metric(), 7);
    let got: Vec<(String, String)> = meta.tags().to_vec();
    assert_eq!(
        got,
        vec![
            ("a".to_string(), "1".to_string()),
            ("a".to_string(), "2".to_string()),
            ("z".to_string(), "1".to_string())
        ]
    );
    assert_eq!(registry.metric_ids(), vec![id]);
    assert!(registry.get(id.wrapping_add(1)).is_none());
}

#[test]
fn export_start_is_kept_from_the_first_export() {
    let mut meta = metrics64::MetricMetadata::new("m", Vec::new(), MetricKind::Counter, ());
    assert_eq!(meta.export_start_ts_or(100), 100);
    assert_eq!(meta.export_start_ts_or(200), 100);
}

#[test]
fn normal_tags_are_sorted_without_repeats() {
    let a = normalize_tags(&[("b", "2"), ("a", "9"), ("b", "1"), ("a", "9")]);
    let b = normalize_tags(&[("a", "9"), ("b", "1"), ("b", "2")]);
    assert_eq!(a, b);
    assert_eq!(
        a,
        vec![
            ("a".to_string(), "9".to_string()),
            ("b".to_string(), "1".to_string()),
            ("b".to_string(), "2".to_string())
        ]
    );
    // Byte order: upper case before lower case, a prefix before its extensions.
    let c = normalize_tags(&[("ab", ""), ("a", ""), ("B", "")]);
    assert_eq!(c[0].0, "B");
    assert_eq!(c[1].0, "a");
    assert_eq!(c[2].0, "ab");
    assert!(normalize_tags(&[]).is_empty());
}

#[test]
fn metric_id_is_the_hash_of_name_and_tags() {
    let tags = vec![("method".to_string(), "Push".to_string()), ("status".to_string(), "ok".to_string())];
    let mut hasher = twox_hash::XxHash64::with_seed(0xdeadbeef);
    "alleycat/client/requests".hash(&mut hasher);
    let borrowed: Vec<(&str, &str)> = tags.iter().map(|(k, v)| (k.as_str(), v.as_str())).collect();
    borrowed.as_slice().hash(&mut hasher);
    let expected = hasher.finish();
    let id = mid("alleycat/client/requests", &tags);
    let little_endian_64 = usize::BITS == 64 && u16::from_ne_bytes([1, 0]) == 1;
    if little_endian_64 {
        assert_eq!(id, expected);
    }
    assert_ne!(id, mid("alleycat/client/requests", &tags[..1]));
    assert_ne!(id, mid("alleycat/client/request", &tags));
}

#[test]
fn identity_bytes_of_a_small_metric() {
    let tags = vec![("k".to_string(), "v".to_string())];
    let bytes = metrics64::registry::identity("n", &tags);
    assert_eq!(bytes, vec![b'n', 0xff, 1, 0, 0, 0, 0, 0, 0, 0, b'k', 0xff, b'v', 0xff]);
}

#[test]
fn validate_points_at_the_first_unknown_key() {
    let schema: &'static [&'static str] = &["service", "method"];
    assert_eq!(schema.validate(&(&[("service", "x"), ("method", "y")][..])), None);
    assert_eq!(schema.validate(&(&[("service", "x"), ("status", "y"), ("zone", "z")][..])), Some(1));
    assert_eq!(schema.validate(&(&[][..])), None);
    let def = GaugeDef::new("g", &["state"]);
    assert_eq!(def.validate(&(&[("other", "x")][..])), Some(0));
    assert_eq!(def.name(), "g");
    assert_eq!(def.tag_keys(), &["state"]);
}

#[test]
fn counter_counts_and_resets_on_read() {
    let counter = Counter::must();
    counter.incr();
    counter.incr_by(41);
    let shared = counter.clone();
    shared.incr();
    assert_eq!(counter.value(), 43);
    assert_eq!(shared.value(), 0);
    counter.incr_by(u64::MAX);
    counter.incr_by(2);
    assert_eq!(counter.value(), 1);
    assert_eq!(Counter::KIND, MetricKind::Counter);
}

#[test]
fn gauge_moves_and_is_set() {
    let gauge = Gauge::must();
    gauge.set(100);
    gauge.incr();
    gauge.decr();
    gauge.decr();
    gauge.incr_by(-10);
    assert_eq!(gauge.value(), 89);
    assert_eq!(gauge.value(), 89);
    gauge.set(i64::MAX);
    gauge.incr();
    assert_eq!(gauge.value(), i64::MIN);
    assert_eq!(Gauge::KIND, MetricKind::Gauge);
}

#[test]
fn noop_hasher_passes_keys_through() {
    let build = metrics64::BuildNoopHasher;
    let mut hasher = build.build_hasher();
    assert_eq!(hasher.finish(), 0);
    hasher.write_u64(0x1234_5678_9abc_def0);
    assert_eq!(hasher.finish(), 0x1234_5678_9abc_def0);
    let mut map: std::collections::HashMap<u64, &str, metrics64::BuildNoopHasher> =
        std::collections::HashMap::with_hasher(metrics64::BuildNoopHasher);
    map.insert(7, "seven");
    assert_eq!(map.get(&7), Some(&"seven"));
}

#[test]
fn resource_attributes_follow_the_conventions() {
    assert_eq!(service_name(Some("svc"), Some("bin")), "svc");
    assert_eq!(service_name(None, Some("bin")), "unknown_service:bin");
    assert_eq!(service_name(None, None), "unknown_service");
    let proc_attr = ProcessAttributes {
        hostname: "host-1".to_string(),
        command: Some("/usr/bin/app".to_string()),
        instance: "id-1".to_string(),
    };
    let attrs = resource_attributes(None, &proc_attr);
    let expected: Vec<(String, String)> = vec![
        ("service.name", "unknown_service:/usr/bin/app"),
        ("service.instance.id", "id-1"),
        ("host.name", "host-1"),
        ("telemetry.sdk.language", "rust"),
        ("telemetry.sdk.name", "metrics64"),
        ("process.executable.name", "/usr/bin/app"),
    ]
    .into_iter()
    .map(|(k, v)| (k.to_string(), v.to_string()))
    .collect();
    assert_eq!(attrs, expected);
    let no_command = ProcessAttributes { hostname: "h".to_string(), command: None, instance: "i".to_string() };
    let attrs = resource_attributes(Some("svc"), &no_command);
    assert_eq!(attrs.len(), 5);
    assert_eq!(attrs[0], ("service.name".to_string(), "svc".to_string()));
}
