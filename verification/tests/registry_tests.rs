use prometheus::desc::Desc;
use prometheus::desc::LabelPair;
use prometheus::errors::Error;
use prometheus::family::Metric;
use prometheus::family::MetricFamily;
use prometheus::family::MetricType;
use prometheus::registry::Collector;
use prometheus::registry::Registry;

/// A counter-like instrument backing a single family with a fixed value.
#[derive(Clone)]
struct TestCounter {
    name: String,
    help: String,
    id: u64,
    dim_hash: u64,
    value: u64,
}

impl TestCounter {
    fn new(name: &str, help: &str, id: u64, dim_hash: u64, value: u64) -> TestCounter {
        TestCounter {
            name: name.to_string(),
            help: help.to_string(),
            id,
            dim_hash,
            value,
        }
    }
}

impl Collector for TestCounter {
    fn descs(&self) -> vstd::seq::Seq<Desc> {
        panic!()
    }

    fn desc(&self) -> Vec<Desc> {
        vec![Desc::new(
            self.name.clone(),
            self.help.clone(),
            Vec::new(),
            self.id,
            self.dim_hash,
        )]
    }

    fn collect(&self) -> Vec<MetricFamily> {
        vec![MetricFamily::new(
            self.name.clone(),
            self.help.clone(),
            MetricType::Counter,
            vec![Metric::new(Vec::new(), self.value, None)],
        )]
    }
}

/// A collector exposing an arbitrary descriptor list and prepared families.
#[derive(Clone)]
struct MultipleCollector {
    descs: Vec<Desc>,
    families: Vec<MetricFamily>,
}

impl Collector for MultipleCollector {
    fn descs(&self) -> vstd::seq::Seq<Desc> {
        panic!()
    }

    fn desc(&self) -> Vec<Desc> {
        self.descs.clone()
    }

    fn collect(&self) -> Vec<MetricFamily> {
        self.families.clone()
    }
}

fn label(name: &str, value: &str) -> LabelPair {
    LabelPair::new(name.to_string(), value.to_string())
}

#[test]
fn test_registry() {
    let r = Registry::new();

    let counter = TestCounter::new("test", "test help", 1, 11, 1);
    r.register(counter.clone()).unwrap();

    let families = r.gather();
    assert_eq!(families.len(), 1);
    assert_eq!(families[0].get_name(), "test");

    assert!(r.register(counter.clone()).is_err());
    assert!(r.unregister(&counter).is_ok());
    assert!(r.unregister(&counter).is_err());

    let counter_vec = TestCounter::new("test_vec", "test vec help", 2, 22, 0);
    r.register(counter_vec.clone()).unwrap();
}

#[test]
fn test_gather_order() {
    let r = Registry::new();

    let counter_a = TestCounter::new("test_a_counter", "test help", 1, 11, 1);
    let counter_b = TestCounter::new("test_b_counter", "test help", 2, 22, 1);
    let counter_2 = TestCounter::new("test_2_counter", "test help", 3, 33, 1);
    r.register(counter_b).unwrap();
    r.register(counter_2).unwrap();
    r.register(counter_a).unwrap();

    let mfs = r.gather();
    assert_eq!(mfs.len(), 3);
    assert_eq!(mfs[0].get_name(), "test_2_counter");
    assert_eq!(mfs[1].get_name(), "test_a_counter");
    assert_eq!(mfs[2].get_name(), "test_b_counter");

    // One family, several label-value combinations; const labels a="1" and
    // b="2", variable labels a2, c0, c1, cc; label pairs in label-name order.
    let combo = |a2: &str, c0: &str, c1: &str, value: u64| -> Metric {
        Metric::new(
            vec![
                label("a", "1"),
                label("a2", a2),
                label("b", "2"),
                label("c0", c0),
                label("c1", c1),
                label("cc", "12"),
            ],
            value,
            None,
        )
    };
    let collector = MultipleCollector {
        descs: vec![Desc::new(
            "test".to_string(),
            "test help".to_string(),
            vec![label("a", "1"), label("b", "2")],
            4,
            44,
        )],
        families: vec![MetricFamily::new(
            "test".to_string(),
            "test help".to_string(),
            MetricType::Counter,
            vec![
                combo("0", "hello", "a1", 1),
                combo("0", "hello", "0", 2),
                combo("da", "hello", "0", 3),
                combo("da", "\u{4f60}\u{597d}", "0", 4),
            ],
        )],
    };

    let r = Registry::new();
    r.register(collector).unwrap();

    // test{a="1",a2="0",b="2",c0="hello",c1="0",cc="12"} 2
    // test{a="1",a2="0",b="2",c0="hello",c1="a1",cc="12"} 1
    // test{a="1",a2="da",b="2",c0="hello",c1="0",cc="12"} 3
    // test{a="1",a2="da",b="2",c0="你好",c1="0",cc="12"} 4
    let mfs = r.gather();
    assert_eq!(mfs.len(), 1);
    let ms = mfs[0].get_metric();
    assert_eq!(ms.len(), 4);
    assert_eq!(ms[0].get_value(), 2);
    assert_eq!(ms[1].get_value(), 1);
    assert_eq!(ms[2].get_value(), 3);
    assert_eq!(ms[3].get_value(), 4);
}

#[test]
fn test_register_multiplecollector() {
    let counters = vec![
        TestCounter::new("c1", "c1 is a counter", 10, 100, 0),
        TestCounter::new("c2", "c2 is a counter", 20, 200, 0),
    ];

    let mut descs = Vec::new();
    let mut families = Vec::new();
    for c in &counters {
        descs.extend(c.desc());
        families.extend(c.collect());
    }

    let mc = MultipleCollector { descs, families };

    let r = Registry::new();
    r.register(mc).unwrap();
}

#[test]
fn test_gather_empty_registry() {
    let r: Registry<TestCounter> = Registry::new();
    assert_eq!(r.gather().len(), 0);
}

#[test]
fn test_duplicate_descriptor_rejected() {
    let r = Registry::new();
    let first = TestCounter::new("test", "test help", 7, 77, 0);
    // Same descriptor id as `first`: the same name and const labels.
    let second = TestCounter::new("test", "test help", 7, 77, 0);
    r.register(first).unwrap();
    let e = r.register(second).unwrap_err();
    assert!(matches!(e, Error::DuplicateDescriptor));
}

#[test]
fn test_inconsistent_descriptor_rejected() {
    let r = Registry::new();
    let first = TestCounter::new("test", "test help", 1, 11, 0);
    // Same fully-qualified name, different label-name shape.
    let second = TestCounter::new("test", "test help", 2, 99, 0);
    r.register(first).unwrap();
    let e = r.register(second).unwrap_err();
    assert!(matches!(e, Error::InconsistentDescriptor));

    // The rejected collector left no trace.
    let mfs = r.gather();
    assert_eq!(mfs.len(), 1);
    assert_eq!(mfs[0].get_metric().len(), 1);
}

#[test]
fn test_duplicate_in_collector_rejected() {
    let r = Registry::new();
    let d = Desc::new("test".to_string(), "test help".to_string(), Vec::new(), 5, 55);
    let mc = MultipleCollector {
        descs: vec![d.clone(), d],
        families: Vec::new(),
    };
    let e = r.register(mc).unwrap_err();
    assert!(matches!(e, Error::DuplicateInCollector));
}

#[test]
fn test_already_registered_without_descriptors() {
    // A collector without descriptors has the structural id zero, so a
    // second structurally identical one trips the collector-id check.
    let r = Registry::new();
    let empty = MultipleCollector { descs: Vec::new(), families: Vec::new() };
    r.register(empty.clone()).unwrap();
    let e = r.register(empty).unwrap_err();
    assert!(matches!(e, Error::AlreadyRegistered));
}

#[test]
fn test_unregister_twice_not_registered() {
    let r = Registry::new();
    let counter = TestCounter::new("test", "test help", 1, 11, 0);
    r.register(counter.clone()).unwrap();
    assert!(r.unregister(&counter).is_ok());
    let e = r.unregister(&counter).unwrap_err();
    assert!(matches!(e, Error::NotRegistered));
}

#[test]
fn test_gather_merges_same_family() {
    let r = Registry::new();
    // Two instruments backing the same family: same name and shape, distinct
    // descriptor identities (as if their const label values differed).
    let one = TestCounter::new("dup", "dup help", 1, 11, 5);
    let two = TestCounter::new("dup", "dup help", 2, 11, 9);
    r.register(one).unwrap();
    r.register(two).unwrap();

    let mfs = r.gather();
    assert_eq!(mfs.len(), 1);
    assert_eq!(mfs[0].get_name(), "dup");
    let values: Vec<u64> = mfs[0].get_metric().iter().map(|m| m.get_value()).collect();
    assert_eq!(values.len(), 2);
    assert!(values.contains(&5));
    assert!(values.contains(&9));
}

#[test]
fn test_name_consistency_survives_unregister() {
    // Once a name's shape is recorded it stays for the life of the registry,
    // even after its instrument is unregistered.
    let r = Registry::new();
    let first = TestCounter::new("test", "test help", 1, 11, 0);
    r.register(first.clone()).unwrap();
    assert!(r.unregister(&first).is_ok());
    let incompatible = TestCounter::new("test", "test help", 2, 99, 0);
    let e = r.register(incompatible).unwrap_err();
    assert!(matches!(e, Error::InconsistentDescriptor));
    let compatible = TestCounter::new("test", "test help", 3, 11, 0);
    r.register(compatible).unwrap();
}

#[test]
fn test_metrics_sorted_by_label_count_and_timestamp() {
    // Fewer labels sort first; equal label values fall back to timestamps,
    // with a missing timestamp sorting last.
    let r = Registry::new();
    let mc = MultipleCollector {
        descs: vec![Desc::new("test".to_string(), "test help".to_string(), Vec::new(), 1, 11)],
        families: vec![MetricFamily::new(
            "test".to_string(),
            "test help".to_string(),
            MetricType::Gauge,
            vec![
                Metric::new(vec![label("a", "x")], 3, None),
                Metric::new(Vec::new(), 1, None),
                Metric::new(vec![label("a", "x")], 2, Some(50)),
                Metric::new(vec![label("a", "x")], 1, Some(-3)),
            ],
        )],
    };
    r.register(mc).unwrap();
    let mfs = r.gather();
    let values: Vec<u64> = mfs[0].get_metric().iter().map(|m| m.get_value()).collect();
    assert_eq!(values, vec![1, 1, 2, 3]);
}

#[test]
fn test_tie_order_stable() {
    // Metrics whose label values and timestamps tie keep their input order:
    // the sort is stable, also across two collectors feeding one family.
    let r = Registry::new();
    let mc = MultipleCollector {
        descs: vec![Desc::new("test".to_string(), "test help".to_string(), Vec::new(), 1, 11)],
        families: vec![MetricFamily::new(
            "test".to_string(),
            "test help".to_string(),
            MetricType::Gauge,
            vec![
                Metric::new(vec![label("a", "x")], 7, Some(5)),
                Metric::new(vec![label("a", "x")], 8, Some(5)),
                Metric::new(vec![label("a", "x")], 9, None),
            ],
        )],
    };
    let mc2 = MultipleCollector {
        descs: vec![Desc::new("test".to_string(), "test help".to_string(), Vec::new(), 2, 11)],
        families: vec![MetricFamily::new(
            "test".to_string(),
            "test help".to_string(),
            MetricType::Gauge,
            vec![Metric::new(vec![label("a", "x")], 10, Some(5))],
        )],
    };
    r.register(mc).unwrap();
    r.register(mc2).unwrap();

    let mfs = r.gather();
    assert_eq!(mfs.len(), 1);
    let values: Vec<u64> = mfs[0].get_metric().iter().map(|m| m.get_value()).collect();
    assert_eq!(values, vec![7, 8, 10, 9]);
}

#[test]
fn test_gather_reproducible() {
    // Two gathers with unchanged collectors observe identical snapshots,
    // element for element, even with tied sort keys.
    let r = Registry::new();
    let mc = MultipleCollector {
        descs: vec![Desc::new("test".to_string(), "test help".to_string(), Vec::new(), 1, 11)],
        families: vec![MetricFamily::new(
            "test".to_string(),
            "test help".to_string(),
            MetricType::Counter,
            vec![
                Metric::new(vec![label("a", "x")], 2, None),
                Metric::new(vec![label("a", "x")], 1, None),
            ],
        )],
    };
    r.register(mc).unwrap();

    let first = r.gather();
    let second = r.gather();
    assert_eq!(first.len(), second.len());
    for (f1, f2) in first.iter().zip(second.iter()) {
        assert_eq!(f1.get_name(), f2.get_name());
        let v1: Vec<u64> = f1.get_metric().iter().map(|m| m.get_value()).collect();
        let v2: Vec<u64> = f2.get_metric().iter().map(|m| m.get_value()).collect();
        assert_eq!(v1, v2);
    }
}
