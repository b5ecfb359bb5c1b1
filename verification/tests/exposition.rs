use sidecar_metrics::exposition::encode;
use sidecar_metrics::registry::Registry;

#[test]
fn an_empty_registry_gives_an_empty_text() {
    let registry = Registry::new();
    assert_eq!(encode(&registry.gather()), "");
}

#[test]
fn a_plain_counter_gives_three_lines() {
    let mut registry = Registry::new();
    let counter = registry
        .register_counter("total_sidecar_shutdowns", "Total number of sidecars shut down")
        .unwrap();
    registry.increment_by(counter, 12).unwrap();
    assert_eq!(
        encode(&registry.gather()),
        "# HELP total_sidecar_shutdowns Total number of sidecars shut down\n\
         # TYPE total_sidecar_shutdowns counter\n\
         total_sidecar_shutdowns 12\n"
    );
}

#[test]
fn a_plain_counter_that_never_counted_shows_zero() {
    let mut registry = Registry::new();
    registry.register_counter("c", "help").unwrap();
    assert_eq!(encode(&registry.gather()), "# HELP c help\n# TYPE c counter\nc 0\n");
}

#[test]
fn a_family_without_counters_gives_nothing() {
    let mut registry = Registry::new();
    registry.register_counter_family("f", "help", &["a"]).unwrap();
    registry.register_counter("c", "help").unwrap();
    assert_eq!(encode(&registry.gather()), "# HELP c help\n# TYPE c counter\nc 0\n");
}

#[test]
fn a_family_shares_one_header_among_its_counters() {
    let mut registry = Registry::new();
    let family = registry
        .register_counter_family(
            "sidecar_shutdowns",
            "Number of sidecar shutdowns",
            &["container", "job_name", "namespace"],
        )
        .unwrap();
    let first = registry.with_labels(family, &["abc", "def", "ghi"]).unwrap();
    let second = registry.with_labels(family, &["abc", "def", "jkl"]).unwrap();
    registry.increment(first).unwrap();
    registry.increment(first).unwrap();
    registry.increment_by(second, 7).unwrap();
    assert_eq!(
        encode(&registry.gather()),
        "# HELP sidecar_shutdowns Number of sidecar shutdowns\n\
         # TYPE sidecar_shutdowns counter\n\
         sidecar_shutdowns{container=\"abc\",job_name=\"def\",namespace=\"ghi\"} 2\n\
         sidecar_shutdowns{container=\"abc\",job_name=\"def\",namespace=\"jkl\"} 7\n"
    );
}

#[test]
fn label_pairs_follow_the_declared_order_of_keys() {
    let mut registry = Registry::new();
    let family = registry.register_counter_family("f", "help", &["zone", "app"]).unwrap();
    let counter = registry.with_labels(family, &["eu", "web"]).unwrap();
    registry.increment(counter).unwrap();
    assert_eq!(
        encode(&registry.gather()),
        "# HELP f help\n# TYPE f counter\nf{zone=\"eu\",app=\"web\"} 1\n"
    );
}

#[test]
fn a_single_label_has_no_comma() {
    let mut registry = Registry::new();
    let family = registry.register_counter_family("f", "help", &["k"]).unwrap();
    registry.with_labels(family, &["v"]).unwrap();
    assert_eq!(encode(&registry.gather()), "# HELP f help\n# TYPE f counter\nf{k=\"v\"} 0\n");
}

#[test]
fn families_come_in_the_order_of_registration() {
    let mut registry = Registry::new();
    let b = registry.register_counter("b", "second letter").unwrap();
    let a = registry.register_counter("a", "first letter").unwrap();
    registry.increment(b).unwrap();
    registry.increment_by(a, 2).unwrap();
    assert_eq!(
        encode(&registry.gather()),
        "# HELP b second letter\n# TYPE b counter\nb 1\n\
         # HELP a first letter\n# TYPE a counter\na 2\n"
    );
}

#[test]
fn counters_come_in_the_order_of_first_use() {
    let mut registry = Registry::new();
    let family = registry.register_counter_family("f", "help", &["k"]).unwrap();
    let z = registry.with_labels(family, &["z"]).unwrap();
    let a = registry.with_labels(family, &["a"]).unwrap();
    registry.increment(a).unwrap();
    registry.increment_by(z, 3).unwrap();
    registry.with_labels(family, &["z"]).unwrap();
    assert_eq!(
        encode(&registry.gather()),
        "# HELP f help\n# TYPE f counter\nf{k=\"z\"} 3\nf{k=\"a\"} 1\n"
    );
}

#[test]
fn label_values_are_escaped() {
    let mut registry = Registry::new();
    let family = registry.register_counter_family("f", "help", &["k"]).unwrap();
    registry.with_labels(family, &["a\"b\\c\nd"]).unwrap();
    assert_eq!(
        encode(&registry.gather()),
        "# HELP f help\n# TYPE f counter\nf{k=\"a\\\"b\\\\c\\nd\"} 0\n"
    );
}

#[test]
fn help_text_is_escaped_but_keeps_its_quotes() {
    let mut registry = Registry::new();
    registry.register_counter("c", "a \"b\" \\ c\nd").unwrap();
    assert_eq!(
        encode(&registry.gather()),
        "# HELP c a \"b\" \\\\ c\\nd\n# TYPE c counter\nc 0\n"
    );
}

#[test]
fn the_largest_value_is_written_in_full() {
    let mut registry = Registry::new();
    let counter = registry.register_counter("c", "help").unwrap();
    registry.increment_by(counter, u64::MAX).unwrap();
    assert_eq!(
        encode(&registry.gather()),
        "# HELP c help\n# TYPE c counter\nc 18446744073709551615\n"
    );
}

#[test]
fn an_unused_label_tuple_has_no_line() {
    let mut registry = Registry::new();
    let family = registry.register_counter_family("f", "help", &["a", "b"]).unwrap();
    let used = registry.with_labels(family, &["1", "2"]).unwrap();
    registry.increment(used).unwrap();
    let text = encode(&registry.gather());
    assert!(text.contains("f{a=\"1\",b=\"2\"} 1\n"));
    assert!(!text.contains("f{a=\"2\",b=\"1\"}"));
    assert_eq!(text.lines().count(), 3);
}

#[test]
fn counting_rewrites_one_line_only() {
    let mut registry = Registry::new();
    let plain = registry.register_counter("c", "help").unwrap();
    let family = registry.register_counter_family("f", "help", &["k"]).unwrap();
    let x = registry.with_labels(family, &["x"]).unwrap();
    let y = registry.with_labels(family, &["y"]).unwrap();
    registry.increment(plain).unwrap();
    registry.increment(y).unwrap();
    let before = encode(&registry.gather());
    registry.increment_by(x, 9).unwrap();
    let after = encode(&registry.gather());
    let old: Vec<&str> = before.lines().collect();
    let new: Vec<&str> = after.lines().collect();
    assert_eq!(old.len(), 7);
    assert_eq!(new.len(), 7);
    let mut i = 0;
    while i < 7 {
        if i == 5 {
            assert_eq!(old[i], "f{k=\"x\"} 0");
            assert_eq!(new[i], "f{k=\"x\"} 9");
        } else {
            assert_eq!(old[i], new[i]);
        }
        i += 1;
    }
}

#[test]
fn encoding_a_snapshot_twice_gives_the_same_text() {
    let mut registry = Registry::new();
    let counter = registry.register_counter("c", "help").unwrap();
    registry.increment(counter).unwrap();
    let snapshot = registry.gather();
    assert_eq!(encode(&snapshot), encode(&snapshot));
}
