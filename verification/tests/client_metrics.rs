use unleash_types::client_metrics::{
    from_bucket_app_name_and_env, labels_to_key, merge_groups, merge_plan, ClientApplication, ConnectVia, MetricBucket,
    MetricType, MetricsMetadata, SampleKind, ToggleStats,
};
use unleash_types::string_map::StringMap;
use unleash_types::time::Timestamp;
use unleash_types::Merge;

fn utc_now() -> Timestamp {
    let t = chrono::Utc::now();
    Timestamp {
        secs: t.timestamp(),
        nanos: t.timestamp_subsec_nanos(),
    }
}

#[test]
pub fn can_increment_counts() {
    let mut stats = ToggleStats::default();
    assert_eq!(stats.yes, 0);
    assert_eq!(stats.no, 0);
    stats.yes();
    stats.no();
    assert_eq!(stats.yes, 1);
    assert_eq!(stats.no, 1);
}

#[test]
pub fn can_increment_variant_count() {
    let mut stats = ToggleStats::default();
    assert!(stats.variants.is_empty());
    stats.increment_variant_count("red");
    stats.increment_variant_count("red");
    let count = stats.variants.get("red").expect("No red key in map");
    assert_eq!(count, &2);
}

#[test]
pub fn counts_correctly_based_on_enabled() {
    let mut stats = ToggleStats::default();
    stats.count(true);
    stats.count(true);
    stats.count(true);
    stats.count(false);
    stats.count(false);
    assert_eq!(stats.yes, 3);
    assert_eq!(stats.no, 2);
}

#[test]
pub fn counting_variant_should_also_increment_yes_no_counters() {
    let mut stats = ToggleStats::default();
    stats.count_variant("red");
    stats.count_variant("green");
    stats.count_variant("green");
    stats.count_variant("green");
    stats.variant_disabled();
    assert_eq!(stats.yes, 4);
    assert_eq!(stats.no, 1);
    let red_count = stats.variants.get("red").unwrap();
    let green_count = stats.variants.get("green").unwrap();
    let disabled_count = stats.variants.get("disabled").unwrap();
    assert_eq!(red_count, &1);
    assert_eq!(green_count, &3);
    assert_eq!(disabled_count, &1);
}

#[test]
pub fn can_have_client_metrics_env_from_metrics_bucket() {
    let start = utc_now();
    let mut stats_feature_one = ToggleStats::default();
    stats_feature_one.count_variant("red");
    stats_feature_one.count_variant("green");
    stats_feature_one.count_variant("green");
    stats_feature_one.count_variant("green");
    stats_feature_one.variant_disabled();
    let mut stats_feature_two = ToggleStats::default();
    stats_feature_two.count_variant("red");
    stats_feature_two.count_variant("red");
    stats_feature_two.count_variant("red");
    stats_feature_two.count_variant("green");
    stats_feature_two.yes();
    stats_feature_two.yes();
    stats_feature_two.yes();
    stats_feature_two.variant_disabled();
    let mut map = StringMap::new();
    map.insert("feature_one".to_string(), stats_feature_one);
    map.insert("feature_two".to_string(), stats_feature_two);
    let bucket = MetricBucket {
        start,
        stop: Timestamp { secs: start.secs + 50 * 60, nanos: start.nanos },
        toggles: map,
    };
    let client_metrics_env = from_bucket_app_name_and_env(
        bucket,
        "unleash_edge_metrics".into(),
        "development".into(),
        MetricsMetadata {
            ..Default::default()
        },
    );
    assert_eq!(client_metrics_env.len(), 2);
    let feature_one_metrics = client_metrics_env
        .clone()
        .into_iter()
        .find(|e| e.feature_name == "feature_one")
        .unwrap();

    assert_eq!(feature_one_metrics.yes, 4);
    assert_eq!(feature_one_metrics.no, 1);

    let feature_two_metrics = client_metrics_env
        .into_iter()
        .find(|e| e.feature_name == "feature_two")
        .unwrap();

    assert_eq!(feature_two_metrics.yes, 7);
    assert_eq!(feature_two_metrics.no, 1);
}

#[test]
pub fn can_connect_via_new_application() {
    let demo_data = ClientApplication {
        app_name: "demo".into(),
        interval: 15500,
        environment: Some("production".into()),
        started: utc_now(),
        strategies: vec!["default".into(), "CustomStrategy".into()],
        ..Default::default()
    };
    let connected_via = demo_data.connect_via("unleash-edge", "edge-id-1");
    assert_eq!(
        connected_via.connect_via,
        Some(vec![ConnectVia {
            app_name: "unleash-edge".into(),
            instance_id: "edge-id-1".into(),
        }]),
    )
}

#[test]
pub fn can_merge_connected_via_where_one_side_is_none() {
    let started = utc_now();
    let demo_data_1 = ClientApplication {
        app_name: "demo".into(),
        interval: 15500,
        started,
        strategies: vec!["default".into(), "gradualRollout".into()],
        metadata: MetricsMetadata {
            sdk_version: Some("unleash-client-java:7.1.0".into()),
            ..Default::default()
        },
        ..Default::default()
    };

    let demo_data_2 = ClientApplication {
        connect_via: Some(vec![ConnectVia {
            app_name: "unleash-edge".into(),
            instance_id: "2".into(),
        }]),
        app_name: "demo".into(),
        interval: 15500,
        environment: Some("production".into()),
        started,
        strategies: vec!["default".into(), "CustomStrategy".into()],
        ..Default::default()
    };
    let merged = demo_data_1.clone().merge(demo_data_2.clone());
    assert_eq!(demo_data_2.connect_via, merged.connect_via);
    let reverse_merge = demo_data_2.clone().merge(demo_data_1);
    assert_eq!(demo_data_2.connect_via, reverse_merge.connect_via);
}

#[test]
pub fn can_merge_connected_via() {
    let started = utc_now();
    let demo_data_1 = ClientApplication {
        connect_via: Some(vec![ConnectVia {
            app_name: "unleash-edge".into(),
            instance_id: "1".into(),
        }]),
        app_name: "demo".into(),
        interval: 15500,
        started,
        strategies: vec!["default".into(), "gradualRollout".into()],
        metadata: MetricsMetadata {
            sdk_version: Some("unleash-client-java:7.1.0".into()),
            ..Default::default()
        },
        ..Default::default()
    };

    let demo_data_2 = ClientApplication {
        connect_via: Some(vec![ConnectVia {
            app_name: "unleash-edge".into(),
            instance_id: "2".into(),
        }]),
        app_name: "demo".into(),
        interval: 15500,
        environment: Some("production".into()),
        started,
        strategies: vec!["default".into(), "CustomStrategy".into()],
        ..Default::default()
    };

    let merged = demo_data_1.merge(demo_data_2);
    let connections = merged.connect_via.unwrap();
    assert_eq!(connections.len(), 2);
    assert_eq!(
        connections,
        vec![
            ConnectVia {
                app_name: "unleash-edge".into(),
                instance_id: "1".into(),
            },
            ConnectVia {
                app_name: "unleash-edge".into(),
                instance_id: "2".into(),
            }
        ]
    )
}

#[test]
pub fn merging_two_client_applications_prioritizes_left_hand_side() {
    let started = utc_now();
    let demo_data_1 = ClientApplication {
        app_name: "demo".into(),
        interval: 15500,
        started,
        strategies: vec!["default".into(), "gradualRollout".into()],
        metadata: MetricsMetadata {
            sdk_version: Some("unleash-client-java:7.1.0".into()),
            ..Default::default()
        },
        ..Default::default()
    };

    let demo_data_2 = ClientApplication {
        app_name: "demo".into(),
        interval: 15500,
        environment: Some("production".into()),
        started,
        strategies: vec!["default".into(), "CustomStrategy".into()],
        ..Default::default()
    };

    let left = demo_data_2.clone().merge(demo_data_1.clone());
    let right = demo_data_1.merge(demo_data_2);

    assert_eq!(left, right);
}

#[test]
pub fn merging_two_client_applications_should_use_set_values() {
    let demo_data_orig = ClientApplication::new("demo", 15000);
    let demo_data_with_more_data = ClientApplication {
        app_name: "demo".into(),
        interval: 15500,
        environment: Some("development".into()),
        instance_id: Some("instance_id".into()),
        connection_id: Some("connection_id".into()),
        started: utc_now(),
        strategies: vec!["default".into(), "gradualRollout".into()],
        metadata: MetricsMetadata {
            sdk_version: Some("unleash-client-java:7.1.0".into()),
            ..Default::default()
        },
        ..Default::default()
    };
    // Cloning orig here, to avoid the destructive merge preventing us from testing
    let merged = demo_data_orig.clone().merge(demo_data_with_more_data);
    assert_eq!(merged.interval, demo_data_orig.interval);
    assert_eq!(merged.environment, Some("development".into()));
    assert_eq!(
        merged.metadata.sdk_version,
        Some("unleash-client-java:7.1.0".into())
    );
    assert_eq!(merged.instance_id, Some("instance_id".into()));
    assert_eq!(merged.connection_id, Some("connection_id".into()));
    assert_eq!(merged.started, demo_data_orig.started);
    assert_eq!(merged.strategies.len(), 2);
}

#[test]
pub fn merging_two_client_applications_should_eliminate_duplicate_strategies() {
    let mut demo_data_1 = ClientApplication::new("demo", 15000);
    let mut demo_data_2 = ClientApplication::new("demo", 15000);
    demo_data_1.add_strategies(vec!["default".into(), "gradualRollout".into()]);
    demo_data_2.add_strategies(vec!["default".into(), "randomRollout".into()]);
    let demo_data_3 = demo_data_1.merge(demo_data_2);
    assert_eq!(demo_data_3.strategies.len(), 3);
}

#[test]
fn merged_strategies_are_sorted_and_unique_and_projects_of_self_kept() {
    let a = ClientApplication {
        app_name: "a".into(),
        strategies: vec!["zeta".into(), "alpha".into()],
        projects: Some(vec!["p2".into(), "p1".into()]),
        ..Default::default()
    };
    let b = ClientApplication {
        app_name: "b".into(),
        strategies: vec!["beta".into(), "zeta".into()],
        projects: Some(vec!["p1".into(), "p0".into()]),
        ..Default::default()
    };
    let merged = a.merge(b);
    assert_eq!(merged.app_name, "a");
    assert_eq!(merged.strategies, vec!["alpha", "beta", "zeta"]);
    assert_eq!(merged.projects, Some(vec!["p2".to_string(), "p1".into()]));
}

#[test]
fn projects_of_one_side_are_kept_as_they_are() {
    let a = ClientApplication {
        projects: Some(vec!["b".into(), "a".into(), "b".into()]),
        ..Default::default()
    };
    let merged = a.clone().merge(ClientApplication::default());
    assert_eq!(merged.projects, Some(vec!["b".to_string(), "a".into(), "b".into()]));
    let merged = ClientApplication::default().merge(a);
    assert_eq!(merged.projects, Some(vec!["b".to_string(), "a".into(), "b".into()]));
}

#[test]
fn add_strategies_appends_only_new_names() {
    let mut app = ClientApplication::new("demo", 1);
    app.add_strategies(vec!["b".into(), "a".into()]);
    app.add_strategies(vec!["a".into(), "c".into(), "c".into()]);
    assert_eq!(app.strategies, vec!["b", "a", "c"]);
}

#[test]
fn variant_counts_start_at_one() {
    let mut stats = ToggleStats::default();
    stats.variant_disabled();
    assert_eq!(stats.no, 1);
    assert_eq!(stats.yes, 0);
    assert_eq!(stats.variants.get("disabled"), Some(&1));
    assert_eq!(stats.variants.len(), 1);
}

#[test]
fn metric_types_are_read_in_any_case() {
    assert_eq!(MetricType::parse("COUNTER"), MetricType::Counter);
    assert_eq!(MetricType::parse("Gauge"), MetricType::Gauge);
    assert_eq!(MetricType::parse("histogram"), MetricType::Histogram);
    assert_eq!(MetricType::parse("summary"), MetricType::Unknown);
    assert_eq!(MetricType::Histogram.to_string(), "histogram");
    assert_eq!(MetricType::Unknown.to_string(), "unknown");
}

#[test]
fn labels_are_keyed_in_key_order() {
    let mut labels = StringMap::new();
    labels.insert("service".to_string(), "api".to_string());
    labels.insert("endpoint".to_string(), "/x".to_string());
    assert_eq!(labels_to_key(&Some(labels)), "endpoint:/x,service:api");
    assert_eq!(labels_to_key(&None), "");
    let mut one = StringMap::new();
    one.insert("label1".to_string(), "value1".to_string());
    assert_eq!(labels_to_key(&Some(one)), "label1:value1");
}

#[test]
fn string_map_insert_replaces_in_place() {
    let mut m = StringMap::new();
    assert_eq!(m.insert("a".to_string(), 1u32), None);
    assert_eq!(m.insert("b".to_string(), 2u32), None);
    assert_eq!(m.insert("a".to_string(), 3u32), Some(1));
    let keys: Vec<&str> = m.entries().iter().map(|(k, _)| k.as_str()).collect();
    assert_eq!(keys, vec!["a", "b"]);
    assert_eq!(m.get("a"), Some(&3));
    assert_eq!(m.len(), 2);
}

#[test]
fn merge_groups_sort_stably_and_group_equal_keys() {
    let keys: Vec<String> = vec!["b".into(), "a".into(), "b".into(), "".into(), "a".into()];
    let groups = merge_groups(&keys);
    assert_eq!(groups, vec![vec![3], vec![1, 4], vec![0, 2]]);
    assert_eq!(merge_groups(&Vec::new()), Vec::<Vec<usize>>::new());
}

#[test]
fn labels_key_ignores_insertion_order() {
    let mut first = StringMap::new();
    first.insert("b".to_string(), "2".to_string());
    first.insert("a".to_string(), "1".to_string());
    let mut second = StringMap::new();
    second.insert("a".to_string(), "1".to_string());
    second.insert("b".to_string(), "2".to_string());
    assert_eq!(labels_to_key(&Some(first)), labels_to_key(&Some(second)));
}

#[test]
fn merged_strategies_do_not_depend_on_side() {
    let a = ClientApplication {
        strategies: vec!["x".into(), "a".into(), "x".into()],
        ..Default::default()
    };
    let b = ClientApplication {
        strategies: vec!["m".into(), "a".into()],
        ..Default::default()
    };
    let left = a.clone().merge(b.clone()).strategies;
    let right = b.merge(a).strategies;
    assert_eq!(left, vec!["a", "m", "x"]);
    assert_eq!(left, right);
}

fn sample_keys() -> Vec<String> {
    vec![
        "label1:value1".into(),
        "label2:value2".into(),
        "label1:value1".into(),
        "label3:value3".into(),
    ]
}

#[test]
fn counter_plan_folds_later_samples_into_the_first() {
    let kinds = vec![SampleKind::Numeric; 4];
    let plan = merge_plan(MetricType::Counter, &sample_keys(), &kinds);
    assert_eq!(plan, vec![(0, vec![2]), (1, vec![]), (3, vec![])]);
}

#[test]
fn gauge_plan_keeps_the_last_sample_of_each_key() {
    let kinds = vec![SampleKind::Numeric; 4];
    let plan = merge_plan(MetricType::Gauge, &sample_keys(), &kinds);
    assert_eq!(plan, vec![(2, vec![]), (1, vec![]), (3, vec![])]);
    let unknown = merge_plan(MetricType::Unknown, &sample_keys(), &kinds);
    assert_eq!(unknown, plan);
}

#[test]
fn plans_drop_samples_of_the_other_kind() {
    let keys: Vec<String> = vec!["k".into(), "k".into(), "k".into()];
    let kinds = vec![SampleKind::Numeric, SampleKind::Bucket, SampleKind::Numeric];
    assert_eq!(merge_plan(MetricType::Counter, &keys, &kinds), vec![(0, vec![2])]);
    assert_eq!(merge_plan(MetricType::Histogram, &keys, &kinds), vec![(0, vec![])]);
    let buckets = vec![SampleKind::Bucket, SampleKind::Bucket, SampleKind::Numeric];
    assert_eq!(merge_plan(MetricType::Histogram, &keys, &buckets), vec![(0, vec![1])]);
    assert_eq!(merge_plan(MetricType::Counter, &Vec::new(), &Vec::new()), vec![]);
}

#[test]
fn string_map_remove_keeps_the_other_entries_in_order() {
    let mut m = StringMap::new();
    m.insert("a".to_string(), 1u32);
    m.insert("b".to_string(), 2u32);
    m.insert("c".to_string(), 3u32);
    assert_eq!(m.remove("b"), Some(2));
    assert_eq!(m.remove("b"), None);
    let keys: Vec<&str> = m.entries().iter().map(|(k, _)| k.as_str()).collect();
    assert_eq!(keys, vec!["a", "c"]);
    assert_eq!(m.len(), 2);
}

#[test]
fn new_at_starts_at_the_given_instant() {
    let started = Timestamp { secs: 1000, nanos: 5 };
    let app = ClientApplication::new_at("demo", 15000, started);
    assert_eq!(app.started, started);
    assert_eq!(app.app_name, "demo");
    assert_eq!(app.interval, 15000);
    assert_eq!(app.connect_via, Some(vec![]));
    assert_eq!(app.projects, Some(vec![]));
    assert!(app.strategies.is_empty());
}

#[test]
fn variant_counts_add_up_to_yes_and_no() {
    let mut stats = ToggleStats::default();
    stats.count_variant("red");
    stats.count_variant("green");
    stats.count_variant("red");
    stats.variant_disabled();
    let total: u32 = stats.variants.entries().iter().map(|(_, c)| *c).sum();
    assert_eq!(total, stats.yes + stats.no);
    assert_eq!(total, 4);
}
