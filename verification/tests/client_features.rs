use unleash_types::client_features::{
    ClientFeature, ClientFeatures, ClientFeaturesDelta, Constraint, Context, DeltaEvent, Operator,
    PropertyValue, Segment, Strategy, StrategyVariant, stringify_properties, stringify_value,
};
use unleash_types::ordering::Ordered;
use unleash_types::string_map::StringMap;
use unleash_types::{Merge, Upsert};

fn feature(name: &str) -> ClientFeature {
    ClientFeature {
        name: name.into(),
        ..ClientFeature::default()
    }
}

fn segment(id: i32, context_name: &str) -> Segment {
    Segment {
        id,
        constraints: vec![Constraint {
            context_name: context_name.into(),
            operator: Operator::In,
            case_insensitive: false,
            inverted: false,
            values: None,
            value: None,
        }],
    }
}

fn names(features: &[ClientFeature]) -> Vec<String> {
    features.iter().map(|f| f.name.clone()).collect()
}

#[test]
pub fn ordering_is_stable_for_constraints() {
    let c1 = Constraint {
        context_name: "acontext".into(),
        operator: Operator::DateAfter,
        case_insensitive: true,
        inverted: false,
        values: Some(vec![]),
        value: None,
    };
    let c2 = Constraint {
        context_name: "acontext".into(),
        operator: Operator::DateBefore,
        case_insensitive: false,
        inverted: false,
        values: None,
        value: Some("value".into()),
    };
    let c3 = Constraint {
        context_name: "bcontext".into(),
        operator: Operator::NotIn,
        case_insensitive: false,
        inverted: false,
        values: None,
        value: None,
    };
    let mut v = vec![c3.clone(), c1.clone(), c2.clone()];
    v.sort();
    assert_eq!(v, vec![c1, c2, c3]);
}

#[test]
fn merging_two_client_features_takes_both_feature_sets() {
    let client_features_one = ClientFeatures {
        version: 2,
        features: vec![
            ClientFeature {
                name: "feature1".into(),
                ..ClientFeature::default()
            },
            ClientFeature {
                name: "feature2".into(),
                ..ClientFeature::default()
            },
        ],
        segments: None,
        query: None,
        meta: None,
    };

    let client_features_two = ClientFeatures {
        version: 2,
        features: vec![ClientFeature {
            name: "feature3".into(),
            ..ClientFeature::default()
        }],
        segments: None,
        query: None,
        meta: None,
    };

    let merged = client_features_one.merge(client_features_two);
    assert_eq!(merged.features.len(), 3);
}

#[test]
fn upserting_client_features_prioritizes_new_data_but_keeps_uniques() {
    let client_features_one = ClientFeatures {
        version: 2,
        features: vec![
            ClientFeature {
                name: "feature1".into(),
                ..ClientFeature::default()
            },
            ClientFeature {
                name: "feature2".into(),
                ..ClientFeature::default()
            },
        ],
        segments: None,
        query: None,
        meta: None,
    };
    let mut updated_strategies = client_features_one.clone();
    let updated_feature_one_with_strategy = ClientFeature {
        name: "feature1".into(),
        strategies: Some(vec![Strategy {
            name: "default".into(),
            sort_order: Some(124),
            segments: None,
            constraints: None,
            parameters: None,
            variants: None,
        }]),
        ..ClientFeature::default()
    };
    let feature_the_third = ClientFeature {
        name: "feature3".into(),
        strategies: Some(vec![Strategy {
            name: "default".into(),
            sort_order: Some(124),
            segments: None,
            constraints: None,
            parameters: None,
            variants: None,
        }]),
        ..ClientFeature::default()
    };
    updated_strategies.features = vec![updated_feature_one_with_strategy, feature_the_third];
    let updated_features = client_features_one.upsert(updated_strategies);
    let client_features = updated_features.features;
    assert_eq!(client_features.len(), 3);
    let updated_feature_one = client_features
        .iter()
        .find(|f| f.name == "feature1")
        .unwrap();
    assert_eq!(updated_feature_one.strategies.as_ref().unwrap().len(), 1);
    assert!(client_features.iter().any(|f| f.name == "feature3"));
    assert!(client_features.iter().any(|f| f.name == "feature2"));
}

#[test]
pub fn upserting_features_with_segments_overrides_constraints_on_segments_with_same_id_but_keeps_non_overlapping_segments(
) {
    let client_features_one = ClientFeatures {
        version: 2,
        features: vec![],
        segments: Some(vec![
            Segment {
                constraints: vec![Constraint {
                    case_insensitive: false,
                    values: None,
                    context_name: "location".into(),
                    inverted: false,
                    operator: Operator::In,
                    value: Some("places".into()),
                }],
                id: 1,
            },
            Segment {
                constraints: vec![Constraint {
                    case_insensitive: false,
                    values: None,
                    context_name: "hometown".into(),
                    inverted: false,
                    operator: Operator::In,
                    value: Some("somewhere_nice".into()),
                }],
                id: 2,
            },
        ]),
        query: None,
        meta: None,
    };
    let client_features_two = ClientFeatures {
        version: 2,
        features: vec![],
        segments: Some(vec![
            Segment {
                constraints: vec![Constraint {
                    case_insensitive: false,
                    values: None,
                    context_name: "location".into(),
                    inverted: false,
                    operator: Operator::In,
                    value: Some("other-places".into()),
                }],
                id: 1,
            },
            Segment {
                constraints: vec![Constraint {
                    case_insensitive: false,
                    values: None,
                    context_name: "origin".into(),
                    inverted: false,
                    operator: Operator::In,
                    value: Some("africa".into()),
                }],
                id: 3,
            },
        ]),
        query: None,
        meta: None,
    };

    let expected = vec![
        Constraint {
            case_insensitive: false,
            values: None,
            context_name: "hometown".into(),
            inverted: false,
            operator: Operator::In,
            value: Some("somewhere_nice".into()),
        },
        Constraint {
            case_insensitive: false,
            values: None,
            context_name: "location".into(),
            inverted: false,
            operator: Operator::In,
            value: Some("other-places".into()),
        },
        Constraint {
            case_insensitive: false,
            values: None,
            context_name: "origin".into(),
            inverted: false,
            operator: Operator::In,
            value: Some("africa".into()),
        },
    ];

    let upserted = client_features_one
        .clone()
        .upsert(client_features_two.clone());
    let mut new_constraints = upserted
        .segments
        .unwrap()
        .iter()
        .flat_map(|segment| segment.constraints.clone())
        .collect::<Vec<Constraint>>();
    new_constraints.sort_by(|a, b| a.context_name.cmp(&b.context_name));

    assert_eq!(new_constraints, expected);
}

#[test]
fn merge_sorts_features_by_name_and_keeps_left_copy() {
    let mut left_b = feature("b");
    left_b.enabled = true;
    let one = ClientFeatures {
        version: 1,
        features: vec![feature("c"), left_b],
        segments: None,
        query: None,
        meta: None,
    };
    let two = ClientFeatures {
        version: 3,
        features: vec![feature("b"), feature("a")],
        segments: Some(vec![segment(2, "x")]),
        query: None,
        meta: None,
    };
    let merged = one.merge(two);
    assert_eq!(names(&merged.features), vec!["a", "b", "c"]);
    assert!(merged.features[1].enabled);
    assert_eq!(merged.version, 3);
    assert_eq!(merged.segments.unwrap().len(), 1);
}

#[test]
fn upsert_keeps_new_copy_and_sorts_segments_by_id() {
    let mut new_b = feature("b");
    new_b.enabled = true;
    let old = ClientFeatures {
        version: 2,
        features: vec![feature("b"), feature("d")],
        segments: Some(vec![segment(5, "old5"), segment(1, "old1")]),
        query: None,
        meta: None,
    };
    let new = ClientFeatures {
        version: 2,
        features: vec![new_b],
        segments: Some(vec![segment(5, "new5")]),
        query: None,
        meta: None,
    };
    let upserted = old.upsert(new);
    assert_eq!(names(&upserted.features), vec!["b", "d"]);
    assert!(upserted.features[0].enabled);
    let segments = upserted.segments.unwrap();
    assert_eq!(segments.iter().map(|s| s.id).collect::<Vec<_>>(), vec![1, 5]);
    assert_eq!(segments[1].constraints[0].context_name, "new5");
}

#[test]
fn delta_updates_removes_and_hydrates() {
    let mut updated_a = feature("a");
    updated_a.enabled = true;
    let delta = ClientFeaturesDelta {
        events: vec![
            DeltaEvent::Hydration {
                event_id: 1,
                features: vec![feature("c"), feature("a"), feature("b")],
                segments: vec![segment(1, "one")],
            },
            DeltaEvent::FeatureUpdated { event_id: 2, feature: updated_a },
            DeltaEvent::FeatureRemoved {
                event_id: 3,
                feature_name: "b".into(),
                project: "default".into(),
            },
            DeltaEvent::FeatureUpdated { event_id: 4, feature: feature("d") },
            DeltaEvent::SegmentUpdated { event_id: 5, segment: segment(2, "two") },
            DeltaEvent::SegmentRemoved { event_id: 6, segment_id: 1 },
        ],
    };
    let features = ClientFeatures::create_from_delta(&delta);
    assert_eq!(names(&features.features), vec!["a", "c", "d"]);
    assert!(features.features[0].enabled);
    assert_eq!(features.version, 2);
    let segments = features.segments.unwrap();
    assert_eq!(segments.len(), 1);
    assert_eq!(segments[0].id, 2);

    let mut again = ClientFeatures::default();
    again.apply_delta(&ClientFeaturesDelta {
        events: vec![DeltaEvent::FeatureRemoved {
            event_id: 7,
            feature_name: "nothing".into(),
            project: "default".into(),
        }],
    });
    assert!(again.features.is_empty());
    assert!(again.segments.is_none());
}

#[test]
fn segment_removal_without_segments_keeps_none() {
    let mut features = ClientFeatures::default();
    features.apply_delta(&ClientFeaturesDelta {
        events: vec![DeltaEvent::SegmentRemoved { event_id: 1, segment_id: 4 }],
    });
    assert!(features.segments.is_none());
}

#[test]
fn event_ids_are_read_from_every_kind() {
    assert_eq!(DeltaEvent::FeatureUpdated { event_id: 9, feature: feature("x") }.get_event_id(), 9);
    assert_eq!(
        DeltaEvent::Hydration { event_id: 4, features: vec![], segments: vec![] }.get_event_id(),
        4
    );
    assert_eq!(DeltaEvent::SegmentRemoved { event_id: 2, segment_id: 1 }.get_event_id(), 2);
}

#[test]
fn operators_are_read_from_their_names() {
    let cases = [
        ("NOT_IN", Operator::NotIn),
        ("IN", Operator::In),
        ("STR_ENDS_WITH", Operator::StrEndsWith),
        ("STR_STARTS_WITH", Operator::StrStartsWith),
        ("STR_CONTAINS", Operator::StrContains),
        ("NUM_EQ", Operator::NumEq),
        ("NUM_GT", Operator::NumGt),
        ("NUM_GTE", Operator::NumGte),
        ("NUM_LT", Operator::NumLt),
        ("NUM_LTE", Operator::NumLte),
        ("DATE_AFTER", Operator::DateAfter),
        ("DATE_BEFORE", Operator::DateBefore),
        ("SEMVER_EQ", Operator::SemverEq),
        ("SEMVER_LT", Operator::SemverLt),
        ("SEMVER_GT", Operator::SemverGt),
    ];
    for (name, expected) in cases {
        assert_eq!(Operator::from_name(name.into()), expected);
    }
    assert_eq!(
        Operator::from_name("STRING_IS_IP_ADDRESS".into()),
        Operator::Unknown("STRING_IS_IP_ADDRESS".into())
    );
    assert_eq!(Operator::from_name("in".into()), Operator::Unknown("in".into()));
}

#[test]
fn context_values_are_stringified() {
    assert_eq!(stringify_value(PropertyValue::Number("123".into())), Some("123".to_string()));
    assert_eq!(stringify_value(PropertyValue::Bool(false)), Some("false".to_string()));
    assert_eq!(stringify_value(PropertyValue::Bool(true)), Some("true".to_string()));
    assert_eq!(stringify_value(PropertyValue::Text("".into())), None);
    assert_eq!(stringify_value(PropertyValue::Text("name".into())), Some("name".to_string()));
    assert_eq!(stringify_value(PropertyValue::Null), None);
    assert_eq!(stringify_value(PropertyValue::Nested), None);
}

#[test]
fn context_properties_drop_nulls_and_nested_values() {
    let props = stringify_properties(vec![
        ("someValue".into(), PropertyValue::Number("123".into())),
        ("otherValue".into(), PropertyValue::Null),
        ("anotherValue".into(), PropertyValue::Nested),
        ("boolProp".into(), PropertyValue::Bool(true)),
    ]);
    assert_eq!(props.len(), 2);
    assert_eq!(props.get("someValue"), Some(&"123".to_string()));
    assert_eq!(props.get("boolProp"), Some(&"true".to_string()));
    assert!(!props.contains_key("otherValue"));
    assert!(!props.contains_key("anotherValue"));
}

#[test]
fn a_later_property_replaces_an_earlier_one() {
    let props = stringify_properties(vec![
        ("a".into(), PropertyValue::Text("x".into())),
        ("b".into(), PropertyValue::Text("y".into())),
        ("a".into(), PropertyValue::Null),
        ("b".into(), PropertyValue::Bool(false)),
    ]);
    assert_eq!(props.len(), 1);
    assert!(!props.contains_key("a"));
    assert_eq!(props.get("b"), Some(&"false".to_string()));
}

#[test]
fn default_context_has_empty_properties() {
    let context = Context::default();
    assert!(context.user_id.is_none());
    assert!(context.properties.unwrap().is_empty());
}

#[test]
fn features_compare_by_name_and_segments_by_id() {
    let mut a = feature("same");
    a.enabled = true;
    assert_eq!(a, feature("same"));
    assert_ne!(feature("one"), feature("two"));
    assert_eq!(segment(3, "x"), segment(3, "y"));
    assert_ne!(segment(3, "x"), segment(4, "x"));
}

fn strategy(params: &[(&str, &str)], variant: Option<&str>) -> Strategy {
    let mut parameters = StringMap::new();
    for (k, v) in params {
        parameters.insert(k.to_string(), v.to_string());
    }
    Strategy {
        name: "flexibleRollout".into(),
        sort_order: Some(1),
        segments: Some(vec![1, 2]),
        constraints: Some(vec![Constraint {
            context_name: "userId".into(),
            operator: Operator::Unknown("STRING_IS_IP_ADDRESS".into()),
            case_insensitive: false,
            inverted: false,
            values: Some(vec!["a".into()]),
            value: None,
        }]),
        parameters: Some(parameters),
        variants: variant.map(|name| {
            vec![StrategyVariant {
                name: name.into(),
                weight: 1000,
                payload: None,
                stickiness: None,
            }]
        }),
    }
}

#[test]
fn strategies_compare_without_variants_and_parameter_order() {
    let a = strategy(&[("rollout", "50"), ("groupId", "g")], Some("blue"));
    let b = strategy(&[("groupId", "g"), ("rollout", "50")], None);
    assert_eq!(a, b);
    let c = strategy(&[("groupId", "g"), ("rollout", "51")], None);
    assert_ne!(a, c);
    let d = strategy(&[("groupId", "g")], None);
    assert_ne!(b, d);
    let mut e = strategy(&[("rollout", "50"), ("groupId", "g")], None);
    e.sort_order = None;
    assert_ne!(a, e);
    let mut f = strategy(&[("rollout", "50"), ("groupId", "g")], None);
    f.constraints.as_mut().unwrap()[0].operator = Operator::Unknown("OTHER".into());
    assert_ne!(a, f);
}

#[test]
pub fn can_deserialize_numbers_to_strings() {
    let user_id = stringify_value(PropertyValue::Number("123123".into()));
    let session_id = stringify_value(PropertyValue::Bool(false));
    let environment = stringify_value(PropertyValue::Nested);
    let app_name = stringify_value(PropertyValue::Text("name".into()));
    let current_time = stringify_value(PropertyValue::Null);
    let properties = stringify_properties(vec![
        ("someValue".into(), PropertyValue::Number("123".into())),
        ("otherValue".into(), PropertyValue::Null),
        ("anotherValue".into(), PropertyValue::Nested),
        ("boolProp".into(), PropertyValue::Bool(true)),
    ]);
    assert_eq!(user_id.unwrap(), "123123");
    assert_eq!(session_id.unwrap(), "false");
    assert_eq!(app_name.unwrap(), "name");
    assert!(current_time.is_none());
    assert!(environment.is_none());
    assert_eq!(properties.get("someValue").unwrap(), "123");
    assert_eq!(properties.get("boolProp").unwrap(), "true");
    assert!(!properties.contains_key("otherValue"));
    assert!(!properties.contains_key("anotherValue"));
}

#[test]
pub fn materializes_invalid_operator_in_constraint() {
    let operator = Operator::from_name("STRING_IS_IP_ADDRESS".into());
    assert_eq!(operator, Operator::Unknown("STRING_IS_IP_ADDRESS".into()));
}

#[test]
fn deserializing_context_strips_null_properties_correctly() {
    let properties = stringify_properties(vec![
        ("lies".into(), PropertyValue::Null),
        ("truths".into(), PropertyValue::Text("something is something".into())),
    ]);
    assert_eq!(properties.len(), 1);
}

#[test]
fn two_deltas_in_turn_equal_one_delta_of_both() {
    let mut updated_b = feature("b");
    updated_b.enabled = true;
    let first = vec![
        DeltaEvent::Hydration {
            event_id: 1,
            features: vec![feature("c"), feature("a"), feature("b"), feature("a")],
            segments: vec![segment(3, "three"), segment(1, "one")],
        },
        DeltaEvent::FeatureUpdated { event_id: 2, feature: feature("e") },
    ];
    let second = vec![
        DeltaEvent::FeatureUpdated { event_id: 3, feature: updated_b },
        DeltaEvent::FeatureRemoved {
            event_id: 4,
            feature_name: "c".into(),
            project: "default".into(),
        },
        DeltaEvent::SegmentUpdated { event_id: 5, segment: segment(2, "two") },
    ];
    let mut in_turn = ClientFeatures::default();
    in_turn.apply_delta(&ClientFeaturesDelta { events: first.clone() });
    in_turn.apply_delta(&ClientFeaturesDelta { events: second.clone() });
    let mut joined_events = first;
    joined_events.extend(second);
    let at_once = ClientFeatures::create_from_delta(&ClientFeaturesDelta { events: joined_events });
    assert_eq!(names(&in_turn.features), vec!["a", "a", "b", "e"]);
    assert_eq!(names(&in_turn.features), names(&at_once.features));
    let enabled: Vec<bool> = in_turn.features.iter().map(|f| f.enabled).collect();
    let enabled_at_once: Vec<bool> = at_once.features.iter().map(|f| f.enabled).collect();
    assert_eq!(enabled, enabled_at_once);
    let ids = |f: &ClientFeatures| -> Vec<i32> {
        f.segments.as_ref().unwrap().iter().map(|s| s.id).collect()
    };
    assert_eq!(ids(&in_turn), vec![3, 1, 2]);
    assert_eq!(ids(&in_turn), ids(&at_once));
}

#[test]
fn strategies_are_ordered_by_sort_order_then_name() {
    let mut first = strategy(&[], None);
    first.sort_order = None;
    first.name = "z".into();
    let mut second = strategy(&[], None);
    second.sort_order = Some(1);
    second.name = "b".into();
    let mut third = strategy(&[], None);
    third.sort_order = Some(1);
    third.name = "c".into();
    let mut fourth = strategy(&[], None);
    fourth.sort_order = Some(2);
    fourth.name = "a".into();
    assert!(first.check_precedes(&second) && !second.check_precedes(&first));
    assert!(second.check_precedes(&third) && !third.check_precedes(&second));
    assert!(third.check_precedes(&fourth) && !fourth.check_precedes(&third));
    assert!(second.check_precedes(&second));
}
