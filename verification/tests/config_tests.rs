use cellaria::config::{build_memory_spec, parse_change_value, parse_direction, parse_recorded_value, RawMemory, YamlNumber, YamlValue};
use cellaria::error::CellariaError;
use cellaria::layered::load_layered_config;
use cellaria::loader::{build_config, RawCell, RawConfig, RawGrid, SUPPORTED_CONFIG_VERSION};
use cellaria::rule_config::{RawChange, RawRule};
use cellaria::types::{CellType, ChangeValue, Direction, OverflowAction, RecordTrigger, RecordedValue};

/// The library's YAML tree for a value read by serde_yaml.
fn yaml(v: &serde_yaml::Value) -> YamlValue {
    match v {
        serde_yaml::Value::Null => YamlValue::Null,
        serde_yaml::Value::Bool(b) => YamlValue::Bool(*b),
        serde_yaml::Value::Number(n) => YamlValue::Number(YamlNumber { as_u64: n.as_u64(), text: n.to_string() }),
        serde_yaml::Value::String(s) => YamlValue::String(s.clone()),
        serde_yaml::Value::Sequence(items) => YamlValue::Sequence(items.iter().map(yaml).collect()),
        serde_yaml::Value::Mapping(m) => YamlValue::Mapping(m.iter().map(|(k, v)| (yaml(k), yaml(v))).collect()),
        serde_yaml::Value::Tagged(t) => YamlValue::Tagged(t.tag.to_string(), Box::new(yaml(&t.value))),
    }
}

fn yaml_str(text: &str) -> YamlValue {
    yaml(&serde_yaml::from_str::<serde_yaml::Value>(text).unwrap())
}

fn num(n: u64) -> YamlValue {
    yaml(&serde_yaml::Value::Number(serde_yaml::Number::from(n)))
}

fn string(s: &str) -> YamlValue {
    yaml(&serde_yaml::Value::String(s.to_string()))
}

fn msg(e: &CellariaError) -> String {
    e.message()
}

fn raw_rule(id: Vec<u8>, priority: u32, value: YamlValue) -> RawRule {
    RawRule {
        id,
        pattern: vec![],
        priority,
        shifts: vec![],
        changes: vec![RawChange { dx: 0, dy: 0, value }],
        active_only: false,
        min_age: 0,
        overflow: OverflowAction::Discard,
        cam: None,
        tie_break: 0,
        starvation_after: None,
        feedback: None,
        recursion: None,
        memory: None,
        max_activations: None,
        cross_layer_reads: vec![],
    }
}

fn raw_config(version: Option<u32>, w: usize, h: usize, cells: Vec<RawCell>, rules: Vec<RawRule>) -> RawConfig {
    RawConfig {
        version,
        grid: RawGrid { width: w, height: h, default_cell_type: 0, initial_cells: cells, boundaries: None },
        rules,
    }
}

fn check_parse_direction() {
    assert_eq!(parse_direction("north").unwrap(), Direction::Up);
    assert_eq!(parse_direction("south").unwrap(), Direction::Down);
    assert_eq!(parse_direction("east").unwrap(), Direction::Right);
    assert_eq!(parse_direction("west").unwrap(), Direction::Left);
    assert!(parse_direction("invalid").is_err());
}

#[test]
fn config_test_parse_direction() {
    check_parse_direction();
}

#[test]
fn config_tests_test_parse_direction() {
    check_parse_direction();
}

#[test]
fn config_test_load_layered_config_rejects_empty_paths() {
    let result = load_layered_config(vec![]);
    assert!(result.is_err(), "at least one layer path must be required");
}

#[test]
fn config_tests_test_load_layered_config_rejects_empty_paths() {
    let result = load_layered_config(vec![]);
    assert!(result.is_err(), "at least one layer path must be required");
}

fn check_layered_merge() {
    let a = raw_config(Some(1), 2, 2, vec![RawCell { coord: (0, 0), cell_type: 1 }], vec![raw_rule(vec![1], 1, num(50))]);
    let b = raw_config(Some(1), 2, 2, vec![], vec![raw_rule(vec![2], 5, num(90))]);
    let engine = load_layered_config(vec![("layered_merge_a.yaml".to_string(), Ok(a)), ("layered_merge_b.yaml".to_string(), Ok(b))])
        .expect("load_layered_config must succeed for two same-size layers with non-colliding CellTypes");
    assert_eq!(engine.layer_count(), 2);
    for layer in 0..2 {
        assert_eq!(engine.layer_grid(layer).width(), 2);
        assert!(engine.rule_index().contains_key(&CellType(1)), "layer {layer} must see head 1 from file A");
        assert!(engine.rule_index().contains_key(&CellType(2)), "layer {layer} must see head 2 from file B");
    }
}

#[test]
fn config_test_load_layered_config_merges_rules_from_all_files_into_one_shared_rule_index() {
    check_layered_merge();
}

#[test]
fn config_tests_test_load_layered_config_merges_rules_from_all_files_into_one_shared_rule_index() {
    check_layered_merge();
}

fn check_layered_collision() {
    let a = raw_config(Some(1), 2, 2, vec![], vec![raw_rule(vec![1], 1, num(50))]);
    let b = raw_config(Some(1), 2, 2, vec![], vec![raw_rule(vec![1], 5, num(90))]);
    let result = load_layered_config(vec![
        ("layered_collision_a.yaml".to_string(), Ok(a)),
        ("layered_collision_b.yaml".to_string(), Ok(b)),
    ]);
    let Err(err) = result else {
        panic!("expected an error when two files both define rules for CellType 1");
    };
    let m = msg(&err);
    assert!(m.contains("CellType 1"), "error must name the colliding CellType: {m}");
    assert!(m.contains("layered_collision_a") && m.contains("layered_collision_b"), "error must name BOTH colliding files: {m}");
}

#[test]
fn config_test_load_layered_config_rejects_same_cell_type_from_two_files() {
    check_layered_collision();
}

#[test]
fn config_tests_test_load_layered_config_rejects_same_cell_type_from_two_files() {
    check_layered_collision();
}

fn check_layered_dims() {
    let a = raw_config(Some(1), 2, 2, vec![], vec![]);
    let b = raw_config(Some(1), 3, 3, vec![], vec![]);
    let result = load_layered_config(vec![("layered_dims_a.yaml".to_string(), Ok(a)), ("layered_dims_b.yaml".to_string(), Ok(b))]);
    let Err(err) = result else {
        panic!("expected an error for mismatched layer dimensions (2x2 vs 3x3)");
    };
    let m = msg(&err);
    assert!(m.contains("2x2") && m.contains("3x3"), "error must mention both conflicting sizes: {m}");
}

#[test]
fn config_test_load_layered_config_rejects_mismatched_layer_dimensions() {
    check_layered_dims();
}

#[test]
fn config_tests_test_load_layered_config_rejects_mismatched_layer_dimensions() {
    check_layered_dims();
}

fn minimal(version: Option<u32>) -> RawConfig {
    raw_config(version, 2, 2, vec![], vec![])
}

#[test]
fn config_test_load_config_missing_version_is_accepted_as_v1() {
    assert!(build_config(minimal(None)).is_ok(), "config without a version field must load");
}

#[test]
fn config_tests_test_load_config_missing_version_is_accepted_as_v1() {
    assert!(build_config(minimal(None)).is_ok(), "config without a version field must load");
}

#[test]
fn config_test_load_config_explicit_supported_version_is_accepted() {
    assert!(build_config(minimal(Some(SUPPORTED_CONFIG_VERSION))).is_ok());
}

#[test]
fn config_tests_test_load_config_explicit_supported_version_is_accepted() {
    assert!(build_config(minimal(Some(SUPPORTED_CONFIG_VERSION))).is_ok());
}

fn check_unsupported_version() {
    let Err(err) = build_config(minimal(Some(999))) else {
        panic!("expected an error for unsupported config version 999");
    };
    let m = msg(&err);
    assert!(m.contains("999"), "error must mention the unsupported version: {m}");
    assert!(m.contains(&SUPPORTED_CONFIG_VERSION.to_string()), "error must mention the supported version: {m}");
}

#[test]
fn config_test_load_config_rejects_unsupported_version() {
    check_unsupported_version();
}

#[test]
fn config_tests_test_load_config_rejects_unsupported_version() {
    check_unsupported_version();
}

fn check_literal() {
    assert_eq!(parse_change_value(&num(42)).unwrap(), ChangeValue::Literal(42));
}

#[test]
fn config_test_parse_change_value_literal() {
    check_literal();
}

#[test]
fn config_tests_test_parse_change_value_literal() {
    check_literal();
}

fn check_ref() {
    assert_eq!(parse_change_value(&string("$0")).unwrap(), ChangeValue::Ref(0));
    assert_eq!(parse_change_value(&string("$3")).unwrap(), ChangeValue::Ref(3));
}

#[test]
fn config_test_parse_change_value_ref() {
    check_ref();
}

#[test]
fn config_tests_test_parse_change_value_ref() {
    check_ref();
}

#[test]
fn config_test_parse_change_value_invalid_string() {
    assert!(parse_change_value(&string("foo")).is_err());
}

#[test]
fn config_tests_test_parse_change_value_invalid_string() {
    assert!(parse_change_value(&string("foo")).is_err());
}

#[test]
fn config_test_parse_change_value_overflow() {
    assert!(parse_change_value(&num(300)).is_err());
}

#[test]
fn config_tests_test_parse_change_value_overflow() {
    assert!(parse_change_value(&num(300)).is_err());
}

fn check_add_flat() {
    let v = yaml_str("add: [\"$0\", 1]");
    assert!(matches!(v, YamlValue::Mapping(_)));
    assert_eq!(
        parse_change_value(&v).unwrap(),
        ChangeValue::Add(Box::new(ChangeValue::Ref(0)), Box::new(ChangeValue::Literal(1)))
    );
}

#[test]
fn config_test_parse_change_value_add_flat() {
    check_add_flat();
}

#[test]
fn config_tests_test_parse_change_value_add_flat() {
    check_add_flat();
}

fn check_sub_flat() {
    assert_eq!(
        parse_change_value(&yaml_str("sub: [10, \"$2\"]")).unwrap(),
        ChangeValue::Sub(Box::new(ChangeValue::Literal(10)), Box::new(ChangeValue::Ref(2)))
    );
}

#[test]
fn config_test_parse_change_value_sub_flat() {
    check_sub_flat();
}

#[test]
fn config_tests_test_parse_change_value_sub_flat() {
    check_sub_flat();
}

fn check_add_nested() {
    let expected = ChangeValue::Add(
        Box::new(ChangeValue::Ref(0)),
        Box::new(ChangeValue::Add(Box::new(ChangeValue::Literal(1)), Box::new(ChangeValue::Literal(2)))),
    );
    assert_eq!(parse_change_value(&yaml_str("add:\n  - \"$0\"\n  - add: [1, 2]\n")).unwrap(), expected);
}

#[test]
fn config_test_parse_change_value_add_nested() {
    check_add_nested();
}

#[test]
fn config_tests_test_parse_change_value_add_nested() {
    check_add_nested();
}

fn check_wrong_count() {
    assert!(parse_change_value(&yaml_str("add: [1, 2, 3]")).is_err());
    assert!(parse_change_value(&yaml_str("add: [1]")).is_err());
}

#[test]
fn config_test_parse_change_value_add_rejects_wrong_operand_count() {
    check_wrong_count();
}

#[test]
fn config_tests_test_parse_change_value_add_rejects_wrong_operand_count() {
    check_wrong_count();
}

#[test]
fn config_test_parse_change_value_rejects_unknown_operation() {
    assert!(parse_change_value(&yaml_str("mul: [1, 2]")).is_err());
}

#[test]
fn config_tests_test_parse_change_value_rejects_unknown_operation() {
    assert!(parse_change_value(&yaml_str("mul: [1, 2]")).is_err());
}

fn check_add_end_to_end() {
    let cfg = raw_config(
        Some(SUPPORTED_CONFIG_VERSION),
        2,
        1,
        vec![RawCell { coord: (0, 0), cell_type: 1 }],
        vec![raw_rule(vec![1], 1, yaml_str("{add: [\"$0\", 5]}"))],
    );
    let (_grid, rule_index) = build_config(cfg).expect("config with an add-change must load");
    let rules = rule_index.get(&CellType(1)).expect("head 1 must have a rule");
    assert_eq!(rules[0].changes[0].2, ChangeValue::Add(Box::new(ChangeValue::Ref(0)), Box::new(ChangeValue::Literal(5))));
}

#[test]
fn config_test_load_config_with_add_change_end_to_end() {
    check_add_end_to_end();
}

#[test]
fn config_tests_test_load_config_with_add_change_end_to_end() {
    check_add_end_to_end();
}

#[test]
fn config_test_parse_recorded_value_type() {
    assert_eq!(parse_recorded_value(&num(7)).unwrap(), RecordedValue::Type(CellType::new(7)));
}

#[test]
fn config_tests_test_parse_recorded_value_type() {
    assert_eq!(parse_recorded_value(&num(7)).unwrap(), RecordedValue::Type(CellType::new(7)));
}

fn check_outcome_strings() {
    assert_eq!(parse_recorded_value(&string("applied")).unwrap(), RecordedValue::Applied);
    assert_eq!(parse_recorded_value(&string("MISSED")).unwrap(), RecordedValue::Missed);
}

#[test]
fn config_test_parse_recorded_value_outcome_strings() {
    check_outcome_strings();
}

#[test]
fn config_tests_test_parse_recorded_value_outcome_strings() {
    check_outcome_strings();
}

#[test]
fn config_test_parse_recorded_value_invalid_string() {
    assert!(parse_recorded_value(&string("foo")).is_err());
}

#[test]
fn config_tests_test_parse_recorded_value_invalid_string() {
    assert!(parse_recorded_value(&string("foo")).is_err());
}

fn memory(window: usize, trigger: &str, dir: Option<&str>, pattern: Vec<YamlValue>) -> RawMemory {
    RawMemory {
        window,
        trigger: trigger.to_string(),
        neighbor_direction: dir.map(|d| d.to_string()),
        match_pattern: pattern,
    }
}

#[test]
fn config_test_build_memory_spec_requires_match_pattern_len_equals_window() {
    let m = memory(2, "rule_outcome", None, vec![string("applied")]);
    assert!(build_memory_spec(&m).is_err(), "window=2 but match_pattern has 1 entry -- must be rejected");
}

#[test]
fn config_tests_test_build_memory_spec_requires_match_pattern_len_equals_window() {
    let m = memory(2, "rule_outcome", None, vec![string("applied")]);
    assert!(build_memory_spec(&m).is_err(), "window=2 but match_pattern has 1 entry -- must be rejected");
}

#[test]
fn config_test_build_memory_spec_neighbor_type_requires_direction() {
    let m = memory(1, "neighbor_type", None, vec![num(1)]);
    assert!(build_memory_spec(&m).is_err(), "neighbor_type trigger without neighbor_direction must be rejected");
}

#[test]
fn config_tests_test_build_memory_spec_neighbor_type_requires_direction() {
    let m = memory(1, "neighbor_type", None, vec![num(1)]);
    assert!(build_memory_spec(&m).is_err(), "neighbor_type trigger without neighbor_direction must be rejected");
}

#[test]
fn config_test_build_memory_spec_rule_outcome_rejects_neighbor_direction() {
    let m = memory(1, "rule_outcome", Some("east"), vec![string("missed")]);
    assert!(build_memory_spec(&m).is_err(), "rule_outcome trigger must not accept a neighbor_direction");
}

#[test]
fn config_tests_test_build_memory_spec_rule_outcome_rejects_neighbor_direction() {
    let m = memory(1, "rule_outcome", Some("east"), vec![string("missed")]);
    assert!(build_memory_spec(&m).is_err(), "rule_outcome trigger must not accept a neighbor_direction");
}

fn check_valid_neighbor_type() {
    let m = memory(2, "neighbor_type", Some("east"), vec![num(3), num(4)]);
    let spec = build_memory_spec(&m).unwrap();
    assert_eq!(spec.window, 2);
    assert_eq!(spec.record_trigger, RecordTrigger::NeighborType(Direction::Right));
    assert_eq!(spec.match_pattern, vec![RecordedValue::Type(CellType::new(3)), RecordedValue::Type(CellType::new(4))]);
}

#[test]
fn config_test_build_memory_spec_valid_neighbor_type() {
    check_valid_neighbor_type();
}

#[test]
fn config_tests_test_build_memory_spec_valid_neighbor_type() {
    check_valid_neighbor_type();
}

fn check_valid_rule_outcome() {
    let m = memory(2, "rule_outcome", None, vec![string("missed"), string("applied")]);
    let spec = build_memory_spec(&m).unwrap();
    assert_eq!(spec.match_pattern, vec![RecordedValue::Missed, RecordedValue::Applied]);
}

#[test]
fn config_test_build_memory_spec_valid_rule_outcome() {
    check_valid_rule_outcome();
}

#[test]
fn config_tests_test_build_memory_spec_valid_rule_outcome() {
    check_valid_rule_outcome();
}

#[test]
fn config_test_build_memory_spec_rejects_rule_outcome_shaped_pattern_with_neighbor_type_trigger() {
    let m = memory(2, "neighbor_type", Some("east"), vec![string("applied"), string("missed")]);
    assert!(build_memory_spec(&m).is_err(), "neighbor_type trigger with an applied/missed-shaped match_pattern must be rejected");
}

#[test]
fn config_tests_test_build_memory_spec_rejects_rule_outcome_shaped_pattern_with_neighbor_type_trigger() {
    let m = memory(2, "neighbor_type", Some("east"), vec![string("applied"), string("missed")]);
    assert!(build_memory_spec(&m).is_err(), "neighbor_type trigger with an applied/missed-shaped match_pattern must be rejected");
}

#[test]
fn config_test_build_memory_spec_rejects_neighbor_type_shaped_pattern_with_rule_outcome_trigger() {
    let m = memory(1, "rule_outcome", None, vec![num(3)]);
    assert!(build_memory_spec(&m).is_err(), "rule_outcome trigger with a cell-type-shaped match_pattern must be rejected");
}

#[test]
fn config_tests_test_build_memory_spec_rejects_neighbor_type_shaped_pattern_with_rule_outcome_trigger() {
    let m = memory(1, "rule_outcome", None, vec![num(3)]);
    assert!(build_memory_spec(&m).is_err(), "rule_outcome trigger with a cell-type-shaped match_pattern must be rejected");
}
