use kak_settings::config::DynamicConfig;
use kak_settings::config::ServerConfig;
use kak_settings::config::record_dynamic_config;
use kak_settings::flatten::SkipReason;
use kak_settings::flatten::explode_str_to_str_map;
use kak_settings::flatten::request_legacy_initialization_options_from_kakoune;
use kak_settings::insert::ConflictError;
use kak_settings::insert::insert_value;
use kak_settings::resolve::configured_section;
use kak_settings::resolve::request_initialization_options_from_kakoune;
use kak_settings::value::SettingsValue;

fn s(x: &str) -> String {
    x.to_string()
}

fn obj(entries: Vec<(&str, SettingsValue)>) -> SettingsValue {
    SettingsValue::Object(entries.into_iter().map(|(k, v)| (s(k), v)).collect())
}

fn explode_ok(entries: &[&str]) -> (SettingsValue, Vec<kak_settings::flatten::SkippedEntry>) {
    let entries: Vec<String> = entries.iter().map(|e| s(e)).collect();
    let (tree, skipped) = explode_str_to_str_map(&entries).expect("entries should explode");
    (SettingsValue::Object(tree), skipped)
}

#[test]
fn explode_single_dotted_entry() {
    let (tree, skipped) = explode_ok(&["a.b=1"]);
    assert_eq!(tree, obj(vec![("a", obj(vec![("b", SettingsValue::Int(1))]))]));
    assert!(skipped.is_empty());
}

#[test]
fn explode_lookup_returns_inserted_values() {
    let (tree, skipped) = explode_ok(&["a.b=1", "a.c=2", "d=true"]);
    assert!(skipped.is_empty());
    assert_eq!(
        tree,
        obj(vec![
            (
                "a",
                obj(vec![
                    ("b", SettingsValue::Int(1)),
                    ("c", SettingsValue::Int(2)),
                ])
            ),
            ("d", SettingsValue::Bool(true)),
        ])
    );
}

#[test]
fn explode_duplicate_leaf_keeps_first_value() {
    let (tree, skipped) = explode_ok(&["a.b=1", "a.b=2"]);
    assert_eq!(tree, obj(vec![("a", obj(vec![("b", SettingsValue::Int(1))]))]));
    assert_eq!(skipped.len(), 1);
    assert_eq!(skipped[0].entry, s("a.b=2"));
    assert_eq!(
        skipped[0].reason,
        SkipReason::Conflict(ConflictError::DuplicateLeaf(SettingsValue::Int(1)))
    );
}

#[test]
fn explode_scalar_blocks_deeper_path() {
    let (tree, skipped) = explode_ok(&["a=1", "a.b=2"]);
    assert_eq!(tree, obj(vec![("a", SettingsValue::Int(1))]));
    assert_eq!(skipped.len(), 1);
    assert_eq!(skipped[0].entry, s("a.b=2"));
    assert_eq!(
        skipped[0].reason,
        SkipReason::Conflict(ConflictError::NotAnObject(s("a")))
    );
}

#[test]
fn explode_unparsable_value_is_skipped() {
    let (tree, skipped) = explode_ok(&["a=###", "b=2"]);
    assert_eq!(tree, obj(vec![("b", SettingsValue::Int(2))]));
    assert_eq!(skipped.len(), 1);
    assert_eq!(skipped[0].entry, s("a=###"));
    assert_eq!(skipped[0].reason, SkipReason::UnparsableValue);
}

#[test]
fn explode_float_value_is_not_representable() {
    let (tree, skipped) = explode_ok(&["a=1.5", "b=2"]);
    assert_eq!(tree, obj(vec![("b", SettingsValue::Int(2))]));
    assert_eq!(skipped.len(), 1);
    assert_eq!(skipped[0].reason, SkipReason::UnparsableValue);
}

#[test]
fn explode_missing_equals_is_fatal() {
    let entries = vec![s("a=1"), s("bogus"), s("c=2")];
    let err = explode_str_to_str_map(&entries).expect_err("missing = should refuse the call");
    assert_eq!(err.entry, s("bogus"));
}

#[test]
fn explode_parses_scalars_arrays_and_tables() {
    let (tree, skipped) = explode_ok(&[
        "s=\"hi\"",
        "b=false",
        "n=-3",
        "arr=[1, 2]",
        "t={x=1}",
    ]);
    assert!(skipped.is_empty());
    assert_eq!(
        tree,
        obj(vec![
            ("s", SettingsValue::Text(s("hi"))),
            ("b", SettingsValue::Bool(false)),
            ("n", SettingsValue::Int(-3)),
            (
                "arr",
                SettingsValue::Array(vec![SettingsValue::Int(1), SettingsValue::Int(2)])
            ),
            ("t", obj(vec![("x", SettingsValue::Int(1))])),
        ])
    );
}

#[test]
fn explode_datetime_becomes_text() {
    let (tree, _) = explode_ok(&["d=1979-05-27"]);
    match tree {
        SettingsValue::Object(entries) => {
            assert_eq!(entries.len(), 1);
            assert!(matches!(entries[0].1, SettingsValue::Text(_)));
        }
        other => panic!("expected an object, got {:?}", other),
    }
}

#[test]
fn explode_empty_local_key_still_inserts() {
    let (tree, skipped) = explode_ok(&["a.=1"]);
    assert!(skipped.is_empty());
    assert_eq!(tree, obj(vec![("a", obj(vec![("", SettingsValue::Int(1))]))]));
}

#[test]
fn legacy_empty_token_list_is_absent() {
    let tokens: Vec<String> = vec![s("map-end")];
    let (value, skipped) =
        request_legacy_initialization_options_from_kakoune(&tokens).expect("should succeed");
    assert_eq!(value, None);
    assert!(skipped.is_empty());
}

#[test]
fn legacy_no_tokens_at_all_is_absent() {
    let tokens: Vec<String> = Vec::new();
    let (value, skipped) =
        request_legacy_initialization_options_from_kakoune(&tokens).expect("should succeed");
    assert_eq!(value, None);
    assert!(skipped.is_empty());
}

#[test]
fn legacy_all_skipped_is_empty_object_not_absent() {
    let tokens = vec![s("a=###"), s("map-end")];
    let (value, skipped) =
        request_legacy_initialization_options_from_kakoune(&tokens).expect("should succeed");
    assert_eq!(value, Some(SettingsValue::Object(Vec::new())));
    assert_eq!(skipped.len(), 1);
}

#[test]
fn legacy_ignores_tokens_after_sentinel() {
    let tokens = vec![s("a.b=1"), s("map-end"), s("z=9")];
    let (value, skipped) =
        request_legacy_initialization_options_from_kakoune(&tokens).expect("should succeed");
    assert!(skipped.is_empty());
    assert_eq!(
        value,
        Some(obj(vec![("a", obj(vec![("b", SettingsValue::Int(1))]))]))
    );
}

#[test]
fn insert_value_direct_duplicate_reports_old_value() {
    let path = vec![s("a")];
    let (tree, r) = insert_value(Vec::new(), &path, 0, s("b"), SettingsValue::Int(1));
    assert!(r.is_ok());
    let (tree, r) = insert_value(tree, &path, 0, s("b"), SettingsValue::Int(2));
    assert_eq!(
        r,
        Err(ConflictError::DuplicateLeaf(SettingsValue::Int(1)))
    );
    assert_eq!(
        SettingsValue::Object(tree),
        obj(vec![("a", obj(vec![("b", SettingsValue::Int(1))]))])
    );
}

#[test]
fn insert_value_creates_intermediates_even_on_failure() {
    let path = vec![s("a"), s("b")];
    let (tree, r) = insert_value(Vec::new(), &path, 0, s("c"), SettingsValue::Int(1));
    assert!(r.is_ok());
    // A second insert that fails at the leaf must keep the objects created on
    // the way there.
    let (tree, r) = insert_value(tree, &path, 0, s("c"), SettingsValue::Int(2));
    assert!(r.is_err());
    assert_eq!(
        SettingsValue::Object(tree),
        obj(vec![(
            "a",
            obj(vec![("b", obj(vec![("c", SettingsValue::Int(1))]))])
        )])
    );
}

#[test]
fn section_projection_absent_inputs_yield_none() {
    let tree = obj(vec![("alpha", SettingsValue::Int(1))]);
    let name = s("alpha");
    assert_eq!(configured_section(None, Some(&name)), None);
    assert_eq!(configured_section(Some(&tree), None), None);
    let missing = s("beta");
    assert_eq!(configured_section(Some(&tree), Some(&missing)), None);
}

#[test]
fn section_projection_returns_exact_subvalue() {
    let sub = obj(vec![("x", SettingsValue::Int(7))]);
    let tree = obj(vec![
        ("alpha", copy_value(&sub)),
        ("beta", SettingsValue::Bool(true)),
    ]);
    let name = s("alpha");
    assert_eq!(configured_section(Some(&tree), Some(&name)), Some(sub));
}

#[test]
fn section_projection_on_non_object_yields_none() {
    let tree = SettingsValue::Int(3);
    let name = s("alpha");
    assert_eq!(configured_section(Some(&tree), Some(&name)), None);
}

fn record(state: &mut DynamicConfig, text: &str) -> Result<(), String> {
    record_dynamic_config(state, text).map_err(|e| e.message)
}

#[test]
fn record_replaces_state_wholesale() {
    let mut state = DynamicConfig::default();
    let text = "
[language_server.one]
settings_section = \"alpha\"
[language_server.one.settings.alpha]
x = 1
";
    record(&mut state, text).expect("valid config should record");
    assert_eq!(state.language_server.len(), 1);
    let (name, cfg) = &state.language_server[0];
    assert_eq!(name, &s("one"));
    assert_eq!(cfg.settings_section, Some(s("alpha")));
    assert_eq!(
        cfg.settings,
        Some(obj(vec![("alpha", obj(vec![("x", SettingsValue::Int(1))]))]))
    );
}

#[test]
fn record_invalid_text_leaves_state_unchanged() {
    let mut state = DynamicConfig::default();
    record(&mut state, "[language_server.one]\nsettings_section = \"alpha\"\n")
        .expect("valid config should record");
    let before = format!("{:?}", state);
    let err = record(&mut state, "not valid = [toml");
    assert!(err.is_err());
    assert_eq!(format!("{:?}", state), before);
}

#[test]
fn record_wrong_shape_is_fatal_and_keeps_state() {
    let mut state = DynamicConfig::default();
    record(&mut state, "[language_server.one]\n").expect("valid config should record");
    let before = format!("{:?}", state);
    assert!(record(&mut state, "language_server = 5").is_err());
    assert!(record(&mut state, "[language_server.one]\nsettings_section = 3").is_err());
    assert_eq!(format!("{:?}", state), before);
}

#[test]
fn record_without_language_server_is_empty_mapping() {
    let mut state = DynamicConfig::default();
    record(&mut state, "other = 1").expect("unknown keys are ignored");
    assert!(state.language_server.is_empty());
}

fn static_entry(section: Option<&str>, settings: Option<SettingsValue>) -> ServerConfig {
    ServerConfig {
        settings,
        settings_section: section.map(|x| s(x)),
    }
}

#[test]
fn resolution_prefers_dynamic_source() {
    let mut dynamic = DynamicConfig::default();
    let text = "
[language_server.one.settings.alpha]
x = 1
";
    record_dynamic_config(&mut dynamic, text).expect("valid config");
    let static_config = vec![(
        s("one"),
        static_entry(
            Some("alpha"),
            Some(obj(vec![("alpha", SettingsValue::Int(99))])),
        ),
    )];
    let legacy = Some(SettingsValue::Int(42));
    let servers = vec![s("one")];
    let resolved =
        request_initialization_options_from_kakoune(&servers, &dynamic, &static_config, &legacy);
    assert_eq!(
        resolved,
        vec![Some(obj(vec![("x", SettingsValue::Int(1))]))]
    );
}

#[test]
fn resolution_falls_back_to_legacy_then_static() {
    let dynamic = DynamicConfig::default();
    let static_config = vec![(
        s("one"),
        static_entry(
            Some("alpha"),
            Some(obj(vec![("alpha", SettingsValue::Int(99))])),
        ),
    )];
    let servers = vec![s("one")];

    let legacy = Some(obj(vec![("y", SettingsValue::Bool(true))]));
    let resolved =
        request_initialization_options_from_kakoune(&servers, &dynamic, &static_config, &legacy);
    assert_eq!(resolved, vec![copy_option(&legacy)]);

    let resolved =
        request_initialization_options_from_kakoune(&servers, &dynamic, &static_config, &None);
    assert_eq!(resolved, vec![Some(SettingsValue::Int(99))]);
}

#[test]
fn resolution_absent_everywhere_is_none() {
    let dynamic = DynamicConfig::default();
    let static_config = vec![(s("one"), static_entry(None, None))];
    let servers = vec![s("one")];
    let resolved =
        request_initialization_options_from_kakoune(&servers, &dynamic, &static_config, &None);
    assert_eq!(resolved, vec![None]);
}

#[test]
fn resolution_is_per_server_and_ordered() {
    let dynamic = DynamicConfig::default();
    let static_config = vec![
        (s("one"), static_entry(Some("a"), Some(obj(vec![("a", SettingsValue::Int(1))])))),
        (s("two"), static_entry(None, None)),
    ];
    let servers = vec![s("two"), s("one")];
    let resolved =
        request_initialization_options_from_kakoune(&servers, &dynamic, &static_config, &None);
    assert_eq!(resolved, vec![None, Some(SettingsValue::Int(1))]);
}

#[test]
fn deep_copy_preserves_values() {
    let v = obj(vec![
        ("a", SettingsValue::Array(vec![SettingsValue::Null, SettingsValue::Int(-1)])),
        ("b", SettingsValue::Text(s("t"))),
    ]);
    assert_eq!(v.deep_copy(), v);
}

#[test]
fn registry_updates_empty_in_legacy_mode() {
    let requested = vec![(s("one"), Some(SettingsValue::Int(1)))];
    assert!(kak_settings::config::registry_updates(true, &requested).is_empty());
}

#[test]
fn registry_updates_copy_requests_outside_legacy_mode() {
    let requested = vec![(s("one"), Some(SettingsValue::Int(1))), (s("two"), None)];
    let updates = kak_settings::config::registry_updates(false, &requested);
    assert_eq!(updates, requested);
}

fn copy_value(v: &SettingsValue) -> SettingsValue {
    v.deep_copy()
}

fn copy_option(v: &Option<SettingsValue>) -> Option<SettingsValue> {
    v.as_ref().map(|x| x.deep_copy())
}
