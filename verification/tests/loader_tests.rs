use llmao_config::loader::ConfigLoader;
use llmao_config::loader::Source;
use llmao_config::provider_map::ProviderMap;

fn source(path: &str, content: &str) -> Source {
    Source { path: path.to_string(), content: content.to_string() }
}

fn value(text: &str) -> serde_json::Value {
    serde_json::from_str(text).unwrap()
}

#[test]
fn test_load_builtin_defaults() {
    let loader = ConfigLoader::new(Vec::new()).unwrap();
    // Should have loaded provider registry
    assert!(!loader.provider_registry().is_empty());
}

#[test]
fn test_load_from_custom_file() {
    let content = r#"{
                "custom_provider/model-v1": {
                    "keys": ["test-key-123"],
                    "base_url": "https://custom.api.com/v1"
                }
            }"#;

    let loader = ConfigLoader::from_path("custom.json".to_string(), content.to_string()).unwrap();
    assert!(loader.config().contains_key("custom_provider/model-v1"));
}

#[test]
fn test_merge_configs() {
    let mut loader = ConfigLoader::new(Vec::new()).unwrap();
    let initial_count = loader.config().len();

    // Create a custom config that adds a new model
    let mut custom = ProviderMap::new();
    custom.insert(
        "new_provider/model-v1".to_string(),
        value(r#"{"keys":["key1"],"models":[],"base_url":"https://new.api.com"}"#),
    );

    loader.merge_config(custom);
    assert_eq!(loader.config().len(), initial_count + 1);
}

#[test]
fn scenario_no_external_sources() {
    // E2E: nothing discovered -> merged config empty, registry holds the
    // built-in keys.
    let loader = ConfigLoader::new(Vec::new()).unwrap();
    assert!(loader.config().is_empty());
    assert_eq!(loader.config().len(), 0);
    assert!(loader.provider_registry().contains_key("builtin/demo"));
}

#[test]
fn scenario_higher_precedence_source_wins() {
    // E2E: cwd providers.json and home .llmao/providers.json both define
    // the same key; the home file stands later in discovery order and wins.
    let a = r#"{"acme/model-1": {"keys": ["a"], "base_url": "https://a.example.com"}}"#;
    let b = r#"{"acme/model-1": {"keys": ["b"], "base_url": "https://b.example.com"}}"#;
    let loader = ConfigLoader::new(vec![
        source("providers.json", a),
        source("/home/user/.llmao/providers.json", b),
    ])
    .unwrap();
    let merged = loader.config().get("acme/model-1").unwrap();
    assert_eq!(
        merged,
        &value(r#"{"keys": ["b"], "base_url": "https://b.example.com"}"#)
    );
}

#[test]
fn scenario_env_override_beats_discovery() {
    // E2E: the environment-override source stands last and wins over the
    // cwd file for the shared key.
    let d = r#"{"x/y": {"base_url": "https://d.example.com"}}"#;
    let c = r#"{"x/y": {"base_url": "https://c.example.com"}}"#;
    let loader = ConfigLoader::new(vec![
        source("providers.json", d),
        source("/tmp/override.json", c),
    ])
    .unwrap();
    let merged = loader.config().get("x/y").unwrap();
    assert_eq!(merged, &value(r#"{"base_url": "https://c.example.com"}"#));
}

#[test]
fn malformed_source_is_fatal() {
    // A present but malformed source aborts construction with a parse
    // error naming that source, whatever valid sources stand beside it.
    let good = r#"{"acme/model-1": {"keys": []}}"#;
    let result = ConfigLoader::new(vec![
        source("providers.json", good),
        source("llmao.json", "this is not json"),
    ]);
    match result {
        Err(llmao_config::ConfigError::SourceParse { path, .. }) => {
            assert_eq!(path, "llmao.json");
        }
        _ => panic!("expected a parse error"),
    }
}

#[test]
fn malformed_single_source_from_path() {
    let result = ConfigLoader::from_path("bad.json".to_string(), "{not json".to_string());
    assert!(matches!(
        result,
        Err(llmao_config::ConfigError::SourceParse { .. })
    ));
}

#[test]
fn non_object_source_is_fatal() {
    // A source must hold a JSON object of entries; a bare array fails.
    let result = ConfigLoader::from_path("arr.json".to_string(), "[1, 2, 3]".to_string());
    assert!(matches!(
        result,
        Err(llmao_config::ConfigError::SourceParse { .. })
    ));
}

#[test]
fn whole_entry_replace_drops_unset_fields() {
    // Redefining a key with a subset of fields replaces the entry in full:
    // the unset fields of the prior definition do not survive.
    let full = r#"{"k/m": {"keys": ["old"], "base_url": "https://old.example.com"}}"#;
    let partial = r#"{"k/m": {"keys": ["new"]}}"#;
    let loader = ConfigLoader::new(vec![
        source("providers.json", full),
        source("llmao.json", partial),
    ])
    .unwrap();
    let merged = loader.config().get("k/m").unwrap();
    assert_eq!(merged, &value(r#"{"keys": ["new"]}"#));
    assert!(merged.get("base_url").is_none());
}

#[test]
fn folding_same_source_twice_is_idempotent() {
    let text = r#"{"p/m": {"keys": ["k"]}, "q/n": {"keys": []}}"#;
    let once = ConfigLoader::new(vec![source("providers.json", text)]).unwrap();
    let twice = ConfigLoader::new(vec![
        source("providers.json", text),
        source("providers.json", text),
    ])
    .unwrap();
    assert_eq!(once.config().len(), twice.config().len());
    assert_eq!(
        once.config().get("p/m").unwrap(),
        twice.config().get("p/m").unwrap()
    );
    assert_eq!(
        once.config().get("q/n").unwrap(),
        twice.config().get("q/n").unwrap()
    );
}

#[test]
fn later_key_wins_within_one_source() {
    // Within one source, folding is last-writer-wins per key as well.
    let first = r#"{"a/b": {"keys": ["1"]}}"#;
    let second = r#"{"a/b": {"keys": ["2"]}}"#;
    let third = r#"{"a/b": {"keys": ["3"]}}"#;
    let loader = ConfigLoader::new(vec![
        source("providers.json", first),
        source("llmao.json", second),
        source("/tmp/override.json", third),
    ])
    .unwrap();
    assert_eq!(
        loader.config().get("a/b").unwrap(),
        &value(r#"{"keys": ["3"]}"#)
    );
}

#[test]
fn registry_is_untouched_by_merging() {
    // Overriding a built-in key changes the merged config, never the
    // registry.
    let text = r#"{"builtin/demo": {"keys": ["override"]}}"#;
    let loader = ConfigLoader::new(vec![source("providers.json", text)]).unwrap();
    assert!(loader.provider_registry().contains_key("builtin/demo"));
    let registry_entry = loader.provider_registry().get("builtin/demo").unwrap();
    assert!(registry_entry.get("base_url").is_some());
    let merged_entry = loader.config().get("builtin/demo").unwrap();
    assert_eq!(merged_entry, &value(r#"{"keys": ["override"]}"#));
}

#[test]
fn into_config_hands_over_the_merged_map() {
    let text = r#"{"acme/model-1": {"keys": ["a"]}}"#;
    let loader = ConfigLoader::new(vec![source("providers.json", text)]).unwrap();
    let config = loader.into_config();
    assert!(config.contains_key("acme/model-1"));
    assert_eq!(config.len(), 1);
}

#[test]
fn config_paths_follow_discovery_order() {
    let paths = ConfigLoader::get_config_paths(
        Some("/tmp/override.json".to_string()),
        Some("/home/user/.config".to_string()),
        Some("/home/user".to_string()),
    );
    assert_eq!(
        paths,
        vec![
            "providers.json".to_string(),
            "llmao.json".to_string(),
            "/home/user/.config/llmao/providers.json".to_string(),
            "/home/user/.llmao/providers.json".to_string(),
            "/tmp/override.json".to_string(),
        ]
    );
}

#[test]
fn config_paths_skip_absent_locations() {
    let paths = ConfigLoader::get_config_paths(None, None, None);
    assert_eq!(
        paths,
        vec!["providers.json".to_string(), "llmao.json".to_string()]
    );
}

#[test]
fn provider_map_insert_replaces() {
    let mut map = ProviderMap::new();
    assert!(map.is_empty());
    map.insert("k/a".to_string(), value(r#"{"keys": ["1"]}"#));
    map.insert("k/a".to_string(), value(r#"{"keys": ["2"]}"#));
    map.insert("k/b".to_string(), value(r#"{"keys": ["3"]}"#));
    assert_eq!(map.len(), 2);
    assert_eq!(map.get("k/a").unwrap(), &value(r#"{"keys": ["2"]}"#));
    assert!(map.get("missing/key").is_none());
    assert!(!map.contains_key("missing/key"));
}

#[test]
fn into_entries_hands_out_each_pair() {
    let text = r#"{"acme/model-1": {"keys": ["a"]}, "acme/model-2": {"keys": ["b"]}}"#;
    let loader = ConfigLoader::new(vec![source("providers.json", text)]).unwrap();
    let entries = loader.into_config().into_entries();
    assert_eq!(entries.len(), 2);
    assert!(entries.iter().any(|(k, v)| {
        k == "acme/model-1" && v == &value(r#"{"keys": ["a"]}"#)
    }));
    assert!(entries.iter().any(|(k, v)| {
        k == "acme/model-2" && v == &value(r#"{"keys": ["b"]}"#)
    }));
}

#[test]
fn default_loader_is_empty() {
    // The lossy best-effort fallback value: nothing loaded at all.
    let loader = ConfigLoader::default();
    assert!(loader.provider_registry().is_empty());
    assert!(loader.config().is_empty());
}

#[test]
fn empty_object_source_folds_nothing() {
    let loader = ConfigLoader::new(vec![source("providers.json", "{}")]).unwrap();
    assert!(loader.config().is_empty());
}
