use codex_managed_channel::marketplace::{
    catalog_document, check_offered, config_override, newest_installed, relink_plan, validate_marketplace,
    validate_named_marketplace, MarketplaceError, RelinkError,
};

#[test]
fn a_valid_catalog_lists_its_plugin_sources() {
    let plan = validate_marketplace(
        br#"{"name":"personal","plugins":[{"name":"a","source":{"path":"./plugins/a"}},{"name":"b","source":{"source":"local","path":"./plugins/b"}}]}"#,
    )
    .unwrap();
    let listed: Vec<(&str, &str)> = plan
        .plugins
        .iter()
        .map(|p| (p.name.as_str(), p.source.as_str()))
        .collect();
    assert_eq!(listed, vec![("a", "./plugins/a"), ("b", "./plugins/b")]);
    assert!(plan.malformed.is_none());
}

#[test]
fn catalogs_are_refused_for_name_json_and_plugins() {
    assert!(matches!(
        validate_marketplace(b"not json"),
        Err(MarketplaceError::InvalidCatalog)
    ));
    let e = validate_named_marketplace(br#"{"name":"personal","plugins":[]}"#, "openai-bundled")
        .unwrap_err();
    assert_eq!(e.message(), "managed marketplace must be named openai-bundled");
    let e = validate_marketplace(br#"{"name":"personal"}"#).unwrap_err();
    assert_eq!(e.message(), "managed personal marketplace has no plugins");
}

#[test]
fn a_malformed_entry_stops_the_plan_after_earlier_plugins() {
    let plan = validate_marketplace(
        br#"{"name":"personal","plugins":[{"name":"a","source":{"path":"p"}},{"name":"b"},{"name":"c","source":{"path":"q"}}]}"#,
    )
    .unwrap();
    assert_eq!(plan.plugins.len(), 1);
    let e = plan.malformed.unwrap();
    assert_eq!(
        e.message(),
        "managed personal marketplace plugin b is missing source.path"
    );
    let plan = validate_marketplace(br#"{"name":"personal","plugins":[{"source":{"path":"p"}}]}"#)
        .unwrap();
    assert!(plan.plugins.is_empty());
    assert_eq!(
        plan.malformed.unwrap().message(),
        "managed personal marketplace plugin is missing name"
    );
}

#[test]
fn override_quotes_the_root() {
    assert_eq!(
        config_override("/home/u/market \"x\""),
        "marketplaces.personal.source=\"/home/u/market \\\"x\\\"\""
    );
}

#[test]
fn bundled_catalog_must_offer_computer_use() {
    let names = vec!["a".to_string(), "unified-computer-use".to_string()];
    assert!(check_offered("openai-bundled", &names).is_ok());
    let names = vec!["a".to_string()];
    let e = check_offered("openai-bundled", &names).unwrap_err();
    assert_eq!(e.message(), "installed unified-computer-use plugin is unavailable");
    assert!(check_offered("personal", &names).is_ok());
}

#[test]
fn relinking_reads_plugin_names() {
    let plan = relink_plan(br#"{"plugins":[{"name":"a"},{"name":"b"}]}"#).unwrap();
    assert_eq!(plan.names, vec!["a".to_string(), "b".to_string()]);
    assert!(!plan.unnamed);
    let plan = relink_plan(br#"{"plugins":[{"name":"a"},{}]}"#).unwrap();
    assert_eq!(plan.names, vec!["a".to_string()]);
    assert!(plan.unnamed);
    assert_eq!(relink_plan(b"[").unwrap_err(), RelinkError::Invalid);
    assert_eq!(relink_plan(b"{}").unwrap_err(), RelinkError::NoPlugins);
}

fn owned(names: &[&str]) -> Vec<String> {
    names.iter().map(|n| n.to_string()).collect()
}

#[test]
fn a_generated_catalog_lists_installed_plugins_in_order() {
    let document = catalog_document("personal", &owned(&["zeta", "alpha"])).unwrap();
    let expected = "{\n  \"interface\": {\n    \"displayName\": \"personal\"\n  },\n  \"name\": \"personal\",\n  \"plugins\": [\n    {\n      \"name\": \"alpha\",\n      \"policy\": {\n        \"authentication\": \"ON_USE\",\n        \"installation\": \"AVAILABLE\"\n      },\n      \"source\": {\n        \"path\": \"./plugins/alpha\",\n        \"source\": \"local\"\n      }\n    },\n    {\n      \"name\": \"zeta\",\n      \"policy\": {\n        \"authentication\": \"ON_USE\",\n        \"installation\": \"AVAILABLE\"\n      },\n      \"source\": {\n        \"path\": \"./plugins/zeta\",\n        \"source\": \"local\"\n      }\n    }\n  ]\n}";
    assert_eq!(String::from_utf8(document.clone()).unwrap(), expected);
    let plan = validate_marketplace(&document).unwrap();
    let listed: Vec<(&str, &str)> = plan
        .plugins
        .iter()
        .map(|p| (p.name.as_str(), p.source.as_str()))
        .collect();
    assert_eq!(listed, vec![("alpha", "./plugins/alpha"), ("zeta", "./plugins/zeta")]);
}

#[test]
fn a_generated_catalog_matches_pretty_printed_json() {
    let document = catalog_document("openai-bundled", &owned(&["unified-computer-use", "b\"q"])).unwrap();
    let value: serde_json::Value = serde_json::from_slice(&document).unwrap();
    assert_eq!(serde_json::to_vec_pretty(&value).unwrap(), document);
}

#[test]
fn an_empty_cache_gives_an_empty_personal_catalog() {
    let document = catalog_document("personal", &Vec::new()).unwrap();
    assert_eq!(
        String::from_utf8(document).unwrap(),
        "{\n  \"interface\": {\n    \"displayName\": \"personal\"\n  },\n  \"name\": \"personal\",\n  \"plugins\": []\n}"
    );
}

#[test]
fn a_bundled_catalog_without_computer_use_is_refused() {
    assert!(matches!(
        catalog_document("openai-bundled", &owned(&["browser"])),
        Err(MarketplaceError::ComputerUseMissing)
    ));
}

#[test]
fn quoted_paths_use_json_escapes() {
    assert_eq!(
        config_override("a\\b\u{1}\u{8}\t\n\u{c}\r\u{1f}é"),
        "marketplaces.personal.source=\"a\\\\b\\u0001\\b\\t\\n\\f\\r\\u001fé\""
    );
}

#[test]
fn the_newest_installed_version_is_the_last_in_order() {
    let paths = owned(&["/c/p/1.2.0", "/c/p/1.10.0", "/c/p/0.9.9"]);
    assert_eq!(newest_installed(&paths), Some(0));
    let paths = owned(&["/c/p/a", "/c/p/b"]);
    assert_eq!(newest_installed(&paths), Some(1));
    assert_eq!(newest_installed(&Vec::new()), None);
}

#[test]
fn a_clean_personal_catalog_reports_nothing_malformed() {
    let plan = validate_marketplace(
        br#"{"name":"personal","plugins":[{"name":"a","source":{"path":"./plugins/a"}}]}"#,
    )
    .unwrap();
    assert!(plan.malformed.is_none());
    let plan = validate_marketplace(br#"{"name":"personal","plugins":[{"source":{"path":"x"}}]}"#).unwrap();
    assert!(matches!(plan.malformed, Some(MarketplaceError::MissingName)));
}
