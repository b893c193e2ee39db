use zed_typescript::json::JsonValue;
use zed_typescript::settings::{
    ensure_go_mem_limit, is_extension_key, string_array_setting, string_map_setting,
    string_setting, workspace_configuration, ExtensionSetting,
};

fn s(text: &str) -> JsonValue {
    JsonValue::Str(text.to_string())
}

fn obj(entries: Vec<(&str, JsonValue)>) -> JsonValue {
    JsonValue::object_from_entries(
        entries
            .into_iter()
            .map(|(key, value)| (key.to_string(), value))
            .collect(),
    )
}

fn config(value: JsonValue) -> Option<JsonValue> {
    workspace_configuration(Some(value))
}

/// Value at a `/`-separated pointer in the configuration (`~1` stands for `/`).
fn at(config: &Option<JsonValue>, pointer: &str) -> JsonValue {
    let mut current = match config {
        Some(value) => value,
        None => return JsonValue::Null,
    };
    for token in pointer.split('/').skip(1) {
        let key = token.replace("~1", "/").replace("~0", "~");
        let JsonValue::Object(entries) = current else {
            return JsonValue::Null;
        };
        match entries.iter().find(|(k, _)| *k == key) {
            Some((_, value)) => current = value,
            None => return JsonValue::Null,
        }
    }
    clone_json(current)
}

fn clone_json(value: &JsonValue) -> JsonValue {
    match value {
        JsonValue::Null => JsonValue::Null,
        JsonValue::Bool(b) => JsonValue::Bool(*b),
        JsonValue::Number(n) => JsonValue::Number(n.clone()),
        JsonValue::Str(text) => JsonValue::Str(text.clone()),
        JsonValue::Array(items) => JsonValue::Array(items.iter().map(clone_json).collect()),
        JsonValue::Object(entries) => JsonValue::Object(
            entries
                .iter()
                .map(|(k, v)| (k.clone(), clone_json(v)))
                .collect(),
        ),
    }
}

#[test]
fn test_workspace_configuration_defaults_when_unset() {
    let defaults = workspace_configuration(None);
    assert_eq!(
        at(&defaults, "/typescript/inlayHints/parameterNames/enabled"),
        s("all")
    );
    assert_eq!(
        at(&defaults, "/javascript/referencesCodeLens/enabled"),
        JsonValue::Bool(true)
    );
}

#[test]
fn test_workspace_configuration_strips_extension_settings() {
    assert_eq!(
        config(obj(vec![
            ("version", s("7.0.2")),
            ("updateChannel", s("latest")),
            ("tsdk", obj(vec![("path", s("./node_modules/typescript"))])),
            ("tsdk.path", s("./node_modules/typescript")),
            ("server", obj(vec![("pprofDir", s("./pprof"))])),
            ("server.goMemLimit", s("2048MiB")),
        ])),
        workspace_configuration(None)
    );
}

#[test]
fn test_workspace_configuration_merges_user_over_defaults() {
    let merged = config(obj(vec![
        (
            "typescript",
            obj(vec![
                (
                    "inlayHints",
                    obj(vec![("parameterNames", obj(vec![("enabled", s("none"))]))]),
                ),
                ("preferences", obj(vec![("quoteStyle", s("single"))])),
            ]),
        ),
        (
            "js/ts",
            obj(vec![(
                "implicitProjectConfig",
                obj(vec![("checkJs", JsonValue::Bool(true))]),
            )]),
        ),
    ]));
    // user leaf wins
    assert_eq!(
        at(&merged, "/typescript/inlayHints/parameterNames/enabled"),
        s("none")
    );
    // sibling defaults survive
    assert_eq!(
        at(&merged, "/typescript/inlayHints/variableTypes/enabled"),
        JsonValue::Bool(true)
    );
    // user-only values forwarded
    assert_eq!(at(&merged, "/typescript/preferences/quoteStyle"), s("single"));
    assert_eq!(
        at(&merged, "/js~1ts/implicitProjectConfig/checkJs"),
        JsonValue::Bool(true)
    );
}

#[test]
fn test_workspace_configuration_expands_dotted_keys() {
    let merged = config(obj(vec![
        ("typescript.inlayHints.parameterNames.enabled", s("literals")),
        ("typescript.preferences.quoteStyle", s("single")),
    ]));
    assert_eq!(
        at(&merged, "/typescript/inlayHints/parameterNames/enabled"),
        s("literals")
    );
    assert_eq!(at(&merged, "/typescript/preferences/quoteStyle"), s("single"));
}

#[test]
fn test_workspace_configuration_slash_section_survives_expansion() {
    let merged = config(obj(vec![(
        "js/ts.implicitProjectConfig.strictNullChecks",
        JsonValue::Bool(true),
    )]));
    assert_eq!(
        at(&merged, "/js~1ts/implicitProjectConfig/strictNullChecks"),
        JsonValue::Bool(true)
    );
}

#[test]
fn test_workspace_configuration_nested_wins_over_dotted() {
    let merged = config(obj(vec![
        (
            "typescript",
            obj(vec![("preferences", obj(vec![("quoteStyle", s("single"))]))]),
        ),
        ("typescript.preferences.quoteStyle", s("double")),
        (
            "typescript.inlayHints.variableTypes.enabled",
            JsonValue::Bool(false),
        ),
    ]));
    assert_eq!(at(&merged, "/typescript/preferences/quoteStyle"), s("single"));
    assert_eq!(
        at(&merged, "/typescript/inlayHints/variableTypes/enabled"),
        JsonValue::Bool(false)
    );
}

#[test]
fn test_string_setting_nested_wins_and_type_errors() {
    let settings = Some(obj(vec![
        ("server", obj(vec![("pprofDir", s("./nested"))])),
        ("server.pprofDir", s("./dotted")),
    ]));
    assert_eq!(
        string_setting(&settings, ExtensionSetting::PprofDir).unwrap(),
        Some("./nested".to_string())
    );

    let settings = Some(obj(vec![(
        "server",
        obj(vec![("pprofDir", JsonValue::Number("5".to_string()))]),
    )]));
    assert!(string_setting(&settings, ExtensionSetting::PprofDir).is_err());
}

#[test]
fn test_string_array_setting() {
    let settings = Some(obj(vec![(
        "server",
        obj(vec![(
            "args",
            JsonValue::Array(vec![s("--pprofDir"), s("./p")]),
        )]),
    )]));
    assert_eq!(
        string_array_setting(&settings, ExtensionSetting::ServerArgs).unwrap(),
        Some(vec!["--pprofDir".to_string(), "./p".to_string()])
    );

    let settings = Some(obj(vec![(
        "server",
        obj(vec![(
            "args",
            JsonValue::Array(vec![s("ok"), JsonValue::Number("5".to_string())]),
        )]),
    )]));
    assert!(string_array_setting(&settings, ExtensionSetting::ServerArgs).is_err());
}

#[test]
fn test_string_map_setting() {
    let settings = Some(obj(vec![(
        "server",
        obj(vec![("env", obj(vec![("GOGC", s("50"))]))]),
    )]));
    assert_eq!(
        string_map_setting(&settings, ExtensionSetting::ServerEnv).unwrap(),
        Some(vec![("GOGC".to_string(), "50".to_string())])
    );

    let settings = Some(obj(vec![(
        "server",
        obj(vec![(
            "env",
            obj(vec![("GOGC", JsonValue::Number("50".to_string()))]),
        )]),
    )]));
    assert!(string_map_setting(&settings, ExtensionSetting::ServerEnv).is_err());
}

#[test]
fn test_go_mem_limit() {
    assert!(ensure_go_mem_limit("2048MiB").is_ok());
    assert!(ensure_go_mem_limit("1024").is_ok());
    assert!(ensure_go_mem_limit("1GiB").is_ok());
    assert!(ensure_go_mem_limit("off").is_ok());
    // the Go runtime rejects decimals and SI suffixes at startup
    assert!(ensure_go_mem_limit("1.5GiB").is_err());
    assert!(ensure_go_mem_limit("2048MB").is_err());
    assert!(ensure_go_mem_limit("foo").is_err());
    assert!(ensure_go_mem_limit(".5GiB").is_err());
    assert!(ensure_go_mem_limit("GiB").is_err());
}

// ---------------------------------------------------------------------------
// Further cases
// ---------------------------------------------------------------------------

#[test]
fn go_mem_limit_error_messages() {
    assert_eq!(
        ensure_go_mem_limit("GiB"),
        Err("invalid GOMEMLIMIT value `GiB`: expected an integer byte count with an optional B/KiB/MiB/GiB/TiB suffix, or `off`".to_string())
    );
    assert_eq!(
        ensure_go_mem_limit("2048MB"),
        Err("invalid GOMEMLIMIT value `2048MB`: the Go runtime only accepts B/KiB/MiB/GiB/TiB suffixes".to_string())
    );
    assert!(ensure_go_mem_limit("12B").is_ok());
    assert!(ensure_go_mem_limit("3TiB").is_ok());
    assert!(ensure_go_mem_limit("").is_err());
}

#[test]
fn setting_type_error_messages_show_the_json_value() {
    let settings = Some(obj(vec![(
        "server",
        obj(vec![("pprofDir", JsonValue::Number("5".to_string()))]),
    )]));
    assert_eq!(
        string_setting(&settings, ExtensionSetting::PprofDir),
        Err("setting `server.pprofDir` must be a string, got: 5".to_string())
    );

    let settings = Some(obj(vec![(
        "server",
        obj(vec![(
            "args",
            JsonValue::Array(vec![s("ok\"x"), JsonValue::Number("5".to_string())]),
        )]),
    )]));
    assert_eq!(
        string_array_setting(&settings, ExtensionSetting::ServerArgs),
        Err("setting `server.args` must be an array of strings, got: [\"ok\\\"x\",5]".to_string())
    );

    let settings = Some(obj(vec![(
        "server",
        obj(vec![(
            "env",
            obj(vec![("B", JsonValue::Null), ("A", s("1"))]),
        )]),
    )]));
    assert_eq!(
        string_map_setting(&settings, ExtensionSetting::ServerEnv),
        Err("setting `server.env.B` must be a string, got: null".to_string())
    );

    let settings = Some(obj(vec![("server", obj(vec![("env", s("x"))]))]));
    assert_eq!(
        string_map_setting(&settings, ExtensionSetting::ServerEnv),
        Err("setting `server.env` must be an object of string values, got: \"x\"".to_string())
    );

    let settings = Some(obj(vec![(
        "version",
        obj(vec![("a", JsonValue::Bool(true)), ("b", JsonValue::Array(vec![]))]),
    )]));
    assert_eq!(
        string_setting(&settings, ExtensionSetting::Version),
        Err("setting `version` must be a string, got: {\"a\":true,\"b\":[]}".to_string())
    );
}

#[test]
fn setting_lookup_falls_back_to_dotted_key_and_absent() {
    let settings = Some(obj(vec![("server.pprofDir", s("./dotted"))]));
    assert_eq!(
        string_setting(&settings, ExtensionSetting::PprofDir).unwrap(),
        Some("./dotted".to_string())
    );
    assert_eq!(
        string_setting(&settings, ExtensionSetting::GoMemLimit).unwrap(),
        None
    );
    assert_eq!(string_setting(&None, ExtensionSetting::Version).unwrap(), None);
    assert_eq!(
        string_setting(&Some(s("not an object")), ExtensionSetting::Version).unwrap(),
        None
    );
    // a nested parent that is not an object falls back to the dotted key too
    let settings = Some(obj(vec![
        ("server", s("x")),
        ("server.pprofDir", s("./dotted")),
    ]));
    assert_eq!(
        string_setting(&settings, ExtensionSetting::PprofDir).unwrap(),
        Some("./dotted".to_string())
    );
    let map = Some(obj(vec![(
        "server",
        obj(vec![("env", obj(vec![("B", s("2")), ("A", s("1"))]))]),
    )]));
    assert_eq!(
        string_map_setting(&map, ExtensionSetting::ServerEnv).unwrap(),
        Some(vec![
            ("A".to_string(), "1".to_string()),
            ("B".to_string(), "2".to_string())
        ])
    );
}

#[test]
fn extension_keys_are_recognised_by_their_first_segment() {
    assert!(is_extension_key("version"));
    assert!(is_extension_key("tsdk.path"));
    assert!(is_extension_key("server.goMemLimit"));
    assert!(is_extension_key("updateChannel"));
    assert!(!is_extension_key("typescript.tsdk"));
    assert!(!is_extension_key("versions"));
    assert!(!is_extension_key(""));
}

#[test]
fn non_object_settings_are_forwarded_verbatim() {
    assert_eq!(
        config(JsonValue::Array(vec![s("x")])),
        Some(JsonValue::Array(vec![s("x")]))
    );
    assert_eq!(config(JsonValue::Null), Some(JsonValue::Null));
}

#[test]
fn workspace_configuration_replaces_non_object_default_and_drops_blocked_dotted() {
    let merged = config(obj(vec![
        ("typescript", obj(vec![("inlayHints", s("off"))])),
        ("typescript.inlayHints.enumMemberValues.enabled", JsonValue::Bool(false)),
        ("javascript.referencesCodeLens", JsonValue::Bool(false)),
    ]));
    assert_eq!(at(&merged, "/typescript/inlayHints"), s("off"));
    assert_eq!(
        at(&merged, "/javascript/referencesCodeLens"),
        JsonValue::Bool(false)
    );
    assert_eq!(
        at(&merged, "/javascript/implementationsCodeLens/enabled"),
        JsonValue::Bool(true)
    );
}

#[test]
fn empty_settings_object_gives_the_defaults() {
    assert_eq!(config(obj(vec![])), workspace_configuration(None));
}

#[test]
fn object_from_entries_orders_keys_and_keeps_the_last_duplicate() {
    let value = obj(vec![("b", s("1")), ("a", s("2")), ("b", s("3"))]);
    assert_eq!(
        value,
        JsonValue::Object(vec![
            ("a".to_string(), s("2")),
            ("b".to_string(), s("3"))
        ])
    );
}

#[test]
fn extension_setting_paths() {
    assert_eq!(ExtensionSetting::Version.path(), "version");
    assert_eq!(ExtensionSetting::UpdateChannel.path(), "updateChannel");
    assert_eq!(ExtensionSetting::TsdkPath.path(), "tsdk.path");
    assert_eq!(ExtensionSetting::PprofDir.path(), "server.pprofDir");
    assert_eq!(ExtensionSetting::GoMemLimit.path(), "server.goMemLimit");
    assert_eq!(ExtensionSetting::ServerArgs.path(), "server.args");
    assert_eq!(ExtensionSetting::ServerEnv.path(), "server.env");
}

fn keys_sorted_everywhere(value: &JsonValue) -> bool {
    match value {
        JsonValue::Object(entries) => {
            entries.windows(2).all(|w| w[0].0 < w[1].0)
                && entries.iter().all(|(_, v)| keys_sorted_everywhere(v))
        }
        JsonValue::Array(items) => items.iter().all(keys_sorted_everywhere),
        _ => true,
    }
}

#[test]
fn served_configuration_keeps_keys_in_order() {
    let defaults = workspace_configuration(None).unwrap();
    assert!(keys_sorted_everywhere(&defaults));
    let merged = config(obj(vec![
        ("zeta.b.a", s("1")),
        ("alpha", obj(vec![("y", s("2")), ("x", s("3"))])),
        ("typescript.preferences.quoteStyle", s("single")),
        ("typescript", obj(vec![("aaa", JsonValue::Bool(true))])),
    ]))
    .unwrap();
    assert!(keys_sorted_everywhere(&merged));
    assert_eq!(at(&Some(merged), "/zeta/b/a"), s("1"));
}

#[test]
fn served_configuration_served_again_is_unchanged() {
    let inputs = vec![
        None,
        Some(obj(vec![])),
        Some(obj(vec![
            ("typescript.inlayHints.parameterNames.enabled", s("all")),
            ("editor", obj(vec![("tabSize", JsonValue::Number("2".to_string()))])),
            ("version", s("7.0.0")),
            ("js/ts", obj(vec![("x", JsonValue::Bool(false))])),
        ])),
        Some(JsonValue::Array(vec![JsonValue::Null])),
    ];
    for input in inputs {
        let first = workspace_configuration(input);
        let second = workspace_configuration(first.as_ref().map(clone_json));
        assert!(first.is_some());
        assert_eq!(second, first);
    }
}

#[test]
fn settings_differing_only_in_extension_keys_serve_the_same_configuration() {
    let a = obj(vec![
        ("editor.tabSize", JsonValue::Number("4".to_string())),
        ("tsdk", s("/a/lib")),
        ("server.path", s("/bin/tsgo")),
    ]);
    let b = obj(vec![
        ("editor.tabSize", JsonValue::Number("4".to_string())),
        ("version", s("6.0.0")),
        ("updateChannel", s("nightly")),
        ("server", obj(vec![("args", JsonValue::Array(vec![]))])),
    ]);
    assert_eq!(config(a), config(b));
}
