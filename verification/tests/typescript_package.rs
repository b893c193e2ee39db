use zed_typescript::json::{parse_json, JsonValue};
use zed_typescript::typescript_package::{
    find_local_typescript_package_dir, local_typescript_dependency_dirs, package_json_path,
    typescript_version_from_package_text,
    check_installed_typescript, dependency_package_name, ensure_typescript_7_or_newer,
    exact_version, find_native_server_binary, find_typescript_dependency,
    has_usable_typescript_launcher, latest_stable_spec, native_server_candidates,
    needs_typescript_install, node_shim_path, requested_typescript_spec, slash_path,
    tsdk_package_dir, typescript_dependency_dirs, typescript_version_from_package_json,
    Architecture, Os, PackageProbe, RequestedTypescriptSpec, TypescriptRequest,
};

fn s(text: &str) -> JsonValue {
    JsonValue::Str(text.to_string())
}

fn obj(entries: Vec<(&str, JsonValue)>) -> JsonValue {
    JsonValue::object_from_entries(
        entries
            .into_iter()
            .map(|(key, value)| (key.to_string(), value))
            .collect(),
    )
}

/// A project directory whose installed packages are described rather than
/// written to disk.
struct TestProject {
    root: String,
    probes: Vec<PackageProbe>,
}

impl TestProject {
    fn new(name: &str) -> Self {
        TestProject {
            root: format!("/tmp/typescript-zed-{name}"),
            probes: Vec::new(),
        }
    }

    fn add_package(&mut self, key: &str, version: &str, has_launcher: bool) -> String {
        let dir = format!("{}/node_modules/{key}", self.root);
        self.probes.push(PackageProbe {
            dir: dir.clone(),
            version: Ok(version.to_string()),
            has_launcher,
        });
        dir
    }

    fn root(&self) -> String {
        self.root.clone()
    }
}

#[test]
fn test_dependency_package_name() {
    let cases = [
        (("typescript", "^7.0.2"), Some("typescript")),
        (("typescript", "^8.0.0"), Some("typescript")),
        (
            ("@typescript/native", "npm:typescript@^7.0.2"),
            Some("typescript"),
        ),
        (("whatever", " npm:typescript@next "), Some("typescript")),
        (("foo", "^7.2.0"), Some("foo")),
        (("foo", "npm:bar@7.0.0"), Some("bar")),
        (
            ("typescript", "npm:@typescript/typescript6@^6.0.2"),
            Some("@typescript/typescript6"),
        ),
        (("foo", "npm:@scope/package@next"), Some("@scope/package")),
        (("foo", "npm:@scope/package"), Some("@scope/package")),
        (("foo", "npm:"), None),
    ];

    for ((key, spec), expected) in cases {
        assert_eq!(dependency_package_name(key, spec), expected);
    }
}

#[test]
fn test_find_dependency_ignores_unrelated_7_and_accepts_typescript_8() {
    let mut project = TestProject::new("package-identity");
    project.add_package("foo", "7.2.0", true);
    let typescript_dir = project.add_package("typescript", "8.0.0", true);
    let manifest = obj(vec![(
        "dependencies",
        obj(vec![("foo", s("^7.2.0")), ("typescript", s("^8.0.0"))]),
    )]);

    assert_eq!(
        find_typescript_dependency(&manifest, &project.root(), &project.probes),
        Some(typescript_dir)
    );
}

#[test]
fn test_find_dependency_supports_side_by_side_aliases() {
    let mut project = TestProject::new("side-by-side-aliases");
    let native_dir = project.add_package("@typescript/native", "7.0.2", true);
    project.add_package("typescript", "6.0.2", true);
    let manifest = obj(vec![(
        "devDependencies",
        obj(vec![
            ("@typescript/native", s("npm:typescript@^7.0.2")),
            ("typescript", s("npm:@typescript/typescript6@^6.0.2")),
        ]),
    )]);

    assert_eq!(
        find_typescript_dependency(&manifest, &project.root(), &project.probes),
        Some(native_dir)
    );
}

#[test]
fn test_find_dependency_continues_after_outdated_alias() {
    let mut project = TestProject::new("continue-after-outdated");
    project.add_package("a-typescript", "6.0.2", true);
    let usable_dir = project.add_package("z-typescript", "7.0.2", true);
    let manifest = obj(vec![(
        "dependencies",
        obj(vec![
            ("a-typescript", s("npm:typescript@6.0.2")),
            ("z-typescript", s("npm:typescript@7.0.2")),
        ]),
    )]);

    assert_eq!(
        find_typescript_dependency(&manifest, &project.root(), &project.probes),
        Some(usable_dir)
    );
}

#[test]
fn test_ensure_7_or_newer() {
    assert!(ensure_typescript_7_or_newer("7.0.0").is_ok());
    assert!(ensure_typescript_7_or_newer("7.1.0-beta.1").is_ok());
    assert!(ensure_typescript_7_or_newer("10.0.0").is_ok());
    assert!(ensure_typescript_7_or_newer("v7.0").is_ok());
    assert!(ensure_typescript_7_or_newer("6.9.9").is_err());
    assert!(ensure_typescript_7_or_newer("foo").is_err());
}

#[test]
fn test_exact_version() {
    assert_eq!(exact_version("7.0.2"), Some("7.0.2".into()));
    assert_eq!(exact_version("v7.0.2"), Some("7.0.2".into()));
    assert_eq!(exact_version("7.0.0-beta.1"), Some("7.0.0-beta.1".into()));
    assert_eq!(exact_version("latest"), None);
    assert_eq!(exact_version("next"), None);
    assert_eq!(exact_version("^7"), None);
}

// ---------------------------------------------------------------------------
// Further cases
// ---------------------------------------------------------------------------

#[test]
fn ensure_7_error_messages_and_overflow() {
    assert_eq!(
        ensure_typescript_7_or_newer("6.9.9"),
        Err("TypeScript LSP requires TypeScript 7 or newer, got `6.9.9`".to_string())
    );
    assert_eq!(
        ensure_typescript_7_or_newer("foo"),
        Err("invalid TypeScript version `foo`".to_string())
    );
    assert_eq!(
        ensure_typescript_7_or_newer("99999999999999999999.0.0"),
        Err("invalid TypeScript version `99999999999999999999.0.0`".to_string())
    );
    assert!(ensure_typescript_7_or_newer("18446744073709551615").is_ok());
    assert!(ensure_typescript_7_or_newer("18446744073709551616").is_err());
    assert!(ensure_typescript_7_or_newer("007").is_ok());
    assert!(ensure_typescript_7_or_newer("v").is_err());
}

#[test]
fn exact_version_trims_and_checks_characters() {
    assert_eq!(exact_version(" 7.0.2 "), Some("7.0.2".into()));
    assert_eq!(exact_version("v 7.1"), Some("7.1".into()));
    assert_eq!(exact_version("7.0.0+build.5"), Some("7.0.0+build.5".into()));
    assert_eq!(exact_version("7.0 .1"), None);
    assert_eq!(exact_version(""), None);
    assert_eq!(exact_version("v"), None);
}

#[test]
fn requested_spec_from_settings() {
    let version = Some(obj(vec![("version", s(" 7.0.2 "))]));
    match requested_typescript_spec(&version) {
        Ok(TypescriptRequest::Spec(spec)) => {
            assert_eq!(spec.install_spec, "7.0.2");
            assert_eq!(spec.exact_version, Some("7.0.2".to_string()));
        }
        _ => panic!("expected an exact spec"),
    }

    let empty = Some(obj(vec![("version", s("  "))]));
    assert_eq!(
        requested_typescript_spec(&empty).err(),
        Some("TypeScript version setting must not be empty".to_string())
    );

    let next = Some(obj(vec![("updateChannel", s("next"))]));
    match requested_typescript_spec(&next) {
        Ok(TypescriptRequest::Spec(spec)) => {
            assert_eq!(spec.install_spec, "next");
            assert_eq!(spec.exact_version, None);
        }
        _ => panic!("expected the next tag"),
    }

    let latest = Some(obj(vec![("updateChannel", s("latest"))]));
    assert!(matches!(
        requested_typescript_spec(&latest),
        Ok(TypescriptRequest::LatestStable)
    ));
    assert!(matches!(
        requested_typescript_spec(&None),
        Ok(TypescriptRequest::LatestStable)
    ));

    let beta = Some(obj(vec![("updateChannel", s("beta"))]));
    assert_eq!(
        requested_typescript_spec(&beta).err(),
        Some("unsupported TypeScript update channel `beta`; expected `latest` or `next`".to_string())
    );

    let wrong_type = Some(obj(vec![("version", JsonValue::Bool(true))]));
    assert_eq!(
        requested_typescript_spec(&wrong_type).err(),
        Some("setting `version` must be a string, got: true".to_string())
    );
}

#[test]
fn latest_stable_spec_prefers_registry_then_installed() {
    let spec = latest_stable_spec(Ok("7.1.0".to_string()), None).ok().unwrap();
    assert_eq!(spec.install_spec, "7.1.0");
    assert_eq!(spec.exact_version, Some("7.1.0".to_string()));

    assert_eq!(
        latest_stable_spec(Ok("6.0.0".to_string()), None).err(),
        Some("TypeScript LSP requires TypeScript 7 or newer, got `6.0.0`".to_string())
    );

    let spec = latest_stable_spec(
        Err("offline".to_string()),
        Some(Ok(Some("7.0.2".to_string()))),
    )
    .ok()
    .unwrap();
    assert_eq!(spec.install_spec, "7.0.2");

    assert_eq!(
        latest_stable_spec(Err("offline".to_string()), Some(Ok(Some("6.0.2".to_string())))).err(),
        Some("offline".to_string())
    );
    assert_eq!(
        latest_stable_spec(Err("offline".to_string()), Some(Ok(None))).err(),
        Some("offline".to_string())
    );
}

#[test]
fn install_decisions() {
    let exact = RequestedTypescriptSpec {
        install_spec: "7.0.2".to_string(),
        exact_version: Some("7.0.2".to_string()),
    };
    assert!(exact.matches_installed(Some("7.0.2")));
    assert!(!exact.matches_installed(Some("7.0.1")));
    assert!(!exact.matches_installed(None));
    assert!(!needs_typescript_install(&exact, Some("7.0.2")));
    assert!(needs_typescript_install(&exact, Some("7.0.1")));
    let tag = RequestedTypescriptSpec {
        install_spec: "next".to_string(),
        exact_version: None,
    };
    assert!(!tag.matches_installed(Some("next")));
    assert!(needs_typescript_install(&tag, Some("7.0.2")));

    assert_eq!(
        check_installed_typescript(None),
        Err("TypeScript was not installed after npm install completed".to_string())
    );
    assert!(check_installed_typescript(Some("7.0.2")).is_ok());
    assert!(check_installed_typescript(Some("5.9.0")).is_err());
}

#[test]
fn tsdk_paths_resolve_to_the_package_root() {
    assert_eq!(
        tsdk_package_dir("/work/project/", "node_modules/typescript/lib"),
        "/work/project/node_modules/typescript"
    );
    assert_eq!(
        tsdk_package_dir("/work/project", " ./node_modules/typescript/bin/tsc/ "),
        "/work/project/./node_modules/typescript"
    );
    assert_eq!(
        tsdk_package_dir("C:\\work\\project", "node_modules\\typescript\\lib\\"),
        "C:/work/project/node_modules/typescript"
    );
    assert_eq!(
        tsdk_package_dir("/work", "/opt/typescript/bin/tsc.js"),
        "/opt/typescript"
    );
    assert_eq!(tsdk_package_dir("/work", "D:\\ts\\bin"), "D:/ts");
    assert_eq!(tsdk_package_dir("/work", "/opt/ts"), "/opt/ts");
}

#[test]
fn native_binary_candidates_and_choice() {
    assert!(native_server_candidates(Os::Linux, Architecture::X86, "/p").is_none());
    let candidates = native_server_candidates(Os::Windows, Architecture::X8664, "/p").unwrap();
    assert_eq!(
        candidates,
        vec![
            "/p/lib/tsc.exe".to_string(),
            "/p/../@typescript/typescript-win32-x64/lib/tsc.exe".to_string(),
            "/p/node_modules/@typescript/typescript-win32-x64/lib/tsc.exe".to_string(),
        ]
    );
    let files = vec![
        "/p/node_modules/@typescript/typescript-darwin-arm64/lib/tsc".to_string(),
        "/p/../@typescript/typescript-darwin-arm64/lib/tsc".to_string(),
    ];
    assert_eq!(
        find_native_server_binary(Os::Mac, Architecture::Aarch64, "/p", &files),
        Some("/p/../@typescript/typescript-darwin-arm64/lib/tsc".to_string())
    );
    assert_eq!(
        find_native_server_binary(Os::Linux, Architecture::Aarch64, "/p", &files),
        None
    );
}

#[test]
fn launchers_and_versions() {
    assert_eq!(node_shim_path("/p", true), Ok("/p/bin/tsc".to_string()));
    assert_eq!(
        node_shim_path("/p", false),
        Err("TypeScript package at `/p` has no native server binary for this platform and no `bin/tsc` launcher".to_string())
    );
    assert!(has_usable_typescript_launcher(&Err("x".to_string()), &Some("/b".to_string())));
    assert!(has_usable_typescript_launcher(&Ok("/s".to_string()), &None));
    assert!(!has_usable_typescript_launcher(&Err("x".to_string()), &None));

    let pkg = obj(vec![("version", s("7.0.2"))]);
    assert_eq!(
        typescript_version_from_package_json("/p/package.json", &pkg),
        Ok("7.0.2".to_string())
    );
    assert_eq!(
        typescript_version_from_package_json("/p/package.json", &obj(vec![])),
        Err("no version in /p/package.json".to_string())
    );
    assert_eq!(slash_path("C:\\a\\b"), "C:/a/b");
}

#[test]
fn dependency_dirs_cover_every_section_and_skip_non_strings() {
    let manifest = obj(vec![
        ("dependencies", obj(vec![("typescript", s("^7"))])),
        ("devDependencies", obj(vec![("ts", s("npm:typescript@7")), ("x", JsonValue::Bool(true))])),
        ("peerDependencies", obj(vec![("typescript", s("*"))])),
    ]);
    assert_eq!(
        typescript_dependency_dirs(&manifest, "/r"),
        vec![
            "/r/node_modules/typescript".to_string(),
            "/r/node_modules/ts".to_string(),
            "/r/node_modules/typescript".to_string(),
        ]
    );
    let mut project = TestProject::new("no-launcher");
    project.add_package("typescript", "7.0.0", false);
    let manifest = obj(vec![("dependencies", obj(vec![("typescript", s("^7"))]))]);
    assert_eq!(
        find_typescript_dependency(&manifest, &project.root(), &project.probes),
        None
    );
}

#[test]
fn project_root_is_slashed_without_trailing_separator() {
    assert_eq!(zed_typescript::typescript_package::project_root("C:\\w\\p\\"), "C:/w/p");
    assert_eq!(zed_typescript::typescript_package::project_root("/w/p//"), "/w/p");
}

#[test]
fn exact_version_of_an_exact_version_is_itself() {
    for v in ["v7.0.2", " 7.1.0-rc.1 ", "10.0.0+x"] {
        let exact = exact_version(v).unwrap();
        assert_eq!(exact_version(&exact), Some(exact.clone()));
    }
}

#[test]
fn version_setting_wins_over_channel() {
    let settings = Some(obj(vec![
        ("updateChannel", s("bogus")),
        ("version", s("7.0.3")),
    ]));
    match requested_typescript_spec(&settings) {
        Ok(TypescriptRequest::Spec(spec)) => {
            assert_eq!(spec.install_spec, "7.0.3");
            assert_eq!(spec.exact_version, Some("7.0.3".to_string()));
        }
        _ => panic!("the version setting decides"),
    }
}

#[test]
fn absolute_tsdk_path_ignores_the_worktree_root() {
    assert_eq!(
        tsdk_package_dir("/a", "/opt/ts/lib"),
        tsdk_package_dir("C:\\b\\c", "/opt/ts/lib")
    );
    assert_eq!(
        tsdk_package_dir("/a", "E:\\ts\\lib"),
        tsdk_package_dir("/other/", "E:\\ts\\lib")
    );
}

#[test]
fn version_from_package_text() {
    let path = package_json_path("/p/node_modules/typescript");
    assert_eq!(path, "/p/node_modules/typescript/package.json");
    assert_eq!(
        typescript_version_from_package_text(&path, r#"{"name":"typescript","version":"7.0.2"}"#),
        Ok("7.0.2".to_string())
    );
    assert_eq!(
        typescript_version_from_package_text(&path, r#"{"version":7}"#),
        Err("no version in /p/node_modules/typescript/package.json".to_string())
    );
    let invalid = typescript_version_from_package_text(&path, "{not json").unwrap_err();
    assert!(invalid.starts_with("invalid /p/node_modules/typescript/package.json: "));
    assert!(invalid.len() > "invalid /p/node_modules/typescript/package.json: ".len());
}

#[test]
fn local_package_search_reads_the_manifest_text() {
    let manifest = r#"{"devDependencies":{"z":"npm:typescript@7","typescript":"^6"},"dependencies":{"foo":"1"}}"#;
    let dirs = local_typescript_dependency_dirs(manifest, "C:\\work\\proj\\");
    assert_eq!(
        dirs,
        vec![
            "C:/work/proj/node_modules/typescript".to_string(),
            "C:/work/proj/node_modules/z".to_string(),
        ]
    );
    let probes = vec![
        PackageProbe { dir: dirs[0].clone(), version: Ok("6.0.0".to_string()), has_launcher: true },
        PackageProbe { dir: dirs[1].clone(), version: Ok("7.0.0".to_string()), has_launcher: true },
    ];
    assert_eq!(
        find_local_typescript_package_dir(manifest, "C:\\work\\proj\\", &probes),
        Some("C:/work/proj/node_modules/z".to_string())
    );
    assert!(local_typescript_dependency_dirs("[", "/r").is_empty());
    assert_eq!(find_local_typescript_package_dir("[", "/r", &probes), None);
    assert_eq!(
        parse_json(r#"{"b":1,"a":[true,null,"x"]}"#),
        Ok(obj(vec![
            ("a", JsonValue::Array(vec![JsonValue::Bool(true), JsonValue::Null, s("x")])),
            ("b", JsonValue::Number("1".to_string())),
        ]))
    );
}
