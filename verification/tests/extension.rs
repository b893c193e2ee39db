use zed_typescript::{
    command_from_preview_path, command_from_settings, lsp_args, needs_npm_install,
    node_server_command, TYPESCRIPT_BIN,
};

#[test]
fn lsp_args_are_lsp_and_stdio() {
    assert_eq!(lsp_args(), vec!["--lsp".to_string(), "--stdio".to_string()]);
}

#[test]
fn settings_command_uses_configured_path_and_arguments() {
    let env = vec![("A".to_string(), "1".to_string())];
    let command = command_from_settings(
        Some("/bin/tsgo".to_string()),
        Some(vec!["--x".to_string()]),
        env.clone(),
    )
    .unwrap();
    assert_eq!(command.command, "/bin/tsgo");
    assert_eq!(command.args, vec!["--x".to_string()]);
    assert_eq!(command.env, env);

    let command = command_from_settings(Some("/bin/tsgo".to_string()), Some(vec![]), vec![]).unwrap();
    assert_eq!(command.args, lsp_args());
    let command = command_from_settings(Some("/bin/tsgo".to_string()), None, vec![]).unwrap();
    assert_eq!(command.args, lsp_args());
    assert!(command_from_settings(None, Some(vec!["--x".to_string()]), vec![]).is_none());
}

#[test]
fn preview_and_node_commands() {
    let command = command_from_preview_path(Some("/usr/bin/tsgo".to_string()), vec![]).unwrap();
    assert_eq!(command.command, "/usr/bin/tsgo");
    assert_eq!(command.args, lsp_args());
    assert!(command_from_preview_path(None, vec![]).is_none());

    let command = node_server_command("/node".to_string(), TYPESCRIPT_BIN.to_string(), vec![]);
    assert_eq!(command.command, "/node");
    assert_eq!(
        command.args,
        vec![
            "node_modules/typescript/bin/tsc".to_string(),
            "--lsp".to_string(),
            "--stdio".to_string()
        ]
    );
}

#[test]
fn npm_install_only_when_not_latest() {
    assert!(!needs_npm_install(Some("7.0.2"), "7.0.2"));
    assert!(needs_npm_install(Some("7.0.1"), "7.0.2"));
    assert!(needs_npm_install(None, "7.0.2"));
}
