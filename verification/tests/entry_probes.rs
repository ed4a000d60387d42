use codex_managed_channel::bootstrap::{parse_original_command, BootstrapAction};

const NONCE: &[u8] = &[1, 2, 3, 4, 5, 6, 7, 8];
const PREFIX: &str =
    "printf '%b' '\\001\\002\\003\\004\\005\\006\\007\\010'; PATH=whatever; export PATH; ";

#[test]
fn desktop_path_probe_succeeds_without_opening_a_shell() {
    let request = parse_original_command(&format!(
        "{PREFIX}if command -v codex >/dev/null 2>&1; then exit 0; fi"
    ))
    .unwrap();
    assert_eq!(request.nonce, NONCE);
    assert_eq!(request.action, BootstrapAction::CodexPathProbe);
}

#[test]
fn desktop_version_probe_runs_only_the_resolved_codex_binary() {
    let request = parse_original_command(&format!("{PREFIX}codex --version")).unwrap();
    assert_eq!(request.nonce, NONCE);
    assert_eq!(request.action, BootstrapAction::CodexVersionProbe);
}

#[test]
fn desktop_bootstrap_probe_is_a_safe_noop_for_the_supervised_worker() {
    let command = format!(
        "{PREFIX}if [ \"${{CODEX_SSH_SKIP_APP_SERVER_BOOT:-}}\" = \"true\" ]; then exit 0; fi; bundled bootstrap body"
    );
    let request = parse_original_command(&command).unwrap();
    assert_eq!(request.nonce, NONCE);
    assert_eq!(request.action, BootstrapAction::AppServerBootstrap);
}
