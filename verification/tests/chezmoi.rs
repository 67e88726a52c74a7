//! Calls of chezmoi.

use tomte::chezmoi::{
    classify_eval_stderr, ChangeCode, ChezmoiClient, ChezmoiError, ChezmoiOptions, EvalFailureKind,
};
use tomte::cmd::fake::FakeRunner;
use tomte::cmd::{CommandError, Duration};

const OP_MULTI_ACCOUNT_STDERR: &str =
    "[ERROR] 2026/07/19 23:12:19 multiple accounts found. Use the --account flag or set the OP_ACCOUNT environment variable to select an account.\nchezmoi: .config/nushell/env.nu: template: dot_config/nushell/env.nu.tmpl:117:29: executing \"dot_config/nushell/env.nu.tmpl\" at <onepasswordRead \"op://Personal/x/hostname\">: error calling onepasswordRead: /opt/homebrew/bin/op signin --raw: exit status 1\n";

fn client(fake: FakeRunner) -> ChezmoiClient<FakeRunner> {
    ChezmoiClient::new(fake, ChezmoiOptions::default())
}

#[test]
fn parses_status_lines() {
    let mut fake = FakeRunner::new();
    fake.push_ok(0, " M /Users/x/.config/starship.toml\nMM /Users/x/.zshrc\n A /Users/x/.newfile\n R /Users/x/install.sh\n", "");
    let mut c = client(fake);
    let entries = c.status().unwrap();
    assert_eq!(entries.len(), 4);
    assert_eq!(entries[0].last_written_vs_actual, ChangeCode::Unchanged);
    assert_eq!(entries[0].actual_vs_target, ChangeCode::Modified);
    assert_eq!(entries[1].last_written_vs_actual, ChangeCode::Modified);
    assert_eq!(entries[3].actual_vs_target, ChangeCode::Run);
    assert_eq!(entries[2].path, "/Users/x/.newfile");
    let call = &c.runner.calls()[0];
    assert!(call.args.contains(&"--path-style=absolute".to_string()));
}

#[test]
fn classifies_1password_multiple_accounts() {
    let mut fake = FakeRunner::new();
    fake.push_ok(1, "", OP_MULTI_ACCOUNT_STDERR);
    let err = client(fake).status().unwrap_err();
    match err {
        ChezmoiError::Eval(f) => {
            assert_eq!(f.kind, EvalFailureKind::OnePasswordMultipleAccounts);
            assert!(f.hint.contains("OP_ACCOUNT"));
        }
        other => panic!("expected Eval, got {other:?}"),
    }
}

#[test]
fn parses_state_dump_entry_state() {
    let json = r#"{
      "configState": {"configState": {"configTemplateContentsSHA256": "801a"}},
      "entryState": {
        "/Users/x/.Brewfile": {"contentsSHA256": "907b", "mode": 420, "type": "file"},
        "/Users/x/.agents": {"mode": 2147484141, "type": "dir"}
      },
      "scriptState": {}
    }"#;
    let mut fake = FakeRunner::new();
    fake.push_ok(0, json, "");
    let dump = client(fake).state_dump().unwrap();
    let entry = |path: &str| {
        &dump
            .entry_state
            .iter()
            .find(|(p, _)| p == path)
            .expect("an entry")
            .1
    };
    let f = entry("/Users/x/.Brewfile");
    assert_eq!(f.kind, "file");
    assert_eq!(f.contents_sha256.as_deref(), Some("907b"));
    assert_eq!(f.mode, Some(420));
    let d = entry("/Users/x/.agents");
    assert_eq!(d.kind, "dir");
    assert_eq!(d.contents_sha256, None);
}

#[test]
fn base_args_and_env_are_applied_to_every_call() {
    let mut fake = FakeRunner::new();
    fake.push_ok(0, "/src\n", "");
    let opts = ChezmoiOptions {
        base_args: vec!["--source".into(), "/src".into()],
        env: vec![("OP_ACCOUNT".into(), "acct".into())],
        ..ChezmoiOptions::default()
    };
    let mut c = ChezmoiClient::new(fake, opts);
    assert_eq!(c.source_dir().unwrap(), "/src");
    let call = &c.runner.calls()[0];
    assert_eq!(call.args[0], "--source");
    assert!(call
        .env
        .contains(&("OP_ACCOUNT".to_string(), "acct".to_string())));
}

#[test]
fn re_add_passes_target_with_default_timeout() {
    let mut fake = FakeRunner::new();
    fake.push_ok(0, "", "");
    let mut c = client(fake);
    c.re_add("/Users/x/.zshrc").unwrap();
    let call = &c.runner.calls()[0];
    assert_eq!(
        call.args,
        vec!["--no-tty", "--no-pager", "re-add", "/Users/x/.zshrc"]
    );
    assert_eq!(call.timeout, ChezmoiOptions::default().timeout);
}

#[test]
fn update_uses_network_timeout() {
    let mut fake = FakeRunner::new();
    fake.push_ok(0, "", "");
    let mut c = client(fake);
    c.update().unwrap();
    let call = &c.runner.calls()[0];
    assert_eq!(call.args, vec!["--no-tty", "--no-pager", "update"]);
    assert_eq!(call.timeout, Duration::from_secs(120));
}

#[test]
fn target_paths_maps_lines() {
    let mut fake = FakeRunner::new();
    fake.push_ok(0, "/Users/x/.zshrc\n/Users/x/.config/a\n", "");
    let out = client(fake)
        .target_paths(&vec!["/s/dot_zshrc".into(), "/s/dot_config/a".into()])
        .unwrap();
    assert_eq!(
        out,
        vec![
            "/Users/x/.zshrc".to_string(),
            "/Users/x/.config/a".to_string()
        ]
    );
}

#[test]
fn no_sources_need_no_call() {
    let mut c = client(FakeRunner::new());
    assert!(c.target_paths(&vec![]).unwrap().is_empty());
    assert!(c.runner.calls().is_empty());
}

#[test]
fn failures_are_told_apart() {
    for (stderr, want) in [
        (OP_MULTI_ACCOUNT_STDERR, Some(EvalFailureKind::OnePasswordMultipleAccounts)),
        ("template: x:1:2: executing \"x\" at <.y>: map has no entry", Some(EvalFailureKind::TemplateError)),
        ("chezmoi: something else entirely", None),
    ] {
        assert_eq!(classify_eval_stderr(stderr).map(|f| f.kind), want, "{stderr}");
    }

    let mut fake = FakeRunner::new();
    fake.push_ok(2, "", "no such command");
    let err = client(fake).managed().unwrap_err();
    assert_eq!(err.message(), "chezmoi exited with code 2: no such command");

    let mut fake = FakeRunner::new();
    fake.push_ok(0, "not json", "");
    let err = client(fake).state_dump().unwrap_err();
    assert!(err
        .message()
        .starts_with("failed to parse chezmoi output (state dump): "));

    let mut fake = FakeRunner::new();
    fake.push_ok(0, "QQ /x\n", "");
    let err = client(fake).status().unwrap_err();
    assert!(matches!(err, ChezmoiError::Parse { context: "status", .. }));

    let mut fake = FakeRunner::new();
    fake.push_err(CommandError::Spawn {
        program: "chezmoi".into(),
        source: "no such file".into(),
    });
    let err = client(fake).cat("/x").unwrap_err();
    assert_eq!(err.message(), "failed to spawn chezmoi: no such file");
}

#[test]
fn templates_are_rendered_from_standard_input() {
    let mut fake = FakeRunner::new();
    fake.push_ok(0, "rendered", "");
    let mut c = client(fake);
    assert_eq!(c.execute_template(b"{{ .x }}").unwrap(), b"rendered");
    let call = &c.runner.calls()[0];
    assert_eq!(call.args, vec!["--no-tty", "--no-pager", "execute-template"]);
    assert_eq!(call.stdin.as_deref(), Some("{{ .x }}".as_bytes()));
}

#[test]
fn a_state_may_be_written_as_lists() {
    let mut fake = FakeRunner::new();
    fake.push_ok(0, r#"[{"/h/a": ["file", "907b", 420], "/h/b": ["dir"]}]"#, "");
    fake.push_ok(0, "[]", "");
    fake.push_ok(0, "[{}, {}]", "");
    fake.push_ok(0, r#"{"entryState": {"/h/a": ["file", null, 1, 2]}}"#, "");
    fake.push_ok(0, r#"{"entryState": {"/h/a": []}}"#, "");
    let mut c = client(fake);
    let dump = c.state_dump().unwrap();
    assert_eq!(dump.entry_state.len(), 2);
    assert_eq!(dump.entry_state[0].1.contents_sha256.as_deref(), Some("907b"));
    assert_eq!(dump.entry_state[0].1.mode, Some(420));
    assert_eq!(dump.entry_state[1].1.kind, "dir");
    assert!(c.state_dump().unwrap().entry_state.is_empty());
    for _ in 0..3 {
        assert!(matches!(c.state_dump(), Err(ChezmoiError::Parse { .. })));
    }
}
