//! Notifications.

use tomte::cmd::fake::FakeRunner;
use tomte::cmd::CommandError;
use tomte::notify_osa::{
    drift_body, escape_applescript, notification_script, notify, remote_advanced_body,
};

#[test]
fn escape_handles_quotes_and_backslashes() {
    let cases = [
        ("plain text", "plain text"),
        (r#"say "hi""#, r#"say \"hi\""#),
        (r"C:\path\file", r"C:\\path\\file"),
        (r#"mix \" of both"#, r#"mix \\\" of both"#),
        ("", ""),
    ];
    for (input, want) in cases {
        assert_eq!(escape_applescript(input), want, "input {input:?}");
    }
}

#[test]
fn script_places_escaped_body_and_title() {
    assert_eq!(
        notification_script(r#"ti"tle"#, r"bo\dy"),
        r#"display notification "bo\\dy" with title "ti\"tle""#
    );
}

#[test]
fn notify_shells_osascript_with_one_e_flag() {
    let mut fake = FakeRunner::new();
    fake.push_ok(0, "", "");
    assert_eq!(notify(&mut fake, "chezmoi-ui", "2 files drifted"), None);
    let calls = fake.calls();
    assert_eq!(calls.len(), 1);
    assert_eq!(calls[0].program, "osascript");
    assert_eq!(
        calls[0].args,
        vec![
            "-e".to_string(),
            r#"display notification "2 files drifted" with title "chezmoi-ui""#.to_string(),
        ]
    );
}

#[test]
fn notify_never_panics_on_failure() {
    let mut fake = FakeRunner::new();
    fake.push_ok(1, "", "not allowed");
    assert_eq!(
        notify(&mut fake, "t", "b").as_deref(),
        Some("osascript exited 1: not allowed")
    );

    let mut fake = FakeRunner::new();
    fake.push_err(CommandError::Spawn {
        program: "osascript".into(),
        source: "no such file".into(),
    });
    assert_eq!(
        notify(&mut fake, "t", "b").as_deref(),
        Some("notification failed: failed to spawn osascript: no such file")
    );
}

#[test]
fn drift_body_pluralizes() {
    assert_eq!(drift_body(1), "1 file drifted");
    assert_eq!(drift_body(2), "2 files drifted");
    assert_eq!(drift_body(10), "10 files drifted");
}

#[test]
fn remote_advanced_body_uses_file_name() {
    assert_eq!(
        remote_advanced_body("/home/u/.zshrc"),
        "origin advanced: .zshrc"
    );
    assert_eq!(remote_advanced_body("/"), "origin advanced: /");
}
