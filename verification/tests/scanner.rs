//! Scans for drift, on the answers that chezmoi and git give for one managed file.

use tomte::chezmoi::{ChezmoiClient, ChezmoiOptions, EvalFailure, EvalFailureKind};
use tomte::cmd::fake::FakeRunner;
use tomte::drift::{ContentHash, DriftClass};
use tomte::git::GitClient;
use tomte::report::{
    coverage, degraded_line, drift_line, json_line, mark_spans, remote_ref, summary_line,
};
use tomte::scanner::{DriftScanner, ScanError, ScanReport};
use tomte::template::anchor::anchor;
use tomte::template::lexer::lex;

const TARGET: &str = "/home/.testrc";

/// What the two programs say.
struct World {
    disk: Option<&'static str>,
    rendered: &'static str,
    written: &'static str,
    /// What differs between the branch and the remote.
    remote: &'static str,
    /// What is changed in the source repository.
    dirty: &'static str,
    status: (i32, &'static str, &'static str),
    ahead: &'static str,
    behind: &'static str,
}

fn clean() -> World {
    World {
        disk: Some("a=1\n"),
        rendered: "a=1\n",
        written: "a=1\n",
        remote: "",
        dirty: "",
        status: (0, "", ""),
        ahead: "0\n",
        behind: "0\n",
    }
}

fn scan(w: &World) -> Result<ScanReport, ScanError> {
    let hash = ContentHash::of(w.written.as_bytes()).to_hex();
    let dump = format!(
        r#"{{"entryState":{{"{TARGET}":{{"type":"file","contentsSHA256":"{hash}","mode":420}}}}}}"#
    );
    let mut chezmoi = FakeRunner::new();
    chezmoi.push_ok(0, "/source\n", "");
    chezmoi.push_ok(0, &dump, "");
    chezmoi.push_ok(0, "/home/.testrc\n", "");
    for changed in [w.remote, w.dirty] {
        if !changed.is_empty() {
            chezmoi.push_ok(0, "/home/.testrc\n", "");
        }
    }
    chezmoi.push_ok(w.status.0, w.status.1, w.status.2);
    chezmoi.push_ok(0, w.rendered, "");
    chezmoi.push_ok(0, "/source/dot_testrc\n", "");
    let mut git = FakeRunner::new();
    git.push_ok(0, w.remote, "");
    git.push_ok(0, w.dirty, "");
    git.push_ok(0, w.ahead, "");
    git.push_ok(0, w.behind, "");
    let mut scanner = DriftScanner::new(
        ChezmoiClient::new(chezmoi, ChezmoiOptions::default()),
        GitClient::new(git, "/source".into()),
        "origin/main".into(),
    );
    let disk = w.disk;
    scanner.scan(&|path: String| -> Result<Option<ContentHash>, String> {
        assert_eq!(path, TARGET);
        Ok(disk.map(|text| ContentHash::of(text.as_bytes())))
    })
}

fn only_class(w: &World) -> DriftClass {
    let report = scan(w).unwrap();
    assert_eq!(report.drifted.len(), 1, "{:?}", report.drifted);
    assert!(report.drifted[0].target.ends_with(".testrc"));
    report.drifted[0].class
}

#[test]
fn clean_state_is_in_sync() {
    let report = scan(&clean()).unwrap();
    assert!(report.drifted.is_empty(), "{:?}", report.drifted);
    assert_eq!(report.in_sync_count, 1);
    assert!(report.degraded.is_none());
}

#[test]
fn tool_rewrite_is_destination_drift() {
    let w = World {
        disk: Some("a=2\n"),
        status: (0, "MM /home/.testrc\n", ""),
        ..clean()
    };
    assert_eq!(only_class(&w), DriftClass::DestinationDrift);
}

#[test]
fn source_edit_is_source_ahead() {
    let w = World {
        rendered: "a=3\n",
        dirty: " M dot_testrc\n",
        status: (0, " M /home/.testrc\n", ""),
        ..clean()
    };
    assert_eq!(only_class(&w), DriftClass::SourceAhead);
}

#[test]
fn remote_push_is_remote_ahead() {
    let w = World {
        remote: "dot_testrc\n",
        behind: "1\n",
        ..clean()
    };
    assert_eq!(only_class(&w), DriftClass::RemoteAhead);
}

#[test]
fn disk_and_remote_change_is_conflict() {
    let w = World {
        disk: Some("a=local\n"),
        remote: "dot_testrc\n",
        behind: "1\n",
        status: (0, "MM /home/.testrc\n", ""),
        ..clean()
    };
    assert_eq!(only_class(&w), DriftClass::Conflict);
}

#[test]
fn a_status_that_cannot_be_evaluated_hides_no_drift() {
    let w = World {
        disk: Some("a=2\n"),
        status: (1, "", "chezmoi: template: x:1: map has no entry for key \"email\""),
        ..clean()
    };
    let report = scan(&w).unwrap();
    assert!(report.degraded.is_some());
    assert_eq!(report.drifted.len(), 1);
    assert_eq!(report.drifted[0].class, DriftClass::DestinationDrift);
}

#[test]
fn a_scan_fails_where_a_file_cannot_be_read() {
    let mut chezmoi = FakeRunner::new();
    chezmoi.push_ok(0, "/source\n", "");
    chezmoi.push_ok(
        0,
        r#"{"entryState":{"/home/.testrc":{"type":"file","contentsSHA256":"00"}}}"#,
        "",
    );
    chezmoi.push_ok(0, "/home/.testrc\n", "");
    let mut git = FakeRunner::new();
    git.push_ok(0, "", "");
    git.push_ok(0, "", "");
    let mut scanner = DriftScanner::new(
        ChezmoiClient::new(chezmoi, ChezmoiOptions::default()),
        GitClient::new(git, "/source".into()),
        "origin/main".into(),
    );
    let err = scanner
        .scan(&|_p: String| -> Result<Option<ContentHash>, String> { Err("denied".into()) })
        .unwrap_err();
    assert!(matches!(err, ScanError::Io(_)), "{err:?}");
}

#[test]
fn a_scan_fails_with_git() {
    let mut chezmoi = FakeRunner::new();
    chezmoi.push_ok(0, "/source\n", "");
    chezmoi.push_ok(0, r#"{"entryState":{}}"#, "");
    chezmoi.push_ok(0, "", "");
    let mut git = FakeRunner::new();
    git.push_ok(128, "", "unknown revision");
    let mut scanner = DriftScanner::new(
        ChezmoiClient::new(chezmoi, ChezmoiOptions::default()),
        GitClient::new(git, "/source".into()),
        "origin/main".into(),
    );
    let err = scanner.scan(&|_p: String| Ok(None)).unwrap_err();
    assert!(matches!(err, ScanError::Git(_)), "{err:?}");
}

#[test]
fn a_scan_is_reported_in_lines() {
    let report = scan(&World {
        disk: None,
        status: (0, "DA /home/.testrc\n", ""),
        ..clean()
    })
    .unwrap();
    assert_eq!(
        drift_line(&report.drifted[0]),
        "DestinationDrift       /home/.testrc"
    );
    assert_eq!(summary_line(&report), "-- 1 drifted, 0 in sync");
    assert_eq!(
        json_line(&report),
        "{\"drifted\":1,\"in_sync\":0,\"degraded\":false}"
    );
    let f = EvalFailure {
        kind: EvalFailureKind::TemplateError,
        raw_stderr: "one\ntwo\n".into(),
        hint: "look".into(),
    };
    assert_eq!(degraded_line(&f), "degraded scan: look — one");
    assert_eq!(remote_ref(Some("dev")), "origin/dev");
    assert_eq!(remote_ref(None), "origin/main");
}

#[test]
fn coverage_metric() {
    let template = "x = {{ .v }}\n";
    let map = anchor(template, &lex(template).unwrap(), "x = 1\n");
    let (editable, total) = coverage(&map);
    assert_eq!((editable, total), (5, 6));
    let c = editable as f64 / total as f64;
    assert!(c > 0.7 && c < 1.0, "coverage was {c}");
}

#[test]
fn computed_text_is_marked() {
    let template = "x = {{ .v }}\n";
    let map = anchor(template, &lex(template).unwrap(), "x = 1\n");
    assert_eq!(mark_spans("x = 1\n", &map).as_deref(), Some("x = ⟦A:1⟧\n"));
}

#[test]
fn reports_ascend_and_hold_what_cannot_be_rendered() {
    let zeros = "00".repeat(32);
    let mut chezmoi = FakeRunner::new();
    chezmoi.push_ok(0, "/source\n", "");
    chezmoi.push_ok(
        0,
        &format!(
            r#"{{"entryState":{{"/h/b":{{"type":"file","contentsSHA256":"{zeros}"}},"/h/a":["file","{zeros}"]}}}}"#
        ),
        "",
    );
    chezmoi.push_ok(0, "/h/b\n/h/a\n", "");
    chezmoi.push_ok(1, "", "chezmoi: template: x:1: map has no entry for key \"email\"");
    for _ in 0..2 {
        chezmoi.push_ok(1, "", "chezmoi: template: x:1: map has no entry for key \"email\"");
        chezmoi.push_ok(1, "", "not in source state");
    }
    let mut git = FakeRunner::new();
    git.push_ok(0, "", "");
    git.push_ok(0, "", "");
    let mut scanner = DriftScanner::new(
        ChezmoiClient::new(chezmoi, ChezmoiOptions::default()),
        GitClient::new(git, "/source".into()),
        "origin/main".into(),
    );
    let report = scanner
        .scan(&|_p: String| Ok(Some(ContentHash::of(b"changed"))))
        .unwrap();
    let targets: Vec<&str> = report.drifted.iter().map(|d| d.target.as_str()).collect();
    assert_eq!(targets, ["/h/a", "/h/b"]);
    assert!(report.drifted.iter().all(|d| d.class == DriftClass::EvalFailed));
    assert!(report.degraded.is_some());
}
