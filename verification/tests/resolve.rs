//! Resolving drift.

use tomte::chezmoi::{ChezmoiClient, ChezmoiOptions};
use tomte::cmd::fake::FakeRunner;
use tomte::git::GitClient;
use tomte::ipc::IpcError;
use tomte::json::Json;
use tomte::merge_inputs::MergeInputs;
use tomte::proto::{Request, Response};
use tomte::resolve::{
    append_note, build_decision, commit_message, commit_phase, expect_blobs, expect_ok,
    expect_session, is_templated, parse_undo_restores, write_back_verified, Came, CommitReport,
    Job, ResolveError, ResolveOutcome, Resolving, Step, UndoCame, UndoStep, Undoing,
    WriteBackAttempt,
};
use tomte::template::anchor::{anchor, SpanMap};
use tomte::template::lexer::lex;

const TMPL: &str = "email = {{ .email }}\neditor = hx\n";
const RENDERED: &str = "email = a@b.c\neditor = hx\n";

fn span_map() -> SpanMap {
    anchor(TMPL, &lex(TMPL).unwrap(), RENDERED)
}

fn fake_chezmoi(answers: &[(i32, &str, &str)]) -> ChezmoiClient<FakeRunner> {
    let mut fake = FakeRunner::new();
    for (code, out, err) in answers {
        fake.push_ok(*code, out, err);
    }
    ChezmoiClient::new(fake, ChezmoiOptions::default())
}

fn text(s: &str) -> Json {
    Json::Text(s.to_string())
}

fn record(members: &[(&str, Json)]) -> Json {
    Json::Object(
        members
            .iter()
            .map(|(k, v)| {
                let value = match v {
                    Json::Text(s) => Json::Text(s.clone()),
                    Json::Unsigned(n) => Json::Unsigned(*n),
                    other => panic!("unexpected member {other:?}"),
                };
                (k.to_string(), value)
            })
            .collect(),
    )
}

#[test]
fn write_back_verified_literal_edit_verifies_and_returns_new_template() {
    let resolved = "email = a@b.c\neditor = nvim\n";
    let mut chezmoi = fake_chezmoi(&[(0, resolved, "")]);
    let attempt = write_back_verified(&mut chezmoi, TMPL, &span_map(), RENDERED, resolved).unwrap();
    assert_eq!(
        attempt,
        WriteBackAttempt::Verified("email = {{ .email }}\neditor = nvim\n".into())
    );
    let calls = chezmoi.runner.calls();
    assert_eq!(calls.len(), 1);
    assert!(calls[0].args.contains(&"execute-template".to_string()));
    assert_eq!(
        calls[0].stdin.as_deref(),
        Some("email = {{ .email }}\neditor = nvim\n".as_bytes())
    );
}

#[test]
fn write_back_verified_protected_touch_rejects_before_any_subprocess() {
    let resolved = "email = x@y.z\neditor = hx\n";
    let mut chezmoi = fake_chezmoi(&[]);
    let attempt = write_back_verified(&mut chezmoi, TMPL, &span_map(), RENDERED, resolved).unwrap();
    let WriteBackAttempt::Rejected(detail) = attempt else {
        panic!("expected Rejected, got {attempt:?}");
    };
    assert!(detail.contains("protected"), "detail: {detail}");
    assert!(
        chezmoi.runner.calls().is_empty(),
        "a placement rejection must not spawn chezmoi"
    );
}

#[test]
fn write_back_verified_repeated_literal_rejects() {
    let tmpl = "{{ range .shells }}alias {{ . }}\n{{ end }}";
    let rendered = "alias zsh\nalias nu\n";
    let resolved = "alia zsh\nalias nu\n";
    let map = anchor(tmpl, &lex(tmpl).unwrap(), rendered);
    let mut chezmoi = fake_chezmoi(&[]);
    let attempt = write_back_verified(&mut chezmoi, tmpl, &map, rendered, resolved).unwrap();
    assert!(
        matches!(attempt, WriteBackAttempt::Rejected(_)),
        "got {attempt:?}"
    );
    assert!(chezmoi.runner.calls().is_empty());
}

#[test]
fn write_back_verified_render_mismatch_rejects() {
    let resolved = "email = a@b.c\neditor = nvim\n";
    let mut chezmoi = fake_chezmoi(&[(0, "email = SOMETHING ELSE\neditor = nvim\n", "")]);
    let attempt = write_back_verified(&mut chezmoi, TMPL, &span_map(), RENDERED, resolved).unwrap();
    let WriteBackAttempt::Rejected(detail) = attempt else {
        panic!("expected Rejected, got {attempt:?}");
    };
    assert!(detail.contains("does not match"), "detail: {detail}");
}

#[test]
fn write_back_verified_chezmoi_failure_is_an_error_not_a_rejection() {
    let resolved = "email = a@b.c\neditor = nvim\n";
    let mut chezmoi = fake_chezmoi(&[(1, "", "boom")]);
    let err =
        write_back_verified(&mut chezmoi, TMPL, &span_map(), RENDERED, resolved).unwrap_err();
    assert!(matches!(err, ResolveError::Chezmoi(_)), "got {err:?}");
}

#[test]
fn is_templated_detects_tmpl_extension_only() {
    assert!(is_templated("/src/dot_zshrc.tmpl"));
    assert!(is_templated("/src/dot_config/env.nu.tmpl"));
    assert!(!is_templated("/src/dot_zshrc"));
    assert!(!is_templated("/src/settings.json"));
    assert!(!is_templated("/src/.tmpl"));
}

#[test]
fn commit_message_uses_action_and_file_name() {
    assert_eq!(
        commit_message("keep_disk", "/Users/x/.zshrc"),
        "tomte: keep_disk .zshrc"
    );
    assert_eq!(
        commit_message("keep_disk", "/Users/x/.config/starship.toml"),
        "tomte: keep_disk starship.toml"
    );
}

#[test]
fn commit_message_falls_back_to_full_path_without_file_name() {
    assert_eq!(commit_message("keep_source", "/"), "tomte: keep_source /");
}

#[test]
fn decision_json_roundtrips_through_undo_parsing() {
    let with_source = build_decision("keep_disk", "/Users/x/.zshrc", "abc123", Some("def456"));
    assert_eq!(with_source.get_text("action").unwrap(), "keep_disk");
    assert_eq!(with_source.get_text("target").unwrap(), "/Users/x/.zshrc");
    assert_eq!(with_source.get_text("dest_blob").unwrap(), "abc123");
    assert_eq!(with_source.get_text("source_blob").unwrap(), "def456");

    let without_source = build_decision("keep_source", "/Users/x/.testrc", "abc123", None);
    assert!(without_source.get("source_blob").is_none());

    let decisions = Json::List(vec![
        with_source,
        without_source,
        record(&[("action", text("sync_all"))]),
    ]);
    assert_eq!(
        parse_undo_restores(&decisions),
        vec![
            ("/Users/x/.zshrc".to_string(), "abc123".to_string()),
            ("/Users/x/.testrc".to_string(), "abc123".to_string()),
        ]
    );
}

#[test]
fn parse_undo_restores_skips_decisions_without_target_and_blob() {
    assert!(parse_undo_restores(&record(&[("not", text("array"))])).is_empty());
    let decisions = Json::List(vec![
        record(&[("action", text("keep_source")), ("target", text("/a"))]),
        record(&[("action", text("keep_disk")), ("dest_blob", text("h"))]),
        record(&[("action", text("undo")), ("of", Json::Unsigned(3))]),
    ]);
    assert!(parse_undo_restores(&decisions).is_empty());
}

#[test]
fn notes_are_joined() {
    let mut note = None;
    append_note(&mut note, "one".into());
    append_note(&mut note, "two".into());
    assert_eq!(note.as_deref(), Some("one; two"));
}

fn git_with(answers: &[(i32, &str, &str)]) -> GitClient<FakeRunner> {
    let mut fake = FakeRunner::new();
    for (code, out, err) in answers {
        fake.push_ok(*code, out, err);
    }
    GitClient::new(fake, "/src".into())
}

#[test]
fn a_dirty_source_is_committed_and_pushed() {
    let mut git = git_with(&[(0, " M dot_zshrc\n", ""), (0, "", ""), (0, "", ""), (0, "", "")]);
    let report = commit_phase(&mut git, "keep_disk", "/home/u/.zshrc");
    assert!(report.committed && report.pushed);
    assert_eq!(report.note, None);
    let sent: Vec<Vec<String>> = git.runner.calls().iter().map(|c| c.args.clone()).collect();
    assert_eq!(sent.len(), 4);
    assert!(sent[2].contains(&"tomte: keep_disk .zshrc".to_string()));
    assert!(sent[3].contains(&"push".to_string()));
}

#[test]
fn a_failed_push_is_a_note_and_a_failed_commit_is_not_pushed() {
    let mut git = git_with(&[(0, "", ""), (1, "", "locked")]);
    let report = commit_phase(&mut git, "keep_disk", "/home/u/.zshrc");
    assert!(report.committed && !report.pushed);
    assert!(report.note.unwrap().starts_with("push failed: "));

    let mut git = git_with(&[(0, " M a\n", ""), (0, "", ""), (1, "", "nope")]);
    let report = commit_phase(&mut git, "keep_disk", "/home/u/.zshrc");
    assert!(!report.committed && !report.pushed);
    assert!(report.note.unwrap().starts_with("commit failed: "));
    assert_eq!(git.runner.calls().len(), 3);

    let mut git = git_with(&[(128, "", "no repo")]);
    let report = commit_phase(&mut git, "keep_disk", "/home/u/.zshrc");
    assert!(report
        .note
        .unwrap()
        .starts_with("could not check source repo: "));
}

#[test]
fn replies_are_expected_of_their_kind() {
    assert!(expect_ok("x", Ok(Response::Done)).is_ok());
    assert!(matches!(
        expect_ok("x", Err(IpcError::Timeout)),
        Err(ResolveError::Ipc(IpcError::Timeout))
    ));
    assert!(matches!(
        expect_ok("x", Ok(Response::HelloOk { version: 1 })),
        Err(ResolveError::Failed(_))
    ));
    assert_eq!(
        expect_session(Ok(Response::SessionStarted { session: 7 })).unwrap(),
        7
    );
    assert!(expect_session(Ok(Response::Done)).is_err());
    let two = Response::Blobs {
        hashes: vec!["a".into(), "b".into()],
    };
    assert_eq!(expect_blobs(Ok(two), 2).unwrap(), vec!["a", "b"]);
    let one = Response::Blobs {
        hashes: vec!["a".into()],
    };
    assert!(expect_blobs(Ok(one), 2).is_err());
}

fn reply(r: Response) -> Came {
    Came::Reply(Ok(r))
}

/// Runs a resolution in which all goes well, and gives the steps by name.
fn run_well(job: Job, attempt: Option<WriteBackAttempt>) -> (Vec<String>, ResolveOutcome) {
    let mut x = Resolving::begin(job);
    let mut attempt = attempt;
    let mut names = Vec::new();
    for _ in 0..20 {
        let came = match x.step(100) {
            Step::Ask(Request::SessionStart { ts }) => {
                assert_eq!(ts, 100);
                names.push("start".to_string());
                reply(Response::SessionStarted { session: 4 })
            }
            Step::Ask(Request::SnapshotBlobs { paths }) => {
                names.push(format!("snapshot {}", paths.join(",")));
                reply(Response::Blobs {
                    hashes: paths.iter().map(|p| format!("#{p}")).collect(),
                })
            }
            Step::Ask(Request::SessionDecision { session, decision }) => {
                assert_eq!(session, 4);
                names.push(format!("decide {}", decision.get_text("action").unwrap()));
                reply(Response::Done)
            }
            Step::Ask(Request::ExpectChanges { paths, ttl_secs }) => {
                assert_eq!(ttl_secs, 60);
                names.push(format!("announce {}", paths.join(",")));
                reply(Response::Done)
            }
            Step::Ask(Request::SessionEnd { session, summary, .. }) => {
                assert_eq!(session, 4);
                names.push(format!("end {summary}"));
                reply(Response::Done)
            }
            Step::Ask(Request::Rescan) => {
                names.push("rescan".to_string());
                reply(Response::Done)
            }
            Step::Ask(other) => panic!("unexpected request {other:?}"),
            Step::ReadTemplate { path } => {
                names.push(format!("read {path}"));
                Came::Read(Ok(TMPL.to_string()))
            }
            Step::Attempt { template } => {
                assert_eq!(template, TMPL);
                names.push("attempt".to_string());
                Came::Attempted(Ok(attempt.take().unwrap()))
            }
            Step::WriteSource { path, text } => {
                names.push(format!("write {path} {text:?}"));
                Came::Wrote(Ok(()))
            }
            Step::ReAdd { target } => {
                names.push(format!("re-add {target}"));
                Came::Ran(Ok(()))
            }
            Step::Apply { target } => {
                names.push(format!("apply {target}"));
                Came::Ran(Ok(()))
            }
            Step::Update => {
                names.push("update".to_string());
                Came::Ran(Ok(()))
            }
            Step::Commit { action, target } => {
                names.push(format!("commit {action} {target}"));
                Came::Committed(CommitReport {
                    committed: true,
                    pushed: true,
                    note: None,
                })
            }
            Step::Finish(outcome) => return (names, outcome),
        };
        x = x.advance(came).unwrap();
    }
    panic!("no end after {names:?}");
}

fn inputs(templated: bool) -> MergeInputs {
    MergeInputs {
        target: "/home/u/.rc".into(),
        ours: "a\n".into(),
        theirs: "b\n".into(),
        base: None,
        source_path: if templated {
            "/src/dot_rc.tmpl".into()
        } else {
            "/src/dot_rc".into()
        },
        templated,
        template: None,
        span_map: if templated { Some(span_map()) } else { None },
    }
}

#[test]
fn keeping_the_disk_goes_from_the_snapshot_to_the_commit() {
    let mut chezmoi = fake_chezmoi(&[(0, "/src/dot_rc\n", "")]);
    let job = Job::keep_disk(&mut chezmoi, "/home/u/.rc").unwrap().unwrap();
    let (names, outcome) = run_well(job, None);
    assert_eq!(
        names,
        vec![
            "start",
            "snapshot /home/u/.rc,/src/dot_rc",
            "decide keep_disk",
            "announce /home/u/.rc,/src/dot_rc",
            "re-add /home/u/.rc",
            "commit keep_disk /home/u/.rc",
            "end keep_disk .rc",
            "rescan",
        ]
    );
    assert_eq!(
        outcome,
        ResolveOutcome::Done {
            session: 4,
            committed: true,
            pushed: true,
            note: None
        }
    );
}

#[test]
fn templates_are_not_added_again() {
    let mut chezmoi = fake_chezmoi(&[(0, "/src/dot_rc.tmpl\n", "")]);
    assert!(Job::keep_disk(&mut chezmoi, "/home/u/.rc").unwrap().is_none());
    let mut chezmoi = fake_chezmoi(&[(1, "", "boom")]);
    assert!(Job::keep_disk(&mut chezmoi, "/home/u/.rc").is_err());
}

#[test]
fn keeping_the_source_commits_nothing() {
    let (names, outcome) = run_well(Job::keep_source("/home/u/.rc"), None);
    assert_eq!(
        names,
        vec![
            "start",
            "snapshot /home/u/.rc",
            "decide keep_source",
            "announce /home/u/.rc",
            "apply /home/u/.rc",
            "end keep_source .rc",
            "rescan",
        ]
    );
    assert_eq!(
        outcome,
        ResolveOutcome::Done {
            session: 4,
            committed: false,
            pushed: false,
            note: None
        }
    );
}

#[test]
fn syncing_everything_updates() {
    let (names, _) = run_well(Job::sync_all(), None);
    assert!(names.contains(&"update".to_string()), "{names:?}");
    assert!(names.contains(&"end sync_all".to_string()), "{names:?}");
}

#[test]
fn a_merged_text_is_written_to_the_source_and_applied() {
    let (names, _) = run_well(Job::merge(&inputs(false), "m\n"), None);
    let write = names
        .iter()
        .position(|n| n == "write /src/dot_rc \"m\\n\"")
        .unwrap();
    let apply = names.iter().position(|n| n == "apply /home/u/.rc").unwrap();
    let announce = names
        .iter()
        .position(|n| n == "announce /home/u/.rc,/src/dot_rc")
        .unwrap();
    assert!(announce < write && write < apply, "{names:?}");
}

#[test]
fn a_merged_template_is_written_back_or_refused() {
    let (names, _) = run_well(
        Job::merge(&inputs(true), "m\n"),
        Some(WriteBackAttempt::Verified("new {{ .x }}\n".into())),
    );
    assert!(
        names.contains(&"write /src/dot_rc.tmpl \"new {{ .x }}\\n\"".to_string()),
        "{names:?}"
    );

    let (names, outcome) = run_well(
        Job::merge(&inputs(true), "m\n"),
        Some(WriteBackAttempt::Rejected("touches a value".into())),
    );
    assert_eq!(
        outcome,
        ResolveOutcome::ProtectedSpan {
            detail: "touches a value".into()
        }
    );
    assert!(
        !names.iter().any(|n| n.starts_with("write") || n.starts_with("apply")),
        "{names:?}"
    );
}

#[test]
fn a_resolution_stops_at_the_first_failure() {
    let x = Resolving::begin(Job::keep_source("/home/u/.rc"));
    let err = x
        .advance(Came::Reply(Err(IpcError::Timeout)))
        .unwrap_err();
    assert!(matches!(err, ResolveError::Ipc(IpcError::Timeout)));
    assert_eq!(
        err.message(),
        "request timed out (connected, but no reply within 10s)"
    );

    let x = Resolving::begin(Job::keep_source("/home/u/.rc"));
    let err = x
        .advance(reply(Response::Error {
            message: "busy".into(),
        }))
        .unwrap_err();
    assert!(matches!(err, ResolveError::Failed(_)), "{err:?}");
}

#[test]
fn undo_restores_the_copies_and_is_a_session_of_its_own() {
    let decisions = Json::List(vec![
        build_decision("keep_disk", "/a", "h1", None),
        build_decision("keep_disk", "/b", "h2", Some("h3")),
    ]);
    let mut u = Undoing::begin(Some((9, decisions))).unwrap();
    let mut names = Vec::new();
    let of = loop {
        let came = match u.step(50) {
            UndoStep::GetBlob { hash } => {
                names.push(format!("get {hash}"));
                UndoCame::Blob(Ok(Some(hash.into_bytes())))
            }
            UndoStep::WriteFile { path, bytes } => {
                names.push(format!("write {path} {}", String::from_utf8(bytes).unwrap()));
                UndoCame::Wrote(Ok(()))
            }
            UndoStep::Ask(Request::ExpectChanges { paths, .. }) => {
                names.push(format!("announce {}", paths.join(",")));
                UndoCame::Reply(Ok(Response::Done))
            }
            UndoStep::Ask(Request::SessionStart { .. }) => {
                names.push("start".to_string());
                UndoCame::Reply(Ok(Response::SessionStarted { session: 10 }))
            }
            UndoStep::Ask(Request::SessionDecision { session, decision }) => {
                assert_eq!(session, 10);
                names.push(format!("decide {}", decision.get_text("action").unwrap()));
                UndoCame::Reply(Ok(Response::Done))
            }
            UndoStep::Ask(other) => {
                names.push(
                    match other {
                        Request::SessionEnd { .. } => "end",
                        Request::Rescan => "rescan",
                        _ => "other",
                    }
                    .to_string(),
                );
                UndoCame::Reply(Ok(Response::Done))
            }
            UndoStep::Finish { of } => break of,
        };
        u = u.advance(came).unwrap();
    };
    assert_eq!(of, 9);
    assert_eq!(
        names,
        vec![
            "get h1", "announce /a", "write /a h1", "get h2", "announce /b", "write /b h2",
            "start", "decide undo", "end", "rescan",
        ]
    );
}

#[test]
fn there_is_nothing_to_undo_without_a_session() {
    assert!(Undoing::begin(None).is_none());
    let u = Undoing::begin(Some((3, Json::List(vec![])))).unwrap();
    assert!(matches!(
        u.step(0),
        UndoStep::Ask(Request::SessionStart { .. })
    ));
}

/// Brings a merge of the template to the attempt to write it back.
fn at_the_attempt(inputs: &MergeInputs, resolved: &str) -> Resolving {
    let mut x = Resolving::begin(Job::merge(inputs, resolved));
    for _ in 0..20 {
        let came = match x.step(100) {
            Step::Ask(Request::SessionStart { .. }) => {
                reply(Response::SessionStarted { session: 4 })
            }
            Step::Ask(Request::SnapshotBlobs { paths }) => reply(Response::Blobs {
                hashes: paths.iter().map(|p| format!("#{p}")).collect(),
            }),
            Step::Ask(_) => reply(Response::Done),
            Step::ReadTemplate { .. } => Came::Read(Ok(TMPL.to_string())),
            Step::Attempt { .. } => return x,
            other => panic!("unexpected step {other:?}"),
        };
        x = x.advance(came).unwrap();
    }
    panic!("no attempt");
}

#[test]
fn an_attempt_writes_the_merged_text_into_the_template_that_was_read() {
    let mut merge = inputs(true);
    merge.theirs = RENDERED.to_string();
    let resolved = "email = a@b.c\neditor = nvim\n";

    let x = at_the_attempt(&merge, resolved);
    let mut chezmoi = fake_chezmoi(&[(0, resolved, "")]);
    let came = x.attempt(&mut chezmoi, &merge);
    let template = "email = {{ .email }}\neditor = nvim\n";
    assert_eq!(
        chezmoi.runner.calls()[0].stdin.as_deref(),
        Some(template.as_bytes())
    );
    let x = x.advance(came).unwrap();
    match x.step(100) {
        Step::WriteSource { path, text } => {
            assert_eq!(path, "/src/dot_rc.tmpl");
            assert_eq!(text, template);
        }
        other => panic!("unexpected step {other:?}"),
    }

    let x = at_the_attempt(&merge, resolved);
    let mut chezmoi = fake_chezmoi(&[(0, "something else\n", "")]);
    assert!(matches!(
        x.attempt(&mut chezmoi, &merge),
        Came::Attempted(Ok(WriteBackAttempt::Rejected(_)))
    ));
}

#[test]
fn an_attempt_without_a_map_fails_and_asks_nothing() {
    let merge = inputs(true);
    let x = at_the_attempt(&merge, "m\n");
    let mut chezmoi = fake_chezmoi(&[]);
    match x.attempt(&mut chezmoi, &inputs(false)) {
        Came::Attempted(Err(ResolveError::Failed(m))) => {
            assert_eq!(m, "no template to write to")
        }
        other => panic!("unexpected {other:?}"),
    }
    assert!(chezmoi.runner.calls().is_empty());
}
