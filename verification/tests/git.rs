//! Calls of git, and scans.

use tomte::chezmoi::{ChezmoiClient, ChezmoiOptions, EvalFailureKind};
use tomte::cmd::fake::FakeRunner;
use tomte::cmd::Duration;
use tomte::drift::{ContentHash, DriftClass};
use tomte::git::{parse_dirty, parse_divergence, Divergence, GitClient, GitError};
use tomte::scanner::{DriftScanner, ScanError};

fn git(fake: FakeRunner) -> GitClient<FakeRunner> {
    GitClient::new(fake, "/repo".into())
}

#[test]
fn git_calls_run_in_the_repository() {
    let mut fake = FakeRunner::new();
    fake.push_ok(0, "", "");
    fake.push_ok(0, "main\n", "");
    fake.push_ok(0, "0123abcd\n", "");
    let mut c = git(fake);
    c.fetch("origin").unwrap();
    assert_eq!(c.head_branch().unwrap(), "main");
    assert_eq!(c.rev_parse("HEAD").unwrap(), "0123abcd");
    let calls = c.runner.calls();
    assert_eq!(calls[0].program, "git");
    assert_eq!(calls[0].cwd.as_deref(), Some("/repo"));
    assert_eq!(calls[0].args, vec!["fetch", "--quiet", "origin"]);
    assert_eq!(calls[0].timeout, Duration::from_secs(120));
    assert_eq!(calls[1].args, vec!["rev-parse", "--abbrev-ref", "HEAD"]);
    assert_eq!(calls[1].timeout, Duration::from_secs(30));
}

#[test]
fn divergence_counts_behind_first() {
    assert_eq!(
        parse_divergence("3\t5\n").unwrap(),
        Divergence {
            behind: 3,
            ahead: 5
        }
    );
    assert!(matches!(
        parse_divergence("3"),
        Err(GitError::Parse {
            context: "divergence",
            ..
        })
    ));
    assert_eq!(
        parse_divergence("3 x").unwrap_err().message(),
        "failed to parse git output (divergence): invalid digit found in string"
    );
    assert_eq!(
        parse_divergence("1 99999999999").unwrap_err().message(),
        "failed to parse git output (divergence): number too large to fit in target type"
    );
    let mut fake = FakeRunner::new();
    fake.push_ok(0, "0\t1\n", "");
    let mut c = git(fake);
    let d = c.divergence("origin/main").unwrap();
    assert_eq!((d.ahead, d.behind), (1, 0));
    assert_eq!(
        c.runner.calls()[0].args,
        vec![
            "rev-list",
            "--left-right",
            "--count",
            "origin/main...HEAD"
        ]
    );
}

#[test]
fn missing_blobs_are_none() {
    let mut fake = FakeRunner::new();
    fake.push_ok_bytes(0, b"two\n", b"");
    fake.push_ok(128, "", "fatal: not there");
    let mut c = git(fake);
    assert_eq!(c.blob_at("origin/main", "f.txt").unwrap().unwrap(), b"two\n");
    assert_eq!(c.blob_at("origin/main", "missing.txt").unwrap(), None);
    assert!(c.blob_at("x", "y").is_err());
    assert_eq!(
        c.runner.calls()[0].args,
        vec!["cat-file", "blob", "origin/main:f.txt"]
    );
}

#[test]
fn dirty_and_changed_files_are_lines() {
    assert_eq!(
        parse_dirty(" M f.txt\n?? new file\nA  b\nx\n").unwrap(),
        vec!["f.txt", "new file", "b"]
    );
    let mut fake = FakeRunner::new();
    fake.push_ok(0, "f.txt\ng.txt\n", "");
    fake.push_ok(0, " 4\n", "");
    fake.push_ok(128, "", "bad revision");
    let mut c = git(fake);
    assert_eq!(
        c.changed_files("HEAD", "origin/main").unwrap(),
        vec!["f.txt", "g.txt"]
    );
    assert_eq!(c.commits_touching("HEAD..origin/main", "f.txt").unwrap(), 4);
    let err = c.commits_touching("HEAD..x", "f.txt").unwrap_err();
    assert_eq!(err.message(), "git exited with code 128: bad revision");
    assert_eq!(
        c.runner.calls()[1].args,
        vec!["rev-list", "--count", "HEAD..origin/main", "--", "f.txt"]
    );
}

#[test]
fn commits_are_staged_made_and_pushed() {
    let mut fake = FakeRunner::new();
    fake.push_ok(0, "", "");
    fake.push_ok(0, "", "");
    fake.push_ok(0, "", "");
    let mut c = git(fake);
    c.add_all().unwrap();
    c.commit("tomte: keep_disk .zshrc").unwrap();
    c.push("origin").unwrap();
    let calls = c.runner.calls();
    assert_eq!(calls[0].args, vec!["add", "-A"]);
    assert_eq!(calls[1].args, vec!["commit", "-m", "tomte: keep_disk .zshrc"]);
    assert_eq!(calls[2].args, vec!["push", "origin"]);
    assert_eq!(calls[2].timeout, Duration::from_secs(120));
}

// ---------------------------------------------------------------------------
// Scans

const TARGET: &str = "/home/u/.testrc";

fn dump_of(content: &[u8]) -> String {
    format!(
        r#"{{"entryState":{{"{TARGET}":{{"contentsSHA256":"{}","mode":420,"type":"file"}}}}}}"#,
        ContentHash::of(content).to_hex()
    )
}

/// A scanner whose chezmoi and git give these answers.
fn scanner(
    chezmoi: &[(i32, &str, &str)],
    git_answers: &[(i32, &str)],
) -> DriftScanner<FakeRunner, FakeRunner> {
    let mut c = FakeRunner::new();
    for (code, out, err) in chezmoi {
        c.push_ok(*code, out, err);
    }
    let mut g = FakeRunner::new();
    for (code, out) in git_answers {
        g.push_ok(*code, out, "");
    }
    DriftScanner::new(
        ChezmoiClient::new(c, ChezmoiOptions::default()),
        GitClient::new(g, "/src".into()),
        "origin/main".into(),
    )
}

fn disk(content: &'static [u8]) -> impl Fn(String) -> Result<Option<ContentHash>, String> {
    move |_| Ok(Some(ContentHash::of(content)))
}

#[test]
fn a_clean_scan_finds_nothing() {
    let dump = dump_of(b"a=1\n");
    let mut s = scanner(
        &[
            (0, "/src\n", ""),
            (0, &dump, ""),
            (0, "/home/u/.testrc\n", ""),
            (0, "", ""),
        ],
        &[(0, ""), (0, "")],
    );
    let report = s.scan(&disk(b"a=1\n")).unwrap();
    assert!(report.drifted.is_empty());
    assert_eq!(report.in_sync_count, 1);
    assert!(report.degraded.is_none());
}

#[test]
fn a_rewritten_file_has_drifted_on_disk() {
    let dump = dump_of(b"a=1\n");
    let mut s = scanner(
        &[
            (0, "/src\n", ""),
            (0, &dump, ""),
            (0, "/home/u/.testrc\n", ""),
            (0, "MM /home/u/.testrc\n", ""),
            (0, "a=1\n", ""),
            (0, "/src/dot_testrc\n", ""),
        ],
        &[(0, ""), (0, ""), (0, "0\n"), (0, "0\n")],
    );
    let report = s.scan(&disk(b"a=2\n")).unwrap();
    assert_eq!(report.drifted.len(), 1);
    let d = &report.drifted[0];
    assert_eq!(d.target, TARGET);
    assert_eq!(d.source_rel.as_deref(), Some("dot_testrc"));
    assert_eq!(d.class, DriftClass::DestinationDrift);
    assert_eq!(report.in_sync_count, 0);
    let git_calls = s.git.runner.calls();
    assert_eq!(
        git_calls[2].args,
        vec!["rev-list", "--count", "origin/main..HEAD", "--", "dot_testrc"]
    );
    assert_eq!(
        git_calls[3].args,
        vec!["rev-list", "--count", "HEAD..origin/main", "--", "dot_testrc"]
    );
}

#[test]
fn a_changed_source_is_mapped_to_its_target() {
    let dump = dump_of(b"a=1\n");
    let mut s = scanner(
        &[
            (0, "/src\n", ""),
            (0, &dump, ""),
            (0, "/home/u/.testrc\n", ""),
            // a source without a target does not stop the scan
            (1, "", "README.md: not in source state"),
            (0, "/home/u/.testrc\n", ""),
            (0, "", ""),
            (0, "a=3\n", ""),
            (0, "/src/dot_testrc\n", ""),
        ],
        &[(0, "README.md\n"), (0, " M dot_testrc\n"), (0, "0\n"), (0, "0\n")],
    );
    let report = s.scan(&disk(b"a=1\n")).unwrap();
    assert_eq!(report.drifted.len(), 1);
    assert_eq!(report.drifted[0].class, DriftClass::SourceAhead);
    let calls = s.chezmoi.runner.calls();
    assert_eq!(calls[3].args[2..], ["target-path", "/src/README.md"]);
    assert_eq!(calls[4].args[2..], ["target-path", "/src/dot_testrc"]);
}

#[test]
fn a_locked_secret_degrades_the_scan_but_hides_no_drift() {
    let dump = dump_of(b"a=1\n");
    let locked = "[ERROR] multiple accounts found. Use the --account flag or set the OP_ACCOUNT environment variable\n";
    let mut s = scanner(
        &[
            (0, "/src\n", ""),
            (0, &dump, ""),
            (0, "/home/u/.testrc\n", ""),
            (1, "", locked),
            (1, "", locked),
            (0, "/elsewhere/dot_testrc\n", ""),
        ],
        &[(0, ""), (0, "")],
    );
    let report = s.scan(&disk(b"a=2\n")).unwrap();
    assert_eq!(
        report.degraded.unwrap().kind,
        EvalFailureKind::OnePasswordMultipleAccounts
    );
    assert_eq!(report.drifted.len(), 1);
    let d = &report.drifted[0];
    assert_eq!(d.class, DriftClass::EvalFailed);
    assert_eq!(d.source_rel, None);
}

#[test]
fn scans_fail_where_a_call_or_a_file_does() {
    let mut s = scanner(&[(1, "", "boom")], &[]);
    assert!(matches!(
        s.scan(&disk(b"")),
        Err(ScanError::Chezmoi(_))
    ));

    let dump = dump_of(b"a=1\n");
    let start: [(i32, &str, &str); 3] = [
        (0, "/src\n", ""),
        (0, &dump, ""),
        (0, "/home/u/.testrc\n", ""),
    ];
    let mut s = scanner(&start, &[]);
    let err = s
        .scan(&|_| Err("permission denied".to_string()))
        .unwrap_err();
    assert_eq!(err.message(), "i/o error during scan: permission denied");

    let mut s = scanner(&start, &[(128, "")]);
    assert!(matches!(s.scan(&disk(b"a=1\n")), Err(ScanError::Git(_))));
}

#[test]
fn unmanaged_entries_and_directories_are_left_alone() {
    let dump = r#"{"entryState":{
        "/home/u/.other":{"contentsSHA256":"00","type":"file"},
        "/home/u/.config":{"type":"dir"}}}"#;
    let mut s = scanner(
        &[
            (0, "/src\n", ""),
            (0, dump, ""),
            (0, "/home/u/.config\n", ""),
            (0, " M /home/u/.config\n", ""),
        ],
        &[(0, ""), (0, "")],
    );
    let report = s.scan(&disk(b"x")).unwrap();
    assert!(report.drifted.is_empty());
    assert_eq!(report.in_sync_count, 0);
}

/// A repository whose git gives these answers.
fn answering(answers: &[(i32, &str)]) -> GitClient<FakeRunner> {
    let mut fake = FakeRunner::new();
    for (code, out) in answers {
        fake.push_ok(*code, out, "");
    }
    git(fake)
}

#[test]
fn head_branch_and_clean_divergence() {
    let mut c = answering(&[(0, "main\n"), (0, "0\t0\n")]);
    assert_eq!(c.head_branch().unwrap(), "main");
    let d = c.divergence("origin/main").unwrap();
    assert_eq!((d.ahead, d.behind), (0, 0));
}

#[test]
fn detects_remote_ahead_after_fetch() {
    let mut c = answering(&[
        (0, ""),
        (0, "1\t0\n"),
        (0, "f.txt\n"),
        (0, "1\n"),
        (0, "two\n"),
        (128, ""),
    ]);
    c.fetch("origin").unwrap();
    let d = c.divergence("origin/main").unwrap();
    assert_eq!((d.ahead, d.behind), (0, 1));
    assert_eq!(
        c.changed_files("HEAD", "origin/main").unwrap(),
        vec!["f.txt".to_string()]
    );
    assert_eq!(
        c.commits_touching("HEAD..origin/main", "f.txt").unwrap(),
        1
    );
    assert_eq!(
        c.blob_at("origin/main", "f.txt").unwrap().unwrap(),
        b"two\n"
    );
    assert_eq!(c.blob_at("origin/main", "missing.txt").unwrap(), None);
}

#[test]
fn rev_parse_returns_sha() {
    let mut c = answering(&[(0, "da39a3ee5e6b4b0d3255bfef95601890afd80709\n")]);
    let sha = c.rev_parse("HEAD").unwrap();
    assert_eq!(sha.len(), 40);
    assert!(sha.chars().all(|c| c.is_ascii_hexdigit()));
}

#[test]
fn dirty_files_lists_worktree_changes() {
    let mut c = answering(&[(0, " M f.txt\n")]);
    assert_eq!(c.dirty_files().unwrap(), vec!["f.txt".to_string()]);
}
