//! Commands and their replies.

use tomte::chezmoi::{ChezmoiClient, ChezmoiOptions};
use tomte::cmd::fake::FakeRunner;
use tomte::cmd::run::{described, run_report, RunCame, RunNext, RunStep, Running};
use tomte::cmd::{
    exit_code_or, login_shell_path, merged_login_path, output_tail, pipe_step, wait_step,
    CommandError, CommandOutput, CommandRequest, CommandRunner, Duration, PipeEvent, PipeStep,
    SystemRunner, WaitStep,
};

#[test]
fn fake_runner_replays_and_records() {
    let mut fake = FakeRunner::new();
    fake.push_ok(0, "out", "");
    let out = fake
        .run(CommandRequest::new("chezmoi").arg("managed"))
        .unwrap();
    assert_eq!(out.stdout_utf8(), "out");
    let calls = fake.calls();
    assert_eq!(calls[0].args, vec!["managed"]);
}

#[test]
fn merges_new_entries_and_skips_known_ones() {
    let merged = merged_login_path("/usr/bin:/bin", "/opt/x/bin:/usr/bin", &vec![]).unwrap();
    assert_eq!(merged, "/usr/bin:/bin:/opt/x/bin");
    // nothing new
    assert!(merged_login_path("/usr/bin:/bin", "/usr/bin", &vec![]).is_none());
}

#[test]
fn fallback_directories_come_last_and_once() {
    let fallbacks = vec!["/opt/homebrew/bin".to_string(), "/usr/bin".to_string()];
    assert_eq!(
        merged_login_path("/usr/bin", "", &fallbacks).unwrap(),
        "/usr/bin:/opt/homebrew/bin"
    );
    assert_eq!(
        merged_login_path("/usr/bin", "  /a:/b\n", &fallbacks).unwrap(),
        "/usr/bin:/a:/b:/opt/homebrew/bin"
    );
}

#[test]
fn requests_are_built_piece_by_piece() {
    let req = CommandRequest::new("git")
        .arg("-C")
        .args(&["/repo", "status"])
        .env("LANG", "C")
        .cwd("/tmp")
        .stdin(b"in".to_vec())
        .timeout(Duration::from_millis(150));
    assert_eq!(req.program, "git");
    assert_eq!(req.args, vec!["-C", "/repo", "status"]);
    assert_eq!(req.env, vec![("LANG".to_string(), "C".to_string())]);
    assert_eq!(req.cwd.as_deref(), Some("/tmp"));
    assert_eq!(req.stdin.as_deref(), Some("in".as_bytes()));
    assert_eq!(req.timeout, Duration::from_millis(150));
    assert_eq!(CommandRequest::new("git").timeout, Duration::from_secs(30));
}

#[test]
fn replies_come_in_order_and_errors_too() {
    let mut fake = FakeRunner::new();
    fake.push_ok_bytes(3, &[0xff, b'a'], b"oops");
    fake.push_err(CommandError::Io {
        program: "x".into(),
        source: "broken pipe".into(),
    });
    let out = fake.run(CommandRequest::new("x")).unwrap();
    assert!(!out.success());
    assert_eq!(out.exit_code, 3);
    assert_eq!(out.stdout_utf8(), "\u{fffd}a");
    assert_eq!(out.stderr_utf8(), "oops");
    let err = fake.run(CommandRequest::new("x")).unwrap_err();
    assert_eq!(err.message(), "i/o error running x: broken pipe");
    assert!(fake.run(CommandRequest::new("x")).is_err());
    assert_eq!(fake.calls().len(), 3);
}

#[test]
fn a_process_without_an_exit_code_has_failed() {
    assert_eq!(exit_code_or(Some(7)), 7);
    assert_eq!(exit_code_or(None), -1);
}

#[test]
fn the_tail_of_an_output_is_its_last_lines_in_one() {
    assert_eq!(output_tail(b"a\nb\n"), "a | b");
    assert_eq!(output_tail(b"1\n2\n3\n4\n5\n6\n7\n"), "3 | 4 | 5 | 6 | 7");
    assert_eq!(output_tail(b""), "");
    assert_eq!(output_tail(&[b'x'; 600]).len(), 500);
}

#[test]
fn a_command_is_collected_killed_or_polled() {
    assert_eq!(wait_step(true, true), WaitStep::Collect);
    assert_eq!(wait_step(true, false), WaitStep::Collect);
    assert_eq!(wait_step(false, true), WaitStep::KillGroup);
    assert_eq!(wait_step(false, false), WaitStep::PollAgain);
}

#[test]
fn a_pipe_that_stays_open_is_waited_for_once_more() {
    assert!(matches!(
        pipe_step(PipeEvent::Output(b"hi".to_vec()), false, false, "x"),
        PipeStep::Done(b) if b == b"hi"
    ));
    assert!(matches!(
        pipe_step(PipeEvent::TimedOut, false, false, "x"),
        PipeStep::Retry { kill: true }
    ));
    assert!(matches!(
        pipe_step(PipeEvent::TimedOut, false, true, "x"),
        PipeStep::Retry { kill: false }
    ));
    for (event, retried, want) in [
        (
            PipeEvent::TimedOut,
            true,
            "output pipes held open after exit (orphaned grandchild?)",
        ),
        (PipeEvent::ReaderGone, false, "output reader died"),
        (
            PipeEvent::ReadFailed("bad".into()),
            false,
            "bad",
        ),
    ] {
        match pipe_step(event, retried, true, "x") {
            PipeStep::Fail(e) => {
                assert_eq!(e.message(), format!("i/o error running x: {want}"))
            }
            other => panic!("expected a failure, got {other:?}"),
        }
    }
}

#[test]
fn the_login_shell_is_asked_for_its_path() {
    let mut fake = FakeRunner::new();
    fake.push_ok(0, "/opt/x/bin:/usr/bin\n", "");
    fake.push_ok(1, "/never", "broken");
    assert_eq!(
        login_shell_path(&mut fake, Some("/bin/fish"), "/usr/bin", &vec![]).as_deref(),
        Some("/usr/bin:/opt/x/bin")
    );
    assert_eq!(login_shell_path(&mut fake, None, "/usr/bin", &vec![]), None);
    let calls = fake.calls();
    assert_eq!(calls[0].program, "/bin/fish");
    assert_eq!(calls[0].args, vec!["-l", "-c", "printenv PATH"]);
    assert_eq!(calls[0].timeout, Duration::from_secs(5));
    assert_eq!(calls[1].program, "/bin/zsh");
}

/// Drives a run by what comes of its steps.
fn drive(timeout: Duration, came: Vec<RunCame>) -> (Vec<RunStep>, Result<CommandOutput, CommandError>) {
    let mut running = Running::begin(
        CommandRequest::new("sh")
            .arg("-c")
            .stdin(vec![1])
            .timeout(timeout),
    );
    let mut steps = Vec::new();
    for c in came {
        steps.push(running.step());
        running = match running.advance(c) {
            RunNext::Go(next) => next,
            RunNext::Over(result) => return (steps, result),
        };
    }
    panic!("not over after {steps:?}");
}

fn looked(exit: Option<Option<i32>>, out_of_time: bool) -> RunCame {
    RunCame::Polled {
        exit: Ok(exit),
        out_of_time,
    }
}

fn gave(text: &str) -> RunCame {
    RunCame::Pipe(PipeEvent::Output(text.as_bytes().to_vec()))
}

#[test]
fn a_program_is_fed_awaited_and_collected() {
    let (steps, result) = drive(
        Duration::from_secs(1),
        vec![
            RunCame::Spawned(Ok(())),
            RunCame::Fed(Ok(())),
            looked(None, false),
            looked(Some(Some(3)), true),
            gave("out"),
            gave("err"),
        ],
    );
    assert_eq!(
        steps,
        vec![
            RunStep::Spawn,
            RunStep::Feed,
            RunStep::Poll { pause: false },
            RunStep::Poll { pause: true },
            RunStep::Read { stderr: false },
            RunStep::Read { stderr: true },
        ]
    );
    let out = result.unwrap();
    assert_eq!(
        (out.exit_code, out.stdout_utf8().as_str(), out.stderr_utf8().as_str()),
        (3, "out", "err")
    );
}

#[test]
fn a_program_whose_time_is_up_is_killed_and_its_last_words_kept() {
    let (steps, result) = drive(
        Duration::from_millis(150),
        vec![
            RunCame::Spawned(Ok(())),
            RunCame::Fed(Ok(())),
            looked(None, true),
            RunCame::Killed,
            gave("waiting for a key\n"),
            RunCame::Pipe(PipeEvent::TimedOut),
        ],
    );
    assert_eq!(steps[3], RunStep::Kill { reap: true });
    match result.unwrap_err() {
        CommandError::Timeout {
            program,
            timeout,
            stderr_tail,
            stdout_tail,
        } => {
            assert_eq!(program, "sh");
            assert_eq!(timeout, Duration::from_millis(150));
            assert_eq!(stderr_tail, "waiting for a key");
            assert_eq!(stdout_tail, "<unavailable>");
        }
        other => panic!("{other:?}"),
    }
}

#[test]
fn a_pipe_that_is_held_open_is_waited_for_once_more() {
    let (steps, result) = drive(
        Duration::from_secs(1),
        vec![
            RunCame::Spawned(Ok(())),
            RunCame::Fed(Ok(())),
            looked(Some(None), false),
            RunCame::Pipe(PipeEvent::TimedOut),
            RunCame::Killed,
            gave("hi\n"),
            RunCame::Pipe(PipeEvent::TimedOut),
            RunCame::Pipe(PipeEvent::TimedOut),
        ],
    );
    assert_eq!(steps[4], RunStep::Kill { reap: false });
    assert_eq!(steps[7], RunStep::Read { stderr: true }, "not killed again");
    match result.unwrap_err() {
        CommandError::Io { source, .. } => assert_eq!(
            source,
            "output pipes held open after exit (orphaned grandchild?)"
        ),
        other => panic!("{other:?}"),
    }
}

#[test]
fn runs_fail_with_the_system() {
    let (_, result) = drive(
        Duration::from_secs(1),
        vec![RunCame::Spawned(Err("not found".into()))],
    );
    assert_eq!(
        result.unwrap_err().message(),
        "failed to spawn sh: not found"
    );
    let (_, result) = drive(
        Duration::from_secs(1),
        vec![RunCame::Spawned(Ok(())), RunCame::Fed(Err("broken pipe".into()))],
    );
    assert_eq!(
        result.unwrap_err().message(),
        "i/o error running sh: broken pipe"
    );
}

#[test]
fn a_runner_starts_programs_and_the_log_tells_of_them() {
    let mut runner = SystemRunner::new(|req: CommandRequest| {
        Ok(CommandOutput {
            exit_code: if req.args.is_empty() { 0 } else { 2 },
            stdout: req.program.into_bytes(),
            stderr: b"bad".to_vec(),
        })
    });
    let fine = runner.run(CommandRequest::new("git"));
    assert_eq!(fine.as_ref().unwrap().stdout_utf8(), "git");
    assert_eq!(
        run_report("git", &fine, "1ms"),
        (false, "git → ok in 1ms".to_string())
    );
    let req = CommandRequest::new("git").arg("push").arg("origin");
    assert_eq!(described(&req), "git push origin");
    let bad = runner.run(req);
    assert_eq!(
        run_report("git push origin", &bad, "1ms"),
        (true, "git push origin → exit 2 in 1ms: bad".to_string())
    );
}

#[test]
fn a_merged_path_starts_with_the_path_as_it_was() {
    for current in ["/usr/bin:/bin", "", "/a::/b:", "/a//b"] {
        let merged = merged_login_path(current, "/opt/x/bin", &vec![]).unwrap();
        assert_eq!(merged, format!("{current}:/opt/x/bin"));
    }
}

#[test]
fn a_client_gets_the_queued_answers_in_their_order() {
    let mut fake = FakeRunner::new();
    fake.push_ok(0, "one", "");
    fake.push_ok(1, "", "no");
    let mut chezmoi = ChezmoiClient::new(fake, ChezmoiOptions::default());
    assert_eq!(chezmoi.execute_template(b"x").unwrap(), b"one");
    assert!(chezmoi.execute_template(b"x").is_err());
    assert_eq!(chezmoi.runner.calls().len(), 2);
}
