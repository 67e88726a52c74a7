//! A program on its way from its start to its answer, and runners that start programs.

use vstd::prelude::*;
use vstd::string::*;

use crate::cmd::{exit_code_or, last_five, output_tail, pipe_step, reply_of, show_signed};
use crate::cmd::{signed_text, tail_of, wait_step};
use crate::cmd::{CommandError, CommandOutput, CommandRequest, CommandRunner, PipeEvent, PipeStep};
use crate::cmd::{Reply, Request, WaitStep};
use crate::merge::{fits_a_line, law_printed_lines_are_read_back, printed};
use crate::text::{first_chars, join_from, join_texts, lossy, strings};

verus! {

/// How far a program is: what is to be done next.
#[derive(Debug, Clone, Copy, PartialEq, Eq, Structural)]
pub enum RunStage {
    Spawn,
    /// Give it what it reads.
    Feed,
    /// See whether it has exited.
    Poll { pause: bool },
    /// Its time is up.
    Kill,
    TailStderr,
    TailStdout,
    /// It has exited: collect its output. A pipe is waited for twice at most.
    Stdout { retried: bool },
    KillForStdout,
    Stderr { retried: bool },
    KillForStderr,
}

/// A program on its way.
#[derive(Debug)]
pub struct Running {
    pub req: CommandRequest,
    pub stage: RunStage,
    /// Its exit code, once it has exited.
    pub exit_code: i32,
    /// Its output, once that was collected.
    pub stdout: Vec<u8>,
    /// The end of its error output, where it was killed.
    pub stderr_tail: String,
    /// Its group was killed to close a pipe.
    pub killed: bool,
}

/// What to do next.
#[derive(Debug, Clone, Copy, PartialEq, Eq, Structural)]
pub enum RunStep {
    /// Start it, as the leader of a process group of its own.
    Spawn,
    /// Write its input and close the pipe.
    Feed,
    /// See whether it has exited, after a pause where `pause` says so.
    Poll { pause: bool },
    /// Kill its group, and reap it where `reap` says so.
    Kill { reap: bool },
    /// Wait a while for all that a pipe gives.
    Read { stderr: bool },
}

/// What came of it.
#[derive(Debug)]
pub enum RunCame {
    Spawned(Result<(), String>),
    Fed(Result<(), String>),
    /// Whether it has exited, with which code if it has one, and whether its time is up.
    Polled { exit: Result<Option<Option<i32>>, String>, out_of_time: bool },
    Killed,
    Pipe(PipeEvent),
}

/// What follows.
#[derive(Debug)]
pub enum RunNext {
    Go(Running),
    Over(Result<CommandOutput, CommandError>),
}

/// What comes of the step of a stage.
pub open spec fn run_fits(stage: RunStage, came: RunCame) -> bool {
    match stage {
        RunStage::Spawn => came is Spawned,
        RunStage::Feed => came is Fed,
        RunStage::Poll { .. } => came is Polled,
        RunStage::Kill | RunStage::KillForStdout | RunStage::KillForStderr => came is Killed,
        RunStage::TailStderr
        | RunStage::TailStdout
        | RunStage::Stdout { .. }
        | RunStage::Stderr { .. } => came is Pipe,
    }
}

/// The end of what a pipe gave.
pub open spec fn event_tail(e: PipeEvent) -> Seq<char> {
    match e {
        PipeEvent::Output(b) => tail_of(b@),
        _ => "<unavailable>"@,
    }
}

/// The run failed on something of the system.
pub open spec fn io_failure(x: Running, words: Seq<char>, r: RunNext) -> bool {
    r matches RunNext::Over(Err(CommandError::Io { program, source })) && program == x.req.program
        && source@ == words
}

/// The words for a pipe that gave nothing, where it is not waited for once more.
pub open spec fn pipe_words(e: PipeEvent, retried: bool) -> Seq<char> {
    match e {
        PipeEvent::ReadFailed(s) => s@,
        _ => if retried {
            "output pipes held open after exit (orphaned grandchild?)"@
        } else {
            "output reader died"@
        },
    }
}

/// What follows on what a pipe gave: `done` on all of its output, and on nothing in time once
/// more the same, after its group was killed if that was not done yet.
pub open spec fn collects(
    x: Running,
    e: PipeEvent,
    retried: bool,
    again: RunStage,
    kill: RunStage,
    r: RunNext,
) -> bool {
    match e {
        PipeEvent::Output(_) => true,
        PipeEvent::TimedOut => if retried {
            io_failure(x, pipe_words(e, retried), r)
        } else if x.killed {
            r == RunNext::Go(Running { stage: again, ..x })
        } else {
            r == RunNext::Go(Running { stage: kill, ..x })
        },
        _ => io_failure(x, pipe_words(e, retried), r),
    }
}

/// What follows on what came of a step.
pub open spec fn runs_on(x: Running, came: RunCame, r: RunNext) -> bool {
    match (x.stage, came) {
        (RunStage::Spawn, RunCame::Spawned(Ok(_))) => r == RunNext::Go(
            Running {
                stage: if x.req.stdin is Some {
                    RunStage::Feed
                } else {
                    RunStage::Poll { pause: false }
                },
                ..x
            },
        ),
        (RunStage::Spawn, RunCame::Spawned(Err(e))) => r matches RunNext::Over(
            Err(CommandError::Spawn { program, source }),
        ) && program == x.req.program && source == e,
        (RunStage::Feed, RunCame::Fed(Ok(_))) => r == RunNext::Go(
            Running { stage: RunStage::Poll { pause: false }, ..x },
        ),
        (RunStage::Feed, RunCame::Fed(Err(e))) => io_failure(x, e@, r),
        (RunStage::Poll { .. }, RunCame::Polled { exit, out_of_time }) => match exit {
            Err(e) => io_failure(x, e@, r),
            Ok(Some(code)) => r == RunNext::Go(
                Running {
                    stage: RunStage::Stdout { retried: false },
                    exit_code: match code {
                        Some(c) => c,
                        None => (-1) as i32,
                    },
                    ..x
                },
            ),
            Ok(None) => r == RunNext::Go(
                Running {
                    stage: if out_of_time {
                        RunStage::Kill
                    } else {
                        RunStage::Poll { pause: true }
                    },
                    ..x
                },
            ),
        },
        (RunStage::Kill, RunCame::Killed) => r == RunNext::Go(
            Running { stage: RunStage::TailStderr, ..x },
        ),
        (RunStage::TailStderr, RunCame::Pipe(e)) => r matches RunNext::Go(y) && y == (Running {
            stage: RunStage::TailStdout,
            stderr_tail: y.stderr_tail,
            ..x
        }) && y.stderr_tail@ == event_tail(e),
        (RunStage::TailStdout, RunCame::Pipe(e)) => r matches RunNext::Over(
            Err(CommandError::Timeout { program, timeout, stderr_tail, stdout_tail }),
        ) && program == x.req.program && timeout == x.req.timeout && stderr_tail == x.stderr_tail
            && stdout_tail@ == event_tail(e),
        (RunStage::Stdout { retried }, RunCame::Pipe(e)) => {
            &&& collects(
                x,
                e,
                retried,
                RunStage::Stdout { retried: true },
                RunStage::KillForStdout,
                r,
            )
            &&& e matches PipeEvent::Output(b) ==> r == RunNext::Go(
                Running { stage: RunStage::Stderr { retried: false }, stdout: b, ..x },
            )
        },
        (RunStage::KillForStdout, RunCame::Killed) => r == RunNext::Go(
            Running { stage: RunStage::Stdout { retried: true }, killed: true, ..x },
        ),
        (RunStage::Stderr { retried }, RunCame::Pipe(e)) => {
            &&& collects(
                x,
                e,
                retried,
                RunStage::Stderr { retried: true },
                RunStage::KillForStderr,
                r,
            )
            &&& e matches PipeEvent::Output(b) ==> r == RunNext::Over(
                Ok(CommandOutput { exit_code: x.exit_code, stdout: x.stdout, stderr: b }),
            )
        },
        (RunStage::KillForStderr, RunCame::Killed) => r == RunNext::Go(
            Running { stage: RunStage::Stderr { retried: true }, killed: true, ..x },
        ),
        _ => true,
    }
}

fn tail_from(e: PipeEvent) -> (r: String)
    ensures
        r@ == event_tail(e),
{
    match e {
        PipeEvent::Output(b) => output_tail(b.as_slice()),
        _ => "<unavailable>".to_owned(),
    }
}

impl Running {
    /// The program was not started yet.
    pub fn begin(req: CommandRequest) -> (r: Self)
        ensures
            r.req == req,
            r.stage == RunStage::Spawn,
            !r.killed,
    {
        Running {
            req,
            stage: RunStage::Spawn,
            exit_code: 0,
            stdout: Vec::new(),
            stderr_tail: "".to_owned(),
            killed: false,
        }
    }

    /// What to do next.
    pub fn step(&self) -> (r: RunStep)
        ensures
            r == (match self.stage {
                RunStage::Spawn => RunStep::Spawn,
                RunStage::Feed => RunStep::Feed,
                RunStage::Poll { pause } => RunStep::Poll { pause },
                RunStage::Kill => RunStep::Kill { reap: true },
                RunStage::KillForStdout | RunStage::KillForStderr => RunStep::Kill { reap: false },
                RunStage::TailStderr | RunStage::Stderr { .. } => RunStep::Read { stderr: true },
                RunStage::TailStdout | RunStage::Stdout { .. } => RunStep::Read { stderr: false },
            }),
    {
        match self.stage {
            RunStage::Spawn => RunStep::Spawn,
            RunStage::Feed => RunStep::Feed,
            RunStage::Poll { pause } => RunStep::Poll { pause },
            RunStage::Kill => RunStep::Kill { reap: true },
            RunStage::KillForStdout | RunStage::KillForStderr => RunStep::Kill { reap: false },
            RunStage::TailStderr | RunStage::Stderr { .. } => RunStep::Read { stderr: true },
            RunStage::TailStdout | RunStage::Stdout { .. } => RunStep::Read { stderr: false },
        }
    }

    /// Goes on with what a pipe gave, where that was not all of its output.
    fn wait_again(self, step: PipeStep, again: RunStage, kill: RunStage) -> (r: RunNext)
        ensures
            match step {
                PipeStep::Done(_) => r == RunNext::Go(self),
                PipeStep::Fail(e) => r == RunNext::Over(Err(e)),
                PipeStep::Retry { kill: k } => r == RunNext::Go(
                    Running {
                        stage: if k {
                            kill
                        } else {
                            again
                        },
                        ..self
                    },
                ),
            },
    {
        let mut x = self;
        match step {
            PipeStep::Done(_) => RunNext::Go(x),
            PipeStep::Fail(e) => RunNext::Over(Err(e)),
            PipeStep::Retry { kill: k } => {
                x.stage = if k {
                    kill
                } else {
                    again
                };
                RunNext::Go(x)
            },
        }
    }

    fn failed(self, source: String) -> (r: RunNext)
        ensures
            r == RunNext::Over(Err(CommandError::Io { program: self.req.program, source })),
    {
        RunNext::Over(Err(CommandError::Io { program: self.req.program, source }))
    }

    /// Goes on with what came of the step.
    pub fn advance(self, came: RunCame) -> (r: RunNext)
        requires
            run_fits(self.stage, came),
        ensures
            runs_on(self, came, r),
    {
        let mut x = self;
        match came {
            RunCame::Spawned(Ok(_)) => {
                x.stage = if x.req.stdin.is_some() {
                    RunStage::Feed
                } else {
                    RunStage::Poll { pause: false }
                };
                RunNext::Go(x)
            },
            RunCame::Spawned(Err(source)) => RunNext::Over(
                Err(CommandError::Spawn { program: x.req.program, source }),
            ),
            RunCame::Fed(Ok(_)) => {
                x.stage = RunStage::Poll { pause: false };
                RunNext::Go(x)
            },
            RunCame::Fed(Err(source)) => x.failed(source),
            RunCame::Polled { exit, out_of_time } => match exit {
                Err(source) => x.failed(source),
                Ok(status) => match wait_step(status.is_some(), out_of_time) {
                    WaitStep::Collect => {
                        x.stage = RunStage::Stdout { retried: false };
                        x.exit_code = match status {
                            Some(code) => exit_code_or(code),
                            None => -1,
                        };
                        RunNext::Go(x)
                    },
                    WaitStep::KillGroup => {
                        x.stage = RunStage::Kill;
                        RunNext::Go(x)
                    },
                    WaitStep::PollAgain => {
                        x.stage = RunStage::Poll { pause: true };
                        RunNext::Go(x)
                    },
                },
            },
            RunCame::Killed => {
                match x.stage {
                    RunStage::KillForStdout => {
                        x.stage = RunStage::Stdout { retried: true };
                        x.killed = true;
                    },
                    RunStage::KillForStderr => {
                        x.stage = RunStage::Stderr { retried: true };
                        x.killed = true;
                    },
                    _ => {
                        x.stage = RunStage::TailStderr;
                    },
                }
                RunNext::Go(x)
            },
            RunCame::Pipe(e) => match x.stage {
                RunStage::Stdout { retried } => match pipe_step(
                    e,
                    retried,
                    x.killed,
                    x.req.program.as_str(),
                ) {
                    PipeStep::Done(b) => {
                        x.stage = RunStage::Stderr { retried: false };
                        x.stdout = b;
                        RunNext::Go(x)
                    },
                    PipeStep::Fail(CommandError::Io { program: _, source }) => x.failed(source),
                    other => x.wait_again(
                        other,
                        RunStage::Stdout { retried: true },
                        RunStage::KillForStdout,
                    ),
                },
                RunStage::Stderr { retried } => match pipe_step(
                    e,
                    retried,
                    x.killed,
                    x.req.program.as_str(),
                ) {
                    PipeStep::Done(b) => RunNext::Over(
                        Ok(CommandOutput { exit_code: x.exit_code, stdout: x.stdout, stderr: b }),
                    ),
                    PipeStep::Fail(CommandError::Io { program: _, source }) => x.failed(source),
                    other => x.wait_again(
                        other,
                        RunStage::Stderr { retried: true },
                        RunStage::KillForStderr,
                    ),
                },
                RunStage::TailStderr => {
                    x.stage = RunStage::TailStdout;
                    x.stderr_tail = tail_from(e);
                    RunNext::Go(x)
                },
                _ => {
                    let stdout_tail = tail_from(e);
                    RunNext::Over(
                        Err(
                            CommandError::Timeout {
                                program: x.req.program,
                                timeout: x.req.timeout,
                                stderr_tail: x.stderr_tail,
                                stdout_tail,
                            },
                        ),
                    )
                },
            },
        }
    }
}

/// How many steps are left at most, but for looking whether the program has exited.
pub open spec fn run_rank(x: Running) -> int {
    match x.stage {
        RunStage::Spawn => 12,
        RunStage::Feed => 11,
        RunStage::Poll { .. } => 10,
        RunStage::Kill => 3,
        RunStage::TailStderr => 2,
        RunStage::TailStdout => 1,
        RunStage::Stdout { retried } => if retried {
            7
        } else {
            9
        },
        RunStage::KillForStdout => 8,
        RunStage::Stderr { retried } => if retried {
            4
        } else {
            6
        },
        RunStage::KillForStderr => 5,
    }
}

/// Whatever the program leaves behind, its run comes to an end: only looking whether it has
/// exited is done more than once, and not when its time is up.
pub proof fn law_runs_come_to_an_end(x: Running, came: RunCame, r: RunNext)
    requires
        run_fits(x.stage, came),
        runs_on(x, came, r),
    ensures
        r matches RunNext::Go(y) ==> {
            ||| run_rank(y) < run_rank(x)
            ||| came matches RunCame::Polled { exit, out_of_time } && exit == Ok::<
                Option<Option<i32>>,
                String,
            >(None) && !out_of_time && y.stage == RunStage::Poll { pause: true }
        },
{
}

/// The program was seen to have exited.
pub open spec fn exited(stage: RunStage) -> bool {
    stage is Stdout || stage is Stderr || stage is KillForStdout || stage is KillForStderr
}

/// The program was killed because its time was up.
pub open spec fn timed_out(stage: RunStage) -> bool {
    stage is Kill || stage is TailStderr || stage is TailStdout
}

/// A program that has exited is collected, even where its time is up, and is not said to have
/// timed out; one that was killed is.
pub proof fn law_exited_programs_do_not_time_out(x: Running, came: RunCame, r: RunNext)
    requires
        run_fits(x.stage, came),
        runs_on(x, came, r),
    ensures
        (came matches RunCame::Polled { exit: Ok(Some(_)), .. }) ==> (r matches RunNext::Go(y)
            && exited(y.stage)),
        exited(x.stage) ==> match r {
            RunNext::Go(y) => exited(y.stage) && y.exit_code == x.exit_code,
            RunNext::Over(Ok(out)) => out.exit_code == x.exit_code,
            RunNext::Over(Err(e)) => e is Io,
        },
        timed_out(x.stage) ==> match r {
            RunNext::Go(y) => timed_out(y.stage),
            RunNext::Over(o) => o matches Err(e) && e is Timeout,
        },
{
}

/// The group of a program that has exited is killed once at most.
pub proof fn law_groups_are_killed_once(x: Running, came: RunCame, r: RunNext)
    requires
        run_fits(x.stage, came),
        runs_on(x, came, r),
        exited(x.stage),
        x.killed,
    ensures
        r matches RunNext::Go(y) ==> y.killed && (x.stage is Stdout || x.stage is Stderr ==> !(
        y.stage is KillForStdout) && !(y.stage is KillForStderr)),
{
}

// ---------------------------------------------------------------------------
// The log

/// How many characters of an error output go into the log.
pub const BRIEF_CHARS: usize = 600;

/// The first characters of an error output.
pub open spec fn brief(stderr: Seq<u8>) -> Seq<char> {
    let text = lossy(stderr);
    text.take(
        if BRIEF_CHARS <= text.len() {
            BRIEF_CHARS as int
        } else {
            text.len() as int
        },
    )
}

/// A command as the log has it.
pub fn described(req: &CommandRequest) -> (r: String)
    ensures
        r@ == req.program@ + " "@ + join_texts(strings(req.args@), " "@),
{
    let mut s = req.program.clone();
    s.append(" ");
    assert(strings(req.args@).skip(0) =~= strings(req.args@));
    s.append(join_from(&req.args, 0, " ").as_str());
    s
}

/// What the log says of a command that took `took`, and whether that is an error.
pub fn run_report(
    command: &str,
    result: &Result<CommandOutput, CommandError>,
    took: &str,
) -> (r: (bool, String))
    ensures
        match *result {
            Ok(out) => if out.exit_code == 0 {
                !r.0 && r.1@ == command@ + " → ok in "@ + took@
            } else {
                r.0 && r.1@ == command@ + " → exit "@ + signed_text(out.exit_code as int) + " in "@
                    + took@ + ": "@ + brief(out.stderr@)
            },
            Err(e) => r.0 && r.1@ == command@ + " → "@ + e.message_spec() + " in "@ + took@,
        },
{
    let mut s = command.to_owned();
    match result {
        Ok(out) => {
            if out.success() {
                s.append(" → ok in ");
                s.append(took);
                (false, s)
            } else {
                s.append(" → exit ");
                s.append(show_signed(out.exit_code as i64).as_str());
                s.append(" in ");
                s.append(took);
                s.append(": ");
                s.append(first_chars(out.stderr_utf8().as_str(), BRIEF_CHARS).as_str());
                (true, s)
            }
        },
        Err(e) => {
            s.append(" → ");
            s.append(e.message().as_str());
            s.append(" in ");
            s.append(took);
            (true, s)
        },
    }
}

// ---------------------------------------------------------------------------
// Runners

/// Runs commands by a function that starts programs of the system.
pub struct SystemRunner<F: Fn(CommandRequest) -> Result<CommandOutput, CommandError>> {
    start: F,
    asked: Ghost<Seq<Request>>,
    answered: Ghost<Seq<Reply>>,
}

impl<F: Fn(CommandRequest) -> Result<CommandOutput, CommandError>> SystemRunner<F> {
    #[verifier::type_invariant]
    spec fn takes_every_command(self) -> bool {
        forall|req: CommandRequest| call_requires(self.start, (req,))
    }

    /// The function that starts programs.
    pub closed spec fn starter(&self) -> F {
        self.start
    }

    pub fn new(start: F) -> (r: Self)
        requires
            forall|req: CommandRequest| call_requires(start, (req,)),
        ensures
            r.starter() == start,
            r.sent() == Seq::<Request>::empty(),
            r.replies() == Seq::<Reply>::empty(),
    {
        SystemRunner { start, asked: Ghost(Seq::empty()), answered: Ghost(Seq::empty()) }
    }
}

impl<F: Fn(CommandRequest) -> Result<CommandOutput, CommandError>> CommandRunner for SystemRunner<
    F,
> {
    closed spec fn sent(&self) -> Seq<Request> {
        self.asked@
    }

    closed spec fn replies(&self) -> Seq<Reply> {
        self.answered@
    }

    /// What the function that starts programs may give.
    open spec fn answers(&self, req: Request, reply: Reply, after: &Self) -> bool {
        &&& after.starter() == self.starter()
        &&& exists|c: CommandRequest, r: Result<CommandOutput, CommandError>|
            c@ == req && #[trigger] call_ensures(self.starter(), (c,), r) && reply_of(r) == reply
    }

    /// Hands the command to the function that starts programs; what comes of it is the result.
    fn run(&mut self, req: CommandRequest) -> (r: Result<CommandOutput, CommandError>)
        ensures
            call_ensures(old(self).starter(), (req,), r),
            final(self).starter() == old(self).starter(),
    {
        proof {
            use_type_invariant(&*self);
        }
        let ghost asked = req@;
        let r = (self.start)(req);
        self.asked = Ghost(self.asked@.push(asked));
        self.answered = Ghost(self.answered@.push(reply_of(r)));
        r
    }
}

// ---------------------------------------------------------------------------
// What a run comes to

/// A run from its beginning on: its states, and what came of the step of each but the last.
pub open spec fn is_run(xs: Seq<Running>, cs: Seq<RunCame>) -> bool {
    &&& xs.len() == cs.len() + 1
    &&& xs[0].stage == RunStage::Spawn
    &&& !xs[0].killed
    &&& forall|k: int| 0 <= k < cs.len() ==> #[trigger] run_goes_on(xs, cs, k)
}

/// The `k`-th state of the run is followed by the next.
pub open spec fn run_goes_on(xs: Seq<Running>, cs: Seq<RunCame>, k: int) -> bool {
    run_fits(xs[k].stage, cs[k]) && runs_on(xs[k], cs[k], RunNext::Go(xs[k + 1]))
}

/// The program got its input.
pub open spec fn was_fed(cs: Seq<RunCame>, n: int) -> bool {
    exists|i: int| 0 <= i < n && ((#[trigger] cs[i]) matches RunCame::Fed(Ok(_)))
}

/// The program was seen to have ended, with this code; one without any counts as minus one.
pub open spec fn was_over(cs: Seq<RunCame>, n: int, code: i32) -> bool {
    exists|i: int|
        0 <= i < n && ((#[trigger] cs[i]) matches RunCame::Polled { exit: Ok(Some(c)), .. } && code
            == (match c {
            Some(x) => x,
            None => (-1) as i32,
        }))
}

/// The program was seen to run although its time was over.
pub open spec fn was_late(cs: Seq<RunCame>, n: int) -> bool {
    exists|i: int|
        0 <= i < n && ((#[trigger] cs[i]) matches RunCame::Polled {
            exit: Ok(None),
            out_of_time: true,
        })
}

/// The program and what it started was killed.
pub open spec fn was_killed(cs: Seq<RunCame>, n: int) -> bool {
    exists|i: int| 0 <= i < n && (#[trigger] cs[i]) is Killed
}

/// The output of the program was read, and was that.
pub open spec fn was_read(xs: Seq<Running>, cs: Seq<RunCame>, n: int, out: Seq<u8>) -> bool {
    exists|i: int|
        0 <= i < n && (#[trigger] xs[i]).stage is Stdout && (cs[i] matches RunCame::Pipe(
            PipeEvent::Output(b),
        ) && b@ == out)
}

/// The end of the error text was read, and was that.
pub open spec fn was_told(xs: Seq<Running>, cs: Seq<RunCame>, n: int, tail: Seq<char>) -> bool {
    exists|i: int|
        0 <= i < n && (#[trigger] xs[i]).stage is TailStderr && (cs[i] matches RunCame::Pipe(e)
            && event_tail(e) == tail)
}

/// What a state of a run says of what came before it.
spec fn remembers(xs: Seq<Running>, cs: Seq<RunCame>, n: int) -> bool {
    let x = xs[n];
    &&& x.req == xs[0].req
    &&& x.req.stdin is Some && !(x.stage is Spawn) && !(x.stage is Feed) ==> was_fed(cs, n)
    &&& exited(x.stage) ==> was_over(cs, n, x.exit_code)
    &&& x.stage is Stderr || x.stage is KillForStderr ==> was_read(xs, cs, n, x.stdout@)
    &&& timed_out(x.stage) ==> was_late(cs, n)
    &&& x.stage is TailStderr || x.stage is TailStdout ==> was_killed(cs, n)
    &&& x.stage is TailStdout ==> was_told(xs, cs, n, x.stderr_tail@)
    &&& x.killed ==> was_killed(cs, n)
    &&& x.stage matches RunStage::Stdout { retried: true } ==> was_killed(cs, n)
    &&& x.stage matches RunStage::Stderr { retried: true } ==> was_killed(cs, n)
}

proof fn lemma_before_stays(xs: Seq<Running>, cs: Seq<RunCame>, n: int, x: Running)
    ensures
        was_fed(cs, n) ==> was_fed(cs, n + 1),
        was_over(cs, n, x.exit_code) ==> was_over(cs, n + 1, x.exit_code),
        was_late(cs, n) ==> was_late(cs, n + 1),
        was_killed(cs, n) ==> was_killed(cs, n + 1),
        was_read(xs, cs, n, x.stdout@) ==> was_read(xs, cs, n + 1, x.stdout@),
        was_told(xs, cs, n, x.stderr_tail@) ==> was_told(xs, cs, n + 1, x.stderr_tail@),
{
}

#[verifier::spinoff_prover]
proof fn lemma_run_remembers(xs: Seq<Running>, cs: Seq<RunCame>, n: int)
    requires
        is_run(xs, cs),
        0 <= n <= cs.len(),
    ensures
        remembers(xs, cs, n),
    decreases n,
{
    if n > 0 {
        lemma_run_remembers(xs, cs, n - 1);
        assert(run_goes_on(xs, cs, n - 1));
        let x = xs[n - 1];
        let c = cs[n - 1];
        lemma_before_stays(xs, cs, n - 1, x);
        lemma_before_stays(xs, cs, n - 1, xs[n]);
        assert(c is Killed ==> was_killed(cs, n));
        assert(c matches RunCame::Fed(Ok(_)) ==> was_fed(cs, n));
        match (x.stage, c) {
            (RunStage::Poll { .. }, RunCame::Polled { exit, out_of_time }) => match exit {
                Ok(Some(code)) => {
                    assert(was_over(cs, n, xs[n].exit_code));
                },
                Ok(None) => {
                    assert(out_of_time ==> was_late(cs, n));
                },
                Err(_) => {},
            },
            (RunStage::Stdout { .. }, RunCame::Pipe(PipeEvent::Output(b))) => {
                assert(xs[n - 1].stage is Stdout);
                assert(was_read(xs, cs, n, b@));
            },
            (RunStage::TailStderr, RunCame::Pipe(e)) => {
                assert(xs[n - 1].stage is TailStderr);
                assert(was_told(xs, cs, n, event_tail(e)));
            },
            _ => {},
        }
    }
}

/// What a run gives in the end. Output is given only of a program that got its input and was seen
/// to end, with its code, and is all that both pipes gave. A program is said to have run out of
/// time only where it was seen to run past it and was killed with all that it had started; then
/// the ends of both its outputs are told. One that cannot be started is said not to be, and
/// outputs that stay open are given up only after what holds them was killed.
pub proof fn law_runs_give_what_was_seen(
    xs: Seq<Running>,
    cs: Seq<RunCame>,
    came: RunCame,
    result: Result<CommandOutput, CommandError>,
)
    requires
        is_run(xs, cs),
        run_fits(xs.last().stage, came),
        runs_on(xs.last(), came, RunNext::Over(result)),
    ensures
        match result {
            Ok(out) => {
                &&& xs[0].req.stdin is Some ==> was_fed(cs, cs.len() as int)
                &&& was_over(cs, cs.len() as int, out.exit_code)
                &&& was_read(xs, cs, cs.len() as int, out.stdout@)
                &&& xs.last().stage is Stderr
                &&& came matches RunCame::Pipe(PipeEvent::Output(b)) && b@ == out.stderr@
            },
            Err(CommandError::Timeout { program, timeout, stderr_tail, stdout_tail }) => {
                &&& program == xs[0].req.program && timeout == xs[0].req.timeout
                &&& was_late(cs, cs.len() as int)
                &&& was_killed(cs, cs.len() as int)
                &&& was_told(xs, cs, cs.len() as int, stderr_tail@)
                &&& came matches RunCame::Pipe(e) && stdout_tail@ == event_tail(e)
            },
            Err(CommandError::Spawn { program, source }) => program == xs[0].req.program && came
                == RunCame::Spawned(Err(source)),
            Err(CommandError::Io { program, .. }) => program == xs[0].req.program && (
            came == RunCame::Pipe(PipeEvent::TimedOut) ==> was_killed(cs, cs.len() as int)),
        },
{
    lemma_run_remembers(xs, cs, cs.len() as int);
    assert(xs.last() == xs[cs.len() as int]);
}

/// What a program said last is kept for the error: its last five lines, in one, and of those no
/// more than five hundred characters.
pub proof fn law_the_last_lines_are_kept(output: Seq<u8>, ls: Seq<Seq<char>>)
    requires
        lossy(output) == printed(ls),
        forall|k: int| 0 <= k < ls.len() ==> fits_a_line(#[trigger] ls[k]),
    ensures
        ({
            let last = if ls.len() > 5 {
                ls.skip(ls.len() - 5)
            } else {
                ls
            };
            let text = join_texts(last, " | "@);
            &&& tail_of(output).is_prefix_of(text)
            &&& text.len() <= 500 ==> tail_of(output) == text
            &&& text.len() > 500 ==> tail_of(output).len() == 500
        }),
{
    law_printed_lines_are_read_back(ls);
    assert(ls.skip(0) =~= ls);
    let text = join_texts(ls.skip(last_five(ls.len() as int)), " | "@);
    assert(text.take(text.len() as int) =~= text);
}

} // verus!
