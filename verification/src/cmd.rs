//! Subprocesses: what is asked of them, what they answer, and how their output is collected.

use vstd::prelude::*;
use vstd::string::*;

use crate::merge::{bare_lines, lines};
use crate::paths::{contains_path, has_path, same_path};
use crate::text::{chars_of, decimal, decimal_text, first_chars, join_from, join_texts, lossy, lossy_text};
use crate::text::{lemma_part_len, part_len, parts, split_parts, strings, trim, trim_text};

pub use crate::cmd::run::SystemRunner;

pub mod fake;
pub mod run;

verus! {

/// A span of time, in milliseconds.
#[derive(Debug, Clone, Copy, PartialEq, Eq, Structural)]
pub struct Duration {
    pub millis: u64,
}

impl Duration {
    pub open spec fn seconds(secs: int) -> Duration {
        Duration { millis: (secs * 1000) as u64 }
    }

    pub fn from_secs(secs: u64) -> (r: Self)
        requires
            secs * 1000 <= u64::MAX,
        ensures
            r.millis == secs * 1000,
            r == Duration::seconds(secs as int),
    {
        Duration { millis: secs * 1000 }
    }

    pub fn from_millis(millis: u64) -> (r: Self)
        ensures
            r.millis == millis,
    {
        Duration { millis }
    }
}

/// What a span of so many milliseconds reads as.
pub uninterp spec fn duration_text(millis: u64) -> Seq<char>;

/// The debug form of `std::time::Duration`, which depends on the span alone.
#[verifier::external_body]
pub(crate) fn show_duration(millis: u64) -> (s: String)
    ensures
        s@ == duration_text(millis),
{
    format!("{:?}", std::time::Duration::from_millis(millis))
}

/// What a text reads as in quotes, special characters escaped.
pub uninterp spec fn quoted(s: Seq<char>) -> Seq<char>;

/// The debug form of `str`, which depends on the text alone.
#[verifier::external_body]
pub(crate) fn show_quoted(s: &str) -> (r: String)
    ensures
        r@ == quoted(s@),
{
    format!("{:?}", s)
}

/// A whole number in decimal digits, with a minus sign where it is negative.
pub open spec fn signed_text(n: int) -> Seq<char> {
    if n < 0 {
        "-"@ + decimal((-n) as nat)
    } else {
        decimal(n as nat)
    }
}

/// A whole number in decimal digits.
pub fn show_signed(n: i64) -> (r: String)
    ensures
        r@ == signed_text(n as int),
{
    if n < 0 {
        let mut s = "-".to_owned();
        s.append(decimal_text((-(n as i128)) as u64).as_str());
        s
    } else {
        decimal_text(n as u64)
    }
}

/// A command to run.
#[derive(Debug)]
pub struct CommandRequest {
    pub program: String,
    pub args: Vec<String>,
    pub env: Vec<(String, String)>,
    pub cwd: Option<String>,
    pub stdin: Option<Vec<u8>>,
    pub timeout: Duration,
}

/// A command to run, as the model has it.
pub struct Request {
    pub program: Seq<char>,
    pub args: Seq<Seq<char>>,
    pub env: Seq<(Seq<char>, Seq<char>)>,
    pub cwd: Option<Seq<char>>,
    pub stdin: Option<Seq<u8>>,
    pub timeout: Duration,
}

/// The texts of a list of pairs.
pub open spec fn pairs(v: Seq<(String, String)>) -> Seq<(Seq<char>, Seq<char>)> {
    v.map_values(|p: (String, String)| (p.0@, p.1@))
}

pub open spec fn optional(s: Option<String>) -> Option<Seq<char>> {
    match s {
        Some(t) => Some(t@),
        None => None,
    }
}

impl View for CommandRequest {
    type V = Request;

    open spec fn view(&self) -> Request {
        Request {
            program: self.program@,
            args: strings(self.args@),
            env: pairs(self.env@),
            cwd: optional(self.cwd),
            stdin: match self.stdin {
                Some(b) => Some(b@),
                None => None,
            },
            timeout: self.timeout,
        }
    }
}

impl CommandRequest {
    /// The program without arguments, to be given thirty seconds.
    pub fn new(program: &str) -> (r: Self)
        ensures
            r@ == (Request {
                program: program@,
                args: seq![],
                env: seq![],
                cwd: None,
                stdin: None,
                timeout: Duration::seconds(30),
            }),
    {
        let r = CommandRequest {
            program: program.to_owned(),
            args: Vec::new(),
            env: Vec::new(),
            cwd: None,
            stdin: None,
            timeout: Duration::from_secs(30),
        };
        assert(r@.args =~= seq![]);
        assert(r@.env =~= seq![]);
        r
    }

    /// One more argument.
    pub fn arg(self, a: &str) -> (r: Self)
        ensures
            r@ == (Request { args: self@.args.push(a@), ..self@ }),
    {
        let mut r = self;
        let ghost had = r@;
        r.args.push(a.to_owned());
        assert(r@.args =~= had.args.push(a@));
        r
    }

    /// More arguments.
    pub fn args(self, it: &[&str]) -> (r: Self)
        ensures
            r@ == (Request { args: self@.args + crate::merge::views(it@), ..self@ }),
    {
        let mut r = self;
        let ghost had = r@;
        let ghost more = crate::merge::views(it@);
        let mut i: usize = 0;
        assert(r@.args =~= had.args + more.take(0));
        while i < it.len()
            invariant
                more == crate::merge::views(it@),
                i <= it@.len(),
                r@ == (Request { args: had.args + more.take(i as int), ..had }),
            decreases it@.len() - i,
        {
            r = r.arg(it[i]);
            i = i + 1;
            assert(had.args + more.take(i as int) =~= (had.args + more.take(i - 1)).push(
                more[i - 1],
            ));
        }
        assert(more.take(i as int) =~= more);
        r
    }

    /// One more environment variable.
    pub fn env(self, k: &str, v: &str) -> (r: Self)
        ensures
            r@ == (Request { env: self@.env.push((k@, v@)), ..self@ }),
    {
        let mut r = self;
        let ghost had = r@;
        r.env.push((k.to_owned(), v.to_owned()));
        assert(r@.env =~= had.env.push((k@, v@)));
        r
    }

    /// The directory to run in.
    pub fn cwd(self, p: &str) -> (r: Self)
        ensures
            r@ == (Request { cwd: Some(p@), ..self@ }),
    {
        let mut r = self;
        r.cwd = Some(p.to_owned());
        r
    }

    /// What the program reads.
    pub fn stdin(self, bytes: Vec<u8>) -> (r: Self)
        ensures
            r@ == (Request { stdin: Some(bytes@), ..self@ }),
    {
        let mut r = self;
        r.stdin = Some(bytes);
        r
    }

    /// How long it may take.
    pub fn timeout(self, t: Duration) -> (r: Self)
        ensures
            r@ == (Request { timeout: t, ..self@ }),
    {
        let mut r = self;
        r.timeout = t;
        r
    }
}

/// What a command that ran to its end left.
#[derive(Debug)]
pub struct CommandOutput {
    pub exit_code: i32,
    pub stdout: Vec<u8>,
    pub stderr: Vec<u8>,
}

/// The output of a command, as the model has it.
pub struct Output {
    pub exit_code: i32,
    pub stdout: Seq<u8>,
    pub stderr: Seq<u8>,
}

impl View for CommandOutput {
    type V = Output;

    open spec fn view(&self) -> Output {
        Output { exit_code: self.exit_code, stdout: self.stdout@, stderr: self.stderr@ }
    }
}

impl CommandOutput {
    pub fn success(&self) -> (r: bool)
        ensures
            r == (self.exit_code == 0),
    {
        self.exit_code == 0
    }

    pub fn stdout_utf8(&self) -> (r: String)
        ensures
            r@ == lossy(self.stdout@),
    {
        lossy_text(self.stdout.as_slice())
    }

    pub fn stderr_utf8(&self) -> (r: String)
        ensures
            r@ == lossy(self.stderr@),
    {
        lossy_text(self.stderr.as_slice())
    }
}

/// Why a command gave no output.
#[derive(Debug)]
pub enum CommandError {
    Spawn { program: String, source: String },
    Timeout { program: String, timeout: Duration, stderr_tail: String, stdout_tail: String },
    Io { program: String, source: String },
}

impl CommandError {
    pub open spec fn message_spec(self) -> Seq<char> {
        match self {
            CommandError::Spawn { program, source } => "failed to spawn "@ + program@ + ": "@
                + source@,
            CommandError::Timeout { program, timeout, stderr_tail, stdout_tail } => program@
                + " timed out after "@ + duration_text(timeout.millis) + "; stderr tail: "@
                + quoted(stderr_tail@) + "; stdout tail: "@ + quoted(stdout_tail@),
            CommandError::Io { program, source } => "i/o error running "@ + program@ + ": "@
                + source@,
        }
    }

    /// The error in words.
    pub fn message(&self) -> (r: String)
        ensures
            r@ == self.message_spec(),
    {
        match self {
            CommandError::Spawn { program, source } => {
                let mut s = "failed to spawn ".to_owned();
                s.append(program.as_str());
                s.append(": ");
                s.append(source.as_str());
                s
            },
            CommandError::Timeout { program, timeout, stderr_tail, stdout_tail } => {
                let mut s = program.clone();
                s.append(" timed out after ");
                s.append(show_duration(timeout.millis).as_str());
                s.append("; stderr tail: ");
                s.append(show_quoted(stderr_tail.as_str()).as_str());
                s.append("; stdout tail: ");
                s.append(show_quoted(stdout_tail.as_str()).as_str());
                s
            },
            CommandError::Io { program, source } => {
                let mut s = "i/o error running ".to_owned();
                s.append(program.as_str());
                s.append(": ");
                s.append(source.as_str());
                s
            },
        }
    }
}

/// What a runner answered.
pub type Reply = Result<Output, CommandError>;

pub open spec fn reply_of(r: Result<CommandOutput, CommandError>) -> Reply {
    match r {
        Ok(out) => Ok(out@),
        Err(e) => Err(e),
    }
}

/// Something that runs commands. It remembers, for the contracts, what it was asked and what
/// it answered.
pub trait CommandRunner {
    /// The commands so far.
    spec fn sent(&self) -> Seq<Request>;

    /// The answers to them.
    spec fn replies(&self) -> Seq<Reply>;

    /// The runner may answer the command so, and is `after` then.
    spec fn answers(&self, req: Request, reply: Reply, after: &Self) -> bool;

    fn run(&mut self, req: CommandRequest) -> (r: Result<CommandOutput, CommandError>)
        ensures
            final(self).sent() == old(self).sent().push(req@),
            final(self).replies() == old(self).replies().push(reply_of(r)),
            old(self).answers(req@, reply_of(r), final(self)),
    ;
}

// ---------------------------------------------------------------------------
// Collecting output

/// Where the last five of `n` things start.
pub open spec fn last_five(n: int) -> int {
    if n > 5 {
        n - 5
    } else {
        0
    }
}

/// The end of some output: its last five lines, in one, up to five hundred characters.
pub open spec fn tail_of(output: Seq<u8>) -> Seq<char> {
    let ls = bare_lines(lossy(output));
    let text = join_texts(ls.skip(last_five(ls.len() as int)), " | "@);
    text.take(
        if 500 <= text.len() {
            500
        } else {
            text.len() as int
        },
    )
}

/// The end of some output, to tell what a command was doing.
pub fn output_tail(output: &[u8]) -> (r: String)
    ensures
        r@ == tail_of(output@),
{
    let text = lossy_text(output);
    let ls = lines(text.as_str());
    let from: usize = if ls.len() > 5 {
        ls.len() - 5
    } else {
        0
    };
    assert(strings(ls@).len() == ls@.len());
    let tail = join_from(&ls, from, " | ");
    first_chars(tail.as_str(), 500)
}

/// What to do next with a command that was started.
#[derive(Debug, Clone, Copy, PartialEq, Eq, Structural)]
pub enum WaitStep {
    Collect,
    KillGroup,
    PollAgain,
}

/// A command that has exited is collected, even at its deadline; one that has not is killed
/// when its time is up, with all processes of its group.
pub fn wait_step(exited: bool, out_of_time: bool) -> (r: WaitStep)
    ensures
        r == (if exited {
            WaitStep::Collect
        } else if out_of_time {
            WaitStep::KillGroup
        } else {
            WaitStep::PollAgain
        }),
{
    if exited {
        WaitStep::Collect
    } else if out_of_time {
        WaitStep::KillGroup
    } else {
        WaitStep::PollAgain
    }
}

/// What came out of an output pipe within its time.
#[derive(Debug)]
pub enum PipeEvent {
    Output(Vec<u8>),
    ReadFailed(String),
    TimedOut,
    ReaderGone,
}

/// What to do with it.
#[derive(Debug)]
pub enum PipeStep {
    Done(Vec<u8>),
    Fail(CommandError),
    /// Wait once more; first kill the group where `kill` says so.
    Retry { kill: bool },
}

/// A pipe that stays open after its program has ended is held by a process it left behind:
/// the group is killed, once for both pipes, and the pipe is waited for once more.
pub fn pipe_step(event: PipeEvent, retried: bool, killed: bool, program: &str) -> (r: PipeStep)
    ensures
        match event {
            PipeEvent::Output(b) => r == PipeStep::Done(b),
            PipeEvent::ReadFailed(e) => r matches PipeStep::Fail(
                CommandError::Io { program: p, source },
            ) && p@ == program@ && source == e,
            PipeEvent::TimedOut => if retried {
                r matches PipeStep::Fail(CommandError::Io { program: p, source }) && p@ == program@
                    && source@ == "output pipes held open after exit (orphaned grandchild?)"@
            } else {
                r == (PipeStep::Retry { kill: !killed })
            },
            PipeEvent::ReaderGone => r matches PipeStep::Fail(
                CommandError::Io { program: p, source },
            ) && p@ == program@ && source@ == (if retried {
                "output pipes held open after exit (orphaned grandchild?)"@
            } else {
                "output reader died"@
            }),
        },
{
    match event {
        PipeEvent::Output(b) => PipeStep::Done(b),
        PipeEvent::ReadFailed(e) => PipeStep::Fail(
            CommandError::Io { program: program.to_owned(), source: e },
        ),
        PipeEvent::TimedOut => {
            if retried {
                PipeStep::Fail(
                    CommandError::Io {
                        program: program.to_owned(),
                        source: "output pipes held open after exit (orphaned grandchild?)".to_owned(),
                    },
                )
            } else {
                PipeStep::Retry { kill: !killed }
            }
        },
        PipeEvent::ReaderGone => {
            let source = if retried {
                "output pipes held open after exit (orphaned grandchild?)".to_owned()
            } else {
                "output reader died".to_owned()
            };
            PipeStep::Fail(CommandError::Io { program: program.to_owned(), source })
        },
    }
}

/// The exit code of a program that may have been ended by a signal.
pub fn exit_code_or(code: Option<i32>) -> (r: i32)
    ensures
        code matches Some(c) ==> r == c,
        code is None ==> r == -1,
{
    match code {
        Some(c) => c,
        None => -1,
    }
}

// ---------------------------------------------------------------------------
// The search path

/// The entries with `p` added, unless it is empty or there already.
pub open spec fn add_entry(entries: Seq<Seq<char>>, p: Seq<char>) -> Seq<Seq<char>> {
    if p.len() > 0 && !has_path(entries, p) {
        entries.push(p)
    } else {
        entries
    }
}

/// The entries with the first `n` of `more` added.
pub open spec fn add_entries(entries: Seq<Seq<char>>, more: Seq<Seq<char>>, n: int) -> Seq<
    Seq<char>,
>
    decreases n,
{
    if n <= 0 {
        entries
    } else {
        add_entry(add_entries(entries, more, n - 1), more[n - 1])
    }
}

/// No entry holds the separator.
pub open spec fn joinable(entries: Seq<Seq<char>>) -> bool {
    forall|k: int| 0 <= k < entries.len() ==> !(#[trigger] entries[k]).contains(':')
}

/// The search path with the entries of the login shell's and the given directories behind
/// them; none where that adds nothing.
pub open spec fn merged_path(
    current: Seq<char>,
    shell_path: Seq<char>,
    fallbacks: Seq<Seq<char>>,
) -> Option<Seq<char>> {
    let own = parts(current, ':');
    let shell = parts(trim(shell_path), ':');
    let more = add_entries(own, shell, shell.len() as int);
    let all = add_entries(more, fallbacks, fallbacks.len() as int);
    if all.len() > own.len() && joinable(all) {
        Some(join_texts(all, ":"@))
    } else {
        None
    }
}

proof fn lemma_join_front(first: Seq<char>, rest: Seq<Seq<char>>, sep: Seq<char>)
    requires
        rest.len() > 0,
    ensures
        join_texts(seq![first] + rest, sep) == first + sep + join_texts(rest, sep),
    decreases rest.len(),
{
    let all = seq![first] + rest;
    assert(all.last() == rest.last());
    assert(all.drop_last() =~= seq![first] + rest.drop_last());
    if rest.len() == 1 {
        assert(all.drop_last() =~= seq![first]);
        assert(join_texts(rest, sep) == rest[0]);
        assert(join_texts(all.drop_last(), sep) == first);
    } else {
        lemma_join_front(first, rest.drop_last(), sep);
        assert(join_texts(all, sep) =~= first + sep + join_texts(rest, sep));
    }
}

proof fn lemma_parts_join(s: Seq<char>, sep: char)
    ensures
        parts(s, sep).len() > 0,
        join_texts(parts(s, sep), seq![sep]) == s,
    decreases s.len(),
{
    lemma_part_len(s, sep);
    let n = part_len(s, sep);
    if n < s.len() {
        let rest = s.skip(n + 1);
        lemma_parts_join(rest, sep);
        lemma_join_front(s.take(n), parts(rest, sep), seq![sep]);
        assert(s =~= s.take(n) + seq![sep] + rest);
    }
}

proof fn lemma_join_more(own: Seq<Seq<char>>, all: Seq<Seq<char>>, sep: Seq<char>)
    requires
        0 < own.len() < all.len(),
        all.take(own.len() as int) == own,
    ensures
        (join_texts(own, sep) + sep).is_prefix_of(join_texts(all, sep)),
    decreases all.len(),
{
    let front = all.drop_last();
    assert(front.take(own.len() as int) =~= own);
    if front.len() == own.len() {
        assert(front =~= own);
    } else {
        lemma_join_more(own, front, sep);
    }
    let whole = join_texts(own, sep) + sep;
    assert(join_texts(all, sep).subrange(0, whole.len() as int) =~= whole);
}

proof fn lemma_entries_stay(entries: Seq<Seq<char>>, more: Seq<Seq<char>>, n: int)
    ensures
        add_entries(entries, more, n).len() >= entries.len(),
        add_entries(entries, more, n).take(entries.len() as int) == entries,
    decreases n,
{
    if n > 0 {
        lemma_entries_stay(entries, more, n - 1);
        assert(add_entries(entries, more, n).take(entries.len() as int) =~= add_entries(
            entries,
            more,
            n - 1,
        ).take(entries.len() as int));
    } else {
        assert(entries.take(entries.len() as int) =~= entries);
    }
}

/// A merged search path starts with the search path as it was, letter for letter; what is new
/// stands behind it.
pub proof fn law_merged_paths_start_with_the_search_path(
    current: Seq<char>,
    shell_path: Seq<char>,
    fallbacks: Seq<Seq<char>>,
)
    ensures
        merged_path(current, shell_path, fallbacks) matches Some(p) ==> (current
            + ":"@).is_prefix_of(p),
{
    let own = parts(current, ':');
    let shell = parts(trim(shell_path), ':');
    let more = add_entries(own, shell, shell.len() as int);
    let all = add_entries(more, fallbacks, fallbacks.len() as int);
    lemma_entries_stay(own, shell, shell.len() as int);
    lemma_entries_stay(more, fallbacks, fallbacks.len() as int);
    assert(all.take(own.len() as int) =~= more.take(own.len() as int));
    lemma_parts_join(current, ':');
    reveal_strlit(":");
    assert(":"@ =~= seq![':']);
    if all.len() > own.len() {
        lemma_join_more(own, all, ":"@);
    }
}

fn add_all(entries: &mut Vec<String>, more: &Vec<String>)
    ensures
        strings(final(entries)@) == add_entries(
            strings(old(entries)@),
            strings(more@),
            more@.len() as int,
        ),
{
    let ghost own = strings(entries@);
    let ghost new = strings(more@);
    let mut i: usize = 0;
    while i < more.len()
        invariant
            own == strings(old(entries)@),
            new == strings(more@),
            i <= more@.len(),
            strings(entries@) == add_entries(own, new, i as int),
        decreases more@.len() - i,
    {
        let p = more[i].as_str();
        let ghost had = strings(entries@);
        assert(new[i as int] == more@[i as int]@);
        if !p.is_empty() && !contains_path(entries, p) {
            entries.push(more[i].clone());
            assert(strings(entries@) =~= had.push(new[i as int]));
        }
        i = i + 1;
    }
}

fn has_separator(s: &str) -> (r: bool)
    ensures
        r == s@.contains(':'),
{
    let v = chars_of(s);
    let mut i: usize = 0;
    while i < v.len()
        invariant
            v@ == s@,
            i <= v@.len(),
            forall|k: int| 0 <= k < i ==> v@[k] != ':',
        decreases v@.len() - i,
    {
        if v[i] == ':' {
            assert(s@[i as int] == ':');
            return true;
        }
        i = i + 1;
    }
    false
}

/// Merges the search path with the login shell's and with the directories `fallbacks`, which
/// exist. Paths that it has already are not added again.
pub fn merged_login_path(current: &str, shell_path: &str, fallbacks: &Vec<String>) -> (r: Option<
    String,
>)
    requires
        forall|k: int| 0 <= k < fallbacks@.len() ==> (#[trigger] fallbacks@[k])@.len() > 0,
    ensures
        match r {
            Some(p) => merged_path(current@, shell_path@, strings(fallbacks@)) == Some(p@),
            None => merged_path(current@, shell_path@, strings(fallbacks@)) is None,
        },
{
    let mut entries = split_parts(current, ':');
    let had: usize = entries.len();
    let ghost own = strings(entries@);
    assert(own.len() == had);
    let shell = split_parts(trim_text(shell_path).as_str(), ':');
    assert(strings(shell@).len() == shell@.len());
    add_all(&mut entries, &shell);
    add_all(&mut entries, fallbacks);
    let ghost all = strings(entries@);
    assert(all.len() == entries@.len());
    if entries.len() <= had {
        return None;
    }
    let mut i: usize = 0;
    while i < entries.len()
        invariant
            all == strings(entries@),
            i <= entries@.len(),
            forall|k: int| 0 <= k < i ==> !(#[trigger] all[k]).contains(':'),
            all == add_entries(
                add_entries(
                    parts(current@, ':'),
                    parts(trim(shell_path@), ':'),
                    parts(trim(shell_path@), ':').len() as int,
                ),
                strings(fallbacks@),
                strings(fallbacks@).len() as int,
            ),
        decreases entries@.len() - i,
    {
        assert(all[i as int] == entries@[i as int]@);
        if has_separator(entries[i].as_str()) {
            return None;
        }
        i = i + 1;
    }
    assert(all.skip(0) =~= all);
    Some(join_from(&entries, 0, ":"))
}

/// What the login shell says its search path is; nothing where it says nothing.
pub open spec fn shell_says(reply: Reply) -> Seq<char> {
    match reply {
        Ok(out) => if out.exit_code == 0 {
            lossy(out.stdout)
        } else {
            seq![]
        },
        Err(_) => seq![],
    }
}

/// Asks the login shell for its search path, for five seconds at most, and merges the search
/// path with it. A shell that is broken adds nothing.
pub fn login_shell_path<R: CommandRunner>(
    runner: &mut R,
    shell: Option<&str>,
    current: &str,
    fallbacks: &Vec<String>,
) -> (r: Option<String>)
    requires
        forall|k: int| 0 <= k < fallbacks@.len() ==> (#[trigger] fallbacks@[k])@.len() > 0,
    ensures
        final(runner).sent() == old(runner).sent().push(
            Request {
                program: match shell {
                    Some(s) => s@,
                    None => "/bin/zsh"@,
                },
                args: seq!["-l"@, "-c"@, "printenv PATH"@],
                env: seq![],
                cwd: None,
                stdin: None,
                timeout: Duration::seconds(5),
            },
        ),
        final(runner).replies() == old(runner).replies().push(final(runner).replies().last()),
        old(runner).answers(
            final(runner).sent().last(),
            final(runner).replies().last(),
            final(runner),
        ),
        optional(r) == merged_path(
            current@,
            shell_says(final(runner).replies().last()),
            strings(fallbacks@),
        ),
{
    let program = match shell {
        Some(s) => s,
        None => "/bin/zsh",
    };
    let args = vec!["-l", "-c", "printenv PATH"];
    let req = CommandRequest::new(program).args(args.as_slice()).timeout(Duration::from_secs(5));
    assert(req@.args =~= seq!["-l"@, "-c"@, "printenv PATH"@]);
    let said = match runner.run(req) {
        Ok(out) => {
            if out.success() {
                out.stdout_utf8()
            } else {
                "".to_owned()
            }
        },
        Err(_) => "".to_owned(),
    };
    proof {
        reveal_strlit("");
        assert(""@ =~= seq![]);
    }
    merged_login_path(current, said.as_str(), fallbacks)
}

/// The runner may answer the commands so, one after the other, and is `after` then.
pub open spec fn answered<R: CommandRunner>(
    before: R,
    reqs: Seq<Request>,
    replies: Seq<Reply>,
    after: R,
) -> bool
    decreases reqs.len(),
{
    &&& reqs.len() == replies.len()
    &&& if reqs.len() == 0 {
        after == before
    } else {
        exists|mid: R| #[trigger]
            mid.answers(reqs.last(), replies.last(), &after) && answered(
                before,
                reqs.drop_last(),
                replies.drop_last(),
                mid,
            )
    }
}

pub proof fn lemma_one_more_answer<R: CommandRunner>(
    before: R,
    mid: R,
    after: R,
    reqs: Seq<Request>,
    replies: Seq<Reply>,
    req: Request,
    reply: Reply,
)
    requires
        answered(before, reqs, replies, mid),
        mid.answers(req, reply, &after),
    ensures
        answered(before, reqs.push(req), replies.push(reply), after),
{
    assert(reqs.push(req).drop_last() =~= reqs);
    assert(replies.push(reply).drop_last() =~= replies);
    assert(mid.answers(reqs.push(req).last(), replies.push(reply).last(), &after));
}

/// The runner was only used: what it sent and what it got stand behind what was there, one
/// answer for each command.
pub open spec fn went_on<R: CommandRunner>(before: R, after: R) -> bool {
    &&& before.sent().is_prefix_of(after.sent())
    &&& before.replies().is_prefix_of(after.replies())
    &&& after.sent().len() - before.sent().len() == after.replies().len() - before.replies().len()
}

/// The `i`-th command since `before` is this one, and this is the answer to it.
pub open spec fn exchanged_at<R: CommandRunner>(
    before: R,
    after: R,
    req: Request,
    reply: Reply,
    i: int,
) -> bool {
    &&& 0 <= i < after.sent().len() - before.sent().len()
    &&& i < after.replies().len() - before.replies().len()
    &&& after.sent()[before.sent().len() + i] == req
    &&& after.replies()[before.replies().len() + i] == reply
}

/// Since `before` the command was sent, and this was the answer to it.
pub open spec fn got<R: CommandRunner>(before: R, after: R, req: Request, reply: Reply) -> bool {
    exists|i: int| #[trigger] exchanged_at(before, after, req, reply, i)
}

pub proof fn lemma_went_on<R: CommandRunner>(a: R, b: R, c: R)
    requires
        went_on(a, b),
        went_on(b, c),
    ensures
        went_on(a, c),
{
    assert(a.sent() =~= c.sent().subrange(0, a.sent().len() as int)) by {
        assert(a.sent() =~= b.sent().subrange(0, a.sent().len() as int));
        assert(b.sent() =~= c.sent().subrange(0, b.sent().len() as int));
        assert forall|i: int| 0 <= i < a.sent().len() implies a.sent()[i] == c.sent()[i] by {
            assert(a.sent()[i] == b.sent().subrange(0, a.sent().len() as int)[i]);
            assert(b.sent()[i] == c.sent().subrange(0, b.sent().len() as int)[i]);
        }
    }
    assert(a.replies() =~= c.replies().subrange(0, a.replies().len() as int)) by {
        assert(a.replies() =~= b.replies().subrange(0, a.replies().len() as int));
        assert(b.replies() =~= c.replies().subrange(0, b.replies().len() as int));
        assert forall|i: int| 0 <= i < a.replies().len() implies a.replies()[i]
            == c.replies()[i] by {
            assert(a.replies()[i] == b.replies().subrange(0, a.replies().len() as int)[i]);
            assert(b.replies()[i] == c.replies().subrange(0, b.replies().len() as int)[i]);
        }
    }
}

/// What a part of a run got, the whole run got.
pub proof fn lemma_got<R: CommandRunner>(a: R, b: R, c: R, d: R, req: Request, reply: Reply)
    requires
        went_on(a, b),
        went_on(b, c),
        went_on(c, d),
        got(b, c, req, reply),
    ensures
        got(a, d, req, reply),
{
    let i = choose|i: int| #[trigger] exchanged_at(b, c, req, reply, i);
    let k = b.sent().len() - a.sent().len() + i;
    assert(c.sent() =~= d.sent().subrange(0, c.sent().len() as int));
    assert(c.replies() =~= d.replies().subrange(0, c.replies().len() as int));
    let s = b.sent().len() + i;
    let r = b.replies().len() + i;
    assert(c.sent()[s] == d.sent().subrange(0, c.sent().len() as int)[s]);
    assert(c.replies()[r] == d.replies().subrange(0, c.replies().len() as int)[r]);
    assert(exchanged_at(a, d, req, reply, k));
}

/// What was added to a log.
pub open spec fn added<T>(before: Seq<T>, after: Seq<T>) -> Seq<T> {
    after.skip(before.len() as int)
}

/// A log was continued by some entries.
pub open spec fn continued<T>(before: Seq<T>, after: Seq<T>, new: Seq<T>) -> bool {
    after == before + new
}

proof fn lemma_entries_added(entries: Seq<Seq<char>>, more: Seq<Seq<char>>, n: int)
    requires
        0 <= n <= more.len(),
    ensures
        ({
            let all = add_entries(entries, more, n);
            &&& entries.len() <= all.len()
            &&& forall|k: int| 0 <= k < entries.len() ==> #[trigger] all[k] == entries[k]
            &&& forall|i: int|
                0 <= i < n && (#[trigger] more[i]).len() > 0 ==> has_path(all, more[i])
            &&& forall|k: int|
                entries.len() <= k < all.len() ==> (#[trigger] all[k]).len() > 0 && more.contains(
                    all[k],
                )
            &&& forall|j: int, k: int|
                #![trigger all[j], all[k]]
                0 <= j < k < all.len() && entries.len() <= k ==> !same_path(all[j], all[k])
        }),
    decreases n,
{
    if n > 0 {
        lemma_entries_added(entries, more, n - 1);
        let front = add_entries(entries, more, n - 1);
        let all = add_entries(entries, more, n);
        assert forall|k: int| 0 <= k < front.len() implies #[trigger] all[k] == front[k] by {}
        assert forall|i: int| 0 <= i < n && (#[trigger] more[i]).len() > 0 implies has_path(
            all,
            more[i],
        ) by {
            if i < n - 1 {
                let k = choose|k: int|
                    0 <= k < front.len() && same_path(#[trigger] front[k], more[i]);
                assert(same_path(all[k], more[i]));
            } else if !has_path(front, more[i]) {
                assert(same_path(all[front.len() as int], more[i]));
            } else {
                assert(all == front);
            }
        }
        if all.len() > front.len() {
            assert(all[front.len() as int] == more[n - 1]);
            assert(more.contains(more[n - 1]));
        }
    }
}

/// The search path is completed: every place that the shell or the list of usual ones names is in
/// it then, what is new is one of those, and none of them is there twice. It is left as it is
/// where nothing is missing, or where a place cannot be written in a search path.
pub proof fn law_search_paths_are_completed(
    current: Seq<char>,
    shell_path: Seq<char>,
    fallbacks: Seq<Seq<char>>,
)
    ensures
        ({
            let own = parts(current, ':');
            let shell = parts(trim(shell_path), ':');
            let missing = |p: Seq<char>| p.len() > 0 && !has_path(own, p);
            let lacking = (exists|i: int| 0 <= i < shell.len() && missing(#[trigger] shell[i]))
                || (exists|i: int| 0 <= i < fallbacks.len() && missing(#[trigger] fallbacks[i]));
            match merged_path(current, shell_path, fallbacks) {
                Some(p) => lacking && exists|all: Seq<Seq<char>>| #[trigger]
                    completes(all, own, shell, fallbacks) && p == join_texts(all, ":"@) && joinable(
                        all,
                    ),
                None => lacking ==> exists|all: Seq<Seq<char>>| #[trigger]
                    completes(all, own, shell, fallbacks) && !joinable(all),
            }
        }),
{
    let own = parts(current, ':');
    let shell = parts(trim(shell_path), ':');
    let missing = |p: Seq<char>| p.len() > 0 && !has_path(own, p);
    let more = add_entries(own, shell, shell.len() as int);
    let all = add_entries(more, fallbacks, fallbacks.len() as int);
    lemma_entries_added(own, shell, shell.len() as int);
    lemma_entries_added(more, fallbacks, fallbacks.len() as int);
    assert forall|k: int| 0 <= k < more.len() implies #[trigger] all[k] == more[k] by {}
    assert forall|i: int| 0 <= i < shell.len() && (#[trigger] shell[i]).len() > 0 implies has_path(
        all,
        shell[i],
    ) by {
        assert(has_path(more, shell[i]));
        let k = choose|k: int| 0 <= k < more.len() && same_path(#[trigger] more[k], shell[i]);
        assert(same_path(all[k], shell[i]));
    }
    assert forall|k: int| own.len() <= k < all.len() implies (#[trigger] all[k]).len() > 0 && (
    shell.contains(all[k]) || fallbacks.contains(all[k])) by {
        if k < more.len() {
            assert(all[k] == more[k]);
        }
    }
    assert forall|j: int, k: int|
        #![trigger all[j], all[k]]
        0 <= j < k < all.len() && own.len() <= k implies !same_path(all[j], all[k]) by {
        if k < more.len() {
            assert(all[j] == more[j] && all[k] == more[k]);
        }
    }
    assert forall|k: int| 0 <= k < own.len() implies #[trigger] all[k] == own[k] by {
        assert(all[k] == more[k]);
    }
    assert(completes(all, own, shell, fallbacks));
    if all.len() > own.len() {
        let k = own.len() as int;
        assert(all[k].len() > 0);
        assert(!has_path(own, all[k])) by {
            if has_path(own, all[k]) {
                let j = choose|j: int| 0 <= j < own.len() && same_path(#[trigger] own[j], all[k]);
                assert(all[j] == own[j]);
            }
        }
        if shell.contains(all[k]) {
            let i = shell.index_of(all[k]);
            assert(missing(shell[i]));
        } else {
            let i = fallbacks.index_of(all[k]);
            assert(missing(fallbacks[i]));
        }
    } else {
        assert(all =~= own);
    }
}

/// The list starts as the one that was, and holds each place of the two others, once.
pub open spec fn completes(
    all: Seq<Seq<char>>,
    own: Seq<Seq<char>>,
    shell: Seq<Seq<char>>,
    fallbacks: Seq<Seq<char>>,
) -> bool {
    &&& own.len() <= all.len()
    &&& forall|k: int| 0 <= k < own.len() ==> #[trigger] all[k] == own[k]
    &&& forall|i: int|
        0 <= i < shell.len() && (#[trigger] shell[i]).len() > 0 ==> has_path(all, shell[i])
    &&& forall|i: int|
        0 <= i < fallbacks.len() && (#[trigger] fallbacks[i]).len() > 0 ==> has_path(
            all,
            fallbacks[i],
        )
    &&& forall|k: int|
        own.len() <= k < all.len() ==> (#[trigger] all[k]).len() > 0 && (shell.contains(all[k])
            || fallbacks.contains(all[k]))
    &&& forall|j: int, k: int|
        #![trigger all[j], all[k]]
        0 <= j < k < all.len() && own.len() <= k ==> !same_path(all[j], all[k])
}

} // verus!
