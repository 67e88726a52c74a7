//! Talking to git about the source repository.

use vstd::prelude::*;
use vstd::string::*;
use vstd::utf8::*;

use crate::cmd::{added, answered, continued, exchanged_at, got, lemma_one_more_answer, went_on};
use crate::cmd::{show_signed, signed_text};
use crate::cmd::{CommandError, CommandRequest, CommandRunner, Duration, Reply, Request};
use crate::merge::{bare_lines, lines, texts, views};
use crate::text::{after_bytes, behind_bytes, lossy, lossy_text, parse_number, parsed};
use crate::text::{split_words, strings, trim, trim_start, trim_start_text, trim_text, words};

verus! {

/// How far two branches have moved apart.
#[derive(Debug, Clone, Copy, PartialEq, Eq, Structural)]
pub struct Divergence {
    pub ahead: u32,
    pub behind: u32,
}

#[derive(Debug)]
pub enum GitError {
    Command(CommandError),
    Exit { code: i32, stderr: String },
    Parse { context: &'static str, detail: String },
}

/// Why a call failed, as the model has it.
pub enum GitFailure {
    Command { error: CommandError },
    Exit { code: i32, stderr: Seq<char> },
    Parse { context: Seq<char>, detail: Seq<char> },
}

impl View for GitError {
    type V = GitFailure;

    open spec fn view(&self) -> GitFailure {
        match *self {
            GitError::Command(error) => GitFailure::Command { error },
            GitError::Exit { code, stderr } => GitFailure::Exit { code, stderr: stderr@ },
            GitError::Parse { context, detail } => GitFailure::Parse {
                context: context@,
                detail: detail@,
            },
        }
    }
}

/// A failure in words.
pub open spec fn failure_words(f: GitFailure) -> Seq<char> {
    match f {
        GitFailure::Command { error } => error.message_spec(),
        GitFailure::Exit { code, stderr } => "git exited with code "@ + signed_text(code as int)
            + ": "@ + stderr,
        GitFailure::Parse { context, detail } => "failed to parse git output ("@ + context
            + "): "@ + detail,
    }
}

impl GitError {
    pub open spec fn message_spec(self) -> Seq<char> {
        failure_words(self@)
    }

    /// The error in words.
    pub fn message(&self) -> (r: String)
        ensures
            r@ == self.message_spec(),
    {
        match self {
            GitError::Command(e) => e.message(),
            GitError::Exit { code, stderr } => {
                let mut s = "git exited with code ".to_owned();
                s.append(show_signed(*code as i64).as_str());
                s.append(": ");
                s.append(stderr.as_str());
                s
            },
            GitError::Parse { context, detail } => {
                let mut s = "failed to parse git output (".to_owned();
                s.append(context);
                s.append("): ");
                s.append(detail.as_str());
                s
            },
        }
    }
}

/// What a reply comes to: the output of a call that succeeded, or why it did not.
pub open spec fn git_outcome(reply: Reply) -> Result<Seq<u8>, GitFailure> {
    match reply {
        Err(error) => Err(GitFailure::Command { error }),
        Ok(out) => if out.exit_code == 0 {
            Ok(out.stdout)
        } else {
            Err(GitFailure::Exit { code: out.exit_code, stderr: lossy(out.stderr) })
        },
    }
}

/// The output as text.
pub open spec fn git_text(reply: Reply) -> Result<Seq<char>, GitFailure> {
    match git_outcome(reply) {
        Ok(b) => Ok(lossy(b)),
        Err(f) => Err(f),
    }
}

/// Calls git in a repository through a runner.
pub struct GitClient<R: CommandRunner> {
    pub runner: R,
    pub repo: String,
}

/// The command that a call is.
pub open spec fn git_request(repo: Seq<char>, args: Seq<Seq<char>>, timeout: Duration) -> Request {
    Request {
        program: "git"@,
        args,
        env: seq![],
        cwd: Some(repo),
        stdin: None,
        timeout,
    }
}

/// The client made one call, with these arguments, and got an answer.
pub open spec fn git_called<R: CommandRunner>(
    before: GitClient<R>,
    after: GitClient<R>,
    args: Seq<Seq<char>>,
    timeout: Duration,
) -> bool {
    &&& after.repo == before.repo
    &&& after.runner.sent() == before.runner.sent().push(git_request(before.repo@, args, timeout))
    &&& after.runner.replies() == before.runner.replies().push(after.answer())
    &&& before.runner.answers(
        git_request(before.repo@, args, timeout),
        after.answer(),
        &after.runner,
    )
}

/// The git commands with these arguments.
pub open spec fn git_requests<G: CommandRunner>(
    client: GitClient<G>,
    args: Seq<Seq<Seq<char>>>,
) -> Seq<Request> {
    args.map_values(|a: Seq<Seq<char>>| git_request(client.repo@, a, Duration::seconds(30)))
}

/// Git was called with these arguments, one call after the other.
pub open spec fn git_calls<G: CommandRunner>(
    before: GitClient<G>,
    after: GitClient<G>,
    args: Seq<Seq<Seq<char>>>,
) -> bool {
    &&& after.repo == before.repo
    &&& continued(before.runner.sent(), after.runner.sent(), git_requests(before, args))
    &&& continued(
        before.runner.replies(),
        after.runner.replies(),
        added(before.runner.replies(), after.runner.replies()),
    )
    &&& after.runner.replies().len() == before.runner.replies().len() + args.len()
    &&& answered(
        before.runner,
        git_requests(before, args),
        added(before.runner.replies(), after.runner.replies()),
        after.runner,
    )
}

/// The calls went through the runner, and each got its answer.
pub proof fn lemma_git_got<G: CommandRunner>(
    a: GitClient<G>,
    b: GitClient<G>,
    args: Seq<Seq<Seq<char>>>,
)
    requires
        git_calls(a, b, args),
    ensures
        went_on(a.runner, b.runner),
        forall|k: int|
            #![trigger args[k]]
            0 <= k < args.len() ==> got(
                a.runner,
                b.runner,
                git_request(a.repo@, args[k], Duration::seconds(30)),
                added(a.runner.replies(), b.runner.replies())[k],
            ),
{
    let (sa, sb) = (a.runner.sent(), b.runner.sent());
    let (ra, rb) = (a.runner.replies(), b.runner.replies());
    let reqs = git_requests(a, args);
    let replies = added(ra, rb);
    assert(sa =~= sb.subrange(0, sa.len() as int));
    assert(ra =~= rb.subrange(0, ra.len() as int));
    assert forall|k: int| 0 <= k < args.len() implies got(
        a.runner,
        b.runner,
        git_request(a.repo@, args[k], Duration::seconds(30)),
        #[trigger] replies[k],
    ) by {
        assert(reqs[k] == git_request(a.repo@, args[k], Duration::seconds(30)));
        assert(sb[sa.len() + k] == reqs[k]);
        assert(rb[ra.len() + k] == replies[k]);
        assert(exchanged_at(a.runner, b.runner, reqs[k], replies[k], k));
    }
}

/// No call was made.
pub proof fn lemma_no_git_calls<G: CommandRunner>(c: GitClient<G>)
    ensures
        git_calls(c, c, seq![]),
{
    let none = git_requests(c, seq![]);
    assert(none =~= seq![]);
    assert(c.runner.sent() + none =~= c.runner.sent());
    let r = c.runner.replies();
    assert(added(r, r) =~= seq![]);
    assert(r + added(r, r) =~= r);
}

/// One more call was made.
pub proof fn lemma_git_call<G: CommandRunner>(
    a: GitClient<G>,
    b: GitClient<G>,
    c: GitClient<G>,
    args: Seq<Seq<Seq<char>>>,
    last: Seq<Seq<char>>,
)
    requires
        git_calls(a, b, args),
        git_called(b, c, last, Duration::seconds(30)),
    ensures
        git_calls(a, c, args.push(last)),
        added(a.runner.replies(), c.runner.replies()) == added(
            a.runner.replies(),
            b.runner.replies(),
        ).push(c.answer()),
{
    let more = git_requests(a, args.push(last));
    let req = git_request(a.repo@, last, Duration::seconds(30));
    assert(more =~= git_requests(a, args).push(req));
    assert(a.runner.sent() + more =~= (a.runner.sent() + git_requests(a, args)).push(req));
    let (ra, rb, rc) = (a.runner.replies(), b.runner.replies(), c.runner.replies());
    assert(added(ra, rc) =~= added(ra, rb).push(c.answer()));
    lemma_one_more_answer(
        a.runner,
        b.runner,
        c.runner,
        git_requests(a, args),
        added(ra, rb),
        req,
        c.answer(),
    );
    assert(ra + added(ra, rc) =~= (ra + added(ra, rb)).push(c.answer()));
}

/// How far the branches have moved apart, as `git rev-list --left-right --count` counts it:
/// first what only the upstream has, then what only we have.
pub open spec fn divergence_of(text: Seq<char>) -> Result<Divergence, GitFailure> {
    let w = words(text);
    if w.len() != 2 {
        Err(GitFailure::Parse { context: "divergence"@, detail: text })
    } else {
        match (parsed(w[0], u32::MAX as nat), parsed(w[1], u32::MAX as nat)) {
            (Err(e), _) => Err(
                GitFailure::Parse { context: "divergence"@, detail: e.message_spec() },
            ),
            (_, Err(e)) => Err(
                GitFailure::Parse { context: "divergence"@, detail: e.message_spec() },
            ),
            (Ok(behind), Ok(ahead)) => Ok(
                Divergence { behind: behind as u32, ahead: ahead as u32 },
            ),
        }
    }
}

/// The divergence that the output of `git rev-list --left-right --count` tells of.
pub fn parse_divergence(text: &str) -> (r: Result<Divergence, GitError>)
    ensures
        match r {
            Ok(d) => divergence_of(text@) == Ok::<Divergence, GitFailure>(d),
            Err(e) => divergence_of(text@) == Err::<Divergence, GitFailure>(e@),
        },
{
    let w = split_words(text);
    assert(strings(w@).len() == w@.len());
    if w.len() != 2 {
        return Err(GitError::Parse { context: "divergence", detail: text.to_owned() });
    }
    assert(strings(w@)[0] == w@[0]@);
    assert(strings(w@)[1] == w@[1]@);
    let behind = match parse_number(w[0].as_str(), u32::MAX as u64) {
        Ok(n) => n,
        Err(e) => {
            return Err(GitError::Parse { context: "divergence", detail: e.message() });
        },
    };
    let ahead = match parse_number(w[1].as_str(), u32::MAX as u64) {
        Ok(n) => n,
        Err(e) => {
            return Err(GitError::Parse { context: "divergence", detail: e.message() });
        },
    };
    proof {
        crate::text::lemma_parsed_bound(w@[0]@, u32::MAX as nat);
        crate::text::lemma_parsed_bound(w@[1]@, u32::MAX as nat);
    }
    Ok(Divergence { behind: behind as u32, ahead: ahead as u32 })
}

/// The count that some output is.
pub open spec fn count_of(text: Seq<char>) -> Result<u32, GitFailure> {
    match parsed(trim(text), u32::MAX as nat) {
        Ok(n) => Ok(n as u32),
        Err(e) => Err(
            GitFailure::Parse { context: "commits_touching"@, detail: e.message_spec() },
        ),
    }
}

/// The paths of the first `n` lines of `git status --porcelain`: behind two letters and a
/// blank. Lines of up to three bytes have none. Or the first line that has no such place.
pub open spec fn dirty_of(ls: Seq<Seq<char>>, n: int) -> Result<Seq<Seq<char>>, Seq<char>>
    decreases n,
{
    if n <= 0 {
        Ok(seq![])
    } else {
        match dirty_of(ls, n - 1) {
            Err(bad) => Err(bad),
            Ok(front) => if encode_utf8(ls[n - 1]).len() <= 3 {
                Ok(front)
            } else {
                match behind_bytes(ls[n - 1], 3) {
                    Some(rest) => Ok(front.push(trim_start(rest))),
                    None => Err(ls[n - 1]),
                }
            },
        }
    }
}

proof fn lemma_dirty_stops(ls: Seq<Seq<char>>, k: int, n: int)
    requires
        0 <= k <= n,
        dirty_of(ls, k) is Err,
    ensures
        dirty_of(ls, n) == dirty_of(ls, k),
    decreases n - k,
{
    if k < n {
        lemma_dirty_stops(ls, k, n - 1);
    }
}

/// The paths that the output of `git status --porcelain` tells of.
pub fn parse_dirty(text: &str) -> (r: Result<Vec<String>, String>)
    ensures
        match r {
            Ok(v) => dirty_of(bare_lines(text@), bare_lines(text@).len() as int) == Ok::<
                Seq<Seq<char>>,
                Seq<char>,
            >(strings(v@)),
            Err(bad) => dirty_of(bare_lines(text@), bare_lines(text@).len() as int) == Err::<
                Seq<Seq<char>>,
                Seq<char>,
            >(bad@),
        },
{
    let ls = lines(text);
    let ghost all = bare_lines(text@);
    let mut out: Vec<String> = Vec::new();
    let mut i: usize = 0;
    assert(strings(out@) =~= seq![]);
    assert(all.len() == ls@.len());
    while i < ls.len()
        invariant
            all == texts(ls@),
            all == bare_lines(text@),
            all.len() == ls@.len(),
            i <= ls@.len(),
            dirty_of(all, i as int) == Ok::<Seq<Seq<char>>, Seq<char>>(strings(out@)),
        decreases ls@.len() - i,
    {
        let line = ls[i].as_str();
        assert(all[i as int] == line@);
        if line.as_bytes().len() > 3 {
            match after_bytes(line, 3) {
                Some(rest) => {
                    let ghost had = strings(out@);
                    let path = trim_start_text(rest.as_str());
                    out.push(path);
                    assert(strings(out@) =~= had.push(trim_start(rest@)));
                },
                None => {
                    proof {
                        lemma_dirty_stops(all, i + 1, all.len() as int);
                    }
                    return Err(ls[i].clone());
                },
            }
        }
        i = i + 1;
    }
    Ok(out)
}

impl<R: CommandRunner> GitClient<R> {
    /// The last answer.
    pub open spec fn answer(&self) -> Reply {
        self.runner.replies().last()
    }

    pub fn new(runner: R, repo: String) -> (r: Self)
        ensures
            r.runner == runner,
            r.repo == repo,
    {
        GitClient { runner, repo }
    }

    fn run(&mut self, args: &Vec<&str>, timeout: Duration) -> (r: Result<Vec<u8>, GitError>)
        ensures
            git_called(*old(self), *final(self), views(args@), timeout),
            match r {
                Ok(b) => git_outcome(final(self).answer()) == Ok::<Seq<u8>, GitFailure>(b@),
                Err(e) => git_outcome(final(self).answer()) == Err::<Seq<u8>, GitFailure>(e@),
            },
    {
        let req = CommandRequest::new("git").args(args.as_slice()).cwd(self.repo.as_str()).timeout(
            timeout,
        );
        assert(req@.args =~= views(args@));
        match self.runner.run(req) {
            Err(e) => Err(GitError::Command(e)),
            Ok(out) => {
                if out.success() {
                    Ok(out.stdout)
                } else {
                    let stderr = out.stderr_utf8();
                    Err(GitError::Exit { code: out.exit_code, stderr })
                }
            },
        }
    }

    fn run_utf8(&mut self, args: &Vec<&str>) -> (r: Result<String, GitError>)
        ensures
            git_called(*old(self), *final(self), views(args@), Duration::seconds(30)),
            match r {
                Ok(s) => git_text(final(self).answer()) == Ok::<Seq<char>, GitFailure>(s@),
                Err(e) => git_text(final(self).answer()) == Err::<Seq<char>, GitFailure>(e@),
            },
    {
        match self.run(args, Duration::from_secs(30)) {
            Ok(b) => Ok(lossy_text(b.as_slice())),
            Err(e) => Err(e),
        }
    }

    /// Fetches from a remote. It uses the network, and may take two minutes.
    pub fn fetch(&mut self, remote: &str) -> (r: Result<(), GitError>)
        ensures
            git_called(
                *old(self),
                *final(self),
                seq!["fetch"@, "--quiet"@, remote@],
                Duration::seconds(120),
            ),
            match r {
                Ok(_) => git_outcome(final(self).answer()) is Ok,
                Err(e) => git_outcome(final(self).answer()) == Err::<Seq<u8>, GitFailure>(e@),
            },
    {
        let args = vec!["fetch", "--quiet", remote];
        assert(views(args@) =~= seq!["fetch"@, "--quiet"@, remote@]);
        match self.run(&args, Duration::from_secs(120)) {
            Ok(_) => Ok(()),
            Err(e) => Err(e),
        }
    }

    /// The commit that a revision names.
    pub fn rev_parse(&mut self, rev: &str) -> (r: Result<String, GitError>)
        ensures
            git_called(
                *old(self),
                *final(self),
                seq!["rev-parse"@, rev@],
                Duration::seconds(30),
            ),
            match r {
                Ok(s) => git_text(final(self).answer()) matches Ok(t) && s@ == trim(t),
                Err(e) => git_text(final(self).answer()) == Err::<Seq<char>, GitFailure>(e@),
            },
    {
        let args = vec!["rev-parse", rev];
        assert(views(args@) =~= seq!["rev-parse"@, rev@]);
        match self.run_utf8(&args) {
            Ok(t) => Ok(trim_text(t.as_str())),
            Err(e) => Err(e),
        }
    }

    /// The branch that is checked out.
    pub fn head_branch(&mut self) -> (r: Result<String, GitError>)
        ensures
            git_called(
                *old(self),
                *final(self),
                seq!["rev-parse"@, "--abbrev-ref"@, "HEAD"@],
                Duration::seconds(30),
            ),
            match r {
                Ok(s) => git_text(final(self).answer()) matches Ok(t) && s@ == trim(t),
                Err(e) => git_text(final(self).answer()) == Err::<Seq<char>, GitFailure>(e@),
            },
    {
        let args = vec!["rev-parse", "--abbrev-ref", "HEAD"];
        assert(views(args@) =~= seq!["rev-parse"@, "--abbrev-ref"@, "HEAD"@]);
        match self.run_utf8(&args) {
            Ok(t) => Ok(trim_text(t.as_str())),
            Err(e) => Err(e),
        }
    }

    /// How far the checked-out branch and an upstream have moved apart.
    pub fn divergence(&mut self, upstream: &str) -> (r: Result<Divergence, GitError>)
        ensures
            git_called(
                *old(self),
                *final(self),
                seq!["rev-list"@, "--left-right"@, "--count"@, upstream@ + "...HEAD"@],
                Duration::seconds(30),
            ),
            match (git_text(final(self).answer()), r) {
                (Ok(t), Ok(d)) => divergence_of(t) == Ok::<Divergence, GitFailure>(d),
                (Ok(t), Err(e)) => divergence_of(t) == Err::<Divergence, GitFailure>(e@),
                (Err(f), Err(e)) => e@ == f,
                (Err(_), Ok(_)) => false,
            },
    {
        let mut range = upstream.to_owned();
        range.append("...HEAD");
        let args = vec!["rev-list", "--left-right", "--count", range.as_str()];
        assert(views(args@) =~= seq![
            "rev-list"@,
            "--left-right"@,
            "--count"@,
            upstream@ + "...HEAD"@,
        ]);
        match self.run_utf8(&args) {
            Ok(t) => parse_divergence(t.as_str()),
            Err(e) => Err(e),
        }
    }

    /// The files that differ between two revisions.
    pub fn changed_files(&mut self, from: &str, to: &str) -> (r: Result<Vec<String>, GitError>)
        ensures
            git_called(
                *old(self),
                *final(self),
                seq!["diff"@, "--name-only"@, from@ + ".."@ + to@],
                Duration::seconds(30),
            ),
            match r {
                Ok(v) => git_text(final(self).answer()) matches Ok(t) && strings(v@) == bare_lines(
                    t,
                ),
                Err(e) => git_text(final(self).answer()) == Err::<Seq<char>, GitFailure>(e@),
            },
    {
        let mut range = from.to_owned();
        range.append("..");
        range.append(to);
        let args = vec!["diff", "--name-only", range.as_str()];
        assert(views(args@) =~= seq!["diff"@, "--name-only"@, from@ + ".."@ + to@]);
        match self.run_utf8(&args) {
            Ok(t) => Ok(lines(t.as_str())),
            Err(e) => Err(e),
        }
    }

    /// The content of a file at a revision; none where git finds no such file.
    pub fn blob_at(&mut self, rev: &str, rel_path: &str) -> (r: Result<Option<Vec<u8>>, GitError>)
        ensures
            git_called(
                *old(self),
                *final(self),
                seq!["cat-file"@, "blob"@, rev@ + ":"@ + rel_path@],
                Duration::seconds(30),
            ),
            match (git_outcome(final(self).answer()), r) {
                (Ok(b), Ok(Some(v))) => v@ == b,
                (Err(GitFailure::Exit { .. }), Ok(None)) => true,
                (Err(f), Err(e)) => !(f is Exit) && e@ == f,
                _ => false,
            },
    {
        let mut spec_of = rev.to_owned();
        spec_of.append(":");
        spec_of.append(rel_path);
        let args = vec!["cat-file", "blob", spec_of.as_str()];
        assert(views(args@) =~= seq!["cat-file"@, "blob"@, rev@ + ":"@ + rel_path@]);
        match self.run(&args, Duration::from_secs(30)) {
            Ok(b) => Ok(Some(b)),
            Err(GitError::Exit { .. }) => Ok(None),
            Err(e) => Err(e),
        }
    }

    /// How many commits of a range touch a file.
    pub fn commits_touching(&mut self, range: &str, rel_path: &str) -> (r: Result<u32, GitError>)
        ensures
            git_called(
                *old(self),
                *final(self),
                seq!["rev-list"@, "--count"@, range@, "--"@, rel_path@],
                Duration::seconds(30),
            ),
            match (git_text(final(self).answer()), r) {
                (Ok(t), Ok(n)) => count_of(t) == Ok::<u32, GitFailure>(n),
                (Ok(t), Err(e)) => count_of(t) == Err::<u32, GitFailure>(e@),
                (Err(f), Err(e)) => e@ == f,
                (Err(_), Ok(_)) => false,
            },
    {
        let args = vec!["rev-list", "--count", range, "--", rel_path];
        assert(views(args@) =~= seq!["rev-list"@, "--count"@, range@, "--"@, rel_path@]);
        match self.run_utf8(&args) {
            Ok(t) => {
                let trimmed = trim_text(t.as_str());
                match parse_number(trimmed.as_str(), u32::MAX as u64) {
                    Ok(n) => {
                        proof {
                            crate::text::lemma_parsed_bound(trimmed@, u32::MAX as nat);
                        }
                        Ok(n as u32)
                    },
                    Err(e) => Err(
                        GitError::Parse { context: "commits_touching", detail: e.message() },
                    ),
                }
            },
            Err(e) => Err(e),
        }
    }

    /// The files that are changed in the working tree.
    pub fn dirty_files(&mut self) -> (r: Result<Vec<String>, GitError>)
        ensures
            git_called(
                *old(self),
                *final(self),
                seq!["status"@, "--porcelain"@],
                Duration::seconds(30),
            ),
            match (git_text(final(self).answer()), r) {
                (Ok(t), Ok(v)) => dirty_of(bare_lines(t), bare_lines(t).len() as int) == Ok::<
                    Seq<Seq<char>>,
                    Seq<char>,
                >(strings(v@)),
                (Ok(t), Err(e)) => e@ matches GitFailure::Parse { context, detail } && context
                    == "status"@ && dirty_of(bare_lines(t), bare_lines(t).len() as int) == Err::<
                    Seq<Seq<char>>,
                    Seq<char>,
                >(detail),
                (Err(f), Err(e)) => e@ == f,
                (Err(_), Ok(_)) => false,
            },
    {
        let args = vec!["status", "--porcelain"];
        assert(views(args@) =~= seq!["status"@, "--porcelain"@]);
        match self.run_utf8(&args) {
            Ok(t) => match parse_dirty(t.as_str()) {
                Ok(v) => Ok(v),
                Err(detail) => Err(GitError::Parse { context: "status", detail }),
            },
            Err(e) => Err(e),
        }
    }

    /// Stages all changes of the working tree.
    pub fn add_all(&mut self) -> (r: Result<(), GitError>)
        ensures
            git_called(*old(self), *final(self), seq!["add"@, "-A"@], Duration::seconds(30)),
            match r {
                Ok(_) => git_outcome(final(self).answer()) is Ok,
                Err(e) => git_outcome(final(self).answer()) == Err::<Seq<u8>, GitFailure>(e@),
            },
    {
        let args = vec!["add", "-A"];
        assert(views(args@) =~= seq!["add"@, "-A"@]);
        match self.run(&args, Duration::from_secs(30)) {
            Ok(_) => Ok(()),
            Err(e) => Err(e),
        }
    }

    /// Commits what is staged.
    pub fn commit(&mut self, message: &str) -> (r: Result<(), GitError>)
        ensures
            git_called(
                *old(self),
                *final(self),
                seq!["commit"@, "-m"@, message@],
                Duration::seconds(30),
            ),
            match r {
                Ok(_) => git_outcome(final(self).answer()) is Ok,
                Err(e) => git_outcome(final(self).answer()) == Err::<Seq<u8>, GitFailure>(e@),
            },
    {
        let args = vec!["commit", "-m", message];
        assert(views(args@) =~= seq!["commit"@, "-m"@, message@]);
        match self.run(&args, Duration::from_secs(30)) {
            Ok(_) => Ok(()),
            Err(e) => Err(e),
        }
    }

    /// Pushes to a remote. It uses the network, and may take two minutes.
    pub fn push(&mut self, remote: &str) -> (r: Result<(), GitError>)
        ensures
            git_called(
                *old(self),
                *final(self),
                seq!["push"@, remote@],
                Duration::seconds(120),
            ),
            match r {
                Ok(_) => git_outcome(final(self).answer()) is Ok,
                Err(e) => git_outcome(final(self).answer()) == Err::<Seq<u8>, GitFailure>(e@),
            },
    {
        let args = vec!["push", remote];
        assert(views(args@) =~= seq!["push"@, remote@]);
        match self.run(&args, Duration::from_secs(120)) {
            Ok(_) => Ok(()),
            Err(e) => Err(e),
        }
    }
}

/// A line of `git status --porcelain`: two letters, a blank, a path.
pub open spec fn porcelain_line(x: char, y: char, path: Seq<char>) -> Seq<char> {
    seq![x, y, ' '] + path
}

proof fn lemma_dirty_lines(ls: Seq<Seq<char>>, marks: Seq<(char, char)>, paths: Seq<Seq<char>>, n: int)
    requires
        ls.len() == paths.len() == marks.len(),
        0 <= n <= ls.len(),
        forall|k: int|
            0 <= k < ls.len() ==> {
                &&& #[trigger] ls[k] == porcelain_line(marks[k].0, marks[k].1, paths[k])
                &&& (marks[k].0 as u32) < 0x80
                &&& (marks[k].1 as u32) < 0x80
                &&& paths[k].len() > 0
                &&& !crate::text::is_white(paths[k][0])
            },
    ensures
        dirty_of(ls, n) == Ok::<Seq<Seq<char>>, Seq<char>>(paths.take(n)),
    decreases n,
{
    if n == 0 {
        assert(paths.take(0) =~= seq![]);
    } else {
        lemma_dirty_lines(ls, marks, paths, n - 1);
        let k = n - 1;
        assert(ls[k] == porcelain_line(marks[k].0, marks[k].1, paths[k]));
        crate::text::lemma_behind_three(marks[k].0, marks[k].1, ' ', paths[k]);
        encode_utf8_first_scalar(paths[k]);
        assert(trim_start(paths[k]) == paths[k]);
        assert(paths.take(n) =~= paths.take(n - 1).push(paths[k]));
    }
}

/// Every file that `git status --porcelain` lists is read, whatever the two letters say of it:
/// staged, changed, not tracked. None is passed over.
pub proof fn law_listed_files_are_dirty(marks: Seq<(char, char)>, paths: Seq<Seq<char>>)
    requires
        marks.len() == paths.len(),
        forall|k: int|
            0 <= k < paths.len() ==> {
                &&& ((#[trigger] marks[k]).0 as u32) < 0x80 && marks[k].0 != '\n'
                &&& (marks[k].1 as u32) < 0x80 && marks[k].1 != '\n'
            },
        forall|k: int|
            0 <= k < paths.len() ==> {
                &&& (#[trigger] paths[k]).len() > 0
                &&& !crate::text::is_white(paths[k][0])
                &&& crate::merge::fits_a_line(paths[k])
            },
    ensures
        ({
            let lines = Seq::new(
                paths.len(),
                |k: int| porcelain_line(marks[k].0, marks[k].1, paths[k]),
            );
            let text = crate::merge::printed(lines);
            dirty_of(bare_lines(text), bare_lines(text).len() as int) == Ok::<
                Seq<Seq<char>>,
                Seq<char>,
            >(paths)
        }),
{
    let lines = Seq::new(paths.len(), |k: int| porcelain_line(marks[k].0, marks[k].1, paths[k]));
    assert forall|k: int| 0 <= k < lines.len() implies crate::merge::fits_a_line(
        #[trigger] lines[k],
    ) by {
        assert(marks[k].0 != '\n' && marks[k].1 != '\n');
        assert(crate::merge::fits_a_line(paths[k]));
        assert forall|i: int| 0 <= i < lines[k].len() implies lines[k][i] != '\n' by {
            if i >= 3 {
                assert(lines[k][i] == paths[k][i - 3]);
                assert(paths[k].contains(paths[k][i - 3]));
            }
        }
        assert(lines[k].last() == paths[k].last());
    }
    crate::merge::law_printed_lines_are_read_back(lines);
    assert forall|k: int| 0 <= k < lines.len() implies ({
        &&& #[trigger] lines[k] == porcelain_line(marks[k].0, marks[k].1, paths[k])
        &&& (marks[k].0 as u32) < 0x80
        &&& (marks[k].1 as u32) < 0x80
        &&& paths[k].len() > 0
        &&& !crate::text::is_white(paths[k][0])
    }) by {
        assert(marks[k].0 != '\n');
        assert(paths[k].len() > 0);
    }
    lemma_dirty_lines(lines, marks, paths, lines.len() as int);
    assert(paths.take(paths.len() as int) =~= paths);
}

/// The two counts that `git rev-list --left-right --count` prints are read back, first what only
/// the upstream has, then what only we have.
pub proof fn law_printed_divergence_is_read_back(behind: u32, ahead: u32)
    ensures
        divergence_of(
            crate::text::decimal(behind as nat) + seq!['\t'] + crate::text::decimal(ahead as nat)
                + seq!['\n'],
        ) == Ok::<Divergence, GitFailure>(Divergence { behind, ahead }),
{
    let (a, b) = (crate::text::decimal(behind as nat), crate::text::decimal(ahead as nat));
    crate::text::lemma_digits_are_solid(behind as nat);
    crate::text::lemma_digits_are_solid(ahead as nat);
    crate::text::law_words_are_read_back(a, b, '\t', '\n');
    crate::text::law_numbers_round_trip(behind as nat, u32::MAX as nat);
    crate::text::law_numbers_round_trip(ahead as nat, u32::MAX as nat);
}

/// A count that git prints is read back.
pub proof fn law_printed_counts_are_read_back(n: u32)
    ensures
        count_of(crate::text::decimal(n as nat) + seq!['\n']) == Ok::<u32, GitFailure>(n),
{
    crate::text::lemma_digits_are_solid(n as nat);
    crate::text::lemma_trim_solid(crate::text::decimal(n as nat), seq!['\n']);
    crate::text::law_numbers_round_trip(n as nat, u32::MAX as nat);
}

/// A git command succeeds exactly when it ends with code zero, and gives its output unchanged
/// then; else its code and its error text are kept.
pub proof fn law_git_failures_keep_their_error_text(reply: Reply)
    ensures
        match reply {
            Err(e) => git_outcome(reply) == Err::<Seq<u8>, GitFailure>(
                GitFailure::Command { error: e },
            ),
            Ok(out) => git_outcome(reply) == if out.exit_code == 0 {
                Ok::<Seq<u8>, GitFailure>(out.stdout)
            } else {
                Err(GitFailure::Exit { code: out.exit_code, stderr: lossy(out.stderr) })
            },
        },
{
}

} // verus!
