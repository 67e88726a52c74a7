//! Resolving drift: what is done, in which order, and what is told of it.
//!
//! Every change goes the same way: a session is opened in the journal, the files are copied,
//! the decision is written down, the changes are announced; only then something is changed,
//! committed and pushed, the session is closed, and a new scan is asked for. That the source
//! could not be committed or pushed does not undo what was done: it is told as it is.

use vstd::prelude::*;
use vstd::string::*;
use vstd::utf8::*;

use crate::chezmoi::{called, outcome, outcome_text, ChezmoiClient, ChezmoiError, Failure};
use crate::cmd::{added, answered, lemma_one_more_answer, optional, CommandRunner, Duration, Reply};
use crate::git::{failure_words, git_outcome, git_request, GitClient, GitError};
use crate::git::GitFailure;
use crate::ipc::IpcError;
use crate::json::{law_members_are_read_by_name, text_member, Json};
use crate::merge::{histogram_hunks, lines_of, split_lines, views};
use crate::merge_inputs::MergeInputs;
use crate::paths::{extension, extension_of, file_name, file_name_of, is_plain_name, joined};
use crate::paths::law_extensions_stand_behind_the_last_dot;
use crate::proto::{show_reply, shown_reply, Request, Response};
use crate::scanner::dirty_reply;
use crate::template::anchor::{RenderedSpan, SpanMap};
use crate::template::verify::{verify_write_back, VerifyError};
use crate::template::writeback::{addressable, line_edits, write_back, written_back};
use crate::text::{decimal, decimal_text, same, strings, trim};

verus! {

/// A source file is a template where its extension says so.
pub open spec fn templated(path: Seq<char>) -> bool {
    extension(path) == Some("tmpl"@)
}

/// Whether a source file is a template.
pub fn is_templated(source_path: &str) -> (r: bool)
    ensures
        r == templated(source_path@),
{
    match extension_of(source_path) {
        Some(e) => same(e.as_str(), "tmpl"),
        None => false,
    }
}

/// The name of a file: the last part of its path, or the whole path where it has none.
pub open spec fn shown_name(path: Seq<char>) -> Seq<char> {
    match file_name(path) {
        Some(n) => n,
        None => path,
    }
}

/// The name of a file.
pub fn display_name(target: &str) -> (r: String)
    ensures
        r@ == shown_name(target@),
{
    match file_name_of(target) {
        Some(n) => n,
        None => target.to_owned(),
    }
}

/// The message of a commit.
pub fn commit_message(action: &str, target: &str) -> (r: String)
    ensures
        r@ == "tomte: "@ + action@ + " "@ + shown_name(target@),
{
    let mut s = "tomte: ".to_owned();
    s.append(action);
    s.append(" ");
    s.append(display_name(target).as_str());
    s
}

/// A note with one more; the notes are separated.
pub open spec fn noted(note: Option<Seq<char>>, more: Seq<char>) -> Seq<char> {
    match note {
        Some(n) => n + "; "@ + more,
        None => more,
    }
}

/// Adds to a note.
pub fn append_note(note: &mut Option<String>, message: String)
    ensures
        optional(*final(note)) == Some(noted(optional(*old(note)), message@)),
{
    let joined = match note {
        Some(n) => {
            let mut s = n.clone();
            s.append("; ");
            s.append(message.as_str());
            s
        },
        None => message,
    };
    *note = Some(joined);
}

#[derive(Debug)]
pub enum ResolveError {
    Chezmoi(ChezmoiError),
    Git(GitError),
    Ipc(IpcError),
    Journal(String),
    Io(String),
    Failed(String),
}

impl ResolveError {
    pub open spec fn message_spec(self) -> Seq<char> {
        match self {
            ResolveError::Chezmoi(e) => e.message_spec(),
            ResolveError::Git(e) => e.message_spec(),
            ResolveError::Ipc(e) => e.message_spec(),
            ResolveError::Journal(s) => s@,
            ResolveError::Io(s) => s@,
            ResolveError::Failed(s) => s@,
        }
    }

    /// The error in words.
    pub fn message(&self) -> (r: String)
        ensures
            r@ == self.message_spec(),
    {
        match self {
            ResolveError::Chezmoi(e) => e.message(),
            ResolveError::Git(e) => e.message(),
            ResolveError::Ipc(e) => e.message(),
            ResolveError::Journal(s) => s.clone(),
            ResolveError::Io(s) => s.clone(),
            ResolveError::Failed(s) => s.clone(),
        }
    }
}

/// What came of it.
#[derive(Debug, PartialEq, Eq)]
pub enum ResolveOutcome {
    Done { session: i64, committed: bool, pushed: bool, note: Option<String> },
    /// The source is a template: it takes the merge editor, since chezmoi silently leaves
    /// templates alone when a file is added again.
    NeedsMergeEditor,
    /// The text touches what a template computes, or the template does not render to it.
    /// Nothing was changed.
    ProtectedSpan { detail: String },
}

// ---------------------------------------------------------------------------
// Decisions in the journal

/// The members of an object whose values are texts.
pub open spec fn text_members(o: Seq<(String, Json)>) -> Seq<(Seq<char>, Option<Seq<char>>)> {
    o.map_values(|m: (String, Json)| (m.0@, crate::json::text_of(m.1)))
}

/// The document is an object of these texts.
pub open spec fn is_record(j: Json, members: Seq<(Seq<char>, Seq<char>)>) -> bool {
    j matches Json::Object(o) && text_members(o@) == members.map_values(
        |m: (Seq<char>, Seq<char>)| (m.0, Some(m.1)),
    )
}

/// What is written down of a resolution.
pub open spec fn decision_members(
    action: Seq<char>,
    target: Seq<char>,
    dest_blob: Seq<char>,
    source_blob: Option<Seq<char>>,
) -> Seq<(Seq<char>, Seq<char>)> {
    let front = seq![
        ("action"@, action),
        ("target"@, target),
        ("dest_blob"@, dest_blob),
    ];
    match source_blob {
        Some(s) => front.push(("source_blob"@, s)),
        None => front,
    }
}

/// What is written down of a resolution: what was done, to what, and under which hashes the
/// files were copied before.
pub fn build_decision(
    action: &str,
    target: &str,
    dest_blob: &str,
    source_blob: Option<&str>,
) -> (r: Json)
    ensures
        is_record(
            r,
            decision_members(
                action@,
                target@,
                dest_blob@,
                match source_blob {
                    Some(s) => Some(s@),
                    None => None,
                },
            ),
        ),
{
    let mut o: Vec<(String, Json)> = vec![
        ("action".to_owned(), Json::Text(action.to_owned())),
        ("target".to_owned(), Json::Text(target.to_owned())),
        ("dest_blob".to_owned(), Json::Text(dest_blob.to_owned())),
    ];
    match source_blob {
        Some(s) => {
            o.push(("source_blob".to_owned(), Json::Text(s.to_owned())));
        },
        None => {},
    }
    proof {
        let want = decision_members(
            action@,
            target@,
            dest_blob@,
            match source_blob {
                Some(s) => Some(s@),
                None => None,
            },
        ).map_values(|m: (Seq<char>, Seq<char>)| (m.0, Some(m.1)));
        assert(text_members(o@) =~= want);
    }
    Json::Object(o)
}

/// What the first `n` decisions of a session restore: each target to what it was before.
pub open spec fn restores_of(d: Seq<Json>, n: int) -> Seq<(Seq<char>, Seq<char>)>
    decreases n,
{
    if n <= 0 {
        seq![]
    } else {
        let front = restores_of(d, n - 1);
        match (text_member(d[n - 1], "target"@), text_member(d[n - 1], "dest_blob"@)) {
            (Some(t), Some(b)) => front.push((t, b)),
            _ => front,
        }
    }
}

/// What the decisions of a session restore; what is no list restores nothing.
pub open spec fn undo_restores(decisions: Json) -> Seq<(Seq<char>, Seq<char>)> {
    match decisions {
        Json::List(d) => restores_of(d@, d@.len() as int),
        _ => seq![],
    }
}

pub open spec fn pair_views(v: Seq<(String, String)>) -> Seq<(Seq<char>, Seq<char>)> {
    v.map_values(|p: (String, String)| (p.0@, p.1@))
}

/// What the decisions of a session restore: targets, each with the hash under which it was
/// copied. A decision without both restores nothing.
pub fn parse_undo_restores(decisions: &Json) -> (r: Vec<(String, String)>)
    ensures
        pair_views(r@) == undo_restores(*decisions),
{
    let mut out: Vec<(String, String)> = Vec::new();
    assert(pair_views(out@) =~= seq![]);
    match decisions {
        Json::List(d) => {
            let mut i: usize = 0;
            while i < d.len()
                invariant
                    i <= d@.len(),
                    pair_views(out@) == restores_of(d@, i as int),
                decreases d@.len() - i,
            {
                let ghost had = pair_views(out@);
                match (d[i].get_text("target"), d[i].get_text("dest_blob")) {
                    (Some(t), Some(b)) => {
                        out.push((t.clone(), b.clone()));
                        assert(pair_views(out@) =~= had.push((t@, b@)));
                    },
                    _ => {},
                }
                i = i + 1;
            }
        },
        _ => {},
    }
    out
}

/// A decision that was written down restores its target from the copy that was made of it.
pub proof fn law_decisions_can_be_undone(
    j: Json,
    action: Seq<char>,
    target: Seq<char>,
    dest_blob: Seq<char>,
    source_blob: Option<Seq<char>>,
)
    requires
        is_record(j, decision_members(action, target, dest_blob, source_blob)),
    ensures
        restores_of(seq![j], 1) == seq![(target, dest_blob)],
{
    let members = decision_members(action, target, dest_blob, source_blob);
    let want = members.map_values(|m: (Seq<char>, Seq<char>)| (m.0, Some(m.1)));
    match j {
        Json::Object(o) => {
            let all = text_members(o@);
            assert(all == want);
            assert(o@.len() == all.len());
            assert(all[0] == want[0] && all[1] == want[1] && all[2] == want[2]);
            assert(o@[0].0@ == "action"@);
            assert(o@[1].0@ == "target"@);
            assert(o@[2].0@ == "dest_blob"@);
            reveal_strlit("action");
            reveal_strlit("target");
            reveal_strlit("dest_blob");
            assert("action"@ != "target"@) by {
                assert("action"@[0] != "target"@[0]);
            }
            assert("action"@ != "dest_blob"@) by {
                assert("action"@[0] != "dest_blob"@[0]);
            }
            assert("target"@ != "dest_blob"@) by {
                assert("target"@[0] != "dest_blob"@[0]);
            }
            reveal_with_fuel(crate::json::member_from, 4);
            assert(text_member(j, "target"@) == Some(target));
            assert(text_member(j, "dest_blob"@) == Some(dest_blob));
        },
        _ => {},
    }
    reveal_with_fuel(restores_of, 2);
    assert(restores_of(seq![j], 1) =~= seq![(target, dest_blob)]);
}

// ---------------------------------------------------------------------------
// Committing

/// What became of the source repository.
#[derive(Debug)]
pub struct CommitReport {
    pub committed: bool,
    pub pushed: bool,
    pub note: Option<String>,
}

/// What became of it, as the model has it.
pub struct Report {
    pub committed: bool,
    pub pushed: bool,
    pub note: Option<Seq<char>>,
}

impl View for CommitReport {
    type V = Report;

    open spec fn view(&self) -> Report {
        Report { committed: self.committed, pushed: self.pushed, note: optional(self.note) }
    }
}

/// What became of a push.
pub open spec fn pushed_report(answer: Reply) -> Report {
    match git_outcome(answer) {
        Ok(_) => Report { committed: true, pushed: true, note: None },
        Err(f) => Report {
            committed: true,
            pushed: false,
            note: Some("push failed: "@ + failure_words(f)),
        },
    }
}

/// A commit that could not be made.
pub open spec fn uncommitted(what: Seq<char>, f: GitFailure) -> Report {
    Report { committed: false, pushed: false, note: Some(what + failure_words(f)) }
}

/// What the answers of git come to. A clean repository counts as committed: chezmoi has done
/// it, or there was nothing to commit. Only what is committed is pushed.
pub open spec fn commit_report(answers: Seq<Reply>) -> Report {
    match dirty_reply(answers[0]) {
        Err(f) => uncommitted("could not check source repo: "@, f),
        Ok(dirty) => if dirty.len() == 0 {
            pushed_report(answers[1])
        } else {
            match git_outcome(answers[1]) {
                Err(f) => uncommitted("commit failed: "@, f),
                Ok(_) => match git_outcome(answers[2]) {
                    Err(f) => uncommitted("commit failed: "@, f),
                    Ok(_) => pushed_report(answers[3]),
                },
            }
        },
    }
}

/// The calls that lead there: none after one that failed.
pub open spec fn commit_calls(
    repo: Seq<char>,
    message: Seq<char>,
    answers: Seq<Reply>,
) -> Seq<crate::cmd::Request> {
    let short = Duration::seconds(30);
    let status = git_request(repo, seq!["status"@, "--porcelain"@], short);
    let add = git_request(repo, seq!["add"@, "-A"@], short);
    let commit = git_request(repo, seq!["commit"@, "-m"@, message], short);
    let push = git_request(repo, seq!["push"@, "origin"@], Duration::seconds(120));
    match dirty_reply(answers[0]) {
        Err(_) => seq![status],
        Ok(dirty) => if dirty.len() == 0 {
            seq![status, push]
        } else if git_outcome(answers[1]) is Err {
            seq![status, add]
        } else if git_outcome(answers[2]) is Err {
            seq![status, add, commit]
        } else {
            seq![status, add, commit, push]
        },
    }
}

fn push_phase<R: CommandRunner>(git: &mut GitClient<R>) -> (r: CommitReport)
    ensures
        crate::git::git_called(
            *old(git),
            *final(git),
            seq!["push"@, "origin"@],
            Duration::seconds(120),
        ),
        r@ == pushed_report(final(git).answer()),
{
    match git.push("origin") {
        Ok(_) => CommitReport { committed: true, pushed: true, note: None },
        Err(e) => {
            let mut s = "push failed: ".to_owned();
            s.append(e.message().as_str());
            let mut note = None;
            append_note(&mut note, s);
            CommitReport { committed: true, pushed: false, note }
        },
    }
}

fn not_committed(what: &str, e: GitError) -> (r: CommitReport)
    ensures
        r@ == uncommitted(what@, e@),
{
    let mut s = what.to_owned();
    s.append(e.message().as_str());
    let mut note = None;
    append_note(&mut note, s);
    CommitReport { committed: false, pushed: false, note }
}

/// Commits what is left uncommitted in the source repository, and pushes it. What fails does
/// not fail the resolution: it is reported.
#[verifier::spinoff_prover]
pub fn commit_phase<R: CommandRunner>(git: &mut GitClient<R>, action: &str, target: &str) -> (r:
    CommitReport)
    ensures
        final(git).repo == old(git).repo,
        ({
            let answers = added(old(git).runner.replies(), final(git).runner.replies());
            let message = "tomte: "@ + action@ + " "@ + shown_name(target@);
            let calls = commit_calls(old(git).repo@, message, answers);
            &&& final(git).runner.sent() == old(git).runner.sent() + calls
            &&& final(git).runner.replies() == old(git).runner.replies() + answers
            &&& answered(old(git).runner, calls, answers, final(git).runner)
            &&& r@ == commit_report(answers)
        }),
{
    let ghost (s0, r0) = (git.runner.sent(), git.runner.replies());
    let ghost w0 = git.runner;
    let ghost status = git_request(
        git.repo@,
        seq!["status"@, "--porcelain"@],
        Duration::seconds(30),
    );
    let ghost push = git_request(git.repo@, seq!["push"@, "origin"@], Duration::seconds(120));
    let dirty = git.dirty_files();
    let ghost w1 = git.runner;
    proof {
        assert(added(r0, git.runner.replies()) =~= seq![git.answer()]);
        lemma_one_more_answer(w0, w0, w1, seq![], seq![], status, git.answer());
        assert(seq![].push(status) =~= seq![status]);
        assert(seq![].push(git.answer()) =~= seq![git.answer()]);
    }
    let dirty = match dirty {
        Ok(d) => d,
        Err(e) => {
            return not_committed("could not check source repo: ", e);
        },
    };
    let ghost a0 = git.answer();
    assert(strings(dirty@).len() == dirty@.len());
    if dirty.len() == 0 {
        let report = push_phase(git);
        proof {
            let a = git.answer();
            assert(added(r0, git.runner.replies()) =~= seq![a0, a]);
            lemma_one_more_answer(w0, w1, git.runner, seq![status], seq![a0], push, a);
            assert(seq![status].push(push) =~= seq![status, push]);
            assert(seq![a0].push(a) =~= seq![a0, a]);
        }
        return report;
    }
    let message = commit_message(action, target);
    let ghost add = git_request(git.repo@, seq!["add"@, "-A"@], Duration::seconds(30));
    let ghost commit = git_request(
        git.repo@,
        seq!["commit"@, "-m"@, message@],
        Duration::seconds(30),
    );
    let staged = git.add_all();
    let ghost a1 = git.answer();
    let ghost w2 = git.runner;
    proof {
        assert(added(r0, git.runner.replies()) =~= seq![a0, a1]);
        lemma_one_more_answer(w0, w1, w2, seq![status], seq![a0], add, a1);
        assert(seq![status].push(add) =~= seq![status, add]);
        assert(seq![a0].push(a1) =~= seq![a0, a1]);
    }
    match staged {
        Ok(_) => {},
        Err(e) => {
            return not_committed("commit failed: ", e);
        },
    }
    let made = git.commit(message.as_str());
    let ghost a2 = git.answer();
    let ghost w3 = git.runner;
    proof {
        assert(added(r0, git.runner.replies()) =~= seq![a0, a1, a2]);
        lemma_one_more_answer(w0, w2, w3, seq![status, add], seq![a0, a1], commit, a2);
        assert(seq![status, add].push(commit) =~= seq![status, add, commit]);
        assert(seq![a0, a1].push(a2) =~= seq![a0, a1, a2]);
    }
    match made {
        Ok(_) => {},
        Err(e) => {
            return not_committed("commit failed: ", e);
        },
    }
    let report = push_phase(git);
    proof {
        let a = git.answer();
        assert(added(r0, git.runner.replies()) =~= seq![a0, a1, a2, a]);
        let (reqs, replies) = (seq![status, add, commit], seq![a0, a1, a2]);
        lemma_one_more_answer(w0, w3, git.runner, reqs, replies, push, a);
        assert(reqs.push(push) =~= seq![status, add, commit, push]);
        assert(replies.push(a) =~= seq![a0, a1, a2, a]);
    }
    report
}

/// A push follows only a commit, and a failure is always told.
pub proof fn law_commit_reports_are_honest(answers: Seq<Reply>)
    ensures
        commit_report(answers).pushed ==> commit_report(answers).committed,
        !commit_report(answers).pushed <==> commit_report(answers).note is Some,
{
}

// ---------------------------------------------------------------------------
// Writing a template back

/// What came of writing a text back into a template.
#[derive(Debug, PartialEq, Eq)]
pub enum WriteBackAttempt {
    /// The new template renders to the text.
    Verified(String),
    /// Why it cannot be written.
    Rejected(String),
}

/// What came of writing a text back into its template, with what chezmoi was asked for it. A
/// new template is given only where it renders to just that text.
pub open spec fn tried<R: CommandRunner>(
    before: ChezmoiClient<R>,
    after: ChezmoiClient<R>,
    template: Seq<char>,
    spans: Seq<RenderedSpan>,
    theirs: Seq<char>,
    resolved: Seq<char>,
    r: Result<WriteBackAttempt, ResolveError>,
) -> bool {
    let (a, b) = (lines_of(theirs), lines_of(resolved));
    match written_back(
        encode_utf8(template),
        spans,
        line_edits(a, b, histogram_hunks(a, b)),
    ) {
        Err(e) => {
            &&& after == before
            &&& r matches Ok(WriteBackAttempt::Rejected(detail))
            &&& detail@ == e.message_spec()
        },
        Ok(new) => {
            &&& called(
                before,
                after,
                seq!["execute-template"@],
                Some(new),
                before.opts.timeout,
            )
            &&& match outcome(after.answer()) {
                Ok(out) => if out == encode_utf8(resolved) {
                    r matches Ok(WriteBackAttempt::Verified(text)) && encode_utf8(text@)
                        == new
                } else {
                    r matches Ok(WriteBackAttempt::Rejected(detail)) && detail@
                        == "re-rendered template does not match the resolved text"@
                },
                Err(f) => r matches Err(ResolveError::Chezmoi(e)) && e@ == f,
            }
        },
    }
}

/// Writes a text back into a template, in memory, and renders the new template to see that it
/// gives that text. Only then it is verified. An edit that has no place is rejected before
/// anything is called.
pub fn write_back_verified<R: CommandRunner>(
    chezmoi: &mut ChezmoiClient<R>,
    template: &str,
    span_map: &SpanMap,
    theirs: &str,
    resolved: &str,
) -> (r: Result<WriteBackAttempt, ResolveError>)
    requires
        addressable(span_map.spans@),
        lines_of(theirs@).len() + lines_of(resolved@).len() < 0x7fff_ffff,
    ensures
        tried(
            *old(chezmoi),
            *final(chezmoi),
            template@,
            span_map.spans@,
            theirs@,
            resolved@,
            r,
        ),
{
    let new_template = match write_back(template, span_map, theirs, resolved) {
        Ok(t) => t,
        Err(e) => {
            return Ok(WriteBackAttempt::Rejected(e.message()));
        },
    };
    match verify_write_back(chezmoi, new_template.as_str(), resolved) {
        Ok(_) => Ok(WriteBackAttempt::Verified(new_template)),
        Err(VerifyError::Chezmoi(e)) => Err(ResolveError::Chezmoi(e)),
        Err(e) => Ok(WriteBackAttempt::Rejected(e.message())),
    }
}

// ---------------------------------------------------------------------------
// Replies of the daemon

/// The error is what a reply that was not expected comes to.
pub open spec fn is_unexpected(e: ResolveError, what: Seq<char>, reply: Response) -> bool {
    e matches ResolveError::Failed(m) && m@ == what + ": "@ + match reply {
        Response::Error { message } => message@,
        other => "unexpected reply "@ + shown_reply(other),
    }
}

fn unexpected(what: &str, reply: Response) -> (e: ResolveError)
    ensures
        is_unexpected(e, what@, reply),
{
    let mut m = what.to_owned();
    m.append(": ");
    match reply {
        Response::Error { message } => {
            m.append(message.as_str());
        },
        other => {
            let mut tail = "unexpected reply ".to_owned();
            tail.append(show_reply(&other).as_str());
            m.append(tail.as_str());
        },
    }
    ResolveError::Failed(m)
}

/// The error is what a reply comes to that is none, or not the one that was expected.
pub open spec fn reply_failed(
    e: ResolveError,
    what: Seq<char>,
    reply: Result<Response, IpcError>,
) -> bool {
    match reply {
        Err(ipc) => e == ResolveError::Ipc(ipc),
        Ok(response) => is_unexpected(e, what, response),
    }
}

/// The daemon did as it was asked.
pub fn expect_ok(what: &str, reply: Result<Response, IpcError>) -> (r: Result<(), ResolveError>)
    ensures
        match r {
            Ok(_) => reply == Ok::<Response, IpcError>(Response::Done),
            Err(e) => reply != Ok::<Response, IpcError>(Response::Done) && reply_failed(
                e,
                what@,
                reply,
            ),
        },
{
    match reply {
        Err(e) => Err(ResolveError::Ipc(e)),
        Ok(Response::Done) => Ok(()),
        Ok(other) => Err(unexpected(what, other)),
    }
}

/// The session that the daemon has opened.
pub fn expect_session(reply: Result<Response, IpcError>) -> (r: Result<i64, ResolveError>)
    ensures
        match r {
            Ok(session) => reply == Ok::<Response, IpcError>(Response::SessionStarted { session }),
            Err(e) => !(reply matches Ok(Response::SessionStarted { .. })) && reply_failed(
                e,
                "session start"@,
                reply,
            ),
        },
{
    match reply {
        Err(e) => Err(ResolveError::Ipc(e)),
        Ok(Response::SessionStarted { session }) => Ok(session),
        Ok(other) => Err(unexpected("session start", other)),
    }
}

/// The error is that the daemon copied another number of files than it was asked for.
pub open spec fn wrong_blobs(e: ResolveError, got: nat, want: nat) -> bool {
    e matches ResolveError::Failed(m) && m@ == "snapshot returned "@ + decimal(got)
        + " blobs for "@ + (if want == 1 {
        "1 path"@
    } else {
        decimal(want) + " paths"@
    })
}

/// The hashes under which the daemon has copied `want` files.
pub fn expect_blobs(reply: Result<Response, IpcError>, want: usize) -> (r: Result<
    Vec<String>,
    ResolveError,
>)
    ensures
        match r {
            Ok(hashes) => reply == Ok::<Response, IpcError>(Response::Blobs { hashes })
                && hashes@.len() == want,
            Err(e) => match reply {
                Ok(Response::Blobs { hashes }) => hashes@.len() != want && wrong_blobs(
                    e,
                    hashes@.len(),
                    want as nat,
                ),
                _ => reply_failed(e, "snapshot blobs"@, reply),
            },
        },
{
    match reply {
        Err(e) => Err(ResolveError::Ipc(e)),
        Ok(Response::Blobs { hashes }) => {
            if hashes.len() == want {
                return Ok(hashes);
            }
            let mut m = "snapshot returned ".to_owned();
            m.append(decimal_text(hashes.len() as u64).as_str());
            m.append(" blobs for ");
            if want == 1 {
                m.append("1 path");
            } else {
                let mut tail = decimal_text(want as u64);
                tail.append(" paths");
                m.append(tail.as_str());
            }
            Err(ResolveError::Failed(m))
        },
        Ok(other) => Err(unexpected("snapshot blobs", other)),
    }
}

// ---------------------------------------------------------------------------
// The steps of a resolution

/// How long the daemon takes announced changes for ours, in seconds.
pub const EXPECT_TTL_SECS: u32 = 60;

/// What is done about a target.
#[derive(Debug, Clone, Copy, PartialEq, Eq, Structural)]
pub enum Action {
    /// The file on disk is added to the source again.
    KeepDisk,
    /// The file on disk is written anew from the source.
    KeepSource,
    /// A merged text is written into the source, and from there to the disk.
    Merge,
    /// The remote is pulled, and everything is written.
    SyncAll,
}

impl Action {
    pub open spec fn words(self) -> Seq<char> {
        match self {
            Action::KeepDisk => "keep_disk"@,
            Action::KeepSource => "keep_source"@,
            Action::Merge => "merge"@,
            Action::SyncAll => "sync_all"@,
        }
    }

    /// The name of the action in the journal.
    pub fn name(self) -> (r: &'static str)
        ensures
            r@ == self.words(),
    {
        match self {
            Action::KeepDisk => "keep_disk",
            Action::KeepSource => "keep_source",
            Action::Merge => "merge",
            Action::SyncAll => "sync_all",
        }
    }
}

/// What is to be resolved. Without a target, for everything.
#[derive(Debug)]
pub struct Job {
    pub action: Action,
    pub target: String,
    pub source: String,
    /// The source is a template.
    pub templated: bool,
    /// It is known which rendered bytes the template holds.
    pub anchored: bool,
    /// The merged text.
    pub resolved: String,
}

impl Job {
    /// Everything is pulled and written.
    pub fn sync_all() -> (r: Self)
        ensures
            r.action == Action::SyncAll,
    {
        Job {
            action: Action::SyncAll,
            target: String::new(),
            source: String::new(),
            templated: false,
            anchored: false,
            resolved: String::new(),
        }
    }

    /// The file on disk is written anew from the source.
    pub fn keep_source(target: &str) -> (r: Self)
        ensures
            r.action == Action::KeepSource,
            r.target@ == target@,
    {
        Job {
            action: Action::KeepSource,
            target: target.to_owned(),
            source: String::new(),
            templated: false,
            anchored: false,
            resolved: String::new(),
        }
    }

    /// A merged text is written into the source.
    pub fn merge(inputs: &crate::merge_inputs::MergeInputs, resolved: &str) -> (r: Self)
        ensures
            r.action == Action::Merge,
            r.target@ == inputs.target@,
            r.source@ == inputs.source_path@,
            r.templated == inputs.templated,
            r.anchored == inputs.span_map is Some,
            r.resolved@ == resolved@,
    {
        Job {
            action: Action::Merge,
            target: inputs.target.clone(),
            source: inputs.source_path.clone(),
            templated: inputs.templated,
            anchored: inputs.span_map.is_some(),
            resolved: resolved.to_owned(),
        }
    }

    /// The file on disk is added to the source again. A template has no such job.
    pub fn keep_disk<R: CommandRunner>(chezmoi: &mut ChezmoiClient<R>, target: &str) -> (r: Result<
        Option<Self>,
        ResolveError,
    >)
        ensures
            called(
                *old(chezmoi),
                *final(chezmoi),
                seq!["source-path"@, target@],
                None,
                old(chezmoi).opts.timeout,
            ),
            match outcome_text(final(chezmoi).answer()) {
                Err(f) => r matches Err(ResolveError::Chezmoi(e)) && e@ == f,
                Ok(p) => if templated(trim(p)) {
                    r == Ok::<Option<Job>, ResolveError>(None)
                } else {
                    r matches Ok(Some(job)) && job.action == Action::KeepDisk && job.target@
                        == target@ && job.source@ == trim(p) && !job.templated
                },
            },
    {
        let source = match chezmoi.source_path(target) {
            Ok(p) => p,
            Err(e) => {
                return Err(ResolveError::Chezmoi(e));
            },
        };
        if is_templated(source.as_str()) {
            return Ok(None);
        }
        Ok(
            Some(
                Job {
                    action: Action::KeepDisk,
                    target: target.to_owned(),
                    source,
                    templated: false,
                    anchored: false,
                    resolved: String::new(),
                },
            ),
        )
    }

    /// The files that are touched.
    pub open spec fn touched(self) -> Seq<Seq<char>> {
        match self.action {
            Action::KeepDisk => seq![self.target@, self.source@],
            Action::Merge => seq![self.target@, self.source@],
            Action::KeepSource => seq![self.target@],
            Action::SyncAll => seq![],
        }
    }

    fn touches(&self) -> (r: Vec<String>)
        ensures
            strings(r@) == self.touched(),
    {
        let mut v: Vec<String> = Vec::new();
        match self.action {
            Action::KeepDisk => {
                v.push(self.target.clone());
                v.push(self.source.clone());
            },
            Action::Merge => {
                v.push(self.target.clone());
                v.push(self.source.clone());
            },
            Action::KeepSource => {
                v.push(self.target.clone());
            },
            Action::SyncAll => {},
        }
        assert(strings(v@) =~= self.touched());
        v
    }

    /// What the session is called when it is closed.
    pub open spec fn summary_of(self) -> Seq<char> {
        match self.action {
            Action::SyncAll => "sync_all"@,
            a => a.words() + " "@ + shown_name(self.target@),
        }
    }

    fn summary(&self) -> (r: String)
        ensures
            r@ == self.summary_of(),
    {
        match self.action {
            Action::SyncAll => "sync_all".to_owned(),
            a => {
                let mut s = a.name().to_owned();
                s.append(" ");
                s.append(display_name(self.target.as_str()).as_str());
                s
            },
        }
    }
}

/// How far a resolution is: what is to be done next.
#[derive(Debug, Clone, Copy, PartialEq, Eq, Structural)]
pub enum Stage {
    Start,
    Snapshot,
    Decide,
    Announce,
    ReadTemplate,
    Attempt,
    Write,
    Mutate,
    Commit,
    End,
    Rescan,
    Finished,
    /// The text was rejected: that is written down too.
    DecideRejected,
    EndRejected,
    Refused,
}

/// A resolution on its way.
#[derive(Debug)]
pub struct Resolving {
    pub job: Job,
    pub stage: Stage,
    pub session: i64,
    /// The hashes of the copies.
    pub blobs: Vec<String>,
    /// The template that was read, and then the text to write.
    pub text: String,
    /// Why the text was rejected.
    pub detail: String,
    pub report: CommitReport,
}

/// What to do next.
#[derive(Debug)]
pub enum Step {
    Ask(Request),
    ReadTemplate { path: String },
    Attempt { template: String },
    WriteSource { path: String, text: String },
    ReAdd { target: String },
    Apply { target: String },
    Update,
    Commit { action: &'static str, target: String },
    Finish(ResolveOutcome),
}

/// What came of it.
#[derive(Debug)]
pub enum Came {
    Reply(Result<Response, IpcError>),
    Read(Result<String, String>),
    Attempted(Result<WriteBackAttempt, ResolveError>),
    Wrote(Result<(), String>),
    Ran(Result<(), ChezmoiError>),
    Committed(CommitReport),
}

/// What comes of the step of a stage.
pub open spec fn fits(stage: Stage, came: Came) -> bool {
    match stage {
        Stage::ReadTemplate => came is Read,
        Stage::Attempt => came is Attempted,
        Stage::Write => came is Wrote,
        Stage::Mutate => came is Ran,
        Stage::Commit => came is Committed,
        Stage::Finished => false,
        Stage::Refused => false,
        _ => came is Reply,
    }
}

/// What came is what was hoped for.
pub open spec fn succeeded(x: Resolving, came: Came) -> bool {
    match came {
        Came::Reply(reply) => match x.stage {
            Stage::Start => reply matches Ok(Response::SessionStarted { .. }),
            Stage::Snapshot => reply matches Ok(Response::Blobs { hashes }) && hashes@.len()
                == x.job.touched().len(),
            Stage::Announce => reply == Ok::<Response, IpcError>(Response::Done) && !(x.job.action
                == Action::Merge && x.job.templated && !x.job.anchored),
            _ => reply == Ok::<Response, IpcError>(Response::Done),
        },
        Came::Read(r) => r is Ok,
        Came::Attempted(r) => r is Ok,
        Came::Wrote(r) => r is Ok,
        Came::Ran(r) => r is Ok,
        Came::Committed(_) => true,
    }
}

/// The stage that follows.
pub open spec fn following(job: Job, stage: Stage, came: Came) -> Stage {
    match stage {
        Stage::Start => if job.action == Action::SyncAll {
            Stage::Decide
        } else {
            Stage::Snapshot
        },
        Stage::Snapshot => Stage::Decide,
        Stage::Decide => if job.action == Action::SyncAll {
            Stage::Mutate
        } else {
            Stage::Announce
        },
        Stage::Announce => if job.action != Action::Merge {
            Stage::Mutate
        } else if job.templated {
            Stage::ReadTemplate
        } else {
            Stage::Write
        },
        Stage::ReadTemplate => Stage::Attempt,
        Stage::Attempt => if came matches Came::Attempted(Ok(WriteBackAttempt::Rejected(_))) {
            Stage::DecideRejected
        } else {
            Stage::Write
        },
        Stage::Write => Stage::Mutate,
        Stage::Mutate => if job.action == Action::KeepDisk || job.action == Action::Merge {
            Stage::Commit
        } else {
            Stage::End
        },
        Stage::Commit => Stage::End,
        Stage::End => Stage::Rescan,
        Stage::Rescan => Stage::Finished,
        Stage::DecideRejected => Stage::EndRejected,
        Stage::EndRejected => Stage::Refused,
        Stage::Finished => Stage::Finished,
        Stage::Refused => Stage::Refused,
    }
}

/// What the daemon is asked at a stage.
pub open spec fn stage_words(stage: Stage) -> Seq<char> {
    match stage {
        Stage::Start => "session start"@,
        Stage::Snapshot => "snapshot blobs"@,
        Stage::Announce => "expect changes"@,
        Stage::End => "session end"@,
        Stage::EndRejected => "session end"@,
        Stage::Rescan => "rescan"@,
        _ => "session decision"@,
    }
}

/// Why the resolution ends here.
pub open spec fn failed_with(x: Resolving, came: Came, e: ResolveError) -> bool {
    match came {
        Came::Reply(reply) => match (x.stage, reply) {
            (Stage::Snapshot, Ok(Response::Blobs { hashes })) => wrong_blobs(
                e,
                hashes@.len(),
                x.job.touched().len(),
            ),
            (Stage::Announce, Ok(Response::Done)) => e matches ResolveError::Failed(m) && m@
                == "templated merge inputs for "@ + shown_name(x.job.target@)
                + " carry no span map"@,
            (stage, _) => reply_failed(e, stage_words(stage), reply),
        },
        Came::Read(r) => r matches Err(s) && e == ResolveError::Io(s),
        Came::Attempted(r) => r matches Err(why) && e == why,
        Came::Wrote(r) => r matches Err(s) && e == ResolveError::Io(s),
        Came::Ran(r) => r matches Err(why) && if x.job.action == Action::SyncAll {
            e matches ResolveError::Failed(m) && m@ == why.message_spec()
        } else {
            e == ResolveError::Chezmoi(why)
        },
        Came::Committed(_) => false,
    }
}

/// The resolution as it goes on.
pub open spec fn goes_on(x: Resolving, came: Came, next: Resolving) -> bool {
    &&& next.job == x.job
    &&& next.stage == following(x.job, x.stage, came)
    &&& next.session == match came {
        Came::Reply(Ok(Response::SessionStarted { session })) => session,
        _ => x.session,
    }
    &&& next.blobs == match came {
        Came::Reply(Ok(Response::Blobs { hashes })) => hashes,
        _ => x.blobs,
    }
    &&& next.text@ == match came {
        Came::Read(Ok(t)) => t@,
        Came::Attempted(Ok(WriteBackAttempt::Verified(t))) => t@,
        Came::Reply(_) => if x.stage == Stage::Announce {
            x.job.resolved@
        } else {
            x.text@
        },
        _ => x.text@,
    }
    &&& next.detail@ == match came {
        Came::Attempted(Ok(WriteBackAttempt::Rejected(d))) => d@,
        _ => x.detail@,
    }
    &&& next.report@ == match came {
        Came::Committed(report) => report@,
        _ => x.report@,
    }
}

/// The step is what the stage asks for.
pub open spec fn is_step(x: Resolving, now: u64, step: Step) -> bool {
    let job = x.job;
    match x.stage {
        Stage::Start => step matches Step::Ask(Request::SessionStart { ts }) && ts == now,
        Stage::Snapshot => step matches Step::Ask(Request::SnapshotBlobs { paths }) && strings(
            paths@,
        ) == job.touched(),
        Stage::Decide => step matches Step::Ask(
            Request::SessionDecision { session, decision },
        ) && session == x.session && is_record(
            decision,
            if job.action == Action::SyncAll {
                seq![("action"@, "sync_all"@)]
            } else {
                decision_members(
                    job.action.words(),
                    job.target@,
                    x.blobs@[0]@,
                    if job.touched().len() > 1 {
                        Some(x.blobs@[1]@)
                    } else {
                        None
                    },
                )
            },
        ),
        Stage::Announce => step matches Step::Ask(Request::ExpectChanges { paths, ttl_secs })
            && strings(paths@) == job.touched() && ttl_secs == EXPECT_TTL_SECS,
        Stage::ReadTemplate => step matches Step::ReadTemplate { path } && path@ == job.source@,
        Stage::Attempt => step matches Step::Attempt { template } && template@ == x.text@,
        Stage::Write => step matches Step::WriteSource { path, text } && path@ == job.source@
            && text@ == x.text@,
        Stage::Mutate => match job.action {
            Action::KeepDisk => step matches Step::ReAdd { target } && target@ == job.target@,
            Action::SyncAll => step is Update,
            _ => step matches Step::Apply { target } && target@ == job.target@,
        },
        Stage::Commit => step matches Step::Commit { action, target } && action@
            == job.action.words() && target@ == job.target@,
        Stage::End => step matches Step::Ask(Request::SessionEnd { session, ts, summary })
            && session == x.session && ts == now && summary@ == job.summary_of(),
        Stage::Rescan => step == Step::Ask(Request::Rescan),
        Stage::Finished => step matches Step::Finish(
            ResolveOutcome::Done { session, committed, pushed, note },
        ) && session == x.session && committed == x.report.committed && pushed
            == x.report.pushed && optional(note) == optional(x.report.note),
        Stage::DecideRejected => step matches Step::Ask(
            Request::SessionDecision { session, decision },
        ) && session == x.session && is_record(
            decision,
            seq![
                ("action"@, "merge_rejected"@),
                ("target"@, job.target@),
                ("detail"@, x.detail@),
            ],
        ),
        Stage::EndRejected => step matches Step::Ask(
            Request::SessionEnd { session, ts, summary },
        ) && session == x.session && ts == now && summary@ == "merge rejected (protected span) "@
            + shown_name(job.target@),
        Stage::Refused => step matches Step::Finish(ResolveOutcome::ProtectedSpan { detail })
            && detail@ == x.detail@,
    }
}

fn record_of(members: &Vec<(&str, &str)>) -> (r: Json)
    ensures
        is_record(
            r,
            members@.map_values(|m: (&str, &str)| (m.0@, m.1@)),
        ),
{
    let mut o: Vec<(String, Json)> = Vec::new();
    let ghost want = members@.map_values(|m: (&str, &str)| (m.0@, m.1@)).map_values(
        |m: (Seq<char>, Seq<char>)| (m.0, Some(m.1)),
    );
    let mut i: usize = 0;
    while i < members.len()
        invariant
            i <= members@.len(),
            want == members@.map_values(|m: (&str, &str)| (m.0@, m.1@)).map_values(
                |m: (Seq<char>, Seq<char>)| (m.0, Some(m.1)),
            ),
            o@.len() == i,
            forall|k: int| 0 <= k < i ==> #[trigger] text_members(o@)[k] == want[k],
        decreases members@.len() - i,
    {
        let ghost had = o@;
        let m = members[i];
        o.push((m.0.to_owned(), Json::Text(m.1.to_owned())));
        assert forall|k: int| 0 <= k < i + 1 implies #[trigger] text_members(o@)[k]
            == want[k] by {
            if k < i {
                assert(text_members(o@)[k] == text_members(had)[k]);
            }
        }
        i = i + 1;
    }
    assert(text_members(o@) =~= want);
    Json::Object(o)
}

impl Resolving {
    /// Tries to write the merged text back into the template that was read. Without a map of
    /// the template, or with too many lines to compare, that fails.
    pub fn attempt<R: CommandRunner>(
        &self,
        chezmoi: &mut ChezmoiClient<R>,
        inputs: &MergeInputs,
    ) -> (r: Came)
        requires
            inputs.span_map matches Some(map) ==> addressable(map.spans@),
        ensures
            r matches Came::Attempted(attempt) && match inputs.span_map {
                Some(map) => if lines_of(inputs.theirs@).len() + lines_of(
                    self.job.resolved@,
                ).len() < 0x7fff_ffff {
                    tried(
                        *old(chezmoi),
                        *final(chezmoi),
                        self.text@,
                        map.spans@,
                        inputs.theirs@,
                        self.job.resolved@,
                        attempt,
                    )
                } else {
                    &&& *final(chezmoi) == *old(chezmoi)
                    &&& attempt matches Err(ResolveError::Failed(m))
                    &&& m@ == "too many lines to compare"@
                },
                None => {
                    &&& *final(chezmoi) == *old(chezmoi)
                    &&& attempt matches Err(ResolveError::Failed(m))
                    &&& m@ == "no template to write to"@
                },
            },
    {
        match &inputs.span_map {
            None => Came::Attempted(
                Err(ResolveError::Failed("no template to write to".to_owned())),
            ),
            Some(map) => {
                let theirs = split_lines(inputs.theirs.as_str());
                let resolved = split_lines(self.job.resolved.as_str());
                assert(views(theirs@).len() == theirs@.len());
                assert(views(resolved@).len() == resolved@.len());
                let lines: u128 = theirs.len() as u128 + resolved.len() as u128;
                if lines >= 0x7fff_ffff {
                    return Came::Attempted(
                        Err(ResolveError::Failed("too many lines to compare".to_owned())),
                    );
                }
                Came::Attempted(
                    write_back_verified(
                        chezmoi,
                        self.text.as_str(),
                        map,
                        inputs.theirs.as_str(),
                        self.job.resolved.as_str(),
                    ),
                )
            },
        }
    }
}

impl Resolving {
    /// What the stages can count on.
    pub open spec fn wf(self) -> bool {
        &&& self.stage == Stage::Start ==> self.blobs@.len() == 0
        &&& self.stage == Stage::Decide ==> self.blobs@.len() == self.job.touched().len()
    }

    /// Nothing has been done yet.
    pub fn begin(job: Job) -> (r: Self)
        ensures
            r.wf(),
            r.job == job,
            r.stage == Stage::Start,
            !r.report.committed,
            !r.report.pushed,
            r.report.note is None,
            r.blobs@.len() == 0,
    {
        Resolving {
            job,
            stage: Stage::Start,
            session: 0,
            blobs: Vec::new(),
            text: String::new(),
            detail: String::new(),
            report: CommitReport { committed: false, pushed: false, note: None },
        }
    }

    /// What to do next.
    #[verifier::spinoff_prover]
    pub fn step(&self, now: u64) -> (r: Step)
        requires
            self.wf(),
        ensures
            is_step(*self, now, r),
    {
        let job = &self.job;
        match self.stage {
            Stage::Start => Step::Ask(Request::SessionStart { ts: now }),
            Stage::Snapshot => Step::Ask(Request::SnapshotBlobs { paths: job.touches() }),
            Stage::Decide => {
                let decision = match job.action {
                    Action::SyncAll => {
                        let v: Vec<(&str, &str)> = vec![("action", "sync_all")];
                        let d = record_of(&v);
                        assert(v@.map_values(|m: (&str, &str)| (m.0@, m.1@)) =~= seq![
                            ("action"@, "sync_all"@),
                        ]);
                        d
                    },
                    Action::KeepSource => build_decision(
                        job.action.name(),
                        job.target.as_str(),
                        self.blobs[0].as_str(),
                        None,
                    ),
                    _ => build_decision(
                        job.action.name(),
                        job.target.as_str(),
                        self.blobs[0].as_str(),
                        Some(self.blobs[1].as_str()),
                    ),
                };
                Step::Ask(Request::SessionDecision { session: self.session, decision })
            },
            Stage::Announce => Step::Ask(
                Request::ExpectChanges { paths: job.touches(), ttl_secs: EXPECT_TTL_SECS },
            ),
            Stage::ReadTemplate => Step::ReadTemplate { path: job.source.clone() },
            Stage::Attempt => Step::Attempt { template: self.text.clone() },
            Stage::Write => Step::WriteSource {
                path: job.source.clone(),
                text: self.text.clone(),
            },
            Stage::Mutate => match job.action {
                Action::KeepDisk => Step::ReAdd { target: job.target.clone() },
                Action::SyncAll => Step::Update,
                _ => Step::Apply { target: job.target.clone() },
            },
            Stage::Commit => Step::Commit {
                action: job.action.name(),
                target: job.target.clone(),
            },
            Stage::End => Step::Ask(
                Request::SessionEnd { session: self.session, ts: now, summary: job.summary() },
            ),
            Stage::Rescan => Step::Ask(Request::Rescan),
            Stage::Finished => Step::Finish(
                ResolveOutcome::Done {
                    session: self.session,
                    committed: self.report.committed,
                    pushed: self.report.pushed,
                    note: crate::proto::copy_text(&self.report.note),
                },
            ),
            Stage::DecideRejected => {
                let v: Vec<(&str, &str)> = vec![
                    ("action", "merge_rejected"),
                    ("target", job.target.as_str()),
                    ("detail", self.detail.as_str()),
                ];
                let decision = record_of(&v);
                assert(v@.map_values(|m: (&str, &str)| (m.0@, m.1@)) =~= seq![
                    ("action"@, "merge_rejected"@),
                    ("target"@, job.target@),
                    ("detail"@, self.detail@),
                ]);
                Step::Ask(Request::SessionDecision { session: self.session, decision })
            },
            Stage::EndRejected => {
                let mut summary = "merge rejected (protected span) ".to_owned();
                summary.append(display_name(job.target.as_str()).as_str());
                Step::Ask(Request::SessionEnd { session: self.session, ts: now, summary })
            },
            Stage::Refused => Step::Finish(
                ResolveOutcome::ProtectedSpan { detail: self.detail.clone() },
            ),
        }
    }

    fn asked(&self) -> (r: &'static str)
        ensures
            r@ == stage_words(self.stage),
    {
        match self.stage {
            Stage::Start => "session start",
            Stage::Snapshot => "snapshot blobs",
            Stage::Announce => "expect changes",
            Stage::End => "session end",
            Stage::EndRejected => "session end",
            Stage::Rescan => "rescan",
            _ => "session decision",
        }
    }

    /// The stage behind one at which the daemon was asked, or something was called.
    fn stage_behind(&self, rejected: bool) -> (r: Stage)
        ensures
            forall|came: Came|
                (self.stage == Stage::Attempt ==> rejected == (came matches Came::Attempted(
                    Ok(WriteBackAttempt::Rejected(_)),
                ))) ==> r == #[trigger] following(self.job, self.stage, came),
    {
        let action = self.job.action;
        match self.stage {
            Stage::Start => if action == Action::SyncAll {
                Stage::Decide
            } else {
                Stage::Snapshot
            },
            Stage::Snapshot => Stage::Decide,
            Stage::Decide => if action == Action::SyncAll {
                Stage::Mutate
            } else {
                Stage::Announce
            },
            Stage::Announce => if action != Action::Merge {
                Stage::Mutate
            } else if self.job.templated {
                Stage::ReadTemplate
            } else {
                Stage::Write
            },
            Stage::ReadTemplate => Stage::Attempt,
            Stage::Attempt => if rejected {
                Stage::DecideRejected
            } else {
                Stage::Write
            },
            Stage::Write => Stage::Mutate,
            Stage::Mutate => if action == Action::KeepDisk || action == Action::Merge {
                Stage::Commit
            } else {
                Stage::End
            },
            Stage::Commit => Stage::End,
            Stage::End => Stage::Rescan,
            Stage::Rescan => Stage::Finished,
            Stage::DecideRejected => Stage::EndRejected,
            Stage::EndRejected => Stage::Refused,
            Stage::Finished => Stage::Finished,
            Stage::Refused => Stage::Refused,
        }
    }

    /// Goes on with what came of the step, or ends with the error that it is.
    #[verifier::spinoff_prover]
    #[verifier::rlimit(40)]
    pub fn advance(self, came: Came) -> (r: Result<Self, ResolveError>)
        requires
            self.wf(),
            fits(self.stage, came),
        ensures
            match r {
                Ok(next) => succeeded(self, came) && goes_on(self, came, next) && next.wf(),
                Err(e) => !succeeded(self, came) && failed_with(self, came, e),
            },
    {
        let mut next = self;
        let ghost x = self;
        match came {
            Came::Reply(reply) => match next.stage {
                Stage::Start => match expect_session(reply) {
                    Ok(session) => {
                        next.stage = next.stage_behind(false);
                        next.session = session;
                        Ok(next)
                    },
                    Err(e) => Err(e),
                },
                Stage::Snapshot => {
                    let want: usize = next.job.touches().len();
                    assert(want == x.job.touched().len());
                    match expect_blobs(reply, want) {
                        Ok(hashes) => {
                            next.stage = next.stage_behind(false);
                            next.blobs = hashes;
                            Ok(next)
                        },
                        Err(e) => Err(e),
                    }
                },
                Stage::Announce => match expect_ok("expect changes", reply) {
                    Ok(_) => {
                        if next.job.action == Action::Merge && next.job.templated
                            && !next.job.anchored {
                            let mut m = "templated merge inputs for ".to_owned();
                            m.append(display_name(next.job.target.as_str()).as_str());
                            m.append(" carry no span map");
                            return Err(ResolveError::Failed(m));
                        }
                        next.stage = next.stage_behind(false);
                        next.text = next.job.resolved.clone();
                        Ok(next)
                    },
                    Err(e) => Err(e),
                },
                _ => match expect_ok(next.asked(), reply) {
                    Ok(_) => {
                        next.stage = next.stage_behind(false);
                        Ok(next)
                    },
                    Err(e) => Err(e),
                },
            },
            Came::Read(r) => match r {
                Ok(text) => {
                    next.stage = next.stage_behind(false);
                    next.text = text;
                    Ok(next)
                },
                Err(s) => Err(ResolveError::Io(s)),
            },
            Came::Attempted(r) => match r {
                Ok(WriteBackAttempt::Verified(text)) => {
                    next.stage = next.stage_behind(false);
                    next.text = text;
                    Ok(next)
                },
                Ok(WriteBackAttempt::Rejected(detail)) => {
                    next.stage = next.stage_behind(true);
                    next.detail = detail;
                    Ok(next)
                },
                Err(e) => Err(e),
            },
            Came::Wrote(r) => match r {
                Ok(_) => {
                    next.stage = next.stage_behind(false);
                    Ok(next)
                },
                Err(s) => Err(ResolveError::Io(s)),
            },
            Came::Ran(r) => match r {
                Ok(_) => {
                    next.stage = next.stage_behind(false);
                    Ok(next)
                },
                Err(e) => {
                    if next.job.action == Action::SyncAll {
                        Err(ResolveError::Failed(e.message()))
                    } else {
                        Err(ResolveError::Chezmoi(e))
                    }
                },
            },
            Came::Committed(report) => {
                next.stage = next.stage_behind(false);
                next.report = report;
                Ok(next)
            },
        }
    }
}

/// Something is changed at these stages.
pub open spec fn changes_something(stage: Stage) -> bool {
    stage == Stage::Write || stage == Stage::Mutate || stage == Stage::Commit
}

/// Nothing is changed before it was written down and announced. A resolution comes to a stage
/// that changes something only from another such stage, or when the daemon has taken note of
/// the announcement; or with a template that was rendered and found right after that. What is
/// synced as a whole is only written down: what comes out is what the daemon expects.
pub proof fn law_changes_are_announced_first(x: Resolving, came: Came, next: Resolving)
    requires
        fits(x.stage, came),
        succeeded(x, came),
        goes_on(x, came, next),
        changes_something(next.stage),
        !changes_something(x.stage),
    ensures
        match x.stage {
            Stage::Announce => came == Came::Reply(Ok(Response::Done)),
            Stage::Attempt => came matches Came::Attempted(Ok(WriteBackAttempt::Verified(_))),
            Stage::Decide => x.job.action == Action::SyncAll && came == Came::Reply(
                Ok(Response::Done),
            ),
            _ => false,
        },
{
}

/// How many steps a resolution is from its end, at most.
pub open spec fn steps_left(stage: Stage) -> nat {
    match stage {
        Stage::Start => 13,
        Stage::Snapshot => 12,
        Stage::Decide => 11,
        Stage::Announce => 10,
        Stage::ReadTemplate => 9,
        Stage::Attempt => 8,
        Stage::Write => 7,
        Stage::Mutate => 6,
        Stage::Commit => 5,
        Stage::End => 4,
        Stage::Rescan => 3,
        Stage::DecideRejected => 2,
        Stage::EndRejected => 1,
        Stage::Finished => 0,
        Stage::Refused => 0,
    }
}

/// Every step leads nearer to the end, and no stage comes twice.
pub proof fn law_resolutions_come_to_an_end(x: Resolving, came: Came, next: Resolving)
    requires
        fits(x.stage, came),
        goes_on(x, came, next),
    ensures
        steps_left(next.stage) < steps_left(x.stage),
{
}

/// A template is written only with a text that renders to what was resolved: where the
/// resolution goes on from an attempt to the writing, chezmoi was given just the text that is
/// written then, and what it made of it is the merged text, byte for byte.
pub proof fn law_templates_render_to_what_was_resolved<R: CommandRunner>(
    x: Resolving,
    before: ChezmoiClient<R>,
    after: ChezmoiClient<R>,
    spans: Seq<RenderedSpan>,
    theirs: Seq<char>,
    attempt: Result<WriteBackAttempt, ResolveError>,
    next: Resolving,
)
    requires
        x.stage == Stage::Attempt,
        tried(before, after, x.text@, spans, theirs, x.job.resolved@, attempt),
        goes_on(x, Came::Attempted(attempt), next),
        next.stage == Stage::Write,
        attempt is Ok,
    ensures
        called(
            before,
            after,
            seq!["execute-template"@],
            Some(encode_utf8(next.text@)),
            before.opts.timeout,
        ),
        outcome(after.answer()) == Ok::<Seq<u8>, Failure>(encode_utf8(x.job.resolved@)),
        forall|now: u64, step: Step| #[trigger]
            is_step(next, now, step) ==> (step matches Step::WriteSource { path, text } && path@
                == x.job.source@ && text@ == next.text@),
{
}

/// A rejected text changes nothing: from there on only the journal is written.
pub proof fn law_rejected_texts_change_nothing(x: Resolving, came: Came, next: Resolving)
    requires
        fits(x.stage, came),
        goes_on(x, came, next),
        x.stage == Stage::DecideRejected || x.stage == Stage::EndRejected,
    ensures
        !changes_something(next.stage),
        next.stage == Stage::EndRejected || next.stage == Stage::Refused,
{
}

/// A source that could not be committed or pushed does not stop the resolution: it is closed
/// like any other, and what is reported is what was found.
pub proof fn law_failed_commits_do_not_fail_the_resolution(
    x: Resolving,
    report: CommitReport,
    next: Resolving,
)
    requires
        x.stage == Stage::Commit,
        goes_on(x, Came::Committed(report), next),
    ensures
        succeeded(x, Came::Committed(report)),
        next.stage == Stage::End,
        next.report@ == report@,
{
}

/// A resolution from its beginning on: its states, and what came of the step of each but the
/// last.
pub open spec fn is_course(xs: Seq<Resolving>, cs: Seq<Came>) -> bool {
    &&& xs.len() == cs.len() + 1
    &&& xs[0].stage == Stage::Start
    &&& forall|k: int|
        0 <= k < cs.len() ==> {
            &&& fits((#[trigger] xs[k]).stage, cs[k])
            &&& succeeded(xs[k], cs[k])
            &&& goes_on(xs[k], cs[k], xs[k + 1])
        }
}

/// The stage was passed before the `n`-th state.
pub open spec fn passed(xs: Seq<Resolving>, n: int, stage: Stage) -> bool {
    exists|k: int| 0 <= k < n && (#[trigger] xs[k]).stage == stage
}

/// The stage was passed before the `m`-th state, and so before any later one.
proof fn lemma_passed_stays(xs: Seq<Resolving>, m: int, n: int, stage: Stage)
    requires
        passed(xs, m, stage),
        m <= n,
    ensures
        passed(xs, n, stage),
{
    let k = choose|k: int| 0 <= k < m && (#[trigger] xs[k]).stage == stage;
    assert(0 <= k < n && xs[k].stage == stage);
}

proof fn lemma_course(xs: Seq<Resolving>, cs: Seq<Came>, n: int)
    requires
        is_course(xs, cs),
        0 <= n < xs.len(),
        xs[0].job.action != Action::SyncAll,
    ensures
        xs[n].job == xs[0].job,
        steps_left(xs[n].stage) + n <= 13,
        steps_left(xs[n].stage) < 12 ==> passed(xs, n, Stage::Snapshot),
        steps_left(xs[n].stage) < 11 ==> passed(xs, n, Stage::Decide),
        steps_left(xs[n].stage) < 10 ==> passed(xs, n, Stage::Announce),
    decreases n,
{
    if n > 0 {
        lemma_course(xs, cs, n - 1);
        let x = xs[n - 1];
        assert(goes_on(x, cs[n - 1], xs[n]));
        assert(fits(x.stage, cs[n - 1]));
        law_resolutions_come_to_an_end(x, cs[n - 1], xs[n]);
        assert(passed(xs, n, x.stage));
        if passed(xs, n - 1, Stage::Snapshot) {
            lemma_passed_stays(xs, n - 1, n, Stage::Snapshot);
        }
        if passed(xs, n - 1, Stage::Decide) {
            lemma_passed_stays(xs, n - 1, n, Stage::Decide);
        }
        if passed(xs, n - 1, Stage::Announce) {
            lemma_passed_stays(xs, n - 1, n, Stage::Announce);
        }
    }
}

/// Whatever a resolution of a file changes, the files that it touches were copied before, the
/// decision was written down, and the changes were announced. It has thirteen steps at most.
pub proof fn law_files_are_copied_before_they_are_changed(xs: Seq<Resolving>, cs: Seq<Came>)
    requires
        is_course(xs, cs),
        xs[0].job.action != Action::SyncAll,
    ensures
        cs.len() <= 13,
        changes_something(xs.last().stage) ==> {
            &&& passed(xs, cs.len() as int, Stage::Snapshot)
            &&& passed(xs, cs.len() as int, Stage::Decide)
            &&& passed(xs, cs.len() as int, Stage::Announce)
        },
{
    lemma_course(xs, cs, cs.len() as int);
}

// ---------------------------------------------------------------------------
// Undoing

/// How far an undo is: what is to be done next.
#[derive(Debug, Clone, Copy, PartialEq, Eq, Structural)]
pub enum UndoStage {
    Fetch,
    Announce,
    Restore,
    Start,
    Decide,
    End,
    Rescan,
    Finished,
}

/// An undo on its way: the files of a session are restored one by one, then the undo is
/// written down as a session of its own.
#[derive(Debug)]
pub struct Undoing {
    /// The session that is undone.
    pub of: i64,
    /// The files, each with the hash of its copy.
    pub restores: Vec<(String, String)>,
    /// The file that is being restored.
    pub at: usize,
    pub stage: UndoStage,
    pub session: i64,
    /// What it is restored to.
    pub bytes: Vec<u8>,
}

#[derive(Debug)]
pub enum UndoStep {
    GetBlob { hash: String },
    Ask(Request),
    WriteFile { path: String, bytes: Vec<u8> },
    Finish { of: i64 },
}

#[derive(Debug)]
pub enum UndoCame {
    Blob(Result<Option<Vec<u8>>, String>),
    Reply(Result<Response, IpcError>),
    Wrote(Result<(), String>),
}

/// A file is being restored at these stages.
pub open spec fn restoring(stage: UndoStage) -> bool {
    stage == UndoStage::Fetch || stage == UndoStage::Announce || stage == UndoStage::Restore
}

/// What comes of the step of a stage.
pub open spec fn undo_fits(stage: UndoStage, came: UndoCame) -> bool {
    match stage {
        UndoStage::Fetch => came is Blob,
        UndoStage::Restore => came is Wrote,
        UndoStage::Finished => false,
        _ => came is Reply,
    }
}

/// What came is what was hoped for.
pub open spec fn undo_succeeded(x: Undoing, came: UndoCame) -> bool {
    match came {
        UndoCame::Blob(r) => r matches Ok(Some(_)),
        UndoCame::Wrote(r) => r is Ok,
        UndoCame::Reply(reply) => if x.stage == UndoStage::Start {
            reply matches Ok(Response::SessionStarted { .. })
        } else {
            reply == Ok::<Response, IpcError>(Response::Done)
        },
    }
}

/// The stage that follows.
pub open spec fn undo_following(x: Undoing) -> UndoStage {
    match x.stage {
        UndoStage::Fetch => UndoStage::Announce,
        UndoStage::Announce => UndoStage::Restore,
        UndoStage::Restore => if x.at + 1 < x.restores@.len() {
            UndoStage::Fetch
        } else {
            UndoStage::Start
        },
        UndoStage::Start => UndoStage::Decide,
        UndoStage::Decide => UndoStage::End,
        UndoStage::End => UndoStage::Rescan,
        UndoStage::Rescan => UndoStage::Finished,
        UndoStage::Finished => UndoStage::Finished,
    }
}

/// What the daemon is asked at a stage.
pub open spec fn undo_words(stage: UndoStage) -> Seq<char> {
    match stage {
        UndoStage::Start => "session start"@,
        UndoStage::Decide => "session decision"@,
        UndoStage::End => "session end"@,
        UndoStage::Rescan => "rescan"@,
        _ => "expect changes"@,
    }
}

/// Why the undo ends here.
pub open spec fn undo_failed_with(x: Undoing, came: UndoCame, e: ResolveError) -> bool {
    match came {
        UndoCame::Blob(r) => match r {
            Err(s) => e == ResolveError::Journal(s),
            Ok(_) => e matches ResolveError::Failed(m) && m@ == "undo: blob "@
                + x.restores@[x.at as int].1@ + " for "@ + x.restores@[x.at as int].0@
                + " is missing from the journal"@,
        },
        UndoCame::Wrote(r) => r matches Err(s) && e == ResolveError::Io(s),
        UndoCame::Reply(reply) => reply_failed(e, undo_words(x.stage), reply),
    }
}

/// The undo as it goes on.
pub open spec fn undo_goes_on(x: Undoing, came: UndoCame, next: Undoing) -> bool {
    &&& next.of == x.of
    &&& next.restores == x.restores
    &&& next.stage == undo_following(x)
    &&& next.at == x.at + if x.stage == UndoStage::Restore {
        1
    } else {
        0int
    }
    &&& next.session == match came {
        UndoCame::Reply(Ok(Response::SessionStarted { session })) => session,
        _ => x.session,
    }
    &&& next.bytes == match came {
        UndoCame::Blob(Ok(Some(b))) => b,
        _ => x.bytes,
    }
}

/// The document names the session that was undone.
pub open spec fn is_undo_record(j: Json, of: i64) -> bool {
    &&& j matches Json::Object(o)
    &&& o@.len() == 2
    &&& o@[0].0@ == "action"@
    &&& crate::json::text_of(o@[0].1) == Some("undo"@)
    &&& o@[1].0@ == "of"@
    &&& o@[1].1 == if of >= 0 {
        Json::Unsigned(of as u64)
    } else {
        Json::Negative(of)
    }
}

/// The step is what the stage asks for.
pub open spec fn is_undo_step(x: Undoing, now: u64, step: UndoStep) -> bool {
    match x.stage {
        UndoStage::Fetch => step matches UndoStep::GetBlob { hash } && hash@
            == x.restores@[x.at as int].1@,
        UndoStage::Announce => step matches UndoStep::Ask(
            Request::ExpectChanges { paths, ttl_secs },
        ) && strings(paths@) == seq![x.restores@[x.at as int].0@] && ttl_secs == EXPECT_TTL_SECS,
        UndoStage::Restore => step matches UndoStep::WriteFile { path, bytes } && path@
            == x.restores@[x.at as int].0@ && bytes@ == x.bytes@,
        UndoStage::Start => step matches UndoStep::Ask(Request::SessionStart { ts }) && ts == now,
        UndoStage::Decide => step matches UndoStep::Ask(
            Request::SessionDecision { session, decision },
        ) && session == x.session && is_undo_record(decision, x.of),
        UndoStage::End => step matches UndoStep::Ask(
            Request::SessionEnd { session, ts, summary },
        ) && session == x.session && ts == now && summary@ == "undo session "@
            + crate::cmd::signed_text(x.of as int) + " — restored "@ + decimal(x.restores@.len())
            + " files"@,
        UndoStage::Rescan => step == UndoStep::Ask(Request::Rescan),
        UndoStage::Finished => step == (UndoStep::Finish { of: x.of }),
    }
}

impl Undoing {
    /// Files are restored until all are; all are before the undo is written down.
    pub open spec fn wf(self) -> bool {
        if restoring(self.stage) {
            self.at < self.restores@.len()
        } else {
            self.at == self.restores@.len()
        }
    }

    /// Undoes the last session that was closed, where there is one.
    pub fn begin(last: Option<(i64, Json)>) -> (r: Option<Self>)
        ensures
            match last {
                None => r is None,
                Some((of, decisions)) => r matches Some(u) && u.wf() && u.of == of && pair_views(
                    u.restores@,
                ) == undo_restores(decisions) && u.at == 0 && u.stage == (
                if u.restores@.len() == 0 {
                    UndoStage::Start
                } else {
                    UndoStage::Fetch
                }),
            },
    {
        match last {
            None => None,
            Some((of, decisions)) => {
                let restores = parse_undo_restores(&decisions);
                let stage = if restores.len() == 0 {
                    UndoStage::Start
                } else {
                    UndoStage::Fetch
                };
                Some(Undoing { of, restores, at: 0, stage, session: 0, bytes: Vec::new() })
            },
        }
    }

    /// What to do next.
    pub fn step(&self, now: u64) -> (r: UndoStep)
        requires
            self.wf(),
        ensures
            is_undo_step(*self, now, r),
    {
        match self.stage {
            UndoStage::Fetch => UndoStep::GetBlob { hash: self.restores[self.at].1.clone() },
            UndoStage::Announce => {
                let paths: Vec<String> = vec![self.restores[self.at].0.clone()];
                assert(strings(paths@) =~= seq![self.restores@[self.at as int].0@]);
                UndoStep::Ask(Request::ExpectChanges { paths, ttl_secs: EXPECT_TTL_SECS })
            },
            UndoStage::Restore => UndoStep::WriteFile {
                path: self.restores[self.at].0.clone(),
                bytes: vstd::slice::slice_to_vec(self.bytes.as_slice()),
            },
            UndoStage::Start => UndoStep::Ask(Request::SessionStart { ts: now }),
            UndoStage::Decide => {
                let of = if self.of >= 0 {
                    Json::Unsigned(self.of as u64)
                } else {
                    Json::Negative(self.of)
                };
                let o: Vec<(String, Json)> = vec![
                    ("action".to_owned(), Json::Text("undo".to_owned())),
                    ("of".to_owned(), of),
                ];
                UndoStep::Ask(
                    Request::SessionDecision { session: self.session, decision: Json::Object(o) },
                )
            },
            UndoStage::End => {
                let mut summary = "undo session ".to_owned();
                summary.append(crate::cmd::show_signed(self.of).as_str());
                summary.append(" — restored ");
                summary.append(decimal_text(self.restores.len() as u64).as_str());
                summary.append(" files");
                UndoStep::Ask(Request::SessionEnd { session: self.session, ts: now, summary })
            },
            UndoStage::Rescan => UndoStep::Ask(Request::Rescan),
            UndoStage::Finished => UndoStep::Finish { of: self.of },
        }
    }

    fn asked(&self) -> (r: &'static str)
        ensures
            r@ == undo_words(self.stage),
    {
        match self.stage {
            UndoStage::Start => "session start",
            UndoStage::Decide => "session decision",
            UndoStage::End => "session end",
            UndoStage::Rescan => "rescan",
            _ => "expect changes",
        }
    }

    fn stage_behind(&self) -> (r: UndoStage)
        requires
            self.wf(),
        ensures
            r == undo_following(*self),
    {
        match self.stage {
            UndoStage::Fetch => UndoStage::Announce,
            UndoStage::Announce => UndoStage::Restore,
            UndoStage::Restore => if self.restores.len() - self.at > 1 {
                UndoStage::Fetch
            } else {
                UndoStage::Start
            },
            UndoStage::Start => UndoStage::Decide,
            UndoStage::Decide => UndoStage::End,
            UndoStage::End => UndoStage::Rescan,
            UndoStage::Rescan => UndoStage::Finished,
            UndoStage::Finished => UndoStage::Finished,
        }
    }

    /// Goes on with what came of the step, or ends with the error that it is.
    pub fn advance(self, came: UndoCame) -> (r: Result<Self, ResolveError>)
        requires
            self.wf(),
            undo_fits(self.stage, came),
        ensures
            match r {
                Ok(next) => undo_succeeded(self, came) && undo_goes_on(self, came, next)
                    && next.wf(),
                Err(e) => !undo_succeeded(self, came) && undo_failed_with(self, came, e),
            },
    {
        let mut next = self;
        let stage = next.stage_behind();
        let len: usize = next.restores.len();
        match came {
            UndoCame::Blob(r) => match r {
                Ok(Some(bytes)) => {
                    next.bytes = bytes;
                },
                Ok(None) => {
                    let mut m = "undo: blob ".to_owned();
                    m.append(next.restores[next.at].1.as_str());
                    m.append(" for ");
                    m.append(next.restores[next.at].0.as_str());
                    m.append(" is missing from the journal");
                    return Err(ResolveError::Failed(m));
                },
                Err(s) => {
                    return Err(ResolveError::Journal(s));
                },
            },
            UndoCame::Wrote(r) => match r {
                Ok(_) => {
                    next.at = next.at + 1;
                },
                Err(s) => {
                    return Err(ResolveError::Io(s));
                },
            },
            UndoCame::Reply(reply) => {
                if next.stage == UndoStage::Start {
                    match expect_session(reply) {
                        Ok(session) => {
                            next.session = session;
                        },
                        Err(e) => {
                            return Err(e);
                        },
                    }
                } else {
                    match expect_ok(next.asked(), reply) {
                        Ok(_) => {},
                        Err(e) => {
                            return Err(e);
                        },
                    }
                }
            },
        }
        next.stage = stage;
        Ok(next)
    }
}

/// No file is restored before the change is announced, and the undo is written down only after
/// all files are restored.
pub proof fn law_undo_announces_then_restores_then_records(
    x: Undoing,
    came: UndoCame,
    next: Undoing,
)
    requires
        x.wf(),
        undo_fits(x.stage, came),
        undo_succeeded(x, came),
        undo_goes_on(x, came, next),
    ensures
        next.stage == UndoStage::Restore ==> x.stage == UndoStage::Announce && next.at == x.at
            && came == UndoCame::Reply(Ok(Response::Done)),
        next.stage == UndoStage::Start ==> x.stage == UndoStage::Restore && next.at
            == next.restores@.len(),
{
}

// ---------------------------------------------------------------------------
// What is done in all

/// The text that was to be written was refused.
pub open spec fn is_rejection(came: Came) -> bool {
    came matches Came::Attempted(Ok(WriteBackAttempt::Rejected(_)))
}

/// All that is done about a target, in order.
pub open spec fn agenda(job: Job, rejected: bool) -> Seq<Stage> {
    match job.action {
        Action::SyncAll => seq![
            Stage::Start,
            Stage::Decide,
            Stage::Mutate,
            Stage::End,
            Stage::Rescan,
            Stage::Finished,
        ],
        Action::KeepSource => seq![
            Stage::Start,
            Stage::Snapshot,
            Stage::Decide,
            Stage::Announce,
            Stage::Mutate,
            Stage::End,
            Stage::Rescan,
            Stage::Finished,
        ],
        Action::KeepDisk => seq![
            Stage::Start,
            Stage::Snapshot,
            Stage::Decide,
            Stage::Announce,
            Stage::Mutate,
            Stage::Commit,
            Stage::End,
            Stage::Rescan,
            Stage::Finished,
        ],
        Action::Merge => if !job.templated {
            seq![
                Stage::Start,
                Stage::Snapshot,
                Stage::Decide,
                Stage::Announce,
                Stage::Write,
                Stage::Mutate,
                Stage::Commit,
                Stage::End,
                Stage::Rescan,
                Stage::Finished,
            ]
        } else if rejected {
            seq![
                Stage::Start,
                Stage::Snapshot,
                Stage::Decide,
                Stage::Announce,
                Stage::ReadTemplate,
                Stage::Attempt,
                Stage::DecideRejected,
                Stage::EndRejected,
                Stage::Refused,
            ]
        } else {
            seq![
                Stage::Start,
                Stage::Snapshot,
                Stage::Decide,
                Stage::Announce,
                Stage::ReadTemplate,
                Stage::Attempt,
                Stage::Write,
                Stage::Mutate,
                Stage::Commit,
                Stage::End,
                Stage::Rescan,
                Stage::Finished,
            ]
        },
    }
}

proof fn lemma_on_the_agenda(xs: Seq<Resolving>, cs: Seq<Came>, n: int, rejected: bool)
    requires
        is_course(xs, cs),
        0 <= n < xs.len(),
        cs.len() > 5 ==> rejected == is_rejection(cs[5]),
    ensures
        xs[n].job == xs[0].job,
        n < agenda(xs[0].job, rejected).len(),
        xs[n].stage == agenda(xs[0].job, rejected)[n],
    decreases n,
{
    if n > 0 {
        lemma_on_the_agenda(xs, cs, n - 1, rejected);
        assert(fits(xs[n - 1].stage, cs[n - 1]));
        assert(goes_on(xs[n - 1], cs[n - 1], xs[n]));
    }
}

/// What is done, and in which order: a session is opened; the files are copied; the decision is
/// written down; the changes are announced; a merged text is written into the source, where
/// that is a template after it was read and rendered; the change is made; what changed the
/// source is committed; the session is closed, and a scan is asked for. Nothing of it is left
/// out. What is synced as a whole has no files to copy and announce. A text that is refused ends
/// with the session, after that was written down.
pub proof fn law_resolutions_follow_the_agenda(xs: Seq<Resolving>, cs: Seq<Came>)
    requires
        is_course(xs, cs),
    ensures
        ({
            let rejected = exists|k: int| 0 <= k < cs.len() && is_rejection(#[trigger] cs[k]);
            let all = agenda(xs[0].job, rejected);
            &&& xs.len() <= all.len()
            &&& forall|n: int| 0 <= n < xs.len() ==> (#[trigger] xs[n]).stage == all[n]
            &&& xs.last().stage == Stage::Finished || xs.last().stage == Stage::Refused
                <==> xs.len() == all.len()
        }),
{
    let rejected = exists|k: int| 0 <= k < cs.len() && is_rejection(#[trigger] cs[k]);
    let sixth = cs.len() > 5 && is_rejection(cs[5]);
    assert forall|n: int| 0 <= n < xs.len() implies n < agenda(xs[0].job, sixth).len() && (
    #[trigger] xs[n]).stage == agenda(xs[0].job, sixth)[n] by {
        lemma_on_the_agenda(xs, cs, n, sixth);
    }
    assert(xs[xs.len() - 1].stage == agenda(xs[0].job, sixth)[xs.len() - 1]);
    if rejected {
        let k = choose|k: int| 0 <= k < cs.len() && is_rejection(#[trigger] cs[k]);
        assert(fits(xs[k].stage, cs[k]));
        assert(xs[k].stage == Stage::Attempt);
        assert(k == 5);
    }
    assert(sixth ==> rejected);
}

/// The step changes the file. What is added again goes to the source.
pub open spec fn changes_file(job: Job, step: Step, path: Seq<char>) -> bool {
    match step {
        Step::WriteSource { path: p, .. } => path == p@,
        Step::Apply { target } => path == target@,
        Step::ReAdd { .. } => path == job.source@,
        _ => false,
    }
}

/// Every file that a resolution changes is among those that were copied, and among those that
/// were announced.
pub proof fn law_changed_files_are_copied_and_announced(
    x: Resolving,
    copied: Resolving,
    announced: Resolving,
    step: Step,
    copies: Step,
    announces: Step,
    path: Seq<char>,
    now: (u64, u64, u64),
)
    requires
        copied.job == x.job && announced.job == x.job,
        agenda(x.job, false).contains(x.stage),
        is_step(x, now.0, step),
        copied.stage == Stage::Snapshot && is_step(copied, now.1, copies),
        announced.stage == Stage::Announce && is_step(announced, now.2, announces),
        changes_file(x.job, step, path),
    ensures
        copies matches Step::Ask(Request::SnapshotBlobs { paths }) && strings(paths@).contains(
            path,
        ),
        announces matches Step::Ask(Request::ExpectChanges { paths, .. }) && strings(
            paths@,
        ).contains(path),
{
    let touched = x.job.touched();
    if x.job.action != Action::SyncAll {
        assert(touched[0] == x.job.target@);
    }
    if x.job.action == Action::KeepDisk || x.job.action == Action::Merge {
        assert(touched[1] == x.job.source@);
    }
    assert(touched.contains(path));
}

proof fn lemma_record_member(
    j: Json,
    members: Seq<(Seq<char>, Seq<char>)>,
    name: Seq<char>,
    k: int,
)
    requires
        is_record(j, members),
        0 <= k < members.len(),
        members[k].0 == name,
        forall|i: int| 0 <= i < k ==> (#[trigger] members[i]).0 != name,
    ensures
        text_member(j, name) == Some(members[k].1),
{
    let want = members.map_values(|m: (Seq<char>, Seq<char>)| (m.0, Some(m.1)));
    match j {
        Json::Object(o) => {
            let all = text_members(o@);
            assert(all == want);
            assert(all.len() == o@.len() && want.len() == members.len());
            assert forall|i: int| 0 <= i < o@.len() implies (#[trigger] o@[i]).0@ == members[i].0
                && crate::json::text_of(o@[i].1) == Some(members[i].1) by {
                assert(all[i] == want[i]);
            }
            law_members_are_read_by_name(o@, name, 0, k);
        },
        _ => {},
    }
}

/// The hash under which the file was copied, among the files and their hashes.
pub open spec fn copied_as(paths: Seq<String>, hashes: Seq<String>, path: Seq<char>, hash: Option<
    Seq<char>,
>) -> bool {
    exists|k: int|
        0 <= k < paths.len() && k < hashes.len() && (#[trigger] paths[k])@ == path && hash == Some(
            hashes[k]@,
        )
}

/// The decision says what was done to which target, and names the copies: of the target the hash
/// that the daemon gave for its path, and where the source is changed that of the source.
pub proof fn law_decisions_name_the_copies(
    x: Resolving,
    hashes: Vec<String>,
    next: Resolving,
    now: (u64, u64),
    copies: Step,
    decides: Step,
)
    requires
        x.stage == Stage::Snapshot,
        x.job.action != Action::SyncAll,
        succeeded(x, Came::Reply(Ok(Response::Blobs { hashes }))),
        goes_on(x, Came::Reply(Ok(Response::Blobs { hashes })), next),
        is_step(x, now.0, copies),
        is_step(next, now.1, decides),
    ensures
        copies matches Step::Ask(Request::SnapshotBlobs { paths }) && decides matches Step::Ask(
            Request::SessionDecision { session, decision },
        ) && {
            &&& session == x.session
            &&& text_member(decision, "action"@) == Some(x.job.action.words())
            &&& text_member(decision, "target"@) == Some(x.job.target@)
            &&& copied_as(
                paths@,
                hashes@,
                x.job.target@,
                text_member(decision, "dest_blob"@),
            )
            &&& x.job.action == Action::KeepDisk || x.job.action == Action::Merge ==> copied_as(
                paths@,
                hashes@,
                x.job.source@,
                text_member(decision, "source_blob"@),
            )
        },
{
    reveal_strlit("action");
    reveal_strlit("target");
    reveal_strlit("dest_blob");
    reveal_strlit("source_blob");
    assert("action"@[0] == 'a' && "target"@[0] == 't' && "dest_blob"@[0] == 'd'
        && "source_blob"@[0] == 's');
    let members = decision_members(
        x.job.action.words(),
        x.job.target@,
        next.blobs@[0]@,
        if x.job.touched().len() > 1 {
            Some(next.blobs@[1]@)
        } else {
            None
        },
    );
    match (copies, decides) {
        (
            Step::Ask(Request::SnapshotBlobs { paths }),
            Step::Ask(Request::SessionDecision { session, decision }),
        ) => {
            let names = strings(paths@);
            assert(names == x.job.touched());
            assert(names[0] == paths@[0]@);
            lemma_record_member(decision, members, "action"@, 0);
            lemma_record_member(decision, members, "target"@, 1);
            lemma_record_member(decision, members, "dest_blob"@, 2);
            assert(paths@[0]@ == x.job.target@);
            if x.job.action == Action::KeepDisk || x.job.action == Action::Merge {
                assert(names[1] == paths@[1]@);
                assert(paths@[1]@ == x.job.source@);
                assert(members[3] == ("source_blob"@, next.blobs@[1]@));
                lemma_record_member(decision, members, "source_blob"@, 3);
            }
        },
        _ => {},
    }
}

/// What the decisions restore is restored in their order, and each stands for itself.
pub proof fn law_decisions_are_undone_one_by_one(a: Seq<Json>, b: Seq<Json>, j: Json)
    ensures
        restores_of(a + b, (a + b).len() as int) == restores_of(a, a.len() as int) + restores_of(
            b,
            b.len() as int,
        ),
        text_member(j, "target"@) is None || text_member(j, "dest_blob"@) is None ==> restores_of(
            seq![j],
            1,
        ) == Seq::<(Seq<char>, Seq<char>)>::empty(),
        forall|t: Seq<char>, h: Seq<char>|
            text_member(j, "target"@) == Some(t) && text_member(j, "dest_blob"@) == Some(h)
                ==> #[trigger] seq![(t, h)] == restores_of(seq![j], 1),
{
    reveal_with_fuel(restores_of, 2);
    lemma_restores_join(a, b, b.len() as int);
    assert((a + b).len() == a.len() + b.len());
}

proof fn lemma_restores_front(a: Seq<Json>, b: Seq<Json>, n: int)
    requires
        0 <= n <= a.len(),
    ensures
        restores_of(a + b, n) == restores_of(a, n),
    decreases n,
{
    if n > 0 {
        lemma_restores_front(a, b, n - 1);
        assert((a + b)[n - 1] == a[n - 1]);
    }
}

proof fn lemma_restores_join(a: Seq<Json>, b: Seq<Json>, n: int)
    requires
        0 <= n <= b.len(),
    ensures
        restores_of(a + b, a.len() + n) == restores_of(a, a.len() as int) + restores_of(b, n),
    decreases n,
{
    if n > 0 {
        lemma_restores_join(a, b, n - 1);
        assert((a + b)[a.len() + n - 1] == b[n - 1]);
        let (front, tail) = (restores_of(a, a.len() as int), restores_of(b, n - 1));
        assert forall|p: (Seq<char>, Seq<char>)| #[trigger]
            (front + tail).push(p) == front + tail.push(p) by {
            assert((front + tail).push(p) =~= front + tail.push(p));
        }
    } else {
        lemma_restores_front(a, b, a.len() as int);
        assert(restores_of(a, a.len() as int) + restores_of(b, 0) =~= restores_of(
            a,
            a.len() as int,
        ));
    }
}

/// A file is restored with what the journal holds under the hash of its copy, after its change
/// was announced; then comes the next file, or after the last the session that tells of it.
pub proof fn law_files_get_their_copies_back(
    xs: Seq<Undoing>,
    bytes: Vec<u8>,
    now: (u64, u64, u64),
    steps: Seq<UndoStep>,
)
    requires
        xs.len() == 4,
        xs[0].wf() && xs[0].stage == UndoStage::Fetch,
        undo_goes_on(xs[0], UndoCame::Blob(Ok(Some(bytes))), xs[1]),
        undo_goes_on(xs[1], UndoCame::Reply(Ok(Response::Done)), xs[2]),
        undo_goes_on(xs[2], UndoCame::Wrote(Ok(())), xs[3]),
        steps.len() == 3,
        is_undo_step(xs[0], now.0, steps[0]),
        is_undo_step(xs[1], now.1, steps[1]),
        is_undo_step(xs[2], now.2, steps[2]),
    ensures
        ({
            let (path, hash) = xs[0].restores@[xs[0].at as int];
            &&& steps[0] matches UndoStep::GetBlob { hash: h } && h@ == hash@
            &&& steps[1] matches UndoStep::Ask(Request::ExpectChanges { paths, .. }) && strings(
                paths@,
            ) == seq![path@]
            &&& steps[2] matches UndoStep::WriteFile { path: p, bytes: b } && p@ == path@ && b@
                == bytes@
            &&& xs[3].at == xs[0].at + 1
            &&& xs[3].stage == UndoStage::Fetch <==> xs[0].at + 1 < xs[0].restores@.len()
            &&& xs[3].stage == UndoStage::Start <==> xs[0].at + 1 == xs[0].restores@.len()
        }),
{
}

/// The call is one of this command of git.
pub open spec fn calls_at(calls: Seq<crate::cmd::Request>, k: int, verb: Seq<char>) -> bool {
    0 <= k < calls.len() && calls[k].args.len() > 0 && calls[k].args[0] == verb
}

/// There is such a call, and it did what it was to do.
pub open spec fn called_well(
    calls: Seq<crate::cmd::Request>,
    answers: Seq<Reply>,
    verb: Seq<char>,
) -> bool {
    exists|k: int| #[trigger] calls_at(calls, k, verb) && git_outcome(answers[k]) is Ok
}

/// Git is first asked what is uncommitted. Where something is, all of it is staged and then
/// committed, with the message; what is committed, or was already, is pushed. It counts as
/// committed and as pushed where just these calls went well, and the first that does not go well
/// is the last, and its words stand in the note.
pub proof fn law_what_is_committed_is_pushed(
    repo: Seq<char>,
    message: Seq<char>,
    answers: Seq<Reply>,
)
    requires
        answers.len() == commit_calls(repo, message, answers).len(),
    ensures
        ({
            let calls = commit_calls(repo, message, answers);
            let r = commit_report(answers);
            let last = calls.len() - 1;
            &&& calls_at(calls, 0, "status"@)
            &&& r.committed <==> (dirty_reply(answers[0]) matches Ok(dirty) && (dirty.len() == 0
                || called_well(calls, answers, "commit"@)))
            &&& r.committed <==> calls_at(calls, last, "push"@)
            &&& r.pushed <==> called_well(calls, answers, "push"@)
            &&& forall|k: int| #[trigger]
                calls_at(calls, k, "commit"@) ==> calls[k].args == seq!["commit"@, "-m"@, message]
                    && calls_at(calls, k - 1, "add"@) && git_outcome(answers[k - 1]) is Ok
            &&& dirty_reply(answers[0]) matches Ok(dirty) ==> (dirty.len() > 0 ==> calls_at(
                calls,
                1,
                "add"@,
            ) && (git_outcome(answers[1]) is Ok ==> calls_at(calls, 2, "commit"@)))
            &&& forall|k: int|
                0 <= k < calls.len() ==> (#[trigger] calls[k]).program == "git"@ && calls[k].cwd
                    == Some(repo)
            &&& last > 0 ==> (git_outcome(answers[last]) matches Err(f) ==> (r.note matches Some(
                n,
            ) && failure_words(f).is_suffix_of(n)))
        }),
{
    reveal_strlit("status");
    reveal_strlit("add");
    reveal_strlit("commit");
    reveal_strlit("push");
    assert("status"@[0] == 's' && "add"@[0] == 'a' && "commit"@[0] == 'c' && "push"@[0] == 'p');
    let calls = commit_calls(repo, message, answers);
    let r = commit_report(answers);
    assert(calls_at(calls, 1, calls[1].args[0]) || calls.len() < 2);
    assert(calls_at(calls, 2, calls[2].args[0]) || calls.len() < 3);
    assert(calls_at(calls, 3, calls[3].args[0]) || calls.len() < 4);
    let last = calls.len() - 1;
    if last > 0 {
        match git_outcome(answers[last]) {
            Err(f) => {
                assert(("push failed: "@ + failure_words(f)).skip("push failed: "@.len() as int)
                    =~= failure_words(f));
                assert(("commit failed: "@ + failure_words(f)).skip(
                    "commit failed: "@.len() as int,
                ) =~= failure_words(f));
            },
            Ok(_) => {},
        }
    }
}

/// A text that its template can hold is written: where the edits have their places and the new
/// template renders to just that text, the attempt is verified. It is refused where an edit has
/// no place, without anything being called, or where something else comes out; that the new
/// template could not be rendered is an error and no refusal.
pub proof fn law_templates_that_render_right_are_verified<R: CommandRunner>(
    before: ChezmoiClient<R>,
    after: ChezmoiClient<R>,
    template: Seq<char>,
    spans: Seq<RenderedSpan>,
    theirs: Seq<char>,
    resolved: Seq<char>,
    attempt: Result<WriteBackAttempt, ResolveError>,
)
    requires
        tried(before, after, template, spans, theirs, resolved, attempt),
    ensures
        ({
            let (a, b) = (lines_of(theirs), lines_of(resolved));
            let new = written_back(
                encode_utf8(template),
                spans,
                line_edits(a, b, histogram_hunks(a, b)),
            );
            let rendered = outcome(after.answer());
            &&& new is Err ==> (attempt matches Ok(WriteBackAttempt::Rejected(_)))
                && after.runner.sent() == before.runner.sent()
            &&& new matches Ok(bytes) ==> {
                &&& after.runner.sent().len() == before.runner.sent().len() + 1
                &&& after.runner.sent().last().stdin == Some(bytes)
                &&& attempt is Err <==> rendered is Err
                &&& (attempt matches Ok(WriteBackAttempt::Verified(text)) && encode_utf8(text@)
                    == bytes) <==> rendered == Ok::<Seq<u8>, Failure>(encode_utf8(resolved))
            }
        }),
{
}

/// A source file is a template where its name ends so, and only there: with nothing in front of
/// the ending it is a hidden file.
pub proof fn law_templates_are_known_by_their_ending(
    dir: Seq<char>,
    stem: Seq<char>,
    ext: Seq<char>,
)
    requires
        dir.len() > 0,
        stem.len() > 0,
        !stem.contains('/') && !ext.contains('/') && !ext.contains('.'),
        is_plain_name(stem + seq!['.'] + ext),
        stem + seq!['.'] + ext != ".."@,
    ensures
        templated(joined(dir, stem + seq!['.'] + ext)) <==> ext == "tmpl"@,
{
    law_extensions_stand_behind_the_last_dot(dir, stem, ext);
}

} // verus!
