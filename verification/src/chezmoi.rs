//! Talking to chezmoi: its commands, what they print, and why they fail.

use vstd::prelude::*;
use vstd::string::*;
use vstd::utf8::*;

use crate::cmd::{added, answered, continued, exchanged_at, got, lemma_one_more_answer, went_on};
use crate::cmd::{pairs, CommandError};
use crate::cmd::{CommandRequest, CommandRunner, Duration, Reply, Request};
use crate::json::{json_document, member, parse_json, Json};
use crate::merge::{bare_lines, lines, texts};
use crate::paths::{is_same_path, same_path};
use crate::text::{after_bytes, behind_bytes, chars_of, contains, contains_text, lossy, lossy_text};
use crate::text::{strings, trim, trim_text};

verus! {

/// How chezmoi is called.
#[derive(Debug)]
pub struct ChezmoiOptions {
    pub bin: String,
    pub base_args: Vec<String>,
    pub env: Vec<(String, String)>,
    pub timeout: Duration,
}

impl Default for ChezmoiOptions {
    /// `chezmoi` from the search path, never asking anything on a terminal, for thirty seconds.
    fn default() -> (r: Self)
        ensures
            r.bin@ == "chezmoi"@,
            strings(r.base_args@) == seq!["--no-tty"@, "--no-pager"@],
            r.env@.len() == 0,
            r.timeout == Duration::seconds(30),
    {
        let mut base_args: Vec<String> = Vec::new();
        base_args.push("--no-tty".to_owned());
        base_args.push("--no-pager".to_owned());
        assert(strings(base_args@) =~= seq!["--no-tty"@, "--no-pager"@]);
        ChezmoiOptions {
            bin: "chezmoi".to_owned(),
            base_args,
            env: Vec::new(),
            timeout: Duration::from_secs(30),
        }
    }
}

/// What changed between two states of an entry.
#[derive(Debug, Clone, Copy, PartialEq, Eq, Structural)]
pub enum ChangeCode {
    Unchanged,
    Added,
    Deleted,
    Modified,
    Run,
}

/// The change that a letter stands for.
pub open spec fn change_of(c: char) -> Option<ChangeCode> {
    if c == ' ' {
        Some(ChangeCode::Unchanged)
    } else if c == 'A' {
        Some(ChangeCode::Added)
    } else if c == 'D' {
        Some(ChangeCode::Deleted)
    } else if c == 'M' {
        Some(ChangeCode::Modified)
    } else if c == 'R' {
        Some(ChangeCode::Run)
    } else {
        None
    }
}

impl ChangeCode {
    /// The change that a letter stands for.
    pub fn from_char(c: char) -> (r: Option<Self>)
        ensures
            r == change_of(c),
    {
        if c == ' ' {
            Some(ChangeCode::Unchanged)
        } else if c == 'A' {
            Some(ChangeCode::Added)
        } else if c == 'D' {
            Some(ChangeCode::Deleted)
        } else if c == 'M' {
            Some(ChangeCode::Modified)
        } else if c == 'R' {
            Some(ChangeCode::Run)
        } else {
            None
        }
    }
}

/// An entry of `chezmoi status`.
#[derive(Debug)]
pub struct StatusEntry {
    pub last_written_vs_actual: ChangeCode,
    pub actual_vs_target: ChangeCode,
    pub path: String,
}

/// What chezmoi remembers of what it wrote: entries by target path, none of them twice.
#[derive(Debug)]
pub struct StateDump {
    pub entry_state: Vec<(String, EntryState)>,
}

#[derive(Debug)]
pub struct EntryState {
    pub kind: String,
    pub contents_sha256: Option<String>,
    pub mode: Option<u32>,
}

#[derive(Debug, Clone, Copy, PartialEq, Eq, Structural)]
pub enum EvalFailureKind {
    OnePasswordMultipleAccounts,
    OnePasswordAuth,
    AgeDecrypt,
    GpgDecrypt,
    TemplateError,
    Unknown,
}

/// A template or a secret that could not be evaluated.
#[derive(Debug)]
pub struct EvalFailure {
    pub kind: EvalFailureKind,
    pub raw_stderr: String,
    pub hint: String,
}

#[derive(Debug)]
pub enum ChezmoiError {
    Eval(EvalFailure),
    Command(CommandError),
    Exit { code: i32, stderr: String },
    Parse { context: &'static str, detail: String },
}

/// Why a call failed, as the model has it.
pub enum Failure {
    Eval { kind: EvalFailureKind, raw_stderr: Seq<char>, hint: Seq<char> },
    Command { error: CommandError },
    Exit { code: i32, stderr: Seq<char> },
    Parse { context: Seq<char>, detail: Seq<char> },
}

impl View for ChezmoiError {
    type V = Failure;

    open spec fn view(&self) -> Failure {
        match *self {
            ChezmoiError::Eval(f) => Failure::Eval {
                kind: f.kind,
                raw_stderr: f.raw_stderr@,
                hint: f.hint@,
            },
            ChezmoiError::Command(error) => Failure::Command { error },
            ChezmoiError::Exit { code, stderr } => Failure::Exit { code, stderr: stderr@ },
            ChezmoiError::Parse { context, detail } => Failure::Parse {
                context: context@,
                detail: detail@,
            },
        }
    }
}

impl ChezmoiError {
    pub open spec fn message_spec(self) -> Seq<char> {
        match self {
            ChezmoiError::Eval(f) => "template/secret evaluation failed: "@ + f.hint@,
            ChezmoiError::Command(e) => e.message_spec(),
            ChezmoiError::Exit { code, stderr } => "chezmoi exited with code "@
                + crate::cmd::signed_text(code as int) + ": "@ + stderr@,
            ChezmoiError::Parse { context, detail } => "failed to parse chezmoi output ("@
                + context@ + "): "@ + detail@,
        }
    }

    /// The error in words.
    pub fn message(&self) -> (r: String)
        ensures
            r@ == self.message_spec(),
    {
        match self {
            ChezmoiError::Eval(f) => {
                let mut s = "template/secret evaluation failed: ".to_owned();
                s.append(f.hint.as_str());
                s
            },
            ChezmoiError::Command(e) => e.message(),
            ChezmoiError::Exit { code, stderr } => {
                let mut s = "chezmoi exited with code ".to_owned();
                s.append(crate::cmd::show_signed(*code as i64).as_str());
                s.append(": ");
                s.append(stderr.as_str());
                s
            },
            ChezmoiError::Parse { context, detail } => {
                let mut s = "failed to parse chezmoi output (".to_owned();
                s.append(context);
                s.append("): ");
                s.append(detail.as_str());
                s
            },
        }
    }
}

// ---------------------------------------------------------------------------
// Failures

/// The kind of evaluation failure that an error text tells of. The first that fits counts: a
/// locked password manager also fails the template that asks it.
pub open spec fn eval_kind(stderr: Seq<char>) -> Option<EvalFailureKind> {
    if contains_text(stderr, "multiple accounts found"@) {
        Some(EvalFailureKind::OnePasswordMultipleAccounts)
    } else if contains_text(stderr, "onepassword"@) || contains_text(stderr, "op signin"@) {
        Some(EvalFailureKind::OnePasswordAuth)
    } else if contains_text(stderr, "age:"@) {
        Some(EvalFailureKind::AgeDecrypt)
    } else if contains_text(stderr, "gpg:"@) {
        Some(EvalFailureKind::GpgDecrypt)
    } else if contains_text(stderr, "template:"@) {
        Some(EvalFailureKind::TemplateError)
    } else {
        None
    }
}

/// What to do about it.
pub open spec fn hint_of(kind: EvalFailureKind) -> Seq<char> {
    match kind {
        EvalFailureKind::OnePasswordMultipleAccounts =>
            "Select a 1Password account in Settings (sets OP_ACCOUNT for all chezmoi calls)."@,
        EvalFailureKind::OnePasswordAuth =>
            "1Password CLI could not authenticate. Unlock 1Password and retry."@,
        EvalFailureKind::AgeDecrypt => "age decryption failed \u{2014} check identity file."@,
        EvalFailureKind::GpgDecrypt => "gpg decryption failed \u{2014} check keyring."@,
        EvalFailureKind::TemplateError => "Template failed to render \u{2014} see raw error."@,
        EvalFailureKind::Unknown => ""@,
    }
}

/// Recognises an evaluation failure in the error text of a call, and says what to do about it.
pub fn classify_eval_stderr(stderr: &str) -> (r: Option<EvalFailure>)
    ensures
        match r {
            Some(f) => eval_kind(stderr@) == Some(f.kind) && f.raw_stderr@ == stderr@ && f.hint@
                == hint_of(f.kind),
            None => eval_kind(stderr@) is None,
        },
{
    let (kind, hint) = if contains(stderr, "multiple accounts found") {
        (
            EvalFailureKind::OnePasswordMultipleAccounts,
            "Select a 1Password account in Settings (sets OP_ACCOUNT for all chezmoi calls).",
        )
    } else if contains(stderr, "onepassword") || contains(stderr, "op signin") {
        (
            EvalFailureKind::OnePasswordAuth,
            "1Password CLI could not authenticate. Unlock 1Password and retry.",
        )
    } else if contains(stderr, "age:") {
        (EvalFailureKind::AgeDecrypt, "age decryption failed \u{2014} check identity file.")
    } else if contains(stderr, "gpg:") {
        (EvalFailureKind::GpgDecrypt, "gpg decryption failed \u{2014} check keyring.")
    } else if contains(stderr, "template:") {
        (EvalFailureKind::TemplateError, "Template failed to render \u{2014} see raw error.")
    } else {
        return None;
    };
    Some(EvalFailure { kind, raw_stderr: stderr.to_owned(), hint: hint.to_owned() })
}

/// What could not be evaluated is told from any other failure by six marks in the error text: a
/// text without any of them is no such failure, and the first of them that it holds names the
/// kind. What to do about it goes with the kind.
pub proof fn law_evaluation_failures_are_known_by_their_marks(stderr: Seq<char>)
    ensures
        ({
            let many = contains_text(stderr, "multiple accounts found"@);
            let asked = contains_text(stderr, "onepassword"@) || contains_text(
                stderr,
                "op signin"@,
            );
            let age = contains_text(stderr, "age:"@);
            let gpg = contains_text(stderr, "gpg:"@);
            let template = contains_text(stderr, "template:"@);
            &&& eval_kind(stderr) is None <==> !many && !asked && !age && !gpg && !template
            &&& many ==> eval_kind(stderr) == Some(EvalFailureKind::OnePasswordMultipleAccounts)
            &&& asked && !many ==> eval_kind(stderr) == Some(EvalFailureKind::OnePasswordAuth)
            &&& age && !asked && !many ==> eval_kind(stderr) == Some(EvalFailureKind::AgeDecrypt)
            &&& gpg && !age && !asked && !many ==> eval_kind(stderr) == Some(
                EvalFailureKind::GpgDecrypt,
            )
            &&& template && !gpg && !age && !asked && !many ==> eval_kind(stderr) == Some(
                EvalFailureKind::TemplateError,
            )
            &&& eval_kind(stderr) != Some(EvalFailureKind::Unknown)
        }),
        hint_of(EvalFailureKind::OnePasswordMultipleAccounts)
            == "Select a 1Password account in Settings (sets OP_ACCOUNT for all chezmoi calls)."@,
        hint_of(EvalFailureKind::OnePasswordAuth)
            == "1Password CLI could not authenticate. Unlock 1Password and retry."@,
        hint_of(EvalFailureKind::AgeDecrypt)
            == "age decryption failed \u{2014} check identity file."@,
        hint_of(EvalFailureKind::GpgDecrypt) == "gpg decryption failed \u{2014} check keyring."@,
        hint_of(EvalFailureKind::TemplateError)
            == "Template failed to render \u{2014} see raw error."@,
{
}

/// What a reply comes to: the output of a call that succeeded, or why it did not.
pub open spec fn outcome(reply: Reply) -> Result<Seq<u8>, Failure> {
    match reply {
        Err(error) => Err(Failure::Command { error }),
        Ok(out) => if out.exit_code == 0 {
            Ok(out.stdout)
        } else {
            let stderr = lossy(out.stderr);
            match eval_kind(stderr) {
                Some(kind) => Err(Failure::Eval { kind, raw_stderr: stderr, hint: hint_of(kind) }),
                None => Err(Failure::Exit { code: out.exit_code, stderr }),
            }
        },
    }
}

/// A call succeeds exactly when it ends with code zero, and gives its output unchanged then. One
/// that fails says what could not be evaluated wherever its error text has a mark of it, be the
/// code what it may; without a mark it is an exit with its code and its whole error text.
pub proof fn law_failed_calls_keep_their_error_text(reply: Reply)
    ensures
        match reply {
            Err(e) => outcome(reply) == Err::<Seq<u8>, Failure>(Failure::Command { error: e }),
            Ok(out) => {
                let said = lossy(out.stderr);
                let marked = {
                    ||| contains_text(said, "multiple accounts found"@)
                    ||| contains_text(said, "onepassword"@)
                    ||| contains_text(said, "op signin"@)
                    ||| contains_text(said, "age:"@)
                    ||| contains_text(said, "gpg:"@)
                    ||| contains_text(said, "template:"@)
                };
                &&& outcome(reply) is Ok <==> out.exit_code == 0
                &&& outcome(reply) matches Ok(b) ==> b == out.stdout
                &&& out.exit_code != 0 && marked ==> (outcome(reply) matches Err(
                    Failure::Eval { raw_stderr, .. },
                ) && raw_stderr == said)
                &&& out.exit_code != 0 && !marked ==> outcome(reply) == Err::<Seq<u8>, Failure>(
                    Failure::Exit { code: out.exit_code, stderr: said },
                )
            },
        },
{
}

/// The output as text.
pub open spec fn outcome_text(reply: Reply) -> Result<Seq<char>, Failure> {
    match outcome(reply) {
        Ok(b) => Ok(lossy(b)),
        Err(f) => Err(f),
    }
}

// ---------------------------------------------------------------------------
// Status lines

/// A status entry, as the model has it.
pub struct Status {
    pub last_written_vs_actual: ChangeCode,
    pub actual_vs_target: ChangeCode,
    pub path: Seq<char>,
}

impl View for StatusEntry {
    type V = Status;

    open spec fn view(&self) -> Status {
        Status {
            last_written_vs_actual: self.last_written_vs_actual,
            actual_vs_target: self.actual_vs_target,
            path: self.path@,
        }
    }
}

/// The entry that a status line tells of: two letters, a blank, a path.
pub open spec fn status_of(line: Seq<char>) -> Option<Status> {
    if line.len() < 2 {
        None
    } else {
        match (change_of(line[0]), change_of(line[1]), behind_bytes(line, 3)) {
            (Some(a), Some(b), Some(path)) => Some(
                Status { last_written_vs_actual: a, actual_vs_target: b, path },
            ),
            _ => None,
        }
    }
}

/// The entries of the first `n` lines; or the first line that tells of none. Lines of less than
/// four bytes do not count.
pub open spec fn statuses(ls: Seq<Seq<char>>, n: int) -> Result<Seq<Status>, Seq<char>>
    decreases n,
{
    if n <= 0 {
        Ok(seq![])
    } else {
        match statuses(ls, n - 1) {
            Err(bad) => Err(bad),
            Ok(front) => if encode_utf8(ls[n - 1]).len() < 4 {
                Ok(front)
            } else {
                match status_of(ls[n - 1]) {
                    Some(s) => Ok(front.push(s)),
                    None => Err(ls[n - 1]),
                }
            },
        }
    }
}

pub open spec fn status_views(v: Seq<StatusEntry>) -> Seq<Status> {
    v.map_values(|e: StatusEntry| e@)
}

fn parse_status(line: &str) -> (r: Option<StatusEntry>)
    ensures
        match r {
            Some(e) => status_of(line@) == Some(e@),
            None => status_of(line@) is None,
        },
{
    let v = chars_of(line);
    if v.len() < 2 {
        return None;
    }
    match (ChangeCode::from_char(v[0]), ChangeCode::from_char(v[1]), after_bytes(line, 3)) {
        (Some(a), Some(b), Some(path)) => Some(
            StatusEntry { last_written_vs_actual: a, actual_vs_target: b, path },
        ),
        _ => None,
    }
}

proof fn lemma_statuses_stop(ls: Seq<Seq<char>>, k: int, n: int)
    requires
        0 <= k <= n,
        statuses(ls, k) is Err,
    ensures
        statuses(ls, n) == statuses(ls, k),
    decreases n - k,
{
    if k < n {
        lemma_statuses_stop(ls, k, n - 1);
    }
}

/// The entries that the output of `chezmoi status` tells of, or the line that is none.
pub fn parse_statuses(text: &str) -> (r: Result<Vec<StatusEntry>, String>)
    ensures
        match r {
            Ok(v) => statuses(bare_lines(text@), bare_lines(text@).len() as int) == Ok::<
                Seq<Status>,
                Seq<char>,
            >(status_views(v@)),
            Err(bad) => statuses(bare_lines(text@), bare_lines(text@).len() as int) == Err::<
                Seq<Status>,
                Seq<char>,
            >(bad@),
        },
{
    let ls = lines(text);
    let ghost all = bare_lines(text@);
    let mut out: Vec<StatusEntry> = Vec::new();
    let mut i: usize = 0;
    assert(status_views(out@) =~= seq![]);
    assert(all.len() == ls@.len());
    while i < ls.len()
        invariant
            all == texts(ls@),
            all == bare_lines(text@),
            all.len() == ls@.len(),
            i <= ls@.len(),
            statuses(all, i as int) == Ok::<Seq<Status>, Seq<char>>(status_views(out@)),
        decreases ls@.len() - i,
    {
        let line = ls[i].as_str();
        assert(all[i as int] == line@);
        if line.as_bytes().len() >= 4 {
            match parse_status(line) {
                Some(e) => {
                    let ghost had = status_views(out@);
                    out.push(e);
                    assert(status_views(out@) =~= had.push(e@));
                },
                None => {
                    proof {
                        lemma_statuses_stop(all, i + 1, all.len() as int);
                    }
                    return Err(ls[i].clone());
                },
            }
        }
        i = i + 1;
    }
    Ok(out)
}

// ---------------------------------------------------------------------------
// The state dump

/// An entry of the state, as the model has it.
pub struct Entry {
    pub kind: Seq<char>,
    pub contents_sha256: Option<Seq<char>>,
    pub mode: Option<u32>,
}

impl View for EntryState {
    type V = Entry;

    open spec fn view(&self) -> Entry {
        Entry {
            kind: self.kind@,
            contents_sha256: crate::cmd::optional(self.contents_sha256),
            mode: self.mode,
        }
    }
}

/// A text that may be missing or null.
pub open spec fn optional_text(m: Option<Json>) -> Option<Option<Seq<char>>> {
    match m {
        None => Some(None),
        Some(Json::Null) => Some(None),
        Some(Json::Text(s)) => Some(Some(s@)),
        Some(_) => None,
    }
}

/// A 32-bit number that may be missing or null.
pub open spec fn optional_u32(m: Option<Json>) -> Option<Option<u32>> {
    match m {
        None => Some(None),
        Some(Json::Null) => Some(None),
        Some(Json::Unsigned(n)) => if n <= u32::MAX {
            Some(Some(n as u32))
        } else {
            None
        },
        Some(_) => None,
    }
}

/// A part of a record: the member of that name, or the `k`-th item where the record is written
/// as a list.
pub open spec fn part(j: Json, name: Seq<char>, k: int) -> Option<Json> {
    match j {
        Json::List(v) => if k < v@.len() {
            Some(v@[k])
        } else {
            None
        },
        _ => member(j, name),
    }
}

/// The document can be a record of `n` parts: an object, or a list of at most so many items.
pub open spec fn is_record(j: Json, n: int) -> bool {
    match j {
        Json::Object(_) => true,
        Json::List(v) => v@.len() <= n,
        _ => false,
    }
}

/// The entry that a document is: a record of a type, and maybe a hash and a mode.
pub open spec fn entry_of(j: Json) -> Option<Entry> {
    match (
        part(j, "type"@, 0),
        optional_text(part(j, "contentsSHA256"@, 1)),
        optional_u32(part(j, "mode"@, 2)),
    ) {
        (Some(Json::Text(kind)), Some(contents_sha256), Some(mode)) => if is_record(j, 3) {
            Some(Entry { kind: kind@, contents_sha256, mode })
        } else {
            None
        },
        _ => None,
    }
}

/// The entries with one more; an entry for the same path gives way to it.
pub open spec fn put_entry(es: Seq<(Seq<char>, Entry)>, k: Seq<char>, e: Entry) -> Seq<
    (Seq<char>, Entry),
>
    decreases es.len(),
{
    if es.len() == 0 {
        seq![(k, e)]
    } else if same_path(es[0].0, k) {
        seq![(es[0].0, e)] + es.drop_first()
    } else {
        seq![es[0]] + put_entry(es.drop_first(), k, e)
    }
}

/// The entries of the first `n` members.
pub open spec fn entries_of(o: Seq<(String, Json)>, n: int) -> Option<Seq<(Seq<char>, Entry)>>
    decreases n,
{
    if n <= 0 {
        Some(seq![])
    } else {
        match (entries_of(o, n - 1), entry_of(o[n - 1].1)) {
            (Some(front), Some(e)) => Some(put_entry(front, o[n - 1].0@, e)),
            _ => None,
        }
    }
}

/// The state that a document is: a record whose `entryState`, where it has one, is an object
/// of entries. Of two members with one name the last counts.
pub open spec fn dump_of(j: Json) -> Option<Seq<(Seq<char>, Entry)>> {
    if !is_record(j, 1) {
        None
    } else {
        match part(j, "entryState"@, 0) {
            None => Some(seq![]),
            Some(Json::Object(o)) => entries_of(o@, o@.len() as int),
            Some(_) => None,
        }
    }
}

pub open spec fn entry_views(v: Seq<(String, EntryState)>) -> Seq<(Seq<char>, Entry)> {
    v.map_values(|p: (String, EntryState)| (p.0@, p.1@))
}

impl View for StateDump {
    type V = Seq<(Seq<char>, Entry)>;

    open spec fn view(&self) -> Seq<(Seq<char>, Entry)> {
        entry_views(self.entry_state@)
    }
}

fn part_of<'a>(j: &'a Json, name: &str, k: usize) -> (r: Option<&'a Json>)
    ensures
        match r {
            Some(m) => part(*j, name@, k as int) == Some(*m),
            None => part(*j, name@, k as int) is None,
        },
{
    match j {
        Json::List(v) => if k < v.len() {
            Some(&v[k])
        } else {
            None
        },
        _ => j.get(name),
    }
}

fn can_be_record(j: &Json, n: usize) -> (r: bool)
    ensures
        r == is_record(*j, n as int),
{
    match j {
        Json::Object(_) => true,
        Json::List(v) => v.len() <= n,
        _ => false,
    }
}

fn read_entry(j: &Json) -> (r: Option<EntryState>)
    ensures
        match r {
            Some(e) => entry_of(*j) == Some(e@),
            None => entry_of(*j) is None,
        },
{
    if !can_be_record(j, 3) {
        return None;
    }
    let kind = match part_of(j, "type", 0) {
        Some(Json::Text(s)) => s.clone(),
        _ => {
            return None;
        },
    };
    let contents_sha256 = match part_of(j, "contentsSHA256", 1) {
        None => None,
        Some(Json::Null) => None,
        Some(Json::Text(s)) => Some(s.clone()),
        Some(_) => {
            return None;
        },
    };
    let mode = match part_of(j, "mode", 2) {
        None => None,
        Some(Json::Null) => None,
        Some(Json::Unsigned(n)) => {
            if *n > u32::MAX as u64 {
                return None;
            }
            Some(*n as u32)
        },
        Some(_) => {
            return None;
        },
    };
    Some(EntryState { kind, contents_sha256, mode })
}

proof fn lemma_put_entry(es: Seq<(Seq<char>, Entry)>, k: Seq<char>, e: Entry, i: int)
    requires
        0 <= i <= es.len(),
        forall|j: int| 0 <= j < i ==> !same_path((#[trigger] es[j]).0, k),
        i < es.len() ==> same_path(es[i].0, k),
    ensures
        put_entry(es, k, e) == (if i < es.len() {
            es.update(i, (es[i].0, e))
        } else {
            es.push((k, e))
        }),
    decreases es.len(),
{
    if es.len() == 0 {
        assert(es.push((k, e)) =~= seq![(k, e)]);
    } else if i == 0 {
        assert(seq![(es[0].0, e)] + es.drop_first() =~= es.update(0, (es[0].0, e)));
    } else {
        let rest = es.drop_first();
        assert forall|j: int| 0 <= j < i - 1 implies !same_path((#[trigger] rest[j]).0, k) by {
            assert(rest[j] == es[j + 1]);
        }
        lemma_put_entry(rest, k, e, i - 1);
        assert(!same_path(es[0].0, k));
        if i < es.len() {
            assert(seq![es[0]] + rest.update(i - 1, (rest[i - 1].0, e)) =~= es.update(
                i,
                (es[i].0, e),
            ));
        } else {
            assert(seq![es[0]] + rest.push((k, e)) =~= es.push((k, e)));
        }
    }
}

fn put(es: &mut Vec<(String, EntryState)>, k: String, e: EntryState)
    ensures
        entry_views(final(es)@) == put_entry(entry_views(old(es)@), k@, e@),
{
    let ghost all = entry_views(es@);
    let mut i: usize = 0;
    while i < es.len()
        invariant
            es@ == old(es)@,
            all == entry_views(es@),
            i <= es@.len(),
            forall|j: int| 0 <= j < i ==> !same_path((#[trigger] all[j]).0, k@),
        decreases es@.len() - i,
    {
        assert(all[i as int].0 == es@[i as int].0@);
        if is_same_path(es[i].0.as_str(), k.as_str()) {
            proof {
                lemma_put_entry(all, k@, e@, i as int);
            }
            let key = es[i].0.clone();
            let ghost at = i as int;
            es.set(i, (key, e));
            assert(entry_views(es@) =~= all.update(at, (all[at].0, e@)));
            return ;
        }
        i = i + 1;
    }
    proof {
        lemma_put_entry(all, k@, e@, i as int);
    }
    es.push((k, e));
    assert(entry_views(es@) =~= all.push((k@, e@)));
}

proof fn lemma_entries_stop(o: Seq<(String, Json)>, k: int, n: int)
    requires
        0 <= k <= n,
        entries_of(o, k) is None,
    ensures
        entries_of(o, n) is None,
    decreases n - k,
{
    if k < n {
        lemma_entries_stop(o, k, n - 1);
    }
}

/// The state that a document is.
pub fn read_dump(j: &Json) -> (r: Option<StateDump>)
    ensures
        match r {
            Some(d) => dump_of(*j) == Some(d@),
            None => dump_of(*j) is None,
        },
{
    if !can_be_record(j, 1) {
        return None;
    }
    let mut out: Vec<(String, EntryState)> = Vec::new();
    assert(entry_views(out@) =~= seq![]);
    match part_of(j, "entryState", 0) {
        None => {},
        Some(Json::Object(o)) => {
            let mut i: usize = 0;
            while i < o.len()
                invariant
                    i <= o@.len(),
                    entries_of(o@, i as int) == Some(entry_views(out@)),
                    dump_of(*j) == entries_of(o@, o@.len() as int),
                decreases o@.len() - i,
            {
                match read_entry(&o[i].1) {
                    Some(e) => {
                        put(&mut out, o[i].0.clone(), e);
                    },
                    None => {
                        proof {
                            lemma_entries_stop(o@, i + 1, o@.len() as int);
                        }
                        return None;
                    },
                }
                i = i + 1;
            }
        },
        Some(_) => {
            return None;
        },
    }
    Some(StateDump { entry_state: out })
}

/// The state that some output is, or why it is none.
pub open spec fn dump_result(bytes: Seq<u8>) -> Result<Seq<(Seq<char>, Entry)>, Failure> {
    match json_document(bytes) {
        Err(detail) => Err(Failure::Parse { context: "state dump"@, detail }),
        Ok(j) => match dump_of(j) {
            Some(d) => Ok(d),
            None => Err(
                Failure::Parse {
                    context: "state dump"@,
                    detail: "not a state of chezmoi entries"@,
                },
            ),
        },
    }
}

// ---------------------------------------------------------------------------
// The client

/// Calls chezmoi through a runner.
pub struct ChezmoiClient<R: CommandRunner> {
    pub runner: R,
    pub opts: ChezmoiOptions,
}

/// The command that a call is.
pub open spec fn chezmoi_request(
    opts: ChezmoiOptions,
    args: Seq<Seq<char>>,
    stdin: Option<Seq<u8>>,
    timeout: Duration,
) -> Request {
    Request {
        program: opts.bin@,
        args: strings(opts.base_args@) + args,
        env: pairs(opts.env@),
        cwd: None,
        stdin,
        timeout,
    }
}

/// The client made one call, with these arguments, and got an answer.
pub open spec fn called<R: CommandRunner>(
    before: ChezmoiClient<R>,
    after: ChezmoiClient<R>,
    args: Seq<Seq<char>>,
    stdin: Option<Seq<u8>>,
    timeout: Duration,
) -> bool {
    &&& after.opts == before.opts
    &&& after.runner.sent() == before.runner.sent().push(
        chezmoi_request(before.opts, args, stdin, timeout),
    )
    &&& after.runner.replies() == before.runner.replies().push(after.answer())
    &&& before.runner.answers(
        chezmoi_request(before.opts, args, stdin, timeout),
        after.answer(),
        &after.runner,
    )
}

/// What the answer to `chezmoi state dump` comes to.
pub open spec fn dump_reply(reply: Reply) -> Result<Seq<(Seq<char>, Entry)>, Failure> {
    match outcome(reply) {
        Ok(b) => dump_result(b),
        Err(f) => Err(f),
    }
}

/// The chezmoi commands with these arguments.
pub open spec fn chezmoi_requests<C: CommandRunner>(
    client: ChezmoiClient<C>,
    args: Seq<Seq<Seq<char>>>,
) -> Seq<Request> {
    args.map_values(
        |a: Seq<Seq<char>>| chezmoi_request(client.opts, a, None, client.opts.timeout),
    )
}

/// Chezmoi was called with these arguments, one call after the other.
pub open spec fn chezmoi_calls<C: CommandRunner>(
    before: ChezmoiClient<C>,
    after: ChezmoiClient<C>,
    args: Seq<Seq<Seq<char>>>,
) -> bool {
    &&& after.opts == before.opts
    &&& continued(before.runner.sent(), after.runner.sent(), chezmoi_requests(before, args))
    &&& continued(
        before.runner.replies(),
        after.runner.replies(),
        added(before.runner.replies(), after.runner.replies()),
    )
    &&& after.runner.replies().len() == before.runner.replies().len() + args.len()
    &&& answered(
        before.runner,
        chezmoi_requests(before, args),
        added(before.runner.replies(), after.runner.replies()),
        after.runner,
    )
}

/// The calls went through the runner, and each got its answer.
pub proof fn lemma_chezmoi_got<C: CommandRunner>(
    a: ChezmoiClient<C>,
    b: ChezmoiClient<C>,
    args: Seq<Seq<Seq<char>>>,
)
    requires
        chezmoi_calls(a, b, args),
    ensures
        went_on(a.runner, b.runner),
        forall|k: int|
            #![trigger args[k]]
            0 <= k < args.len() ==> got(
                a.runner,
                b.runner,
                chezmoi_request(a.opts, args[k], None, a.opts.timeout),
                added(a.runner.replies(), b.runner.replies())[k],
            ),
{
    let (sa, sb) = (a.runner.sent(), b.runner.sent());
    let (ra, rb) = (a.runner.replies(), b.runner.replies());
    let reqs = chezmoi_requests(a, args);
    let replies = added(ra, rb);
    assert(sa =~= sb.subrange(0, sa.len() as int));
    assert(ra =~= rb.subrange(0, ra.len() as int));
    assert forall|k: int| 0 <= k < args.len() implies got(
        a.runner,
        b.runner,
        chezmoi_request(a.opts, args[k], None, a.opts.timeout),
        #[trigger] replies[k],
    ) by {
        assert(reqs[k] == chezmoi_request(a.opts, args[k], None, a.opts.timeout));
        assert(sb[sa.len() + k] == reqs[k]);
        assert(rb[ra.len() + k] == replies[k]);
        assert(exchanged_at(a.runner, b.runner, reqs[k], replies[k], k));
    }
}

/// No call was made.
pub proof fn lemma_no_chezmoi_calls<C: CommandRunner>(c: ChezmoiClient<C>)
    ensures
        chezmoi_calls(c, c, seq![]),
{
    let none = chezmoi_requests(c, seq![]);
    assert(none =~= seq![]);
    assert(c.runner.sent() + none =~= c.runner.sent());
    let r = c.runner.replies();
    assert(added(r, r) =~= seq![]);
    assert(r + added(r, r) =~= r);
}

/// One more call was made.
pub proof fn lemma_chezmoi_call<C: CommandRunner>(
    a: ChezmoiClient<C>,
    b: ChezmoiClient<C>,
    c: ChezmoiClient<C>,
    args: Seq<Seq<Seq<char>>>,
    last: Seq<Seq<char>>,
)
    requires
        chezmoi_calls(a, b, args),
        called(b, c, last, None, b.opts.timeout),
    ensures
        chezmoi_calls(a, c, args.push(last)),
        added(a.runner.replies(), c.runner.replies()) == added(
            a.runner.replies(),
            b.runner.replies(),
        ).push(c.answer()),
{
    let more = chezmoi_requests(a, args.push(last));
    let req = chezmoi_request(a.opts, last, None, a.opts.timeout);
    assert(more =~= chezmoi_requests(a, args).push(req));
    assert(a.runner.sent() + more =~= (a.runner.sent() + chezmoi_requests(a, args)).push(req));
    let (ra, rb, rc) = (a.runner.replies(), b.runner.replies(), c.runner.replies());
    assert(added(ra, rc) =~= added(ra, rb).push(c.answer()));
    lemma_one_more_answer(
        a.runner,
        b.runner,
        c.runner,
        chezmoi_requests(a, args),
        added(ra, rb),
        req,
        c.answer(),
    );
    assert(ra + added(ra, rc) =~= (ra + added(ra, rb)).push(c.answer()));
}

impl<R: CommandRunner> ChezmoiClient<R> {
    /// The last answer.
    pub open spec fn answer(&self) -> Reply {
        self.runner.replies().last()
    }

    pub fn new(runner: R, opts: ChezmoiOptions) -> (r: Self)
        ensures
            r.runner == runner,
            r.opts == opts,
    {
        ChezmoiClient { runner, opts }
    }

    fn request(&self, args: &Vec<&str>) -> (r: CommandRequest)
        ensures
            r@ == chezmoi_request(
                self.opts,
                crate::merge::views(args@),
                None,
                self.opts.timeout,
            ),
    {
        let mut req = CommandRequest::new(self.opts.bin.as_str());
        let ghost base = strings(self.opts.base_args@);
        let ghost env = pairs(self.opts.env@);
        let mut i: usize = 0;
        assert(req@.args =~= base.take(0));
        while i < self.opts.base_args.len()
            invariant
                base == strings(self.opts.base_args@),
                i <= self.opts.base_args@.len(),
                req@ == (Request {
                    program: self.opts.bin@,
                    args: base.take(i as int),
                    env: seq![],
                    cwd: None,
                    stdin: None,
                    timeout: Duration::seconds(30),
                }),
            decreases self.opts.base_args@.len() - i,
        {
            req = req.arg(self.opts.base_args[i].as_str());
            i = i + 1;
            assert(base.take(i as int) =~= base.take(i - 1).push(base[i - 1]));
        }
        assert(base.take(i as int) =~= base);
        req = req.args(args.as_slice()).timeout(self.opts.timeout);
        let mut k: usize = 0;
        assert(req@.env =~= env.take(0));
        while k < self.opts.env.len()
            invariant
                env == pairs(self.opts.env@),
                k <= self.opts.env@.len(),
                req@ == (Request {
                    program: self.opts.bin@,
                    args: strings(self.opts.base_args@) + crate::merge::views(args@),
                    env: env.take(k as int),
                    cwd: None,
                    stdin: None,
                    timeout: self.opts.timeout,
                }),
            decreases self.opts.env@.len() - k,
        {
            let p = &self.opts.env[k];
            req = req.env(p.0.as_str(), p.1.as_str());
            k = k + 1;
            assert(env.take(k as int) =~= env.take(k - 1).push(env[k - 1]));
        }
        assert(env.take(k as int) =~= env);
        req
    }

    fn run_ok_with_timeout(
        &mut self,
        args: &Vec<&str>,
        stdin: Option<Vec<u8>>,
        timeout: Duration,
    ) -> (r: Result<Vec<u8>, ChezmoiError>)
        ensures
            called(
                *old(self),
                *final(self),
                crate::merge::views(args@),
                match stdin {
                    Some(b) => Some(b@),
                    None => None,
                },
                timeout,
            ),
            match r {
                Ok(b) => outcome(final(self).answer()) == Ok::<Seq<u8>, Failure>(b@),
                Err(e) => outcome(final(self).answer()) == Err::<Seq<u8>, Failure>(e@),
            },
    {
        let mut req = self.request(args).timeout(timeout);
        match stdin {
            Some(bytes) => {
                req = req.stdin(bytes);
            },
            None => {},
        }
        let out = match self.runner.run(req) {
            Ok(out) => out,
            Err(e) => {
                return Err(ChezmoiError::Command(e));
            },
        };
        if out.success() {
            return Ok(out.stdout);
        }
        let stderr = out.stderr_utf8();
        match classify_eval_stderr(stderr.as_str()) {
            Some(f) => Err(ChezmoiError::Eval(f)),
            None => Err(ChezmoiError::Exit { code: out.exit_code, stderr }),
        }
    }

    fn run_ok(&mut self, args: &Vec<&str>, stdin: Option<Vec<u8>>) -> (r: Result<
        Vec<u8>,
        ChezmoiError,
    >)
        ensures
            called(
                *old(self),
                *final(self),
                crate::merge::views(args@),
                match stdin {
                    Some(b) => Some(b@),
                    None => None,
                },
                old(self).opts.timeout,
            ),
            match r {
                Ok(b) => outcome(final(self).answer()) == Ok::<Seq<u8>, Failure>(b@),
                Err(e) => outcome(final(self).answer()) == Err::<Seq<u8>, Failure>(e@),
            },
    {
        let timeout = self.opts.timeout;
        self.run_ok_with_timeout(args, stdin, timeout)
    }

    fn run_utf8(&mut self, args: &Vec<&str>) -> (r: Result<String, ChezmoiError>)
        ensures
            called(
                *old(self),
                *final(self),
                crate::merge::views(args@),
                None,
                old(self).opts.timeout,
            ),
            match r {
                Ok(s) => outcome_text(final(self).answer()) == Ok::<Seq<char>, Failure>(s@),
                Err(e) => outcome_text(final(self).answer()) == Err::<Seq<char>, Failure>(e@),
            },
    {
        match self.run_ok(args, None) {
            Ok(b) => Ok(lossy_text(b.as_slice())),
            Err(e) => Err(e),
        }
    }

    /// The directory of the source state.
    pub fn source_dir(&mut self) -> (r: Result<String, ChezmoiError>)
        ensures
            called(
                *old(self),
                *final(self),
                seq!["source-path"@],
                None,
                old(self).opts.timeout,
            ),
            match r {
                Ok(s) => outcome_text(final(self).answer()) matches Ok(t) && s@ == trim(t),
                Err(e) => outcome_text(final(self).answer()) == Err::<Seq<char>, Failure>(e@),
            },
    {
        let args = vec!["source-path"];
        assert(crate::merge::views(args@) =~= seq!["source-path"@]);
        match self.run_utf8(&args) {
            Ok(t) => Ok(trim_text(t.as_str())),
            Err(e) => Err(e),
        }
    }

    /// The target paths of all managed entries.
    pub fn managed(&mut self) -> (r: Result<Vec<String>, ChezmoiError>)
        ensures
            called(
                *old(self),
                *final(self),
                seq!["managed"@, "--path-style=absolute"@],
                None,
                old(self).opts.timeout,
            ),
            match r {
                Ok(v) => outcome_text(final(self).answer()) matches Ok(t) && strings(v@)
                    == bare_lines(t),
                Err(e) => outcome_text(final(self).answer()) == Err::<Seq<char>, Failure>(e@),
            },
    {
        let args = vec!["managed", "--path-style=absolute"];
        assert(crate::merge::views(args@) =~= seq!["managed"@, "--path-style=absolute"@]);
        match self.run_utf8(&args) {
            Ok(t) => Ok(lines(t.as_str())),
            Err(e) => Err(e),
        }
    }

    /// The entries whose states differ.
    pub fn status(&mut self) -> (r: Result<Vec<StatusEntry>, ChezmoiError>)
        ensures
            called(
                *old(self),
                *final(self),
                seq!["status"@, "--path-style=absolute"@],
                None,
                old(self).opts.timeout,
            ),
            match (outcome_text(final(self).answer()), r) {
                (Ok(t), Ok(v)) => statuses(bare_lines(t), bare_lines(t).len() as int) == Ok::<
                    Seq<Status>,
                    Seq<char>,
                >(status_views(v@)),
                (Ok(t), Err(e)) => e@ matches Failure::Parse { context, detail } && context
                    == "status"@ && statuses(bare_lines(t), bare_lines(t).len() as int) == Err::<
                    Seq<Status>,
                    Seq<char>,
                >(detail),
                (Err(f), Err(e)) => e@ == f,
                (Err(_), Ok(_)) => false,
            },
    {
        let args = vec!["status", "--path-style=absolute"];
        assert(crate::merge::views(args@) =~= seq!["status"@, "--path-style=absolute"@]);
        match self.run_utf8(&args) {
            Ok(t) => match parse_statuses(t.as_str()) {
                Ok(v) => Ok(v),
                Err(detail) => Err(ChezmoiError::Parse { context: "status", detail }),
            },
            Err(e) => Err(e),
        }
    }

    /// What a target would be written as.
    pub fn cat(&mut self, target: &str) -> (r: Result<Vec<u8>, ChezmoiError>)
        ensures
            called(
                *old(self),
                *final(self),
                seq!["cat"@, target@],
                None,
                old(self).opts.timeout,
            ),
            match r {
                Ok(b) => outcome(final(self).answer()) == Ok::<Seq<u8>, Failure>(b@),
                Err(e) => outcome(final(self).answer()) == Err::<Seq<u8>, Failure>(e@),
            },
    {
        let args = vec!["cat", target];
        assert(crate::merge::views(args@) =~= seq!["cat"@, target@]);
        self.run_ok(&args, None)
    }

    /// The source file of a target.
    pub fn source_path(&mut self, target: &str) -> (r: Result<String, ChezmoiError>)
        ensures
            called(
                *old(self),
                *final(self),
                seq!["source-path"@, target@],
                None,
                old(self).opts.timeout,
            ),
            match r {
                Ok(s) => outcome_text(final(self).answer()) matches Ok(t) && s@ == trim(t),
                Err(e) => outcome_text(final(self).answer()) == Err::<Seq<char>, Failure>(e@),
            },
    {
        let args = vec!["source-path", target];
        assert(crate::merge::views(args@) =~= seq!["source-path"@, target@]);
        match self.run_utf8(&args) {
            Ok(t) => Ok(trim_text(t.as_str())),
            Err(e) => Err(e),
        }
    }

    /// The targets of source files. No files, no call.
    pub fn target_paths(&mut self, sources: &Vec<String>) -> (r: Result<Vec<String>, ChezmoiError>)
        ensures
            sources@.len() == 0 ==> *final(self) == *old(self) && (r matches Ok(v) && v@.len()
                == 0),
            sources@.len() > 0 ==> {
                &&& called(
                    *old(self),
                    *final(self),
                    seq!["target-path"@] + strings(sources@),
                    None,
                    old(self).opts.timeout,
                )
                &&& match r {
                    Ok(v) => outcome_text(final(self).answer()) matches Ok(t) && strings(v@)
                        == bare_lines(t),
                    Err(e) => outcome_text(final(self).answer()) == Err::<Seq<char>, Failure>(
                        e@,
                    ),
                }
            },
    {
        if sources.len() == 0 {
            return Ok(Vec::new());
        }
        let mut args: Vec<&str> = vec!["target-path"];
        let ghost all = strings(sources@);
        let mut i: usize = 0;
        assert(crate::merge::views(args@) =~= seq!["target-path"@] + all.take(0));
        while i < sources.len()
            invariant
                all == strings(sources@),
                i <= sources@.len(),
                crate::merge::views(args@) == seq!["target-path"@] + all.take(i as int),
            decreases sources@.len() - i,
        {
            let ghost had = crate::merge::views(args@);
            args.push(sources[i].as_str());
            i = i + 1;
            proof {
                assert(crate::merge::views(args@) =~= had.push(all[i - 1]));
                assert(seq!["target-path"@] + all.take(i as int) =~= had.push(all[i - 1]));
            }
        }
        assert(all.take(i as int) =~= all);
        match self.run_utf8(&args) {
            Ok(t) => Ok(lines(t.as_str())),
            Err(e) => Err(e),
        }
    }

    /// What chezmoi remembers of what it wrote.
    pub fn state_dump(&mut self) -> (r: Result<StateDump, ChezmoiError>)
        ensures
            called(
                *old(self),
                *final(self),
                seq!["state"@, "dump"@, "--format=json"@],
                None,
                old(self).opts.timeout,
            ),
            match (outcome(final(self).answer()), r) {
                (Ok(b), Ok(d)) => dump_result(b) == Ok::<Seq<(Seq<char>, Entry)>, Failure>(d@),
                (Ok(b), Err(e)) => dump_result(b) == Err::<Seq<(Seq<char>, Entry)>, Failure>(e@),
                (Err(f), Err(e)) => e@ == f,
                (Err(_), Ok(_)) => false,
            },
    {
        let args = vec!["state", "dump", "--format=json"];
        assert(crate::merge::views(args@) =~= seq!["state"@, "dump"@, "--format=json"@]);
        let bytes = match self.run_ok(&args, None) {
            Ok(b) => b,
            Err(e) => {
                return Err(e);
            },
        };
        match parse_json(bytes.as_slice()) {
            Err(detail) => Err(ChezmoiError::Parse { context: "state dump", detail }),
            Ok(j) => match read_dump(&j) {
                Some(d) => Ok(d),
                None => Err(
                    ChezmoiError::Parse {
                        context: "state dump",
                        detail: "not a state of chezmoi entries".to_owned(),
                    },
                ),
            },
        }
    }

    /// What a template renders to.
    pub fn execute_template(&mut self, input: &[u8]) -> (r: Result<Vec<u8>, ChezmoiError>)
        ensures
            called(
                *old(self),
                *final(self),
                seq!["execute-template"@],
                Some(input@),
                old(self).opts.timeout,
            ),
            match r {
                Ok(b) => outcome(final(self).answer()) == Ok::<Seq<u8>, Failure>(b@),
                Err(e) => outcome(final(self).answer()) == Err::<Seq<u8>, Failure>(e@),
            },
    {
        let args = vec!["execute-template"];
        assert(crate::merge::views(args@) =~= seq!["execute-template"@]);
        self.run_ok(&args, Some(vstd::slice::slice_to_vec(input)))
    }

    /// Writes one target, or all.
    pub fn apply(&mut self, target: Option<&str>) -> (r: Result<(), ChezmoiError>)
        ensures
            called(
                *old(self),
                *final(self),
                match target {
                    Some(t) => seq!["apply"@, t@],
                    None => seq!["apply"@],
                },
                None,
                old(self).opts.timeout,
            ),
            match r {
                Ok(_) => outcome(final(self).answer()) is Ok,
                Err(e) => outcome(final(self).answer()) == Err::<Seq<u8>, Failure>(e@),
            },
    {
        let mut args = vec!["apply"];
        assert(crate::merge::views(args@) =~= seq!["apply"@]);
        match target {
            Some(t) => {
                args.push(t);
                assert(crate::merge::views(args@) =~= seq!["apply"@, t@]);
            },
            None => {},
        }
        match self.run_ok(&args, None) {
            Ok(_) => Ok(()),
            Err(e) => Err(e),
        }
    }

    /// Takes a changed target over into the source state. chezmoi ignores templated sources
    /// without a word: whoever calls this has to refuse them first.
    pub fn re_add(&mut self, target: &str) -> (r: Result<(), ChezmoiError>)
        ensures
            called(
                *old(self),
                *final(self),
                seq!["re-add"@, target@],
                None,
                old(self).opts.timeout,
            ),
            match r {
                Ok(_) => outcome(final(self).answer()) is Ok,
                Err(e) => outcome(final(self).answer()) == Err::<Seq<u8>, Failure>(e@),
            },
    {
        let args = vec!["re-add", target];
        assert(crate::merge::views(args@) =~= seq!["re-add"@, target@]);
        match self.run_ok(&args, None) {
            Ok(_) => Ok(()),
            Err(e) => Err(e),
        }
    }

    /// Pulls the source repository and applies it. It uses the network, and may take two
    /// minutes, whatever the options say.
    pub fn update(&mut self) -> (r: Result<(), ChezmoiError>)
        ensures
            called(*old(self), *final(self), seq!["update"@], None, Duration::seconds(120)),
            match r {
                Ok(_) => outcome(final(self).answer()) is Ok,
                Err(e) => outcome(final(self).answer()) == Err::<Seq<u8>, Failure>(e@),
            },
    {
        let args = vec!["update"];
        assert(crate::merge::views(args@) =~= seq!["update"@]);
        match self.run_ok_with_timeout(&args, None, Duration::from_secs(120)) {
            Ok(_) => Ok(()),
            Err(e) => Err(e),
        }
    }
}

// ---------------------------------------------------------------------------
// What chezmoi prints is read back

/// The letter of a change in `chezmoi status`.
pub open spec fn letter_of(c: ChangeCode) -> char {
    match c {
        ChangeCode::Unchanged => ' ',
        ChangeCode::Added => 'A',
        ChangeCode::Deleted => 'D',
        ChangeCode::Modified => 'M',
        ChangeCode::Run => 'R',
    }
}

/// The line of an entry: a letter for what was last written against what is there, one for that
/// against what would be written, a blank, the path.
pub open spec fn status_line(s: Status) -> Seq<char> {
    seq![letter_of(s.last_written_vs_actual), letter_of(s.actual_vs_target), ' '] + s.path
}

proof fn lemma_status_lines(v: Seq<Status>, ls: Seq<Seq<char>>, n: int)
    requires
        ls.len() == v.len(),
        0 <= n <= v.len(),
        forall|k: int|
            0 <= k < v.len() ==> #[trigger] ls[k] == status_line(v[k]) && v[k].path.len() > 0,
    ensures
        statuses(ls, n) == Ok::<Seq<Status>, Seq<char>>(v.take(n)),
    decreases n,
{
    if n == 0 {
        assert(v.take(0) =~= seq![]);
    } else {
        lemma_status_lines(v, ls, n - 1);
        let s = v[n - 1];
        assert(ls[n - 1] == status_line(s));
        let (a, b) = (letter_of(s.last_written_vs_actual), letter_of(s.actual_vs_target));
        crate::text::lemma_behind_three(a, b, ' ', s.path);
        encode_utf8_first_scalar(s.path);
        assert(status_of(ls[n - 1]) == Some(s));
        assert(v.take(n) =~= v.take(n - 1).push(s));
    }
}

/// Every entry that `chezmoi status` prints is read back, with both its letters and its path.
pub proof fn law_printed_status_is_read_back(v: Seq<Status>)
    requires
        forall|k: int|
            0 <= k < v.len() ==> (#[trigger] v[k]).path.len() > 0 && crate::merge::fits_a_line(
                v[k].path,
            ),
    ensures
        ({
            let text = crate::merge::printed(v.map_values(|s: Status| status_line(s)));
            statuses(bare_lines(text), bare_lines(text).len() as int) == Ok::<
                Seq<Status>,
                Seq<char>,
            >(v)
        }),
{
    let ls = v.map_values(|s: Status| status_line(s));
    assert forall|k: int| 0 <= k < ls.len() implies crate::merge::fits_a_line(
        #[trigger] ls[k],
    ) by {
        assert(v[k].path.len() > 0);
        let line = status_line(v[k]);
        assert(ls[k] == line);
        assert forall|i: int| 0 <= i < line.len() implies line[i] != '\n' by {
            if i >= 3 {
                assert(line[i] == v[k].path[i - 3]);
                assert(v[k].path.contains(v[k].path[i - 3]));
            }
        }
        assert(line.last() == v[k].path.last());
    }
    crate::merge::law_printed_lines_are_read_back(ls);
    assert forall|k: int| 0 <= k < v.len() implies #[trigger] ls[k] == status_line(v[k])
        && v[k].path.len() > 0 by {
        assert(v[k].path.len() > 0);
    }
    lemma_status_lines(v, ls, v.len() as int);
    assert(v.take(v.len() as int) =~= v);
}

proof fn lemma_entries_are(o: Seq<(String, Json)>, es: Seq<Entry>, n: int)
    requires
        es.len() == o.len(),
        0 <= n <= o.len(),
        forall|k: int|
            0 <= k < o.len() ==> entry_of((#[trigger] o[k]).1) == Some(es[k]),
        forall|j: int, k: int|
            #![trigger o[j], o[k]]
            0 <= j < k < o.len() ==> !same_path(o[j].0@, o[k].0@),
    ensures
        entries_of(o, n) == Some(Seq::new(n as nat, |k: int| (o[k].0@, es[k]))),
    decreases n,
{
    if n == 0 {
        assert(Seq::new(0, |k: int| (o[k].0@, es[k])) =~= seq![]);
    } else {
        lemma_entries_are(o, es, n - 1);
        let front = Seq::new((n - 1) as nat, |k: int| (o[k].0@, es[k]));
        assert(entry_of(o[n - 1].1) == Some(es[n - 1]));
        assert forall|j: int| 0 <= j < n - 1 implies !same_path(
            (#[trigger] front[j]).0,
            o[n - 1].0@,
        ) by {
            assert(!same_path(o[j].0@, o[n - 1].0@));
        }
        lemma_put_entry(front, o[n - 1].0@, es[n - 1], n - 1);
        assert(front.push((o[n - 1].0@, es[n - 1])) =~= Seq::new(
            n as nat,
            |k: int| (o[k].0@, es[k]),
        ));
    }
}

/// The state holds every path that the dump has an entry for, in its order, with the `type` of
/// the entry and, where it has them, its `contentsSHA256` and its `mode`; and nothing else.
pub proof fn law_dumped_entries_are_read(
    dump: Json,
    o: Vec<(String, Json)>,
    es: Seq<Entry>,
)
    requires
        dump is Object,
        member(dump, "entryState"@) == Some(Json::Object(o)),
        es.len() == o@.len(),
        forall|j: int, k: int|
            #![trigger o@[j], o@[k]]
            0 <= j < k < o@.len() ==> !same_path(o@[j].0@, o@[k].0@),
        forall|k: int|
            0 <= k < o@.len() ==> {
                let j = (#[trigger] o@[k]).1;
                &&& j is Object
                &&& member(j, "type"@) matches Some(Json::Text(kind)) && es[k].kind == kind@
                &&& match es[k].contents_sha256 {
                    Some(hash) => member(j, "contentsSHA256"@) matches Some(Json::Text(s)) && s@
                        == hash,
                    None => member(j, "contentsSHA256"@) is None,
                }
                &&& match es[k].mode {
                    Some(mode) => member(j, "mode"@) == Some(Json::Unsigned(mode as u64)),
                    None => member(j, "mode"@) is None,
                }
            },
    ensures
        dump_of(dump) == Some(Seq::new(o@.len(), |k: int| (o@[k].0@, es[k]))),
{
    assert forall|k: int| 0 <= k < o@.len() implies entry_of((#[trigger] o@[k]).1) == Some(
        es[k],
    ) by {
        let j = o@[k].1;
        assert(j is Object);
    }
    lemma_entries_are(o@, es, o@.len() as int);
}

} // verus!
