//! The scan for drift: which managed files may have drifted, and what has become of each.
//!
//! Candidates come from three places, so that a template that cannot be rendered hides nothing:
//! the files on disk against what chezmoi last wrote, the source files that git knows to have
//! changed, and `chezmoi status`. Where the last cannot be had, the scan goes on without it.

use vstd::prelude::*;
use vstd::string::*;

use crate::chezmoi::{chezmoi_calls, chezmoi_request, dump_reply, lemma_chezmoi_call};
use crate::chezmoi::{lemma_chezmoi_got, lemma_no_chezmoi_calls};
use crate::chezmoi::{entries_of, entry_of, outcome, outcome_text, put_entry, status_views, statuses};
use crate::chezmoi::{ChezmoiClient, ChezmoiError, Entry, EntryState, EvalFailure, Failure};
use crate::chezmoi::{StateDump, Status, StatusEntry};
use crate::cmd::{added, got, lemma_got, lemma_went_on, went_on, CommandRunner, Duration, Reply};
use crate::drift::{class_of, classify, hash_bytes, hash_from_hex, same_hash, sha256};
use crate::drift::{ContentHash, DriftClass, GitSignals, StateProbe};
use crate::git::{count_of, dirty_of, git_calls, git_request, git_text, lemma_git_call};
use crate::git::{lemma_git_got, lemma_no_git_calls};
use crate::git::{GitClient, GitError, GitFailure};
use crate::json::{json_document, Json};
use crate::merge::bare_lines;
use crate::paths::{contains_path, has_path, insert_ordered, insert_path, is_same_path, join};
use crate::paths::{joined, lemma_insert_path, ordered_paths, path_order, relative_to, same_path};
use crate::paths::strip_base;
use crate::text::{same, strings, trim};

verus! {

/// A file that has drifted.
#[derive(Debug)]
pub struct FileDrift {
    pub target: String,
    pub source_rel: Option<String>,
    pub class: DriftClass,
    pub probe: StateProbe,
}

#[derive(Debug)]
pub struct ScanReport {
    pub drifted: Vec<FileDrift>,
    pub in_sync_count: usize,
    /// Why `chezmoi status` could not run, where it could not. The scan still covers the files
    /// on disk and the source repository.
    pub degraded: Option<EvalFailure>,
}

#[derive(Debug)]
pub enum ScanError {
    Chezmoi(ChezmoiError),
    Git(GitError),
    Io(String),
}

/// Why a scan failed, as the model has it.
pub enum ScanFailure {
    Chezmoi(Failure),
    Git(GitFailure),
    Io { detail: Seq<char> },
}

impl View for ScanError {
    type V = ScanFailure;

    open spec fn view(&self) -> ScanFailure {
        match *self {
            ScanError::Chezmoi(e) => ScanFailure::Chezmoi(e@),
            ScanError::Git(e) => ScanFailure::Git(e@),
            ScanError::Io(s) => ScanFailure::Io { detail: s@ },
        }
    }
}

impl ScanError {
    pub open spec fn message_spec(self) -> Seq<char> {
        match self {
            ScanError::Chezmoi(e) => e.message_spec(),
            ScanError::Git(e) => e.message_spec(),
            ScanError::Io(s) => "i/o error during scan: "@ + s@,
        }
    }

    /// The error in words.
    pub fn message(&self) -> (r: String)
        ensures
            r@ == self.message_spec(),
    {
        match self {
            ScanError::Chezmoi(e) => e.message(),
            ScanError::Git(e) => e.message(),
            ScanError::Io(s) => {
                let mut m = "i/o error during scan: ".to_owned();
                m.append(s.as_str());
                m
            },
        }
    }
}

// ---------------------------------------------------------------------------
// The files on disk

/// The hash that an entry remembers.
pub open spec fn remembered(e: Entry) -> Option<Seq<u8>> {
    match e.contents_sha256 {
        Some(s) => hash_from_hex(s),
        None => None,
    }
}

fn remembered_hash(e: &EntryState) -> (r: Option<ContentHash>)
    ensures
        hash_bytes(r) == remembered(e@),
{
    match &e.contents_sha256 {
        Some(s) => ContentHash::from_hex(s.as_str()),
        None => None,
    }
}

/// The managed files among the first `n` entries, each with the hash that is remembered of it.
pub open spec fn watched(
    dump: Seq<(Seq<char>, Entry)>,
    managed: Seq<Seq<char>>,
    n: int,
) -> Seq<(Seq<char>, Option<Seq<u8>>)>
    decreases n,
{
    if n <= 0 {
        seq![]
    } else {
        let front = watched(dump, managed, n - 1);
        let (target, entry) = dump[n - 1];
        if entry.kind == "file"@ && has_path(managed, target) {
            front.push((target, remembered(entry)))
        } else {
            front
        }
    }
}

pub open spec fn file_views(v: Seq<(String, Option<ContentHash>)>) -> Seq<
    (Seq<char>, Option<Seq<u8>>),
> {
    v.map_values(|p: (String, Option<ContentHash>)| (p.0@, hash_bytes(p.1)))
}

/// The managed files, each with the hash that is remembered of it.
pub fn watched_files(dump: &StateDump, managed: &Vec<String>) -> (r: Vec<
    (String, Option<ContentHash>),
>)
    ensures
        file_views(r@) == watched(dump@, strings(managed@), dump@.len() as int),
{
    let mut out: Vec<(String, Option<ContentHash>)> = Vec::new();
    let mut i: usize = 0;
    assert(file_views(out@) =~= seq![]);
    while i < dump.entry_state.len()
        invariant
            i <= dump.entry_state@.len(),
            file_views(out@) == watched(dump@, strings(managed@), i as int),
        decreases dump.entry_state@.len() - i,
    {
        let p = &dump.entry_state[i];
        assert(dump@[i as int] == (p.0@, p.1@));
        let ghost had = file_views(out@);
        if same(p.1.kind.as_str(), "file") && contains_path(managed, p.0.as_str()) {
            let h = remembered_hash(&p.1);
            out.push((p.0.clone(), h));
            assert(file_views(out@) =~= had.push((p.0@, remembered(p.1@))));
        }
        i = i + 1;
    }
    out
}

pub open spec fn hash_views(v: Seq<Option<ContentHash>>) -> Seq<Option<Seq<u8>>> {
    v.map_values(|h: Option<ContentHash>| hash_bytes(h))
}

/// The files among the first `n` that are not what is remembered of them.
pub open spec fn changed_on_disk(
    files: Seq<(Seq<char>, Option<Seq<u8>>)>,
    hashes: Seq<Option<Seq<u8>>>,
    n: int,
) -> Seq<Seq<char>>
    decreases n,
{
    if n <= 0 {
        seq![]
    } else {
        let front = changed_on_disk(files, hashes, n - 1);
        if hashes[n - 1] != files[n - 1].1 {
            insert_path(front, files[n - 1].0)
        } else {
            front
        }
    }
}

/// The files that are not what is remembered of them, in order.
pub fn disk_candidates(
    files: &Vec<(String, Option<ContentHash>)>,
    hashes: &Vec<Option<ContentHash>>,
) -> (r: Vec<String>)
    requires
        files@.len() == hashes@.len(),
    ensures
        strings(r@) == changed_on_disk(
            file_views(files@),
            hash_views(hashes@),
            files@.len() as int,
        ),
{
    let mut out: Vec<String> = Vec::new();
    let mut i: usize = 0;
    assert(strings(out@) =~= seq![]);
    while i < files.len()
        invariant
            files@.len() == hashes@.len(),
            i <= files@.len(),
            strings(out@) == changed_on_disk(
                file_views(files@),
                hash_views(hashes@),
                i as int,
            ),
        decreases files@.len() - i,
    {
        assert(file_views(files@)[i as int] == (files@[i as int].0@, hash_bytes(
            files@[i as int].1,
        )));
        assert(hash_views(hashes@)[i as int] == hash_bytes(hashes@[i as int]));
        if !same_hash(&hashes[i], &files[i].1) {
            insert_ordered(&mut out, files[i].0.clone());
        }
        i = i + 1;
    }
    out
}

// ---------------------------------------------------------------------------
// Candidates

/// The candidates, and the first `n` paths.
pub open spec fn with_paths(cands: Seq<Seq<char>>, paths: Seq<Seq<char>>, n: int) -> Seq<Seq<char>>
    decreases n,
{
    if n <= 0 {
        cands
    } else {
        insert_path(with_paths(cands, paths, n - 1), paths[n - 1])
    }
}

fn add_paths(cands: &mut Vec<String>, paths: &Vec<String>)
    ensures
        strings(final(cands)@) == with_paths(
            strings(old(cands)@),
            strings(paths@),
            paths@.len() as int,
        ),
{
    let ghost start = strings(cands@);
    let mut i: usize = 0;
    while i < paths.len()
        invariant
            i <= paths@.len(),
            strings(cands@) == with_paths(start, strings(paths@), i as int),
        decreases paths@.len() - i,
    {
        assert(strings(paths@)[i as int] == paths@[i as int]@);
        insert_ordered(cands, paths[i].clone());
        i = i + 1;
    }
}

/// The candidates, and those of the first `n` paths that are managed.
pub open spec fn with_managed(
    cands: Seq<Seq<char>>,
    managed: Seq<Seq<char>>,
    paths: Seq<Seq<char>>,
    n: int,
) -> Seq<Seq<char>>
    decreases n,
{
    if n <= 0 {
        cands
    } else {
        let front = with_managed(cands, managed, paths, n - 1);
        if has_path(managed, paths[n - 1]) {
            insert_path(front, paths[n - 1])
        } else {
            front
        }
    }
}

fn add_managed(cands: &mut Vec<String>, managed: &Vec<String>, paths: &Vec<String>)
    ensures
        strings(final(cands)@) == with_managed(
            strings(old(cands)@),
            strings(managed@),
            strings(paths@),
            paths@.len() as int,
        ),
{
    let ghost start = strings(cands@);
    let mut i: usize = 0;
    while i < paths.len()
        invariant
            i <= paths@.len(),
            strings(cands@) == with_managed(
                start,
                strings(managed@),
                strings(paths@),
                i as int,
            ),
        decreases paths@.len() - i,
    {
        assert(strings(paths@)[i as int] == paths@[i as int]@);
        if contains_path(managed, paths[i].as_str()) {
            insert_ordered(cands, paths[i].clone());
        }
        i = i + 1;
    }
}

/// The candidates, and the managed ones among the targets that the first `n` answers name.
/// A source file that has no target is no failure.
pub open spec fn with_targets(
    cands: Seq<Seq<char>>,
    managed: Seq<Seq<char>>,
    answers: Seq<Reply>,
    n: int,
) -> Seq<Seq<char>>
    decreases n,
{
    if n <= 0 {
        cands
    } else {
        let front = with_targets(cands, managed, answers, n - 1);
        match outcome_text(answers[n - 1]) {
            Ok(t) => with_managed(front, managed, bare_lines(t), bare_lines(t).len() as int),
            Err(_) => front,
        }
    }
}

/// The paths of status entries.
pub open spec fn status_paths(v: Seq<Status>) -> Seq<Seq<char>> {
    v.map_values(|s: Status| s.path)
}

fn paths_of(v: &Vec<StatusEntry>) -> (r: Vec<String>)
    ensures
        strings(r@) == status_paths(status_views(v@)),
        r@.len() == v@.len(),
{
    let mut out: Vec<String> = Vec::new();
    let mut i: usize = 0;
    while i < v.len()
        invariant
            i <= v@.len(),
            out@.len() == i,
            forall|k: int| 0 <= k < i ==> #[trigger] out@[k]@ == v@[k].path@,
        decreases v@.len() - i,
    {
        out.push(v[i].path.clone());
        i = i + 1;
    }
    assert(strings(out@) =~= status_paths(status_views(v@)));
    out
}

/// What the answer to `chezmoi status` comes to.
pub open spec fn status_result(reply: Reply) -> Result<Seq<Status>, Failure> {
    match outcome_text(reply) {
        Err(f) => Err(f),
        Ok(t) => match statuses(bare_lines(t), bare_lines(t).len() as int) {
            Ok(v) => Ok(v),
            Err(detail) => Err(Failure::Parse { context: "status"@, detail }),
        },
    }
}

/// The candidates, and the managed ones that `chezmoi status` names. An answer that is none
/// because something could not be evaluated names none; any other failure is one of the scan.
pub open spec fn with_status(
    cands: Seq<Seq<char>>,
    managed: Seq<Seq<char>>,
    reply: Reply,
) -> Result<Seq<Seq<char>>, Failure> {
    match status_result(reply) {
        Ok(v) => Ok(with_managed(cands, managed, status_paths(v), v.len() as int)),
        Err(Failure::Eval { .. }) => Ok(cands),
        Err(f) => Err(f),
    }
}

/// The source files that git knows to have changed, in order.
pub open spec fn changed_sources(remote: Seq<Seq<char>>, dirty: Seq<Seq<char>>) -> Seq<Seq<char>> {
    with_paths(
        with_paths(seq![], remote, remote.len() as int),
        dirty,
        dirty.len() as int,
    )
}

proof fn lemma_with_managed(
    cands: Seq<Seq<char>>,
    managed: Seq<Seq<char>>,
    paths: Seq<Seq<char>>,
    n: int,
)
    requires
        ordered_paths(cands),
    ensures
        ordered_paths(with_managed(cands, managed, paths, n)),
        forall|q: Seq<char>|
            has_path(cands, q) ==> #[trigger] has_path(with_managed(cands, managed, paths, n), q),
        forall|k: int|
            0 <= k < n && has_path(managed, #[trigger] paths[k]) ==> has_path(
                with_managed(cands, managed, paths, n),
                paths[k],
            ),
    decreases n,
{
    if n > 0 {
        lemma_with_managed(cands, managed, paths, n - 1);
        lemma_insert_path(with_managed(cands, managed, paths, n - 1), paths[n - 1]);
    }
}

proof fn lemma_with_targets(
    cands: Seq<Seq<char>>,
    managed: Seq<Seq<char>>,
    answers: Seq<Reply>,
    n: int,
)
    requires
        ordered_paths(cands),
    ensures
        ordered_paths(with_targets(cands, managed, answers, n)),
        forall|q: Seq<char>|
            has_path(cands, q) ==> #[trigger] has_path(with_targets(cands, managed, answers, n), q),
    decreases n,
{
    if n > 0 {
        lemma_with_targets(cands, managed, answers, n - 1);
        match outcome_text(answers[n - 1]) {
            Ok(t) => {
                lemma_with_managed(
                    with_targets(cands, managed, answers, n - 1),
                    managed,
                    bare_lines(t),
                    bare_lines(t).len() as int,
                );
            },
            Err(_) => {},
        }
    }
}

proof fn lemma_changed_on_disk(
    files: Seq<(Seq<char>, Option<Seq<u8>>)>,
    hashes: Seq<Option<Seq<u8>>>,
    n: int,
)
    ensures
        ordered_paths(changed_on_disk(files, hashes, n)),
        forall|k: int|
            0 <= k < n && #[trigger] hashes[k] != files[k].1 ==> has_path(
                changed_on_disk(files, hashes, n),
                files[k].0,
            ),
    decreases n,
{
    if n > 0 {
        lemma_changed_on_disk(files, hashes, n - 1);
        lemma_insert_path(changed_on_disk(files, hashes, n - 1), files[n - 1].0);
    }
}

/// Template failures cannot hide drift: a managed file whose content on disk is not what is
/// remembered of it is a candidate, whatever chezmoi answers when it is asked for the targets
/// of source files, and whatever `chezmoi status` answers, unless the scan fails outright. And
/// it never fails because something could not be evaluated.
pub proof fn law_template_failures_hide_no_drift(
    files: Seq<(Seq<char>, Option<Seq<u8>>)>,
    hashes: Seq<Option<Seq<u8>>>,
    managed: Seq<Seq<char>>,
    answers: Seq<Reply>,
    status: Reply,
    k: int,
)
    requires
        files.len() == hashes.len(),
        0 <= k < files.len(),
        hashes[k] != files[k].1,
    ensures
        match with_status(
            with_targets(
                changed_on_disk(files, hashes, files.len() as int),
                managed,
                answers,
                answers.len() as int,
            ),
            managed,
            status,
        ) {
            Ok(cands) => has_path(cands, files[k].0) && ordered_paths(cands),
            Err(f) => !(f is Eval),
        },
{
    let disk = changed_on_disk(files, hashes, files.len() as int);
    lemma_changed_on_disk(files, hashes, files.len() as int);
    lemma_with_targets(disk, managed, answers, answers.len() as int);
    match status_result(status) {
        Ok(v) => {
            lemma_with_managed(
                with_targets(disk, managed, answers, answers.len() as int),
                managed,
                status_paths(v),
                v.len() as int,
            );
        },
        Err(_) => {},
    }
}

// ---------------------------------------------------------------------------
// What to probe

/// The entry of a path.
pub open spec fn entry_at(dump: Seq<(Seq<char>, Entry)>, path: Seq<char>, k: int) -> Option<Entry>
    decreases dump.len() - k,
{
    if k < 0 || k >= dump.len() {
        None
    } else if same_path(dump[k].0, path) {
        Some(dump[k].1)
    } else {
        entry_at(dump, path, k + 1)
    }
}

pub(crate) fn find_entry<'a>(dump: &'a StateDump, path: &str) -> (r: Option<&'a EntryState>)
    ensures
        match r {
            Some(e) => entry_at(dump@, path@, 0) == Some(e@),
            None => entry_at(dump@, path@, 0) is None,
        },
{
    let mut i: usize = 0;
    while i < dump.entry_state.len()
        invariant
            i <= dump.entry_state@.len(),
            entry_at(dump@, path@, 0) == entry_at(dump@, path@, i as int),
        decreases dump.entry_state@.len() - i,
    {
        let p = &dump.entry_state[i];
        assert(dump@[i as int] == (p.0@, p.1@));
        if is_same_path(p.0.as_str(), path) {
            return Some(&p.1);
        }
        i = i + 1;
    }
    None
}

/// What to probe of the first `n` candidates, each with the hash that is remembered of it: all
/// that chezmoi has not written yet, and the files among those that it has.
pub open spec fn to_probe(
    cands: Seq<Seq<char>>,
    dump: Seq<(Seq<char>, Entry)>,
    n: int,
) -> Seq<(Seq<char>, Option<Seq<u8>>)>
    decreases n,
{
    if n <= 0 {
        seq![]
    } else {
        let front = to_probe(cands, dump, n - 1);
        match entry_at(dump, cands[n - 1], 0) {
            None => front.push((cands[n - 1], None)),
            Some(e) => if e.kind == "file"@ {
                front.push((cands[n - 1], remembered(e)))
            } else {
                front
            },
        }
    }
}

/// What to probe of the candidates.
pub fn probe_list(cands: &Vec<String>, dump: &StateDump) -> (r: Vec<(String, Option<ContentHash>)>)
    ensures
        file_views(r@) == to_probe(strings(cands@), dump@, cands@.len() as int),
{
    let mut out: Vec<(String, Option<ContentHash>)> = Vec::new();
    let mut i: usize = 0;
    assert(file_views(out@) =~= seq![]);
    while i < cands.len()
        invariant
            i <= cands@.len(),
            file_views(out@) == to_probe(strings(cands@), dump@, i as int),
        decreases cands@.len() - i,
    {
        assert(strings(cands@)[i as int] == cands@[i as int]@);
        let ghost had = file_views(out@);
        match find_entry(dump, cands[i].as_str()) {
            None => {
                out.push((cands[i].clone(), None));
                assert(file_views(out@) =~= had.push((cands@[i as int]@, None)));
            },
            Some(e) => {
                if same(e.kind.as_str(), "file") {
                    let h = remembered_hash(e);
                    out.push((cands[i].clone(), h));
                    assert(file_views(out@) =~= had.push((cands@[i as int]@, remembered(e@))));
                }
            },
        }
        i = i + 1;
    }
    out
}

// ---------------------------------------------------------------------------
// The scanner

/// Scans for drift through chezmoi and git.
pub struct DriftScanner<C: CommandRunner, G: CommandRunner> {
    pub chezmoi: ChezmoiClient<C>,
    pub git: GitClient<G>,
    pub remote_ref: String,
}

/// What a scan starts from.
pub struct ScanStart {
    pub source_dir: String,
    pub dump: StateDump,
    pub managed: Vec<String>,
    /// The managed files, each with the hash that is remembered of it.
    pub files: Vec<(String, Option<ContentHash>)>,
}

/// What a scan starts from, as the model has it.
pub struct StartView {
    pub source_dir: Seq<char>,
    pub dump: Seq<(Seq<char>, Entry)>,
    pub managed: Seq<Seq<char>>,
    pub files: Seq<(Seq<char>, Option<Seq<u8>>)>,
}

impl View for ScanStart {
    type V = StartView;

    open spec fn view(&self) -> StartView {
        StartView {
            source_dir: self.source_dir@,
            dump: self.dump@,
            managed: strings(self.managed@),
            files: file_views(self.files@),
        }
    }
}

/// What the answers to the first three calls come to.
pub open spec fn start_of(answers: Seq<Reply>) -> Result<StartView, Failure> {
    match outcome_text(answers[0]) {
        Err(f) => Err(f),
        Ok(dir) => match dump_reply(answers[1]) {
            Err(f) => Err(f),
            Ok(dump) => match outcome_text(answers[2]) {
                Err(f) => Err(f),
                Ok(t) => Ok(
                    StartView {
                        source_dir: trim(dir),
                        dump,
                        managed: bare_lines(t),
                        files: watched(dump, bare_lines(t), dump.len() as int),
                    },
                ),
            },
        },
    }
}

/// How many calls are made: none after one that failed.
pub open spec fn start_calls(answers: Seq<Reply>) -> nat {
    if outcome_text(answers[0]) is Err {
        1
    } else if dump_reply(answers[1]) is Err {
        2
    } else {
        3
    }
}

/// The arguments of the first three calls.
pub open spec fn start_args() -> Seq<Seq<Seq<char>>> {
    seq![
        seq!["source-path"@],
        seq!["state"@, "dump"@, "--format=json"@],
        seq!["managed"@, "--path-style=absolute"@],
    ]
}

/// The commits that the answer counts.
pub open spec fn count_reply(reply: Reply) -> Result<u32, GitFailure> {
    match git_text(reply) {
        Ok(t) => count_of(t),
        Err(f) => Err(f),
    }
}

/// What a target would be written as, by its hash: none of it where something could not be
/// evaluated.
pub open spec fn rendered_of(reply: Reply) -> Result<Result<Seq<u8>, Failure>, Failure> {
    match outcome(reply) {
        Ok(b) => Ok(Ok(sha256(b))),
        Err(f) => match f {
            Failure::Eval { .. } => Ok(Err(f)),
            _ => Err(f),
        },
    }
}

/// The source file of a target, below the source directory.
pub open spec fn source_rel_of(reply: Reply, source_dir: Seq<char>) -> Option<Seq<char>> {
    match outcome_text(reply) {
        Ok(t) => relative_to(trim(t), source_dir),
        Err(_) => None,
    }
}

/// The arguments with which git is asked how many commits of a range touch a file.
pub open spec fn touching_args(range: Seq<char>, rel: Seq<char>) -> Seq<Seq<char>> {
    seq!["rev-list"@, "--count"@, range, "--"@, rel]
}

/// What the answers of git come to: whether we have commits that touch the file, and whether
/// the remote has. A file that is not in the source directory has none.
pub open spec fn signals_of(rel: Option<Seq<char>>, answers: Seq<Reply>) -> Result<
    GitSignals,
    GitFailure,
> {
    match rel {
        None => Ok(GitSignals { local_ahead: false, remote_ahead: false }),
        Some(_) => match count_reply(answers[0]) {
            Err(f) => Err(f),
            Ok(local) => match count_reply(answers[1]) {
                Err(f) => Err(f),
                Ok(remote) => Ok(GitSignals { local_ahead: local > 0, remote_ahead: remote > 0 }),
            },
        },
    }
}

/// The arguments of the calls that find the signals: none after one that failed.
pub open spec fn signal_args(
    rel: Option<Seq<char>>,
    remote_ref: Seq<char>,
    answers: Seq<Reply>,
) -> Seq<Seq<Seq<char>>> {
    match rel {
        None => seq![],
        Some(rel) => {
            let local = touching_args(remote_ref + "..HEAD"@, rel);
            let remote = touching_args("HEAD.."@ + remote_ref, rel);
            if count_reply(answers[0]) is Err {
                seq![local]
            } else {
                seq![local, remote]
            }
        },
    }
}

/// The probe has these parts.
pub open spec fn probe_is(
    p: StateProbe,
    destination: Option<Seq<u8>>,
    rendered: Result<Seq<u8>, Failure>,
    last_written: Option<Seq<u8>>,
    git: GitSignals,
) -> bool {
    &&& hash_bytes(p.destination) == destination
    &&& hash_bytes(p.last_written) == last_written
    &&& p.git == git
    &&& match (p.rendered, rendered) {
        (Ok(h), Ok(b)) => hash_bytes(h) == Some(b),
        (Err(e), Err(f)) => ChezmoiError::Eval(e)@ == f,
        _ => false,
    }
}

/// A probe with these parts shows a file in sync.
pub open spec fn shows_sync(
    destination: Option<Seq<u8>>,
    rendered: Result<Seq<u8>, Failure>,
    last_written: Option<Seq<u8>>,
    git: GitSignals,
) -> bool {
    exists|p: StateProbe| #[trigger]
        probe_is(p, destination, rendered, last_written, git) && class_of(p)
            == DriftClass::InSync
}

/// What has become of the candidates.
pub struct Found {
    pub targets: Vec<(String, Option<ContentHash>)>,
    pub degraded: Option<EvalFailure>,
}

/// The scanner found what a scan starts from, or failed to.
pub open spec fn started<C: CommandRunner, G: CommandRunner>(
    before: DriftScanner<C, G>,
    after: DriftScanner<C, G>,
    r: Result<ScanStart, ScanError>,
) -> bool {
    let answers = added(before.chezmoi.runner.replies(), after.chezmoi.runner.replies());
    &&& after.git == before.git
    &&& after.remote_ref == before.remote_ref
    &&& chezmoi_calls(
        before.chezmoi,
        after.chezmoi,
        start_args().take(start_calls(answers) as int),
    )
    &&& match r {
        Ok(s) => start_of(answers) == Ok::<StartView, Failure>(s@),
        Err(e) => e@ matches ScanFailure::Chezmoi(failure) && start_of(answers) == Err::<
            StartView,
            Failure,
        >(failure),
    }
}

/// The scanner probed a file, given by its path and what is remembered of it, whose content has
/// a hash. A failure to call chezmoi or git is one of the probe, a failure to evaluate is not.
/// A file that is in sync is not reported.
pub open spec fn probed<C: CommandRunner, G: CommandRunner>(
    before: DriftScanner<C, G>,
    after: DriftScanner<C, G>,
    source_dir: Seq<char>,
    file: (Seq<char>, Option<Seq<u8>>),
    destination: Option<Seq<u8>>,
    r: Result<Option<FileDrift>, ScanError>,
) -> bool {
    let said = added(before.chezmoi.runner.replies(), after.chezmoi.runner.replies());
    let counted = added(before.git.runner.replies(), after.git.runner.replies());
    let cat = seq!["cat"@, file.0];
    &&& after.remote_ref == before.remote_ref
    &&& match rendered_of(said[0]) {
        Err(failure) => {
            &&& chezmoi_calls(before.chezmoi, after.chezmoi, seq![cat])
            &&& after.git == before.git
            &&& r matches Err(e)
            &&& e@ == ScanFailure::Chezmoi(failure)
        },
        Ok(rendered) => {
            let rel = source_rel_of(said[1], source_dir);
            &&& chezmoi_calls(
                before.chezmoi,
                after.chezmoi,
                seq![cat, seq!["source-path"@, file.0]],
            )
            &&& git_calls(
                before.git,
                after.git,
                signal_args(rel, before.remote_ref@, counted),
            )
            &&& match (signals_of(rel, counted), r) {
                (Err(failure), Err(e)) => e@ == ScanFailure::Git(failure),
                (Ok(git), Ok(None)) => shows_sync(destination, rendered, file.1, git),
                (Ok(git), Ok(Some(d))) => {
                    &&& d.target@ == file.0
                    &&& crate::cmd::optional(d.source_rel) == rel
                    &&& probe_is(d.probe, destination, rendered, file.1, git)
                    &&& d.class == class_of(d.probe)
                    &&& d.class != DriftClass::InSync
                },
                _ => false,
            }
        },
    }
}

/// What the answer to `git status` comes to.
pub open spec fn dirty_reply(reply: Reply) -> Result<Seq<Seq<char>>, GitFailure> {
    match git_text(reply) {
        Err(f) => Err(f),
        Ok(t) => match dirty_of(bare_lines(t), bare_lines(t).len() as int) {
            Ok(v) => Ok(v),
            Err(detail) => Err(GitFailure::Parse { context: "status"@, detail }),
        },
    }
}

/// The source files that the answers of git name.
pub open spec fn sources_of(answers: Seq<Reply>) -> Result<Seq<Seq<char>>, GitFailure> {
    match git_text(answers[0]) {
        Err(f) => Err(f),
        Ok(t) => match dirty_reply(answers[1]) {
            Err(f) => Err(f),
            Ok(dirty) => Ok(changed_sources(bare_lines(t), dirty)),
        },
    }
}

/// The arguments with which git is asked for the source files: nothing after a call that failed.
pub open spec fn source_args(remote_ref: Seq<char>, answers: Seq<Reply>) -> Seq<Seq<Seq<char>>> {
    let remote = seq!["diff"@, "--name-only"@, "HEAD"@ + ".."@ + remote_ref];
    if git_text(answers[0]) is Err {
        seq![remote]
    } else {
        seq![remote, seq!["status"@, "--porcelain"@]]
    }
}

/// The arguments with which chezmoi is asked for the targets of the first `n` source files.
pub open spec fn target_args(source_dir: Seq<char>, sources: Seq<Seq<char>>, n: int) -> Seq<
    Seq<Seq<char>>,
> {
    Seq::new(n as nat, |k: int| seq!["target-path"@, joined(source_dir, sources[k])])
}

/// The scanner looked for candidates, given the hashes of the managed files, and found what to
/// probe, or failed.
pub open spec fn searched<C: CommandRunner, G: CommandRunner>(
    before: DriftScanner<C, G>,
    after: DriftScanner<C, G>,
    start: StartView,
    hashes: Seq<Option<Seq<u8>>>,
    r: Result<Found, ScanError>,
) -> bool {
    let named = added(before.git.runner.replies(), after.git.runner.replies());
    let said = added(before.chezmoi.runner.replies(), after.chezmoi.runner.replies());
    &&& after.remote_ref == before.remote_ref
    &&& git_calls(before.git, after.git, source_args(before.remote_ref@, named))
    &&& match sources_of(named) {
        Err(failure) => {
            &&& after.chezmoi == before.chezmoi
            &&& r matches Err(e)
            &&& e@ == ScanFailure::Git(failure)
        },
        Ok(sources) => {
            let n = sources.len() as int;
            let cands = with_targets(
                changed_on_disk(start.files, hashes, start.files.len() as int),
                start.managed,
                said,
                n,
            );
            &&& chezmoi_calls(
                before.chezmoi,
                after.chezmoi,
                target_args(start.source_dir, sources, n).push(
                    seq!["status"@, "--path-style=absolute"@],
                ),
            )
            &&& match (with_status(cands, start.managed, said[n]), r) {
                (Err(failure), Err(e)) => e@ == ScanFailure::Chezmoi(failure),
                (Ok(all), Ok(found)) => {
                    &&& file_views(found.targets@) == to_probe(all, start.dump, all.len() as int)
                    &&& match found.degraded {
                        Some(f) => status_result(said[n]) == Err::<Seq<Status>, Failure>(
                            ChezmoiError::Eval(f)@,
                        ),
                        None => status_result(said[n]) is Ok,
                    }
                },
                _ => false,
            }
        },
    }
}

proof fn lemma_with_targets_prefix(
    cands: Seq<Seq<char>>,
    managed: Seq<Seq<char>>,
    answers: Seq<Reply>,
    more: Seq<Reply>,
    n: int,
)
    requires
        n <= answers.len() <= more.len(),
        more.take(answers.len() as int) == answers,
    ensures
        with_targets(cands, managed, more, n) == with_targets(cands, managed, answers, n),
    decreases n,
{
    if n > 0 {
        lemma_with_targets_prefix(cands, managed, answers, more, n - 1);
        assert(more.take(answers.len() as int)[n - 1] == more[n - 1]);
    }
}

/// Hashing a file may give this.
pub open spec fn hashed<F: Fn(String) -> Result<Option<ContentHash>, String>>(
    hash_file: F,
    path: Seq<char>,
    h: Option<ContentHash>,
) -> bool {
    exists|p: String| p@ == path && #[trigger] hash_file.ensures((p,), Ok(h))
}

/// Hashing a file may fail so.
pub open spec fn hash_failed<F: Fn(String) -> Result<Option<ContentHash>, String>>(
    hash_file: F,
    path: Seq<char>,
    detail: String,
) -> bool {
    exists|p: String| p@ == path && #[trigger] hash_file.ensures((p,), Err(detail))
}

/// The drifts among what the probes reported.
pub open spec fn reported(drifts: Seq<Option<FileDrift>>) -> Seq<FileDrift>
    decreases drifts.len(),
{
    if drifts.len() == 0 {
        seq![]
    } else {
        match drifts.last() {
            Some(d) => reported(drifts.drop_last()).push(d),
            None => reported(drifts.drop_last()),
        }
    }
}

/// File `i` was probed, with a hash that hashing it gave.
pub open spec fn step_made<
    C: CommandRunner,
    G: CommandRunner,
    F: Fn(String) -> Result<Option<ContentHash>, String>,
>(
    trace: Seq<DriftScanner<C, G>>,
    drifts: Seq<Option<FileDrift>>,
    hash_file: F,
    source_dir: Seq<char>,
    files: Seq<(Seq<char>, Option<Seq<u8>>)>,
    i: int,
) -> bool {
    exists|destination: Option<ContentHash>|
        #![trigger hashed(hash_file, files[i].0, destination)]
        {
            &&& hashed(hash_file, files[i].0, destination)
            &&& probed(
                trace[i],
                trace[i + 1],
                source_dir,
                files[i],
                hash_bytes(destination),
                Ok(drifts[i]),
            )
        }
}

/// The first `n` files were probed one after the other; the trace holds the scanner before the
/// first probe and after each.
pub open spec fn probe_run<
    C: CommandRunner,
    G: CommandRunner,
    F: Fn(String) -> Result<Option<ContentHash>, String>,
>(
    trace: Seq<DriftScanner<C, G>>,
    drifts: Seq<Option<FileDrift>>,
    hash_file: F,
    source_dir: Seq<char>,
    files: Seq<(Seq<char>, Option<Seq<u8>>)>,
    n: int,
) -> bool {
    &&& trace.len() == n + 1
    &&& drifts.len() == n
    &&& forall|i: int|
        0 <= i < n ==> #[trigger] step_made(trace, drifts, hash_file, source_dir, files, i)
}

/// The files were probed one after the other, each with a hash that hashing it gave, and these
/// are the ones that have drifted.
pub open spec fn all_probed<
    C: CommandRunner,
    G: CommandRunner,
    F: Fn(String) -> Result<Option<ContentHash>, String>,
>(
    before: DriftScanner<C, G>,
    after: DriftScanner<C, G>,
    hash_file: F,
    source_dir: Seq<char>,
    files: Seq<(Seq<char>, Option<Seq<u8>>)>,
    drifted: Seq<FileDrift>,
) -> bool {
    exists|trace: Seq<DriftScanner<C, G>>, drifts: Seq<Option<FileDrift>>|
        {
            &&& #[trigger] probe_run(
                trace,
                drifts,
                hash_file,
                source_dir,
                files,
                files.len() as int,
            )
            &&& trace[0] == before
            &&& trace.last() == after
            &&& drifted == reported(drifts)
        }
}

proof fn lemma_probe_run<
    C: CommandRunner,
    G: CommandRunner,
    F: Fn(String) -> Result<Option<ContentHash>, String>,
>(
    trace: Seq<DriftScanner<C, G>>,
    drifts: Seq<Option<FileDrift>>,
    hash_file: F,
    source_dir: Seq<char>,
    files: Seq<(Seq<char>, Option<Seq<u8>>)>,
    n: int,
    next: DriftScanner<C, G>,
    destination: Option<ContentHash>,
    drift: Option<FileDrift>,
)
    requires
        0 <= n < files.len(),
        probe_run(trace, drifts, hash_file, source_dir, files, n),
        hashed(hash_file, files[n].0, destination),
        probed(
            trace.last(),
            next,
            source_dir,
            files[n],
            hash_bytes(destination),
            Ok(drift),
        ),
    ensures
        probe_run(trace.push(next), drifts.push(drift), hash_file, source_dir, files, n + 1),
        reported(drifts.push(drift)) == match drift {
            Some(d) => reported(drifts).push(d),
            None => reported(drifts),
        },
{
    let (more, outs) = (trace.push(next), drifts.push(drift));
    assert(outs.drop_last() =~= drifts);
    assert forall|i: int| 0 <= i < n + 1 implies #[trigger] step_made(
        more,
        outs,
        hash_file,
        source_dir,
        files,
        i,
    ) by {
        if i < n {
            assert(step_made(trace, drifts, hash_file, source_dir, files, i));
            assert(more[i] == trace[i] && more[i + 1] == trace[i + 1] && outs[i] == drifts[i]);
        }
    }
}

/// What a scan reports: it started, looked for candidates with the hashes of the managed files,
/// probed them all, and counts as in sync what has not drifted.
pub open spec fn scanned<
    C: CommandRunner,
    G: CommandRunner,
    F: Fn(String) -> Result<Option<ContentHash>, String>,
>(
    before: DriftScanner<C, G>,
    after: DriftScanner<C, G>,
    hash_file: F,
    report: ScanReport,
) -> bool {
    exists|
        a: DriftScanner<C, G>,
        b: DriftScanner<C, G>,
        start: ScanStart,
        hashes: Seq<Option<ContentHash>>,
        found: Found,
    | #![trigger started(before, a, Ok(start)), searched(a, b, start@, hash_views(hashes), Ok(found))]
        {
            let files = file_views(found.targets@);
            &&& started(before, a, Ok(start))
            &&& all_hashed(hash_file, start@, hashes)
            &&& searched(a, b, start@, hash_views(hashes), Ok(found))
            &&& all_probed(
                b,
                after,
                hash_file,
                start@.source_dir,
                files,
                report.drifted@,
            )
            &&& report.degraded == found.degraded
            &&& report.in_sync_count == if start@.files.len() >= report.drifted@.len() {
                start@.files.len() - report.drifted@.len()
            } else {
                0
            }
        }
}

/// The probes stopped: some files were probed, and of the next one the hash or the probe failed.
pub open spec fn stopped_probing<
    C: CommandRunner,
    G: CommandRunner,
    F: Fn(String) -> Result<Option<ContentHash>, String>,
>(
    before: DriftScanner<C, G>,
    after: DriftScanner<C, G>,
    hash_file: F,
    source_dir: Seq<char>,
    files: Seq<(Seq<char>, Option<Seq<u8>>)>,
    e: ScanError,
) -> bool {
    exists|trace: Seq<DriftScanner<C, G>>, drifts: Seq<Option<FileDrift>>, n: int|
        {
            &&& #[trigger] probe_run(trace, drifts, hash_file, source_dir, files, n)
            &&& 0 <= n < files.len()
            &&& trace[0] == before
            &&& {
                ||| trace.last() == after && (e matches ScanError::Io(detail) && hash_failed(
                    hash_file,
                    files[n].0,
                    detail,
                ))
                ||| exists|destination: Option<ContentHash>| #[trigger]
                    hashed(hash_file, files[n].0, destination) && probed(
                        trace.last(),
                        after,
                        source_dir,
                        files[n],
                        hash_bytes(destination),
                        Err(e),
                    )
            }
        }
}

/// Why a scan fails: it could not start, a managed file could not be hashed, the search for
/// candidates failed, or a probe did.
pub open spec fn scan_failed<
    C: CommandRunner,
    G: CommandRunner,
    F: Fn(String) -> Result<Option<ContentHash>, String>,
>(
    before: DriftScanner<C, G>,
    after: DriftScanner<C, G>,
    hash_file: F,
    e: ScanError,
) -> bool {
    ||| started(before, after, Err(e))
    ||| exists|start: ScanStart| #[trigger]
        started(before, after, Ok(start)) && (e matches ScanError::Io(detail) && exists|i: int|
            0 <= i < start@.files.len() && hash_failed(
                hash_file,
                (#[trigger] start@.files[i]).0,
                detail,
            ))
    ||| exists|a: DriftScanner<C, G>, start: ScanStart, hashes: Seq<Option<ContentHash>>|
        #![trigger started(before, a, Ok(start)), hash_views(hashes)]
        {
            &&& started(before, a, Ok(start))
            &&& all_hashed(hash_file, start@, hashes)
            &&& searched(a, after, start@, hash_views(hashes), Err(e))
        }
    ||| exists|
        a: DriftScanner<C, G>,
        b: DriftScanner<C, G>,
        start: ScanStart,
        hashes: Seq<Option<ContentHash>>,
        found: Found,
    | #![trigger started(before, a, Ok(start)), searched(a, b, start@, hash_views(hashes), Ok(found))]
        {
            &&& started(before, a, Ok(start))
            &&& all_hashed(hash_file, start@, hashes)
            &&& searched(a, b, start@, hash_views(hashes), Ok(found))
            &&& stopped_probing(
                b,
                after,
                hash_file,
                start@.source_dir,
                file_views(found.targets@),
                e,
            )
        }
}

/// These are hashes of the managed files.
pub open spec fn all_hashed<F: Fn(String) -> Result<Option<ContentHash>, String>>(
    hash_file: F,
    start: StartView,
    hashes: Seq<Option<ContentHash>>,
) -> bool {
    &&& hashes.len() == start.files.len()
    &&& forall|i: int|
        0 <= i < hashes.len() ==> hashed(hash_file, start.files[i].0, #[trigger] hashes[i])
}

/// What a scan reports has drifted: no file of a report is in sync, and its class is that of
/// its probe.
pub proof fn law_reports_hold_no_file_in_sync<
    C: CommandRunner,
    G: CommandRunner,
    F: Fn(String) -> Result<Option<ContentHash>, String>,
>(
    before: DriftScanner<C, G>,
    after: DriftScanner<C, G>,
    hash_file: F,
    report: ScanReport,
)
    requires
        scanned(before, after, hash_file, report),
    ensures
        forall|k: int|
            0 <= k < report.drifted@.len() ==> {
                let d = #[trigger] report.drifted@[k];
                d.class != DriftClass::InSync && d.class == class_of(d.probe)
            },
{
    let (a, b, start, hashes, found) = choose|
        a: DriftScanner<C, G>,
        b: DriftScanner<C, G>,
        start: ScanStart,
        hashes: Seq<Option<ContentHash>>,
        found: Found,
    | #![trigger started(before, a, Ok(start)), searched(a, b, start@, hash_views(hashes), Ok(found))]
        {
            let files = file_views(found.targets@);
            &&& started(before, a, Ok(start))
            &&& searched(a, b, start@, hash_views(hashes), Ok(found))
            &&& all_probed(
                b,
                after,
                hash_file,
                start@.source_dir,
                files,
                report.drifted@,
            )
        };
    let files = file_views(found.targets@);
    let (trace, drifts) = choose|trace: Seq<DriftScanner<C, G>>, drifts: Seq<Option<FileDrift>>|
        {
            &&& #[trigger] probe_run(
                trace,
                drifts,
                hash_file,
                start@.source_dir,
                files,
                files.len() as int,
            )
            &&& trace[0] == b
            &&& trace.last() == after
            &&& report.drifted@ == reported(drifts)
        };
    assert forall|i: int| 0 <= i < drifts.len() implies (#[trigger] drifts[i] matches Some(d)
        ==> d.class != DriftClass::InSync && d.class == class_of(d.probe)) by {
        assert(step_made(trace, drifts, hash_file, start@.source_dir, files, i));
    }
    lemma_reported(drifts);
}

/// The paths of what has drifted.
pub open spec fn drifted_paths(drifted: Seq<FileDrift>) -> Seq<Seq<char>> {
    drifted.map_values(|d: FileDrift| d.target@)
}

/// No path is in the list twice.
spec fn distinct_paths(es: Seq<(Seq<char>, Entry)>) -> bool {
    forall|i: int, j: int|
        #![trigger es[i], es[j]]
        0 <= i < j < es.len() ==> !same_path(es[i].0, es[j].0)
}

proof fn lemma_put_keeps_distinct(es: Seq<(Seq<char>, Entry)>, k: Seq<char>, e: Entry)
    requires
        distinct_paths(es),
    ensures
        distinct_paths(put_entry(es, k, e)),
        forall|i: int|
            0 <= i < put_entry(es, k, e).len() ==> same_path(#[trigger] put_entry(es, k, e)[i].0, k)
                || exists|j: int| 0 <= j < es.len() && es[j].0 == put_entry(es, k, e)[i].0,
    decreases es.len(),
{
    let all = put_entry(es, k, e);
    if es.len() == 0 {
    } else if same_path(es[0].0, k) {
        let rest = es.drop_first();
        assert forall|i: int| 0 <= i < all.len() implies same_path(#[trigger] all[i].0, k)
            || exists|j: int| 0 <= j < es.len() && es[j].0 == all[i].0 by {
            if i > 0 {
                assert(all[i] == es[i]);
            }
        }
        assert forall|i: int, j: int|
            #![trigger all[i], all[j]]
            0 <= i < j < all.len() implies !same_path(all[i].0, all[j].0) by {
            assert(all[i].0 == es[i].0 && all[j].0 == es[j].0);
        }
    } else {
        let rest = es.drop_first();
        assert forall|i: int, j: int|
            #![trigger rest[i], rest[j]]
            0 <= i < j < rest.len() implies !same_path(rest[i].0, rest[j].0) by {
            assert(rest[i] == es[i + 1] && rest[j] == es[j + 1]);
        }
        lemma_put_keeps_distinct(rest, k, e);
        let tail = put_entry(rest, k, e);
        assert forall|i: int| 0 <= i < tail.len() implies !same_path(
            es[0].0,
            #[trigger] tail[i].0,
        ) by {
            if !same_path(tail[i].0, k) {
                let j = choose|j: int| 0 <= j < rest.len() && rest[j].0 == tail[i].0;
                assert(rest[j] == es[j + 1]);
            }
        }
        assert forall|i: int| 0 <= i < all.len() implies same_path(#[trigger] all[i].0, k)
            || exists|j: int| 0 <= j < es.len() && es[j].0 == all[i].0 by {
            if i == 0 {
                assert(es[0].0 == all[0].0);
            } else {
                assert(all[i] == tail[i - 1]);
                if !same_path(tail[i - 1].0, k) {
                    let j = choose|j: int| 0 <= j < rest.len() && rest[j].0 == tail[i - 1].0;
                    assert(es[j + 1].0 == all[i].0);
                }
            }
        }
        assert forall|i: int, j: int|
            #![trigger all[i], all[j]]
            0 <= i < j < all.len() implies !same_path(all[i].0, all[j].0) by {
            assert(all[j] == tail[j - 1]);
            if i > 0 {
                assert(all[i] == tail[i - 1]);
            }
        }
    }
}

proof fn lemma_entries_distinct(o: Seq<(String, Json)>, n: int)
    ensures
        entries_of(o, n) matches Some(es) ==> distinct_paths(es),
    decreases n,
{
    if n > 0 {
        lemma_entries_distinct(o, n - 1);
        match (entries_of(o, n - 1), entry_of(o[n - 1].1)) {
            (Some(front), Some(e)) => {
                lemma_put_keeps_distinct(front, o[n - 1].0@, e);
            },
            _ => {},
        }
    }
}

/// No path is in the state twice.
proof fn lemma_dump_distinct(reply: Reply)
    ensures
        dump_reply(reply) matches Ok(d) ==> distinct_paths(d),
{
    match outcome(reply) {
        Ok(b) => match json_document(b) {
            Ok(j) => match crate::chezmoi::part(j, "entryState"@, 0) {
                Some(Json::Object(o)) => {
                    lemma_entries_distinct(o@, o@.len() as int);
                },
                _ => {},
            },
            Err(_) => {},
        },
        Err(_) => {},
    }
}

/// Where a managed file comes from.
proof fn lemma_watched(
    dump: Seq<(Seq<char>, Entry)>,
    managed: Seq<Seq<char>>,
    n: int,
    k: int,
) -> (m: int)
    requires
        0 <= n <= dump.len(),
        0 <= k < watched(dump, managed, n).len(),
    ensures
        0 <= m < n,
        dump[m].1.kind == "file"@,
        watched(dump, managed, n)[k] == (dump[m].0, remembered(dump[m].1)),
    decreases n,
{
    let front = watched(dump, managed, n - 1);
    if k < front.len() {
        lemma_watched(dump, managed, n - 1, k)
    } else {
        n - 1
    }
}

proof fn lemma_entry_found(dump: Seq<(Seq<char>, Entry)>, path: Seq<char>, m: int, from: int)
    requires
        distinct_paths(dump),
        0 <= from <= m < dump.len(),
        same_path(dump[m].0, path),
    ensures
        entry_at(dump, path, from) == Some(dump[m].1),
    decreases m - from,
{
    if from < m {
        assert(!same_path(dump[from].0, dump[m].0));
        lemma_entry_found(dump, path, m, from + 1);
    }
}

/// What is probed stands in order, and comes from the candidates.
proof fn lemma_to_probe(cands: Seq<Seq<char>>, dump: Seq<(Seq<char>, Entry)>, n: int)
    requires
        ordered_paths(cands),
        0 <= n <= cands.len(),
    ensures
        forall|i: int, j: int|
            #![trigger to_probe(cands, dump, n)[i], to_probe(cands, dump, n)[j]]
            0 <= i < j < to_probe(cands, dump, n).len() ==> path_order(
                to_probe(cands, dump, n)[i].0,
                to_probe(cands, dump, n)[j].0,
            ) < 0,
        forall|i: int|
            0 <= i < to_probe(cands, dump, n).len() ==> exists|c: int|
                0 <= c < n && cands[c] == #[trigger] to_probe(cands, dump, n)[i].0,
    decreases n,
{
    if n > 0 {
        lemma_to_probe(cands, dump, n - 1);
        let front = to_probe(cands, dump, n - 1);
        let all = to_probe(cands, dump, n);
        assert forall|i: int| 0 <= i < all.len() implies exists|c: int|
            0 <= c < n && cands[c] == #[trigger] all[i].0 by {
            if i < front.len() {
                assert(all[i] == front[i]);
                let c = choose|c: int| 0 <= c < n - 1 && cands[c] == front[i].0;
                assert(cands[c] == all[i].0);
            } else {
                assert(cands[n - 1] == all[i].0);
            }
        }
        assert forall|i: int, j: int|
            #![trigger all[i], all[j]]
            0 <= i < j < all.len() implies path_order(all[i].0, all[j].0) < 0 by {
            assert(all[i] == front[i]);
            if j < front.len() {
                assert(all[j] == front[j]);
            } else {
                let c = choose|c: int| 0 <= c < n - 1 && cands[c] == front[i].0;
                assert(path_order(cands[c], cands[n - 1]) < 0);
            }
        }
    }
}

/// A candidate that is a file is probed.
proof fn lemma_is_probed(
    cands: Seq<Seq<char>>,
    dump: Seq<(Seq<char>, Entry)>,
    n: int,
    c: int,
    e: Entry,
) -> (i: int)
    requires
        0 <= c < n <= cands.len(),
        entry_at(dump, cands[c], 0) == Some(e),
        e.kind == "file"@,
    ensures
        0 <= i < to_probe(cands, dump, n).len(),
        to_probe(cands, dump, n)[i] == (cands[c], remembered(e)),
    decreases n,
{
    if c == n - 1 {
        to_probe(cands, dump, n - 1).len() as int
    } else {
        lemma_is_probed(cands, dump, n - 1, c, e)
    }
}

/// What is reported is what the probes found, in their order.
proof fn lemma_reported_paths(
    drifts: Seq<Option<FileDrift>>,
    files: Seq<(Seq<char>, Option<Seq<u8>>)>,
)
    requires
        drifts.len() <= files.len(),
        forall|i: int|
            0 <= i < drifts.len() ==> (#[trigger] drifts[i] matches Some(d) ==> d.target@
                == files[i].0),
        forall|i: int, j: int|
            #![trigger files[i], files[j]]
            0 <= i < j < files.len() ==> path_order(files[i].0, files[j].0) < 0,
    ensures
        ordered_paths(drifted_paths(reported(drifts))),
        forall|k: int|
            0 <= k < reported(drifts).len() ==> exists|i: int|
                0 <= i < drifts.len() && files[i].0 == #[trigger] reported(drifts)[k].target@,
        forall|i: int|
            0 <= i < drifts.len() && #[trigger] drifts[i] is Some ==> has_path(
                drifted_paths(reported(drifts)),
                files[i].0,
            ),
    decreases drifts.len(),
{
    if drifts.len() > 0 {
        let n = drifts.len() - 1;
        let front = drifts.drop_last();
        assert forall|i: int| 0 <= i < front.len() implies (#[trigger] front[i] matches Some(d)
            ==> d.target@ == files[i].0) by {
            assert(front[i] == drifts[i]);
        }
        lemma_reported_paths(front, files);
        let before = reported(front);
        let all = reported(drifts);
        let paths = drifted_paths(all);
        assert(drifts[n] == drifts.last());
        assert forall|k: int| 0 <= k < all.len() implies exists|i: int|
            0 <= i < drifts.len() && files[i].0 == #[trigger] all[k].target@ by {
            if k < before.len() {
                assert(all[k] == before[k]);
                let i = choose|i: int| 0 <= i < front.len() && files[i].0 == before[k].target@;
                assert(files[i].0 == all[k].target@);
            } else {
                assert(files[n].0 == all[k].target@);
            }
        }
        assert forall|j: int, k: int|
            #![trigger paths[j], paths[k]]
            0 <= j < k < paths.len() implies path_order(paths[j], paths[k]) < 0 by {
            assert(all[j] == before[j]);
            if k < before.len() {
                assert(all[k] == before[k]);
                assert(drifted_paths(before)[j] == paths[j]);
                assert(drifted_paths(before)[k] == paths[k]);
            } else {
                let i = choose|i: int| 0 <= i < front.len() && files[i].0 == before[j].target@;
                assert(path_order(files[i].0, files[n].0) < 0);
            }
        }
        assert forall|i: int| 0 <= i < drifts.len() && #[trigger] drifts[i] is Some implies has_path(
            paths,
            files[i].0,
        ) by {
            if i < n {
                assert(front[i] == drifts[i]);
                let k = choose|k: int|
                    0 <= k < drifted_paths(before).len() && same_path(
                        #[trigger] drifted_paths(before)[k],
                        files[i].0,
                    );
                assert(all[k] == before[k]);
                assert(same_path(paths[k], files[i].0));
            } else {
                assert(same_path(paths[all.len() - 1], files[i].0));
            }
        }
    }
}

/// The log of chezmoi only grows while files are probed.
proof fn lemma_probes_extend<
    C: CommandRunner,
    G: CommandRunner,
    F: Fn(String) -> Result<Option<ContentHash>, String>,
>(
    trace: Seq<DriftScanner<C, G>>,
    drifts: Seq<Option<FileDrift>>,
    hash_file: F,
    source_dir: Seq<char>,
    files: Seq<(Seq<char>, Option<Seq<u8>>)>,
    n: int,
    i: int,
)
    requires
        probe_run(trace, drifts, hash_file, source_dir, files, n),
        0 <= i <= n,
    ensures
        trace[0].chezmoi.runner.replies().is_prefix_of(trace[i].chezmoi.runner.replies()),
    decreases i,
{
    if i > 0 {
        lemma_probes_extend(trace, drifts, hash_file, source_dir, files, n, i - 1);
        assert(step_made(trace, drifts, hash_file, source_dir, files, i - 1));
    }
}

/// A file under this path never has the content with that hash, however the path is written.
pub open spec fn never_has<F: Fn(String) -> Result<Option<ContentHash>, String>>(
    hash_file: F,
    path: Seq<char>,
    hash: Option<Seq<u8>>,
) -> bool {
    forall|p: String, h: Option<ContentHash>|
        same_path(p@, path) && #[trigger] hash_file.ensures((p,), Ok(h)) ==> hash_bytes(h) != hash
}

/// A report hides no drift and has an order. Its files ascend by their paths, none twice. And a
/// managed file whose content is not what is remembered of it is in the report, whatever could
/// not be evaluated, be it the status, the targets of source files, or the file itself.
#[verifier::rlimit(30)]
pub proof fn law_reports_hide_no_drift<
    C: CommandRunner,
    G: CommandRunner,
    F: Fn(String) -> Result<Option<ContentHash>, String>,
>(
    before: DriftScanner<C, G>,
    after: DriftScanner<C, G>,
    hash_file: F,
    report: ScanReport,
)
    requires
        scanned(before, after, hash_file, report),
    ensures
        ordered_paths(drifted_paths(report.drifted@)),
        ({
            let said = added(before.chezmoi.runner.replies(), after.chezmoi.runner.replies());
            start_of(said) matches Ok(start) && forall|k: int|
                0 <= k < start.files.len() && never_has(
                    hash_file,
                    (#[trigger] start.files[k]).0,
                    start.files[k].1,
                ) ==> has_path(drifted_paths(report.drifted@), start.files[k].0)
        }),
{
    let (a, b, start, hashes, found) = choose|
        a: DriftScanner<C, G>,
        b: DriftScanner<C, G>,
        start: ScanStart,
        hashes: Seq<Option<ContentHash>>,
        found: Found,
    | #![trigger started(before, a, Ok(start)), searched(a, b, start@, hash_views(hashes), Ok(found))]
        {
            let files = file_views(found.targets@);
            &&& started(before, a, Ok(start))
            &&& all_hashed(hash_file, start@, hashes)
            &&& searched(a, b, start@, hash_views(hashes), Ok(found))
            &&& all_probed(
                b,
                after,
                hash_file,
                start@.source_dir,
                files,
                report.drifted@,
            )
        };
    let files = file_views(found.targets@);
    let (trace, drifts) = choose|trace: Seq<DriftScanner<C, G>>, drifts: Seq<Option<FileDrift>>|
        {
            &&& #[trigger] probe_run(
                trace,
                drifts,
                hash_file,
                start@.source_dir,
                files,
                files.len() as int,
            )
            &&& trace[0] == b
            &&& trace.last() == after
            &&& report.drifted@ == reported(drifts)
        };
    let s = start@;
    let first = added(before.chezmoi.runner.replies(), a.chezmoi.runner.replies());
    let all_said = added(before.chezmoi.runner.replies(), after.chezmoi.runner.replies());
    lemma_probes_extend(
        trace,
        drifts,
        hash_file,
        s.source_dir,
        files,
        files.len() as int,
        files.len() as int,
    );
    assert(first.len() == 3);
    assert(a.chezmoi.runner.replies().is_prefix_of(b.chezmoi.runner.replies()));
    assert forall|i: int| 0 <= i < 3 implies first[i] == all_said[i] by {
        let n = before.chezmoi.runner.replies().len();
        assert(first[i] == a.chezmoi.runner.replies()[n + i]);
        assert(all_said[i] == after.chezmoi.runner.replies()[n + i]);
    }
    assert(first[0] == all_said[0] && first[1] == all_said[1] && first[2] == all_said[2]);
    assert(start_of(all_said) == Ok::<StartView, Failure>(s));
    let named = added(a.git.runner.replies(), b.git.runner.replies());
    let said = added(a.chezmoi.runner.replies(), b.chezmoi.runner.replies());
    let n = sources_of(named)->Ok_0.len() as int;
    let disk = changed_on_disk(s.files, hash_views(hashes), s.files.len() as int);
    let cands = with_targets(disk, s.managed, said, n);
    let all = with_status(cands, s.managed, said[n])->Ok_0;
    lemma_changed_on_disk(s.files, hash_views(hashes), s.files.len() as int);
    lemma_with_targets(disk, s.managed, said, n);
    match status_result(said[n]) {
        Ok(v) => {
            lemma_with_managed(cands, s.managed, status_paths(v), v.len() as int);
        },
        Err(_) => {},
    }
    lemma_to_probe(all, s.dump, all.len() as int);
    assert forall|i: int| 0 <= i < drifts.len() implies (#[trigger] drifts[i] matches Some(d)
        ==> d.target@ == files[i].0) by {
        assert(step_made(trace, drifts, hash_file, s.source_dir, files, i));
    }
    lemma_reported_paths(drifts, files);
    lemma_dump_distinct(first[1]);
    assert forall|k: int|
        0 <= k < s.files.len() && never_has(
            hash_file,
            (#[trigger] s.files[k]).0,
            s.files[k].1,
        ) implies has_path(drifted_paths(report.drifted@), s.files[k].0) by {
        let file = s.files[k];
        let m = lemma_watched(s.dump, s.managed, s.dump.len() as int, k);
        assert(hashed(hash_file, file.0, hashes[k]));
        assert(hash_views(hashes)[k] != file.1);
        assert(has_path(all, file.0));
        let c = choose|c: int| 0 <= c < all.len() && same_path(#[trigger] all[c], file.0);
        lemma_entry_found(s.dump, all[c], m, 0);
        let i = lemma_is_probed(all, s.dump, all.len() as int, c, s.dump[m].1);
        assert(files[i] == (all[c], file.1));
        assert(step_made(trace, drifts, hash_file, s.source_dir, files, i));
        let destination = choose|destination: Option<ContentHash>|
            #![trigger hashed(hash_file, files[i].0, destination)]
            {
                &&& hashed(hash_file, files[i].0, destination)
                &&& probed(
                    trace[i],
                    trace[i + 1],
                    s.source_dir,
                    files[i],
                    hash_bytes(destination),
                    Ok(drifts[i]),
                )
            };
        assert(hash_bytes(destination) != file.1);
        assert(drifts[i] is Some);
        let j = choose|j: int|
            0 <= j < drifted_paths(report.drifted@).len() && same_path(
                #[trigger] drifted_paths(report.drifted@)[j],
                files[i].0,
            );
        assert(same_path(drifted_paths(report.drifted@)[j], file.0));
    }
}

/// The steps that a scan was made of.
proof fn lemma_scan_parts<
    C: CommandRunner,
    G: CommandRunner,
    F: Fn(String) -> Result<Option<ContentHash>, String>,
>(
    before: DriftScanner<C, G>,
    after: DriftScanner<C, G>,
    hash_file: F,
    report: ScanReport,
) -> (r: (
    DriftScanner<C, G>,
    DriftScanner<C, G>,
    ScanStart,
    Seq<Option<ContentHash>>,
    Found,
    Seq<DriftScanner<C, G>>,
    Seq<Option<FileDrift>>,
))
    requires
        scanned(before, after, hash_file, report),
    ensures
        started(before, r.0, Ok(r.2)),
        all_hashed(hash_file, r.2@, r.3),
        searched(r.0, r.1, r.2@, hash_views(r.3), Ok(r.4)),
        report.degraded == r.4.degraded,
        report.in_sync_count == if r.2@.files.len() >= report.drifted@.len() {
            r.2@.files.len() - report.drifted@.len()
        } else {
            0
        },
        probe_run(
            r.5,
            r.6,
            hash_file,
            r.2@.source_dir,
            file_views(r.4.targets@),
            file_views(r.4.targets@).len() as int,
        ),
        r.5[0] == r.1,
        r.5.last() == after,
        report.drifted@ == reported(r.6),
{
    let (a, b, start, hashes, found) = choose|
        a: DriftScanner<C, G>,
        b: DriftScanner<C, G>,
        start: ScanStart,
        hashes: Seq<Option<ContentHash>>,
        found: Found,
    | #![trigger started(before, a, Ok(start)), searched(a, b, start@, hash_views(hashes), Ok(found))]
        {
            let files = file_views(found.targets@);
            &&& started(before, a, Ok(start))
            &&& all_hashed(hash_file, start@, hashes)
            &&& searched(a, b, start@, hash_views(hashes), Ok(found))
            &&& all_probed(
                b,
                after,
                hash_file,
                start@.source_dir,
                files,
                report.drifted@,
            )
            &&& report.degraded == found.degraded
            &&& report.in_sync_count == if start@.files.len() >= report.drifted@.len() {
                start@.files.len() - report.drifted@.len()
            } else {
                0
            }
        };
    let files = file_views(found.targets@);
    let (trace, drifts) = choose|trace: Seq<DriftScanner<C, G>>, drifts: Seq<Option<FileDrift>>|
        {
            &&& #[trigger] probe_run(
                trace,
                drifts,
                hash_file,
                start@.source_dir,
                files,
                files.len() as int,
            )
            &&& trace[0] == b
            &&& trace.last() == after
            &&& report.drifted@ == reported(drifts)
        };
    (a, b, start, hashes, found, trace, drifts)
}

/// Both runners were only used.
spec fn used<C: CommandRunner, G: CommandRunner>(
    before: DriftScanner<C, G>,
    after: DriftScanner<C, G>,
) -> bool {
    &&& after.remote_ref == before.remote_ref
    &&& after.chezmoi.opts == before.chezmoi.opts
    &&& after.git.repo == before.git.repo
    &&& went_on(before.chezmoi.runner, after.chezmoi.runner)
    &&& went_on(before.git.runner, after.git.runner)
}

proof fn lemma_used<C: CommandRunner, G: CommandRunner>(
    a: DriftScanner<C, G>,
    b: DriftScanner<C, G>,
    c: DriftScanner<C, G>,
)
    requires
        used(a, b),
        used(b, c),
    ensures
        used(a, c),
{
    lemma_went_on(a.chezmoi.runner, b.chezmoi.runner, c.chezmoi.runner);
    lemma_went_on(a.git.runner, b.git.runner, c.git.runner);
}

proof fn lemma_unused<C: CommandRunner, G: CommandRunner>(a: DriftScanner<C, G>)
    ensures
        used(a, a),
{
    let (s, r) = (a.chezmoi.runner.sent(), a.chezmoi.runner.replies());
    assert(s =~= s.subrange(0, s.len() as int));
    assert(r =~= r.subrange(0, r.len() as int));
    let (s, r) = (a.git.runner.sent(), a.git.runner.replies());
    assert(s =~= s.subrange(0, s.len() as int));
    assert(r =~= r.subrange(0, r.len() as int));
}

/// A probe that did not fail used the runners, and got what it goes by.
proof fn lemma_probe_used<C: CommandRunner, G: CommandRunner>(
    a: DriftScanner<C, G>,
    b: DriftScanner<C, G>,
    source_dir: Seq<char>,
    file: (Seq<char>, Option<Seq<u8>>),
    destination: Option<Seq<u8>>,
    r: Option<FileDrift>,
)
    requires
        probed(a, b, source_dir, file, destination, Ok(r)),
    ensures
        used(a, b),
        ({
            let said = added(a.chezmoi.runner.replies(), b.chezmoi.runner.replies());
            let counted = added(a.git.runner.replies(), b.git.runner.replies());
            let rel = source_rel_of(said[1], source_dir);
            &&& asked(a, b, seq!["cat"@, file.0], said[0])
            &&& asked(a, b, seq!["source-path"@, file.0], said[1])
            &&& rel matches Some(rel) ==> {
                &&& asked_git(
                    a,
                    b,
                    seq!["rev-list"@, "--count"@, a.remote_ref@ + "..HEAD"@, "--"@, rel],
                    counted[0],
                )
                &&& asked_git(
                    a,
                    b,
                    seq!["rev-list"@, "--count"@, "HEAD.."@ + a.remote_ref@, "--"@, rel],
                    counted[1],
                )
            }
        }),
{
    let said = added(a.chezmoi.runner.replies(), b.chezmoi.runner.replies());
    let counted = added(a.git.runner.replies(), b.git.runner.replies());
    let rel = source_rel_of(said[1], source_dir);
    let args = seq![seq!["cat"@, file.0], seq!["source-path"@, file.0]];
    let git_args = signal_args(rel, a.remote_ref@, counted);
    lemma_chezmoi_got(a.chezmoi, b.chezmoi, args);
    lemma_git_got(a.git, b.git, git_args);
    assert(args[0] == seq!["cat"@, file.0] && args[1] == seq!["source-path"@, file.0]);
    if let Some(rel) = rel {
        assert(git_args[0] == touching_args(a.remote_ref@ + "..HEAD"@, rel));
        assert(git_args[1] == touching_args("HEAD.."@ + a.remote_ref@, rel));
    }
}

proof fn lemma_trace_used<
    C: CommandRunner,
    G: CommandRunner,
    F: Fn(String) -> Result<Option<ContentHash>, String>,
>(
    trace: Seq<DriftScanner<C, G>>,
    drifts: Seq<Option<FileDrift>>,
    hash_file: F,
    source_dir: Seq<char>,
    files: Seq<(Seq<char>, Option<Seq<u8>>)>,
    n: int,
    i: int,
    j: int,
)
    requires
        probe_run(trace, drifts, hash_file, source_dir, files, n),
        0 <= i <= j <= n,
    ensures
        used(trace[i], trace[j]),
    decreases j - i,
{
    if i == j {
        lemma_unused(trace[i]);
    } else {
        lemma_trace_used(trace, drifts, hash_file, source_dir, files, n, i, j - 1);
        assert(step_made(trace, drifts, hash_file, source_dir, files, j - 1));
        let d = choose|d: Option<ContentHash>|
            #![trigger hashed(hash_file, files[j - 1].0, d)]
            {
                &&& hashed(hash_file, files[j - 1].0, d)
                &&& probed(
                    trace[j - 1],
                    trace[j - 1 + 1],
                    source_dir,
                    files[j - 1],
                    hash_bytes(d),
                    Ok(drifts[j - 1]),
                )
            };
        lemma_probe_used(
            trace[j - 1],
            trace[j],
            source_dir,
            files[j - 1],
            hash_bytes(d),
            drifts[j - 1],
        );
        lemma_used(trace[i], trace[j - 1], trace[j]);
    }
}

/// The scanner asked chezmoi, and got this answer.
pub open spec fn asked<C: CommandRunner, G: CommandRunner>(
    before: DriftScanner<C, G>,
    after: DriftScanner<C, G>,
    args: Seq<Seq<char>>,
    reply: Reply,
) -> bool {
    got(
        before.chezmoi.runner,
        after.chezmoi.runner,
        chezmoi_request(before.chezmoi.opts, args, None, before.chezmoi.opts.timeout),
        reply,
    )
}

/// The scanner asked git, and got this answer.
pub open spec fn asked_git<C: CommandRunner, G: CommandRunner>(
    before: DriftScanner<C, G>,
    after: DriftScanner<C, G>,
    args: Seq<Seq<char>>,
    reply: Reply,
) -> bool {
    got(
        before.git.runner,
        after.git.runner,
        git_request(before.git.repo@, args, Duration::seconds(30)),
        reply,
    )
}

/// What was asked in a part of a scan was asked in it.
proof fn lemma_asked<C: CommandRunner, G: CommandRunner>(
    a: DriftScanner<C, G>,
    b: DriftScanner<C, G>,
    c: DriftScanner<C, G>,
    d: DriftScanner<C, G>,
)
    requires
        used(a, b),
        used(b, c),
        used(c, d),
    ensures
        forall|args: Seq<Seq<char>>, reply: Reply| #[trigger]
            asked(b, c, args, reply) ==> asked(a, d, args, reply),
        forall|args: Seq<Seq<char>>, reply: Reply| #[trigger]
            asked_git(b, c, args, reply) ==> asked_git(a, d, args, reply),
{
    assert forall|args: Seq<Seq<char>>, reply: Reply| #[trigger]
        asked(b, c, args, reply) implies asked(a, d, args, reply) by {
        let req = chezmoi_request(a.chezmoi.opts, args, None, a.chezmoi.opts.timeout);
        lemma_got(
            a.chezmoi.runner,
            b.chezmoi.runner,
            c.chezmoi.runner,
            d.chezmoi.runner,
            req,
            reply,
        );
    }
    assert forall|args: Seq<Seq<char>>, reply: Reply| #[trigger]
        asked_git(b, c, args, reply) implies asked_git(a, d, args, reply) by {
        let req = git_request(a.git.repo@, args, Duration::seconds(30));
        lemma_got(a.git.runner, b.git.runner, c.git.runner, d.git.runner, req, reply);
    }
}

proof fn lemma_is_reported(drifts: Seq<Option<FileDrift>>, i: int) -> (k: int)
    requires
        0 <= i < drifts.len(),
        drifts[i] is Some,
    ensures
        0 <= k < reported(drifts).len(),
        reported(drifts)[k] == drifts[i]->Some_0,
    decreases drifts.len(),
{
    let front = drifts.drop_last();
    if i == drifts.len() - 1 {
        reported(front).len() as int
    } else {
        assert(front[i] == drifts[i]);
        lemma_is_reported(front, i)
    }
}

proof fn lemma_was_probed(drifts: Seq<Option<FileDrift>>, k: int) -> (i: int)
    requires
        0 <= k < reported(drifts).len(),
    ensures
        0 <= i < drifts.len(),
        drifts[i] == Some(reported(drifts)[k]),
    decreases drifts.len(),
{
    let front = drifts.drop_last();
    if k < reported(front).len() {
        let i = lemma_was_probed(front, k);
        assert(front[i] == drifts[i]);
        i
    } else {
        drifts.len() - 1
    }
}

/// The file was looked at and is in sync: its content on disk and what it renders to are what is
/// remembered of it, and where it has a source the remote has no commits for that.
pub open spec fn found_in_sync<
    C: CommandRunner,
    G: CommandRunner,
    F: Fn(String) -> Result<Option<ContentHash>, String>,
>(
    before: DriftScanner<C, G>,
    after: DriftScanner<C, G>,
    hash_file: F,
    source_dir: Seq<char>,
    path: Seq<char>,
    last: Option<Seq<u8>>,
) -> bool {
    exists|p: Seq<char>, h: Option<ContentHash>, cat: Reply, source: Reply|
        #![trigger hashed(hash_file, p, h), outcome(cat), outcome_text(source)]
        {
            &&& same_path(p, path)
            &&& hashed(hash_file, p, h)
            &&& hash_bytes(h) == last
            &&& asked(before, after, seq!["cat"@, p], cat)
            &&& outcome(cat) matches Ok(content) && last == Some(sha256(content))
            &&& asked(before, after, seq!["source-path"@, p], source)
            &&& match outcome_text(source) {
                Ok(t) => match relative_to(trim(t), source_dir) {
                    Some(rel) => no_remote_commits(before, after, rel),
                    None => true,
                },
                Err(_) => true,
            }
        }
}

/// Git was asked how many commits the remote has for the file, and counted none.
pub open spec fn no_remote_commits<C: CommandRunner, G: CommandRunner>(
    before: DriftScanner<C, G>,
    after: DriftScanner<C, G>,
    rel: Seq<char>,
) -> bool {
    exists|reply: Reply|
        asked_git(
            before,
            after,
            seq!["rev-list"@, "--count"@, "HEAD.."@ + before.remote_ref@, "--"@, rel],
            reply,
        ) && #[trigger] count_reply(reply) == Ok::<u32, GitFailure>(0)
}

/// The report holds the file, probed with this as what was last written.
pub open spec fn is_reported(report: ScanReport, path: Seq<char>, last: Option<Seq<u8>>) -> bool {
    exists|k: int|
        0 <= k < report.drifted@.len() && same_path(
            (#[trigger] report.drifted@[k]).target@,
            path,
        ) && hash_bytes(report.drifted@[k].probe.last_written) == last
}

/// The scan has not passed the file over: one that was never written is reported, with nothing
/// remembered of it; one that was is reported, or was looked at and is in sync.
pub open spec fn accounted_for<
    C: CommandRunner,
    G: CommandRunner,
    F: Fn(String) -> Result<Option<ContentHash>, String>,
>(
    before: DriftScanner<C, G>,
    after: DriftScanner<C, G>,
    hash_file: F,
    report: ScanReport,
    source_dir: Seq<char>,
    dump: Seq<(Seq<char>, Entry)>,
    path: Seq<char>,
) -> bool {
    &&& (forall|m: int| 0 <= m < dump.len() ==> !same_path((#[trigger] dump[m]).0, path))
        ==> is_reported(report, path, None)
    &&& forall|m: int|
        0 <= m < dump.len() && same_path((#[trigger] dump[m]).0, path) && dump[m].1.kind
            == "file"@ ==> {
            let last = match dump[m].1.contents_sha256 {
                Some(s) => hash_from_hex(s),
                None => None,
            };
            ||| is_reported(report, path, last)
            ||| found_in_sync(before, after, hash_file, source_dir, path, last)
        }
}

proof fn lemma_no_entry(dump: Seq<(Seq<char>, Entry)>, path: Seq<char>, k: int)
    requires
        0 <= k,
        forall|m: int| 0 <= m < dump.len() ==> !same_path((#[trigger] dump[m]).0, path),
    ensures
        entry_at(dump, path, k) is None,
    decreases dump.len() - k,
{
    if k < dump.len() {
        lemma_no_entry(dump, path, k + 1);
    }
}

/// A candidate that chezmoi has not written is probed.
proof fn lemma_new_is_probed(
    cands: Seq<Seq<char>>,
    dump: Seq<(Seq<char>, Entry)>,
    n: int,
    c: int,
) -> (i: int)
    requires
        0 <= c < n <= cands.len(),
        entry_at(dump, cands[c], 0) is None,
    ensures
        0 <= i < to_probe(cands, dump, n).len(),
        to_probe(cands, dump, n)[i] == (cands[c], None::<Seq<u8>>),
    decreases n,
{
    if c == n - 1 {
        to_probe(cands, dump, n - 1).len() as int
    } else {
        lemma_new_is_probed(cands, dump, n - 1, c)
    }
}

/// What was probed is reported or in sync.
proof fn lemma_probe_accounts<
    C: CommandRunner,
    G: CommandRunner,
    F: Fn(String) -> Result<Option<ContentHash>, String>,
>(
    before: DriftScanner<C, G>,
    b: DriftScanner<C, G>,
    after: DriftScanner<C, G>,
    hash_file: F,
    report: ScanReport,
    trace: Seq<DriftScanner<C, G>>,
    drifts: Seq<Option<FileDrift>>,
    source_dir: Seq<char>,
    files: Seq<(Seq<char>, Option<Seq<u8>>)>,
    i: int,
    path: Seq<char>,
)
    requires
        used(before, b),
        probe_run(trace, drifts, hash_file, source_dir, files, files.len() as int),
        trace[0] == b,
        trace.last() == after,
        report.drifted@ == reported(drifts),
        0 <= i < files.len(),
        same_path(files[i].0, path),
    ensures
        is_reported(report, path, files[i].1) || found_in_sync(
            before,
            after,
            hash_file,
            source_dir,
            path,
            files[i].1,
        ),
        files[i].1 is None ==> is_reported(report, path, None),
{
    let n = files.len() as int;
    assert(step_made(trace, drifts, hash_file, source_dir, files, i));
    let h = choose|d: Option<ContentHash>|
        #![trigger hashed(hash_file, files[i].0, d)]
        {
            &&& hashed(hash_file, files[i].0, d)
            &&& probed(
                trace[i],
                trace[i + 1],
                source_dir,
                files[i],
                hash_bytes(d),
                Ok(drifts[i]),
            )
        };
    let (x, y) = (trace[i], trace[i + 1]);
    lemma_probe_used(x, y, source_dir, files[i], hash_bytes(h), drifts[i]);
    lemma_trace_used(trace, drifts, hash_file, source_dir, files, n, 0, i);
    lemma_trace_used(trace, drifts, hash_file, source_dir, files, n, i + 1, n);
    lemma_used(before, b, x);
    lemma_asked(before, x, y, after);
    let said = added(x.chezmoi.runner.replies(), y.chezmoi.runner.replies());
    let counted = added(x.git.runner.replies(), y.git.runner.replies());
    match drifts[i] {
        Some(d) => {
            let k = lemma_is_reported(drifts, i);
            assert(report.drifted@[k] == d);
        },
        None => {
            let rendered = rendered_of(said[0])->Ok_0;
            let rel = source_rel_of(said[1], source_dir);
            let git = signals_of(rel, counted)->Ok_0;
            assert(shows_sync(hash_bytes(h), rendered, files[i].1, git));
            let p = choose|p: StateProbe| #[trigger]
                probe_is(p, hash_bytes(h), rendered, files[i].1, git) && class_of(p)
                    == DriftClass::InSync;
            crate::drift::law_failures_dominate_and_sync_is_agreement(p);
            assert(rendered is Ok);
            assert(!git.remote_ahead);
            if let Some(r) = rel {
                assert(count_reply(counted[1]) == Ok::<u32, GitFailure>(0));
                assert(asked_git(
                    before,
                    after,
                    seq!["rev-list"@, "--count"@, "HEAD.."@ + before.remote_ref@, "--"@, r],
                    counted[1],
                ));
                assert(no_remote_commits(before, after, r));
            }
            assert(hashed(hash_file, files[i].0, h));
            assert(asked(before, after, seq!["cat"@, files[i].0], said[0]));
            assert(asked(before, after, seq!["source-path"@, files[i].0], said[1]));
            assert(found_in_sync(
                before,
                after,
                hash_file,
                source_dir,
                path,
                files[i].1,
            ));
        },
    }
}

/// A candidate is accounted for.
proof fn lemma_candidate_accounts<
    C: CommandRunner,
    G: CommandRunner,
    F: Fn(String) -> Result<Option<ContentHash>, String>,
>(
    before: DriftScanner<C, G>,
    b: DriftScanner<C, G>,
    after: DriftScanner<C, G>,
    hash_file: F,
    report: ScanReport,
    trace: Seq<DriftScanner<C, G>>,
    drifts: Seq<Option<FileDrift>>,
    source_dir: Seq<char>,
    dump: Seq<(Seq<char>, Entry)>,
    all: Seq<Seq<char>>,
    path: Seq<char>,
)
    requires
        used(before, b),
        probe_run(
            trace,
            drifts,
            hash_file,
            source_dir,
            to_probe(all, dump, all.len() as int),
            to_probe(all, dump, all.len() as int).len() as int,
        ),
        trace[0] == b,
        trace.last() == after,
        report.drifted@ == reported(drifts),
        distinct_paths(dump),
        has_path(all, path),
    ensures
        accounted_for(before, after, hash_file, report, source_dir, dump, path),
{
    let files = to_probe(all, dump, all.len() as int);
    let c = choose|c: int| 0 <= c < all.len() && same_path(#[trigger] all[c], path);
    if forall|m: int| 0 <= m < dump.len() ==> !same_path((#[trigger] dump[m]).0, path) {
        assert forall|m: int| 0 <= m < dump.len() implies !same_path(
            (#[trigger] dump[m]).0,
            all[c],
        ) by {}
        lemma_no_entry(dump, all[c], 0);
        let i = lemma_new_is_probed(all, dump, all.len() as int, c);
        lemma_probe_accounts(
            before,
            b,
            after,
            hash_file,
            report,
            trace,
            drifts,
            source_dir,
            files,
            i,
            path,
        );
    }
    assert forall|m: int|
        0 <= m < dump.len() && same_path((#[trigger] dump[m]).0, path) && dump[m].1.kind
            == "file"@ implies ({
        let last = match dump[m].1.contents_sha256 {
            Some(s) => hash_from_hex(s),
            None => None,
        };
        ||| is_reported(report, path, last)
        ||| found_in_sync(before, after, hash_file, source_dir, path, last)
    }) by {
        lemma_entry_found(dump, all[c], m, 0);
        let i = lemma_is_probed(all, dump, all.len() as int, c, dump[m].1);
        lemma_probe_accounts(
            before,
            b,
            after,
            hash_file,
            report,
            trace,
            drifts,
            source_dir,
            files,
            i,
            path,
        );
    }
}

proof fn lemma_with_paths(cands: Seq<Seq<char>>, paths: Seq<Seq<char>>, n: int)
    requires
        ordered_paths(cands),
    ensures
        ordered_paths(with_paths(cands, paths, n)),
        forall|q: Seq<char>|
            has_path(cands, q) ==> #[trigger] has_path(with_paths(cands, paths, n), q),
        forall|k: int|
            0 <= k < n ==> has_path(with_paths(cands, paths, n), #[trigger] paths[k]),
    decreases n,
{
    if n > 0 {
        lemma_with_paths(cands, paths, n - 1);
        lemma_insert_path(with_paths(cands, paths, n - 1), paths[n - 1]);
    }
}

/// What an answer names is among the candidates.
proof fn lemma_targets_named(
    cands: Seq<Seq<char>>,
    managed: Seq<Seq<char>>,
    answers: Seq<Reply>,
    n: int,
    j: int,
)
    requires
        ordered_paths(cands),
        0 <= j < n,
    ensures
        outcome_text(answers[j]) matches Ok(t) ==> forall|k: int|
            0 <= k < bare_lines(t).len() && has_path(managed, #[trigger] bare_lines(t)[k])
                ==> has_path(with_targets(cands, managed, answers, n), bare_lines(t)[k]),
    decreases n,
{
    lemma_with_targets(cands, managed, answers, n - 1);
    if let Ok(t) = outcome_text(answers[n - 1]) {
        lemma_with_managed(
            with_targets(cands, managed, answers, n - 1),
            managed,
            bare_lines(t),
            bare_lines(t).len() as int,
        );
    }
    if j < n - 1 {
        lemma_targets_named(cands, managed, answers, n - 1, j);
    }
}

/// A scan passes no file over that chezmoi or git name. Every managed path that `chezmoi status`
/// lists is accounted for, and so is every managed target of a source file that differs from the
/// remote or is not committed: what was never written is reported, with nothing remembered of
/// it, and what was is reported unless disk, source and remote all agree with it. A status that
/// could not be evaluated is told in the report.
#[verifier::rlimit(40)]
#[verifier::spinoff_prover]
pub proof fn law_named_files_are_accounted_for<
    C: CommandRunner,
    G: CommandRunner,
    F: Fn(String) -> Result<Option<ContentHash>, String>,
>(
    before: DriftScanner<C, G>,
    after: DriftScanner<C, G>,
    hash_file: F,
    report: ScanReport,
)
    requires
        scanned(before, after, hash_file, report),
    ensures
        ({
            let said = added(before.chezmoi.runner.replies(), after.chezmoi.runner.replies());
            let counted = added(before.git.runner.replies(), after.git.runner.replies());
            &&& outcome_text(said[0]) matches Ok(dir)
            &&& dump_reply(said[1]) matches Ok(dump)
            &&& outcome_text(said[2]) matches Ok(listed)
            &&& git_text(counted[0]) matches Ok(differing)
            &&& dirty_reply(counted[1]) matches Ok(dirty)
            &&& exists|status: Reply|
                {
                    &&& asked(
                        before,
                        after,
                        seq!["status"@, "--path-style=absolute"@],
                        status,
                    )
                    &&& match #[trigger] status_result(status) {
                        Ok(v) => report.degraded is None && forall|k: int|
                            0 <= k < v.len() && has_path(
                                bare_lines(listed),
                                (#[trigger] v[k]).path,
                            ) ==> accounted_for(
                                before,
                                after,
                                hash_file,
                                report,
                                trim(dir),
                                dump,
                                v[k].path,
                            ),
                        Err(f) => report.degraded matches Some(told) && f == ChezmoiError::Eval(
                            told,
                        )@,
                    }
                }
            &&& forall|rel: Seq<char>|
                #![trigger bare_lines(differing).contains(rel)]
                #![trigger dirty.contains(rel)]
                bare_lines(differing).contains(rel) || dirty.contains(rel) ==> exists|
                    file: Seq<char>,
                    answer: Reply,
                |
                    {
                        &&& #[trigger] same_path(file, rel)
                        &&& asked(
                            before,
                            after,
                            seq!["target-path"@, joined(trim(dir), file)],
                            answer,
                        )
                        &&& #[trigger] outcome_text(answer) matches Ok(t) ==> forall|k: int|
                            0 <= k < bare_lines(t).len() && has_path(
                                bare_lines(listed),
                                #[trigger] bare_lines(t)[k],
                            ) ==> accounted_for(
                                before,
                                after,
                                hash_file,
                                report,
                                trim(dir),
                                dump,
                                bare_lines(t)[k],
                            )
                    }
        }),
{
    let (a, b, start, hashes, found, trace, drifts) = lemma_scan_parts(
        before,
        after,
        hash_file,
        report,
    );
    let s = start@;
    let files = file_views(found.targets@);
    let first = added(before.chezmoi.runner.replies(), a.chezmoi.runner.replies());
    let said = added(a.chezmoi.runner.replies(), b.chezmoi.runner.replies());
    let named = added(a.git.runner.replies(), b.git.runner.replies());
    let sources = sources_of(named)->Ok_0;
    let n = sources.len() as int;
    let args = target_args(s.source_dir, sources, n).push(
        seq!["status"@, "--path-style=absolute"@],
    );
    lemma_chezmoi_got(before.chezmoi, a.chezmoi, start_args().take(3));
    lemma_unused(before);
    lemma_chezmoi_got(a.chezmoi, b.chezmoi, args);
    lemma_git_got(a.git, b.git, source_args(a.remote_ref@, named));
    assert(used(before, a));
    assert(used(a, b));
    lemma_used(before, a, b);
    lemma_trace_used(
        trace,
        drifts,
        hash_file,
        s.source_dir,
        files,
        files.len() as int,
        0,
        files.len() as int,
    );
    assert(used(b, after));
    lemma_asked(before, a, b, after);
    lemma_used(before, b, after);
    lemma_used(a, b, after);
    let all_said = added(before.chezmoi.runner.replies(), after.chezmoi.runner.replies());
    let all_counted = added(before.git.runner.replies(), after.git.runner.replies());
    assert(first.len() == 3);
    lemma_prefix_added(before.chezmoi.runner, a.chezmoi.runner, after.chezmoi.runner);
    assert(all_said[0] == first[0] && all_said[1] == first[1] && all_said[2] == first[2]);
    lemma_prefix_added(a.git.runner, b.git.runner, after.git.runner);
    assert(before.git == a.git);
    assert(named.len() == 2);
    assert(all_counted[0] == named[0] && all_counted[1] == named[1]);
    let dir = outcome_text(all_said[0])->Ok_0;
    let dump = s.dump;
    let managed = s.managed;
    assert(s.source_dir == trim(dir));
    let disk = changed_on_disk(s.files, hash_views(hashes), s.files.len() as int);
    let cands = with_targets(disk, managed, said, n);
    let all = with_status(cands, managed, said[n])->Ok_0;
    lemma_changed_on_disk(s.files, hash_views(hashes), s.files.len() as int);
    lemma_with_targets(disk, managed, said, n);
    lemma_dump_distinct(first[1]);
    let status = said[n];
    assert(args[n] == seq!["status"@, "--path-style=absolute"@]);
    assert(asked(a, b, args[n], status));
    assert(asked(before, after, seq!["status"@, "--path-style=absolute"@], status));
    if let Ok(v) = status_result(status) {
        lemma_with_managed(cands, managed, status_paths(v), v.len() as int);
        assert forall|k: int| 0 <= k < v.len() && has_path(
            managed,
            (#[trigger] v[k]).path,
        ) implies accounted_for(
            before,
            after,
            hash_file,
            report,
            s.source_dir,
            dump,
            v[k].path,
        ) by {
            assert(status_paths(v)[k] == v[k].path);
            assert(has_path(all, v[k].path));
            lemma_candidate_accounts(
                before,
                b,
                after,
                hash_file,
                report,
                trace,
                drifts,
                s.source_dir,
                dump,
                all,
                v[k].path,
            );
        }
    }
    let differing = git_text(named[0])->Ok_0;
    let dirty = dirty_reply(named[1])->Ok_0;
    let lines = bare_lines(differing);
    lemma_with_paths(seq![], lines, lines.len() as int);
    lemma_with_paths(
        with_paths(seq![], lines, lines.len() as int),
        dirty,
        dirty.len() as int,
    );
    assert forall|rel: Seq<char>|
        #![trigger lines.contains(rel)]
        #![trigger dirty.contains(rel)]
        lines.contains(rel) || dirty.contains(rel) implies exists|file: Seq<char>, answer: Reply|
            {
                &&& #[trigger] same_path(file, rel)
                &&& asked(
                    before,
                    after,
                    seq!["target-path"@, joined(s.source_dir, file)],
                    answer,
                )
                &&& #[trigger] outcome_text(answer) matches Ok(t) ==> forall|k: int|
                    0 <= k < bare_lines(t).len() && has_path(
                        managed,
                        #[trigger] bare_lines(t)[k],
                    ) ==> accounted_for(
                        before,
                        after,
                        hash_file,
                        report,
                        s.source_dir,
                        dump,
                        bare_lines(t)[k],
                    )
            } by {
        if lines.contains(rel) {
            let k = choose|k: int| 0 <= k < lines.len() && lines[k] == rel;
            assert(has_path(with_paths(seq![], lines, lines.len() as int), lines[k]));
        } else {
            let k = choose|k: int| 0 <= k < dirty.len() && dirty[k] == rel;
            assert(has_path(sources, dirty[k]));
        }
        assert(has_path(sources, rel));
        let j = choose|j: int| 0 <= j < sources.len() && same_path(#[trigger] sources[j], rel);
        let file = sources[j];
        let answer = said[j];
        assert(args[j] == seq!["target-path"@, joined(s.source_dir, file)]);
        assert(asked(a, b, args[j], answer));
        assert(asked(
            before,
            after,
            seq!["target-path"@, joined(s.source_dir, file)],
            answer,
        ));
        if let Ok(t) = outcome_text(answer) {
            lemma_targets_named(disk, managed, said, n, j);
            assert forall|k: int| 0 <= k < bare_lines(t).len() && has_path(
                managed,
                #[trigger] bare_lines(t)[k],
            ) implies accounted_for(
                before,
                after,
                hash_file,
                report,
                s.source_dir,
                dump,
                bare_lines(t)[k],
            ) by {
                let q = bare_lines(t)[k];
                assert(has_path(cands, q));
                if let Ok(v) = status_result(status) {
                    lemma_with_managed(cands, managed, status_paths(v), v.len() as int);
                }
                assert(has_path(all, q));
                lemma_candidate_accounts(
                    before,
                    b,
                    after,
                    hash_file,
                    report,
                    trace,
                    drifts,
                    s.source_dir,
                    dump,
                    all,
                    q,
                );
            }
        }
    }
}

proof fn lemma_only_managed(
    cands: Seq<Seq<char>>,
    managed: Seq<Seq<char>>,
    paths: Seq<Seq<char>>,
    n: int,
)
    requires
        ordered_paths(cands),
        forall|q: Seq<char>| #[trigger] has_path(cands, q) ==> has_path(managed, q),
    ensures
        forall|q: Seq<char>| #[trigger]
            has_path(with_managed(cands, managed, paths, n), q) ==> has_path(managed, q),
    decreases n,
{
    if n > 0 {
        lemma_only_managed(cands, managed, paths, n - 1);
        lemma_with_managed(cands, managed, paths, n - 1);
        lemma_insert_path(with_managed(cands, managed, paths, n - 1), paths[n - 1]);
        if has_path(managed, paths[n - 1]) {
            let k = choose|k: int|
                0 <= k < managed.len() && same_path(#[trigger] managed[k], paths[n - 1]);
            assert forall|q: Seq<char>| #[trigger]
                has_path(with_managed(cands, managed, paths, n), q) implies has_path(
                managed,
                q,
            ) by {
                if same_path(paths[n - 1], q) {
                    assert(same_path(managed[k], q));
                }
            }
        }
    }
}

proof fn lemma_only_managed_targets(
    cands: Seq<Seq<char>>,
    managed: Seq<Seq<char>>,
    answers: Seq<Reply>,
    n: int,
)
    requires
        ordered_paths(cands),
        forall|q: Seq<char>| #[trigger] has_path(cands, q) ==> has_path(managed, q),
    ensures
        forall|q: Seq<char>| #[trigger]
            has_path(with_targets(cands, managed, answers, n), q) ==> has_path(managed, q),
    decreases n,
{
    if n > 0 {
        lemma_only_managed_targets(cands, managed, answers, n - 1);
        lemma_with_targets(cands, managed, answers, n - 1);
        if let Ok(t) = outcome_text(answers[n - 1]) {
            lemma_only_managed(
                with_targets(cands, managed, answers, n - 1),
                managed,
                bare_lines(t),
                bare_lines(t).len() as int,
            );
        }
    }
}

proof fn lemma_watched_is_managed(
    dump: Seq<(Seq<char>, Entry)>,
    managed: Seq<Seq<char>>,
    n: int,
)
    requires
        0 <= n <= dump.len(),
    ensures
        forall|k: int|
            0 <= k < watched(dump, managed, n).len() ==> has_path(
                managed,
                (#[trigger] watched(dump, managed, n)[k]).0,
            ),
        watched(dump, managed, n).len() == dump.take(n).filter(
            |e: (Seq<char>, Entry)| e.1.kind == "file"@ && has_path(managed, e.0),
        ).len(),
    decreases n,
{
    reveal(Seq::filter);
    if n > 0 {
        lemma_watched_is_managed(dump, managed, n - 1);
        assert(dump.take(n).drop_last() =~= dump.take(n - 1));
        assert(dump.take(n).last() == dump[n - 1]);
    }
}

proof fn lemma_only_managed_on_disk(
    files: Seq<(Seq<char>, Option<Seq<u8>>)>,
    hashes: Seq<Option<Seq<u8>>>,
    managed: Seq<Seq<char>>,
    n: int,
)
    requires
        0 <= n <= files.len(),
        forall|k: int| 0 <= k < files.len() ==> has_path(managed, (#[trigger] files[k]).0),
    ensures
        forall|q: Seq<char>| #[trigger]
            has_path(changed_on_disk(files, hashes, n), q) ==> has_path(managed, q),
    decreases n,
{
    if n > 0 {
        lemma_only_managed_on_disk(files, hashes, managed, n - 1);
        lemma_changed_on_disk(files, hashes, n - 1);
        let front = changed_on_disk(files, hashes, n - 1);
        let p = files[n - 1].0;
        lemma_insert_path(front, p);
        let k = choose|k: int| 0 <= k < managed.len() && same_path(#[trigger] managed[k], p);
        assert forall|q: Seq<char>| #[trigger]
            has_path(changed_on_disk(files, hashes, n), q) implies has_path(managed, q) by {
            if !has_path(front, q) {
                assert(same_path(managed[k], q));
            }
        }
    }
}

/// What is probed has the hash that is remembered of it.
proof fn lemma_probed_with(
    cands: Seq<Seq<char>>,
    dump: Seq<(Seq<char>, Entry)>,
    n: int,
    i: int,
)
    requires
        distinct_paths(dump),
        0 <= n <= cands.len(),
        0 <= i < to_probe(cands, dump, n).len(),
    ensures
        ({
            let (path, last) = to_probe(cands, dump, n)[i];
            &&& cands.contains(path)
            &&& (forall|m: int| 0 <= m < dump.len() ==> !same_path((#[trigger] dump[m]).0, path))
                ==> last is None
            &&& forall|m: int|
                0 <= m < dump.len() && same_path((#[trigger] dump[m]).0, path) ==> dump[m].1.kind
                    == "file"@ && last == remembered(dump[m].1)
        }),
    decreases n,
{
    let front = to_probe(cands, dump, n - 1);
    if i < front.len() {
        lemma_probed_with(cands, dump, n - 1, i);
    } else {
        let (path, last) = to_probe(cands, dump, n)[i];
        assert(cands[n - 1] == path);
        if forall|m: int| 0 <= m < dump.len() ==> !same_path((#[trigger] dump[m]).0, path) {
            lemma_no_entry(dump, path, 0);
        }
        assert forall|m: int|
            0 <= m < dump.len() && same_path((#[trigger] dump[m]).0, path) implies dump[m].1.kind
            == "file"@ && last == remembered(dump[m].1) by {
            lemma_entry_found(dump, path, m, 0);
        }
    }
}

/// What a probe says of a file was found so: the hash of its content, what `chezmoi cat` gave for
/// it, where its source lies, and the commits that git counted for that on either end.
pub open spec fn tells_what_was_found<
    C: CommandRunner,
    G: CommandRunner,
    F: Fn(String) -> Result<Option<ContentHash>, String>,
>(
    before: DriftScanner<C, G>,
    after: DriftScanner<C, G>,
    hash_file: F,
    source_dir: Seq<char>,
    d: FileDrift,
) -> bool {
    let path = d.target@;
    &&& exists|h: Option<ContentHash>| #[trigger]
        hashed(hash_file, path, h) && hash_bytes(h) == hash_bytes(d.probe.destination)
    &&& exists|cat: Reply|
        asked(before, after, seq!["cat"@, path], cat) && match #[trigger] outcome(cat) {
            Ok(content) => d.probe.rendered matches Ok(h) && hash_bytes(h) == Some(
                sha256(content),
            ),
            Err(f) => d.probe.rendered matches Err(e) && f == ChezmoiError::Eval(e)@,
        }
    &&& exists|source: Reply|
        asked(before, after, seq!["source-path"@, path], source) && match #[trigger] outcome_text(
            source,
        ) {
            Ok(t) => crate::cmd::optional(d.source_rel) == relative_to(trim(t), source_dir),
            Err(_) => d.source_rel is None,
        }
    &&& match d.source_rel {
        None => !d.probe.git.local_ahead && !d.probe.git.remote_ahead,
        Some(rel) => {
            &&& exists|reply: Reply|
                asked_git(
                    before,
                    after,
                    seq!["rev-list"@, "--count"@, before.remote_ref@ + "..HEAD"@, "--"@, rel@],
                    reply,
                ) && (#[trigger] count_reply(reply) matches Ok(n) && d.probe.git.local_ahead == (n
                    > 0))
            &&& exists|reply: Reply|
                asked_git(
                    before,
                    after,
                    seq!["rev-list"@, "--count"@, "HEAD.."@ + before.remote_ref@, "--"@, rel@],
                    reply,
                ) && (#[trigger] count_reply(reply) matches Ok(n) && d.probe.git.remote_ahead == (n
                    > 0))
        },
    }
}

proof fn lemma_probe_tells<
    C: CommandRunner,
    G: CommandRunner,
    F: Fn(String) -> Result<Option<ContentHash>, String>,
>(
    before: DriftScanner<C, G>,
    x: DriftScanner<C, G>,
    y: DriftScanner<C, G>,
    after: DriftScanner<C, G>,
    hash_file: F,
    source_dir: Seq<char>,
    file: (Seq<char>, Option<Seq<u8>>),
    h: Option<ContentHash>,
    d: FileDrift,
)
    requires
        used(before, x),
        used(y, after),
        hashed(hash_file, file.0, h),
        probed(x, y, source_dir, file, hash_bytes(h), Ok(Some(d))),
    ensures
        tells_what_was_found(before, after, hash_file, source_dir, d),
        d.target@ == file.0,
        hash_bytes(d.probe.last_written) == file.1,
        d.class == class_of(d.probe),
        d.class != DriftClass::InSync,
{
    lemma_probe_used(x, y, source_dir, file, hash_bytes(h), Some(d));
    lemma_asked(before, x, y, after);
    let said = added(x.chezmoi.runner.replies(), y.chezmoi.runner.replies());
    let counted = added(x.git.runner.replies(), y.git.runner.replies());
    let path = d.target@;
    let rel = source_rel_of(said[1], source_dir);
    assert(hashed(hash_file, path, h) && hash_bytes(h) == hash_bytes(d.probe.destination));
    assert(asked(before, after, seq!["cat"@, path], said[0]) && match outcome(said[0]) {
        Ok(content) => d.probe.rendered matches Ok(h) && hash_bytes(h) == Some(sha256(content)),
        Err(f) => d.probe.rendered matches Err(e) && f == ChezmoiError::Eval(e)@,
    });
    assert(asked(before, after, seq!["source-path"@, path], said[1]));
    assert(match outcome_text(said[1]) {
        Ok(t) => crate::cmd::optional(d.source_rel) == relative_to(trim(t), source_dir),
        Err(_) => d.source_rel is None,
    });
    if let Some(r) = d.source_rel {
        assert(rel == Some(r@));
        assert(asked_git(
            before,
            after,
            seq!["rev-list"@, "--count"@, before.remote_ref@ + "..HEAD"@, "--"@, r@],
            counted[0],
        ));
        assert(count_reply(counted[0]) is Ok);
        assert(asked_git(
            before,
            after,
            seq!["rev-list"@, "--count"@, "HEAD.."@ + before.remote_ref@, "--"@, r@],
            counted[1],
        ));
        assert(count_reply(counted[1]) is Ok);
    }
}

/// A report tells of managed files only, and of each what was found: the content on disk, what
/// its source renders to, the commits on either end, and the hash that chezmoi remembers of it,
/// or none where it has not written it. And every managed file that chezmoi has written counts
/// as in sync unless something has drifted in its place.
#[verifier::rlimit(40)]
#[verifier::spinoff_prover]
pub proof fn law_reports_tell_what_was_found<
    C: CommandRunner,
    G: CommandRunner,
    F: Fn(String) -> Result<Option<ContentHash>, String>,
>(
    before: DriftScanner<C, G>,
    after: DriftScanner<C, G>,
    hash_file: F,
    report: ScanReport,
)
    requires
        scanned(before, after, hash_file, report),
    ensures
        ({
            let said = added(before.chezmoi.runner.replies(), after.chezmoi.runner.replies());
            &&& outcome_text(said[0]) matches Ok(dir)
            &&& dump_reply(said[1]) matches Ok(dump)
            &&& outcome_text(said[2]) matches Ok(listed)
            &&& forall|k: int|
                0 <= k < report.drifted@.len() ==> {
                    let d = #[trigger] report.drifted@[k];
                    let last = hash_bytes(d.probe.last_written);
                    &&& has_path(bare_lines(listed), d.target@)
                    &&& tells_what_was_found(before, after, hash_file, trim(dir), d)
                    &&& (forall|m: int|
                        0 <= m < dump.len() ==> !same_path((#[trigger] dump[m]).0, d.target@))
                        ==> last is None
                    &&& forall|m: int|
                        0 <= m < dump.len() && same_path((#[trigger] dump[m]).0, d.target@)
                            ==> dump[m].1.kind == "file"@ && last == (
                        match dump[m].1.contents_sha256 {
                            Some(s) => hash_from_hex(s),
                            None => None,
                        })
                }
            &&& {
                let files = dump.filter(
                    |e: (Seq<char>, Entry)| e.1.kind == "file"@ && has_path(
                        bare_lines(listed),
                        e.0,
                    ),
                ).len();
                report.in_sync_count as int == if report.drifted@.len() <= files {
                    files - report.drifted@.len()
                } else {
                    0
                }
            }
        }),
{
    let (a, b, start, hashes, found, trace, drifts) = lemma_scan_parts(
        before,
        after,
        hash_file,
        report,
    );
    let s = start@;
    let files = file_views(found.targets@);
    let n = files.len() as int;
    let first = added(before.chezmoi.runner.replies(), a.chezmoi.runner.replies());
    let said = added(a.chezmoi.runner.replies(), b.chezmoi.runner.replies());
    let named = added(a.git.runner.replies(), b.git.runner.replies());
    let sources = sources_of(named)->Ok_0;
    let c = sources.len() as int;
    let args = target_args(s.source_dir, sources, c).push(
        seq!["status"@, "--path-style=absolute"@],
    );
    lemma_chezmoi_got(before.chezmoi, a.chezmoi, start_args().take(3));
    lemma_unused(before);
    lemma_chezmoi_got(a.chezmoi, b.chezmoi, args);
    lemma_git_got(a.git, b.git, source_args(a.remote_ref@, named));
    assert(used(before, a));
    assert(used(a, b));
    lemma_used(before, a, b);
    lemma_trace_used(trace, drifts, hash_file, s.source_dir, files, n, 0, n);
    assert(used(b, after));
    lemma_used(a, b, after);
    let all_said = added(before.chezmoi.runner.replies(), after.chezmoi.runner.replies());
    assert(first.len() == 3);
    lemma_prefix_added(before.chezmoi.runner, a.chezmoi.runner, after.chezmoi.runner);
    assert(all_said[0] == first[0] && all_said[1] == first[1] && all_said[2] == first[2]);
    let managed = s.managed;
    lemma_watched_is_managed(s.dump, managed, s.dump.len() as int);
    assert(s.dump.take(s.dump.len() as int) =~= s.dump);
    lemma_only_managed_on_disk(s.files, hash_views(hashes), managed, s.files.len() as int);
    lemma_changed_on_disk(s.files, hash_views(hashes), s.files.len() as int);
    let disk = changed_on_disk(s.files, hash_views(hashes), s.files.len() as int);
    let cands = with_targets(disk, managed, said, c);
    lemma_only_managed_targets(disk, managed, said, c);
    lemma_with_targets(disk, managed, said, c);
    let all = with_status(cands, managed, said[c])->Ok_0;
    if let Ok(v) = status_result(said[c]) {
        lemma_only_managed(cands, managed, status_paths(v), v.len() as int);
    }
    lemma_dump_distinct(first[1]);
    assert forall|k: int| 0 <= k < report.drifted@.len() implies ({
        let d = #[trigger] report.drifted@[k];
        let last = hash_bytes(d.probe.last_written);
        &&& has_path(managed, d.target@)
        &&& tells_what_was_found(before, after, hash_file, s.source_dir, d)
        &&& (forall|m: int|
            0 <= m < s.dump.len() ==> !same_path((#[trigger] s.dump[m]).0, d.target@))
            ==> last is None
        &&& forall|m: int|
            0 <= m < s.dump.len() && same_path((#[trigger] s.dump[m]).0, d.target@)
                ==> s.dump[m].1.kind == "file"@ && last == (match s.dump[m].1.contents_sha256 {
                Some(s) => hash_from_hex(s),
                None => None,
            })
    }) by {
        let d = report.drifted@[k];
        let i = lemma_was_probed(drifts, k);
        assert(step_made(trace, drifts, hash_file, s.source_dir, files, i));
        let h = choose|h: Option<ContentHash>|
            #![trigger hashed(hash_file, files[i].0, h)]
            {
                &&& hashed(hash_file, files[i].0, h)
                &&& probed(
                    trace[i],
                    trace[i + 1],
                    s.source_dir,
                    files[i],
                    hash_bytes(h),
                    Ok(drifts[i]),
                )
            };
        lemma_trace_used(trace, drifts, hash_file, s.source_dir, files, n, 0, i);
        lemma_trace_used(trace, drifts, hash_file, s.source_dir, files, n, i + 1, n);
        lemma_used(before, b, trace[i]);
        lemma_probe_tells(
            before,
            trace[i],
            trace[i + 1],
            after,
            hash_file,
            s.source_dir,
            files[i],
            h,
            d,
        );
        lemma_probed_with(all, s.dump, all.len() as int, i);
        let j = choose|j: int| 0 <= j < all.len() && all[j] == files[i].0;
        assert(same_path(all[j], d.target@));
        assert(has_path(all, d.target@));
    }
}

/// What a first part of a run got stands at the front of what all of it got.
proof fn lemma_prefix_added<R: CommandRunner>(a: R, b: R, c: R)
    requires
        went_on(a, b),
        went_on(b, c),
    ensures
        added(a.replies(), b.replies()).len() <= added(a.replies(), c.replies()).len(),
        forall|i: int|
            0 <= i < added(a.replies(), b.replies()).len() ==> #[trigger] added(
                a.replies(),
                b.replies(),
            )[i] == added(a.replies(), c.replies())[i],
{
    let (x, y, z) = (a.replies(), b.replies(), c.replies());
    assert(y =~= z.subrange(0, y.len() as int));
    assert forall|i: int| 0 <= i < added(x, y).len() implies #[trigger] added(x, y)[i] == added(
        x,
        z,
    )[i] by {
        assert(y[x.len() + i] == z.subrange(0, y.len() as int)[x.len() + i]);
    }
}

proof fn lemma_reported(drifts: Seq<Option<FileDrift>>)
    requires
        forall|i: int|
            0 <= i < drifts.len() ==> (#[trigger] drifts[i] matches Some(d) ==> d.class
                != DriftClass::InSync && d.class == class_of(d.probe)),
    ensures
        forall|k: int|
            0 <= k < reported(drifts).len() ==> {
                let d = #[trigger] reported(drifts)[k];
                d.class != DriftClass::InSync && d.class == class_of(d.probe)
            },
    decreases drifts.len(),
{
    if drifts.len() > 0 {
        let front = drifts.drop_last();
        assert forall|i: int| 0 <= i < front.len() implies (#[trigger] front[i] matches Some(d)
            ==> d.class != DriftClass::InSync && d.class == class_of(d.probe)) by {
            assert(front[i] == drifts[i]);
        }
        lemma_reported(front);
        assert(drifts[drifts.len() - 1] == drifts.last());
    }
}

impl<C: CommandRunner, G: CommandRunner> DriftScanner<C, G> {
    pub fn new(chezmoi: ChezmoiClient<C>, git: GitClient<G>, remote_ref: String) -> (r: Self)
        ensures
            r.chezmoi == chezmoi,
            r.git == git,
            r.remote_ref == remote_ref,
    {
        DriftScanner { chezmoi, git, remote_ref }
    }

    /// Finds what a scan starts from.
    pub fn start(&mut self) -> (r: Result<ScanStart, ScanError>)
        ensures
            started(*old(self), *final(self), r),
    {
        let ghost c0 = self.chezmoi;
        proof {
            lemma_no_chezmoi_calls(c0);
        }
        let first = self.chezmoi.source_dir();
        let ghost c1 = self.chezmoi;
        proof {
            lemma_chezmoi_call(c0, c0, c1, seq![], seq!["source-path"@]);
            assert(start_args().take(1) =~= seq![].push(seq!["source-path"@]));
        }
        let source_dir = match first {
            Ok(s) => s,
            Err(e) => {
                return Err(ScanError::Chezmoi(e));
            },
        };
        let second = self.chezmoi.state_dump();
        let ghost c2 = self.chezmoi;
        proof {
            lemma_chezmoi_call(
                c0,
                c1,
                c2,
                start_args().take(1),
                seq!["state"@, "dump"@, "--format=json"@],
            );
            assert(start_args().take(2) =~= start_args().take(1).push(start_args()[1]));
        }
        let dump = match second {
            Ok(d) => d,
            Err(e) => {
                return Err(ScanError::Chezmoi(e));
            },
        };
        let third = self.chezmoi.managed();
        let ghost c3 = self.chezmoi;
        proof {
            lemma_chezmoi_call(
                c0,
                c2,
                c3,
                start_args().take(2),
                seq!["managed"@, "--path-style=absolute"@],
            );
            assert(start_args().take(3) =~= start_args().take(2).push(start_args()[2]));
        }
        let managed = match third {
            Ok(m) => m,
            Err(e) => {
                return Err(ScanError::Chezmoi(e));
            },
        };
        let files = watched_files(&dump, &managed);
        Ok(ScanStart { source_dir, dump, managed, files })
    }

    /// What has become of one file, whose content has the given hash. A file that is in sync is
    /// not reported.
    pub fn probe_file(
        &mut self,
        source_dir: &str,
        target: &str,
        last_written: Option<ContentHash>,
        destination: Option<ContentHash>,
    ) -> (r: Result<Option<FileDrift>, ScanError>)
        ensures
            probed(
                *old(self),
                *final(self),
                source_dir@,
                (target@, hash_bytes(last_written)),
                hash_bytes(destination),
                r,
            ),
    {
        let ghost c0 = self.chezmoi;
        let ghost g0 = self.git;
        proof {
            lemma_no_chezmoi_calls(c0);
            lemma_no_git_calls(g0);
        }
        let cat = self.chezmoi.cat(target);
        let ghost c1 = self.chezmoi;
        let ghost cat_args = seq!["cat"@, target@];
        proof {
            lemma_chezmoi_call(c0, c0, c1, seq![], cat_args);
            assert(seq![].push(cat_args) =~= seq![cat_args]);
        }
        let rendered = match cat {
            Ok(bytes) => Ok(Some(ContentHash::of(bytes.as_slice()))),
            Err(ChezmoiError::Eval(f)) => Err(f),
            Err(other) => {
                return Err(ScanError::Chezmoi(other));
            },
        };
        let found = self.chezmoi.source_path(target);
        let ghost c2 = self.chezmoi;
        let ghost path_args = seq!["source-path"@, target@];
        proof {
            lemma_chezmoi_call(c0, c1, c2, seq![cat_args], path_args);
            assert(seq![cat_args].push(path_args) =~= seq![cat_args, path_args]);
        }
        let source_rel = match found {
            Ok(abs) => strip_base(abs.as_str(), source_dir),
            Err(_) => None,
        };
        let git = match &source_rel {
            None => GitSignals { local_ahead: false, remote_ahead: false },
            Some(rel) => {
                let mut range = self.remote_ref.clone();
                range.append("..HEAD");
                let local = self.git.commits_touching(range.as_str(), rel.as_str());
                let ghost g1 = self.git;
                let ghost first = touching_args(self.remote_ref@ + "..HEAD"@, rel@);
                proof {
                    lemma_git_call(g0, g0, g1, seq![], first);
                    assert(seq![].push(first) =~= seq![first]);
                }
                let local = match local {
                    Ok(n) => n,
                    Err(e) => {
                        return Err(ScanError::Git(e));
                    },
                };
                let mut range = "HEAD..".to_owned();
                range.append(self.remote_ref.as_str());
                let remote = self.git.commits_touching(range.as_str(), rel.as_str());
                let ghost g2 = self.git;
                let ghost second = touching_args("HEAD.."@ + self.remote_ref@, rel@);
                proof {
                    lemma_git_call(g0, g1, g2, seq![first], second);
                    assert(seq![first].push(second) =~= seq![first, second]);
                }
                let remote = match remote {
                    Ok(n) => n,
                    Err(e) => {
                        return Err(ScanError::Git(e));
                    },
                };
                GitSignals { local_ahead: local > 0, remote_ahead: remote > 0 }
            },
        };
        let probe = StateProbe { destination, rendered, last_written, git };
        let class = classify(&probe);
        if class == DriftClass::InSync {
            proof {
                let said = added(c0.runner.replies(), self.chezmoi.runner.replies());
                let counted = added(g0.runner.replies(), self.git.runner.replies());
                let rel = source_rel_of(said[1], source_dir@);
                assert(probe_is(
                    probe,
                    hash_bytes(destination),
                    rendered_of(said[0])->Ok_0,
                    hash_bytes(last_written),
                    signals_of(rel, counted)->Ok_0,
                ));
                assert(shows_sync(
                    hash_bytes(destination),
                    rendered_of(said[0])->Ok_0,
                    hash_bytes(last_written),
                    signals_of(rel, counted)->Ok_0,
                ));
            }
            return Ok(None);
        }
        Ok(Some(FileDrift { target: target.to_owned(), source_rel, class, probe }))
    }

    /// Looks for candidates, given the hashes of the managed files, and lists what to probe.
    #[verifier::spinoff_prover]
    #[verifier::rlimit(30)]
    pub fn find_candidates(
        &mut self,
        start: &ScanStart,
        hashes: &Vec<Option<ContentHash>>,
    ) -> (r: Result<Found, ScanError>)
        requires
            hashes@.len() == start.files@.len(),
        ensures
            searched(*old(self), *final(self), start@, hash_views(hashes@), r),
    {
        let ghost c0 = self.chezmoi;
        let ghost g0 = self.git;
        proof {
            lemma_no_chezmoi_calls(c0);
            lemma_no_git_calls(g0);
        }
        let mut candidates = disk_candidates(&start.files, hashes);
        let ghost disk = strings(candidates@);
        let first = self.git.changed_files("HEAD", self.remote_ref.as_str());
        let ghost g1 = self.git;
        let ghost diff = seq!["diff"@, "--name-only"@, "HEAD"@ + ".."@ + self.remote_ref@];
        proof {
            lemma_git_call(g0, g0, g1, seq![], diff);
            assert(seq![].push(diff) =~= seq![diff]);
        }
        let remote = match first {
            Ok(v) => v,
            Err(e) => {
                return Err(ScanError::Git(e));
            },
        };
        let second = self.git.dirty_files();
        let ghost g2 = self.git;
        let ghost status = seq!["status"@, "--porcelain"@];
        proof {
            lemma_git_call(g0, g1, g2, seq![diff], status);
            assert(seq![diff].push(status) =~= seq![diff, status]);
        }
        let dirty = match second {
            Ok(v) => v,
            Err(e) => {
                return Err(ScanError::Git(e));
            },
        };
        let mut sources: Vec<String> = Vec::new();
        assert(strings(sources@) =~= seq![]);
        add_paths(&mut sources, &remote);
        add_paths(&mut sources, &dirty);
        let ghost all = strings(sources@);
        let mut i: usize = 0;
        assert(target_args(start.source_dir@, all, 0) =~= seq![]);
        while i < sources.len()
            invariant
                i <= sources@.len(),
                all == strings(sources@),
                self.git == g2,
                self.remote_ref == old(self).remote_ref,
                chezmoi_calls(
                    c0,
                    self.chezmoi,
                    target_args(start.source_dir@, all, i as int),
                ),
                strings(candidates@) == with_targets(
                    disk,
                    strings(start.managed@),
                    added(c0.runner.replies(), self.chezmoi.runner.replies()),
                    i as int,
                ),
            decreases sources@.len() - i,
        {
            let ghost c1 = self.chezmoi;
            let ghost had = added(c0.runner.replies(), c1.runner.replies());
            let abs = join(start.source_dir.as_str(), sources[i].as_str());
            let one: Vec<String> = vec![abs];
            let answer = self.chezmoi.target_paths(&one);
            proof {
                let args = seq!["target-path"@, joined(start.source_dir@, all[i as int])];
                assert(seq!["target-path"@] + strings(one@) =~= args);
                let before = target_args(start.source_dir@, all, i as int);
                lemma_chezmoi_call(c0, c1, self.chezmoi, before, args);
                assert(target_args(start.source_dir@, all, i + 1) =~= before.push(args));
                let now = had.push(self.chezmoi.answer());
                assert(now.take(had.len() as int) =~= had);
                lemma_with_targets_prefix(disk, strings(start.managed@), had, now, i as int);
            }
            match answer {
                Ok(targets) => {
                    assert(strings(targets@).len() == targets@.len());
                    add_managed(&mut candidates, &start.managed, &targets);
                },
                Err(_) => {},
            }
            i = i + 1;
        }
        let ghost c1 = self.chezmoi;
        let ghost had = added(c0.runner.replies(), c1.runner.replies());
        let ghost n = all.len() as int;
        let answer = self.chezmoi.status();
        proof {
            let before = target_args(start.source_dir@, all, n);
            lemma_chezmoi_call(
                c0,
                c1,
                self.chezmoi,
                before,
                seq!["status"@, "--path-style=absolute"@],
            );
            let now = had.push(self.chezmoi.answer());
            assert(now.take(had.len() as int) =~= had);
            lemma_with_targets_prefix(disk, strings(start.managed@), had, now, n);
            assert(had.len() == n);
            assert(now[n] == self.chezmoi.answer());
        }
        let degraded = match answer {
            Ok(entries) => {
                let paths = paths_of(&entries);
                assert(status_paths(status_views(entries@)).len() == entries@.len());
                add_managed(&mut candidates, &start.managed, &paths);
                None
            },
            Err(ChezmoiError::Eval(f)) => Some(f),
            Err(other) => {
                return Err(ScanError::Chezmoi(other));
            },
        };
        let targets = probe_list(&candidates, &start.dump);
        assert(strings(candidates@).len() == candidates@.len());
        Ok(Found { targets, degraded })
    }

    /// Scans for drift. `hash_file` reads a file and gives the hash of its content, or none
    /// where there is no such file. Something that cannot be evaluated fails the scan only
    /// before it has started.
    pub fn scan<F: Fn(String) -> Result<Option<ContentHash>, String>>(
        &mut self,
        hash_file: &F,
    ) -> (r: Result<ScanReport, ScanError>)
        requires
            forall|p: String| hash_file.requires((p,)),
        ensures
            match r {
                Ok(report) => scanned(*old(self), *final(self), *hash_file, report),
                Err(e) => {
                    &&& scan_failed(*old(self), *final(self), *hash_file, e)
                    &&& (e@ matches ScanFailure::Chezmoi(failure) && failure is Eval) ==> started(
                        *old(self),
                        *final(self),
                        Err(e),
                    )
                },
            },
    {
        let start = match self.start() {
            Ok(s) => s,
            Err(e) => {
                return Err(e);
            },
        };
        let ghost a = *self;
        let mut hashes: Vec<Option<ContentHash>> = Vec::new();
        let mut i: usize = 0;
        while i < start.files.len()
            invariant
                forall|p: String| hash_file.requires((p,)),
                *self == a,
                started(*old(self), a, Ok(start)),
                i <= start.files@.len(),
                hashes@.len() == i,
                forall|k: int|
                    0 <= k < i ==> hashed(*hash_file, start@.files[k].0, #[trigger] hashes@[k]),
            decreases start.files@.len() - i,
        {
            let path = start.files[i].0.clone();
            let ghost p = path;
            assert(start@.files[i as int].0 == p@);
            match hash_file(path) {
                Ok(h) => {
                    assert(hashed(*hash_file, p@, h));
                    hashes.push(h);
                },
                Err(detail) => {
                    let ghost why = detail;
                    assert(hash_failed(*hash_file, start@.files[i as int].0, why));
                    return Err(ScanError::Io(detail));
                },
            }
            i = i + 1;
        }
        assert(all_hashed(*hash_file, start@, hashes@));
        let found = match self.find_candidates(&start, &hashes) {
            Ok(f) => f,
            Err(e) => {
                assert(searched(a, *self, start@, hash_views(hashes@), Err(e)));
                return Err(e);
            },
        };
        let ghost b = *self;
        let ghost files = file_views(found.targets@);
        assert(searched(a, b, start@, hash_views(hashes@), Ok(found)));
        let mut drifted: Vec<FileDrift> = Vec::new();
        let ghost mut trace = seq![b];
        let ghost mut drifts: Seq<Option<FileDrift>> = seq![];
        let mut k: usize = 0;
        while k < found.targets.len()
            invariant
                forall|p: String| hash_file.requires((p,)),
                k <= found.targets@.len(),
                started(*old(self), a, Ok(start)),
                all_hashed(*hash_file, start@, hashes@),
                searched(a, b, start@, hash_views(hashes@), Ok(found)),
                files == file_views(found.targets@),
                probe_run(trace, drifts, *hash_file, start@.source_dir, files, k as int),
                trace[0] == b,
                trace.last() == *self,
                drifted@ == reported(drifts),
            decreases found.targets@.len() - k,
        {
            let path = found.targets[k].0.clone();
            let last = found.targets[k].1;
            let ghost p = path;
            assert(files[k as int] == (p@, hash_bytes(last)));
            assert(files.len() == found.targets@.len());
            let destination = match hash_file(path) {
                Ok(h) => h,
                Err(detail) => {
                    let ghost why = detail;
                    assert(hash_failed(*hash_file, files[k as int].0, why));
                    assert(stopped_probing(
                        b,
                        *self,
                        *hash_file,
                        start@.source_dir,
                        files,
                        ScanError::Io(why),
                    ));
                    return Err(ScanError::Io(detail));
                },
            };
            assert(hashed(*hash_file, p@, destination));
            let drift = match self.probe_file(
                start.source_dir.as_str(),
                found.targets[k].0.as_str(),
                last,
                destination,
            ) {
                Ok(d) => d,
                Err(e) => {
                    assert(stopped_probing(
                        b,
                        *self,
                        *hash_file,
                        start@.source_dir,
                        files,
                        e,
                    ));
                    return Err(e);
                },
            };
            proof {
                lemma_probe_run(
                    trace,
                    drifts,
                    *hash_file,
                    start@.source_dir,
                    files,
                    k as int,
                    *self,
                    destination,
                    drift,
                );
                trace = trace.push(*self);
                drifts = drifts.push(drift);
            }
            match drift {
                Some(d) => {
                    drifted.push(d);
                },
                None => {},
            }
            k = k + 1;
        }
        assert(files.len() == k);
        assert(all_probed(b, *self, *hash_file, start@.source_dir, files, drifted@));
        let total: usize = start.files.len();
        let in_sync_count: usize = if total >= drifted.len() {
            total - drifted.len()
        } else {
            0
        };
        let ghost whole = found;
        let report = ScanReport { drifted, in_sync_count, degraded: found.degraded };
        assert(searched(a, b, start@, hash_views(hashes@), Ok(whole)));
        Ok(report)
    }
}

} // verus!
