//! Updates: which release is news, and which bundle may be put in place.
//!
//! A bundle is staged only if its signature holds and is that of the team that signed the
//! program that runs. A program that was not built for release has no team, and takes none.

use vstd::prelude::*;
use vstd::utf8::*;

use crate::cmd::{added, answered, lemma_one_more_answer, optional, CommandRequest, CommandRunner};
use crate::cmd::{Duration, Reply, Request};
use crate::json::{json_document, member, parse_json, text_member, Json};
use crate::merge::{bare_lines, lines};
use crate::paths::{components, components_of, extension, extension_of, first_components, joined};
use crate::paths::{is_plain_name, law_a_name_is_one_part, law_extensions_stand_behind_the_last_dot};
use crate::paths::{law_files_are_found_in_their_directory, law_joined_paths_have_both_parts};
use crate::paths::{law_parts_of_paths_have_their_components, path_upto, same_path};
use crate::text::{
    lossy, parse_number, parsed, parts, same, split_parts, starts_with_text, string_of, strings,
    strip_prefix, trim, trim_text,
};

verus! {

/// Where the latest release is told.
pub const RELEASES_LATEST_URL: &'static str =
    "https://api.github.com/repos/RemiKalbe/tomte/releases/latest";

/// A release that is newer.
#[derive(Debug, PartialEq, Eq)]
pub struct AvailableUpdate {
    pub version: String,
    pub zip_url: String,
    /// What is new in it.
    pub notes: Option<String>,
}

/// A release that is newer, as the model has it.
pub struct Available {
    pub version: Seq<char>,
    pub zip_url: Seq<char>,
    pub notes: Option<Seq<char>>,
}

impl View for AvailableUpdate {
    type V = Available;

    open spec fn view(&self) -> Available {
        Available {
            version: self.version@,
            zip_url: self.zip_url@,
            notes: optional(self.notes),
        }
    }
}

/// A bundle that was downloaded and verified, and waits for a restart.
#[derive(Debug, PartialEq, Eq)]
pub struct StagedUpdate {
    pub version: String,
    pub staged: String,
    pub notes: Option<String>,
}

/// Why there is no update.
#[derive(Debug)]
pub enum UpdateError {
    Check(String),
    Download(String),
    Verify(String),
}

/// Why there is no update, as the model has it.
pub enum Refusal {
    Check { words: Seq<char> },
    Download { words: Seq<char> },
    Verify { words: Seq<char> },
}

impl View for UpdateError {
    type V = Refusal;

    open spec fn view(&self) -> Refusal {
        match *self {
            UpdateError::Check(s) => Refusal::Check { words: s@ },
            UpdateError::Download(s) => Refusal::Download { words: s@ },
            UpdateError::Verify(s) => Refusal::Verify { words: s@ },
        }
    }
}

impl UpdateError {
    /// The error in words.
    pub fn message(&self) -> (r: String)
        ensures
            r@ == (match self@ {
                Refusal::Check { words } => words,
                Refusal::Download { words } => "download failed: "@ + words,
                Refusal::Verify { words } => "verification failed: "@ + words,
            }),
    {
        match self {
            UpdateError::Check(s) => s.clone(),
            UpdateError::Download(s) => words("download failed: ", s.as_str()),
            UpdateError::Verify(s) => words("verification failed: ", s.as_str()),
        }
    }
}

fn words(front: &str, back: &str) -> (r: String)
    ensures
        r@ == front@ + back@,
{
    let mut s = front.to_owned();
    s.append(back);
    s
}

// ---------------------------------------------------------------------------
// Versions

/// A version without the letter in front.
pub open spec fn bare_version(s: Seq<char>) -> Seq<char> {
    if s.len() > 0 && s[0] == 'v' {
        s.drop_first()
    } else {
        s
    }
}

fn without_v(s: &str) -> (r: String)
    ensures
        r@ == bare_version(s@),
{
    let v = crate::text::chars_of(s);
    let from: usize = if v.len() > 0 && v[0] == 'v' {
        1
    } else {
        0
    };
    let r = string_of(v.as_slice(), from, v.len());
    assert(r@ =~= bare_version(s@));
    r
}

/// The three numbers of a version.
pub open spec fn semver_of(s: Seq<char>) -> Option<(nat, nat, nat)> {
    let p = parts(bare_version(s), '.');
    if p.len() != 3 {
        None
    } else {
        match (
            parsed(p[0], u64::MAX as nat),
            parsed(p[1], u64::MAX as nat),
            parsed(p[2], u64::MAX as nat),
        ) {
            (Ok(a), Ok(b), Ok(c)) => Some((a, b, c)),
            _ => None,
        }
    }
}

/// The three numbers of a version, which may have a `v` in front.
pub fn parse_semver(s: &str) -> (r: Option<[u64; 3]>)
    ensures
        match r {
            Some(v) => semver_of(s@) == Some((v[0] as nat, v[1] as nat, v[2] as nat)),
            None => semver_of(s@) is None,
        },
{
    let bare = without_v(s);
    let p = split_parts(bare.as_str(), '.');
    let ghost ps = strings(p@);
    assert(ps.len() == p@.len());
    if p.len() != 3 {
        return None;
    }
    assert(ps[0] == p@[0]@ && ps[1] == p@[1]@ && ps[2] == p@[2]@);
    match (
        parse_number(p[0].as_str(), u64::MAX),
        parse_number(p[1].as_str(), u64::MAX),
        parse_number(p[2].as_str(), u64::MAX),
    ) {
        (Ok(a), Ok(b), Ok(c)) => Some([a, b, c]),
        _ => None,
    }
}

/// The one version comes after the other.
pub open spec fn newer(a: (nat, nat, nat), b: (nat, nat, nat)) -> bool {
    a.0 > b.0 || a.0 == b.0 && (a.1 > b.1 || a.1 == b.1 && a.2 > b.2)
}

/// Of two versions that differ, one comes after the other, and the versions are in a row.
pub proof fn law_versions_are_ordered(
    a: (nat, nat, nat),
    b: (nat, nat, nat),
    c: (nat, nat, nat),
)
    ensures
        !newer(a, a),
        newer(a, b) && newer(b, c) ==> newer(a, c),
        newer(a, b) || newer(b, a) || a == b,
        !(newer(a, b) && newer(b, a)),
{
}

fn is_newer(a: [u64; 3], b: [u64; 3]) -> (r: bool)
    ensures
        r == newer(
            (a[0] as nat, a[1] as nat, a[2] as nat),
            (b[0] as nat, b[1] as nat, b[2] as nat),
        ),
{
    a[0] > b[0] || a[0] == b[0] && (a[1] > b[1] || a[1] == b[1] && a[2] > b[2])
}

// ---------------------------------------------------------------------------
// Releases

/// The first asset of that name from the `k`-th on.
pub open spec fn asset(list: Seq<Json>, name: Seq<char>, k: int) -> Option<Json>
    decreases list.len() - k,
{
    if k < 0 || k >= list.len() {
        None
    } else if text_member(list[k], "name"@) == Some(name) {
        Some(list[k])
    } else {
        asset(list, name, k + 1)
    }
}

/// Where the asset of that name is.
pub open spec fn asset_url(release: Json, name: Seq<char>) -> Option<Seq<char>> {
    match member(release, "assets"@) {
        Some(Json::List(list)) => match asset(list@, name, 0) {
            Some(a) => text_member(a, "browser_download_url"@),
            None => None,
        },
        _ => None,
    }
}

fn find_asset(release: &Json, name: &str) -> (r: Option<String>)
    ensures
        optional(r) == asset_url(*release, name@),
{
    let list = match release.get("assets") {
        Some(Json::List(list)) => list,
        _ => {
            return None;
        },
    };
    let mut k: usize = 0;
    while k < list.len()
        invariant
            k <= list@.len(),
            asset(list@, name@, 0) == asset(list@, name@, k as int),
            member(*release, "assets"@) == Some(Json::List(*list)),
        decreases list@.len() - k,
    {
        let named: bool = match list[k].get_text("name") {
            Some(n) => same(n.as_str(), name),
            None => false,
        };
        if named {
            return match list[k].get_text("browser_download_url") {
                Some(u) => Some(u.clone()),
                None => None,
            };
        }
        k = k + 1;
    }
    None
}

/// What is new in a release, where it says so.
pub open spec fn notes_of(release: Json) -> Option<Seq<char>> {
    match text_member(release, "body"@) {
        Some(b) => if trim(b).len() == 0 {
            None
        } else {
            Some(trim(b))
        },
        None => None,
    }
}

/// The update that a release is for the running version: it is strictly newer, and has an
/// archive for the updater. A release without one is none.
pub open spec fn update_of(release: Json, current: Seq<char>) -> Result<
    Option<Available>,
    Seq<char>,
> {
    match text_member(release, "tag_name"@) {
        None => Err("release JSON has no tag_name"@),
        Some(tag) => match (semver_of(tag), semver_of(current)) {
            (Some(theirs), Some(ours)) => if !newer(theirs, ours) {
                Ok(None)
            } else {
                let version = bare_version(tag);
                match asset_url(release, "Tomte-"@ + version + ".zip"@) {
                    Some(zip_url) => Ok(
                        Some(Available { version, zip_url, notes: notes_of(release) }),
                    ),
                    None => Ok(None),
                }
            },
            _ => Err("unparseable versions: tag "@ + tag + ", current "@ + current),
        },
    }
}

/// The result of looking for an update.
pub open spec fn found(r: Result<Option<AvailableUpdate>, String>) -> Result<
    Option<Available>,
    Seq<char>,
> {
    match r {
        Ok(Some(u)) => Ok(Some(u@)),
        Ok(None) => Ok(None),
        Err(e) => Err(e@),
    }
}

/// The update that a release is for the running version.
pub fn update_in(release: &Json, current: &str) -> (r: Result<Option<AvailableUpdate>, String>)
    ensures
        found(r) == update_of(*release, current@),
{
    let tag = match release.get_text("tag_name") {
        Some(t) => t.as_str(),
        None => {
            return Err("release JSON has no tag_name".to_owned());
        },
    };
    let (theirs, ours) = match (parse_semver(tag), parse_semver(current)) {
        (Some(t), Some(o)) => (t, o),
        _ => {
            let mut s = words("unparseable versions: tag ", tag);
            s.append(", current ");
            s.append(current);
            return Err(s);
        },
    };
    if !is_newer(theirs, ours) {
        return Ok(None);
    }
    let version = without_v(tag);
    let mut want = words("Tomte-", version.as_str());
    want.append(".zip");
    let notes = match release.get_text("body") {
        Some(b) => {
            let t = trim_text(b.as_str());
            if crate::text::chars_of(t.as_str()).len() == 0 {
                None
            } else {
                Some(t)
            }
        },
        None => None,
    };
    match find_asset(release, want.as_str()) {
        Some(zip_url) => Ok(Some(AvailableUpdate { version, zip_url, notes })),
        None => Ok(None),
    }
}

/// The update that a release, as text, is for the running version.
pub fn pick_update(latest_json: &str, current: &str) -> (r: Result<Option<AvailableUpdate>, String>)
    ensures
        found(r) == (match json_document(encode_utf8(latest_json@)) {
            Ok(release) => update_of(release, current@),
            Err(e) => Err("bad release JSON: "@ + e),
        }),
{
    match parse_json(latest_json.as_bytes()) {
        Ok(release) => update_in(&release, current),
        Err(e) => Err(words("bad release JSON: ", e.as_str())),
    }
}

/// No update is older than what runs, or as old.
pub proof fn law_updates_are_newer(release: Json, current: Seq<char>)
    requires
        update_of(release, current) matches Ok(Some(_)),
    ensures
        ({
            let u = update_of(release, current)->Ok_0->Some_0;
            &&& semver_of(current) is Some
            &&& text_member(release, "tag_name"@) matches Some(tag)
            &&& u.version == bare_version(tag)
            &&& newer(semver_of(tag)->Some_0, semver_of(current)->Some_0)
        }),
{
}

// ---------------------------------------------------------------------------
// Signatures

/// The first line with that prefix, without it.
pub open spec fn first_with(ls: Seq<Seq<char>>, prefix: Seq<char>, k: int) -> Option<Seq<char>>
    decreases ls.len() - k,
{
    if k < 0 || k >= ls.len() {
        None
    } else if starts_with_text(ls[k], prefix) {
        Some(ls[k].skip(prefix.len() as int))
    } else {
        first_with(ls, prefix, k + 1)
    }
}

/// The team that the details of a signature name.
pub open spec fn team_of(details: Seq<char>) -> Option<Seq<char>> {
    match first_with(bare_lines(details), "TeamIdentifier="@, 0) {
        Some(t) => Some(trim(t)),
        None => None,
    }
}

/// The team that the details of a signature name.
pub fn team_identifier(codesign_dvv: &str) -> (r: Option<String>)
    ensures
        optional(r) == team_of(codesign_dvv@),
{
    let ls = lines(codesign_dvv);
    let ghost all = bare_lines(codesign_dvv@);
    let mut k: usize = 0;
    assert(strings(ls@).len() == ls@.len());
    while k < ls.len()
        invariant
            strings(ls@) == all,
            all == bare_lines(codesign_dvv@),
            all.len() == ls@.len(),
            k <= ls@.len(),
            first_with(all, "TeamIdentifier="@, 0) == first_with(
                all,
                "TeamIdentifier="@,
                k as int,
            ),
        decreases ls@.len() - k,
    {
        assert(all[k as int] == ls@[k as int]@);
        match strip_prefix(ls[k].as_str(), "TeamIdentifier=") {
            Some(t) => {
                return Some(trim_text(t.as_str()));
            },
            None => {},
        }
        k = k + 1;
    }
    None
}

/// The bundle that a program runs from: the directory three above it, where that is one.
pub open spec fn bundle_of(exe: Seq<char>) -> Option<Seq<char>> {
    let c = components(exe);
    if c.len() < 4 {
        None
    } else {
        let app = path_upto(exe, c.len() - 3);
        if extension(app) == Some("app"@) {
            Some(app)
        } else {
            None
        }
    }
}

/// The bundle that a program runs from, if it does.
pub fn running_bundle(exe: &str) -> (r: Option<String>)
    ensures
        optional(r) == bundle_of(exe@),
{
    let c = components_of(exe);
    assert(strings(c@).len() == c@.len());
    if c.len() < 4 {
        return None;
    }
    let app = first_components(exe, c.len() - 3);
    match extension_of(app.as_str()) {
        Some(e) => if same(e.as_str(), "app") {
            Some(app)
        } else {
            None
        },
        None => None,
    }
}

// ---------------------------------------------------------------------------
// Commands

/// What looks for updates and stages them.
pub struct Updater<R: CommandRunner> {
    pub runner: R,
    /// Where bundles are staged.
    pub stage_dir: String,
}

/// A command without anything special.
pub open spec fn plain(program: Seq<char>, args: Seq<Seq<char>>, secs: int) -> Request {
    Request {
        program,
        args,
        env: seq![],
        cwd: None,
        stdin: None,
        timeout: Duration::seconds(secs),
    }
}

fn command(program: &str, args: &[&str], secs: u64) -> (r: CommandRequest)
    requires
        secs <= 1000,
    ensures
        r@ == plain(program@, crate::merge::views(args@), secs as int),
{
    let r = CommandRequest::new(program).args(args).timeout(Duration::from_secs(secs));
    assert(r@.args =~= crate::merge::views(args@));
    r
}

/// The last line of some output.
pub open spec fn last_line(text: Seq<char>) -> Seq<char> {
    let ls = bare_lines(text);
    if ls.len() == 0 {
        "curl error"@
    } else {
        ls.last()
    }
}

fn last_line_of(text: &str) -> (r: String)
    ensures
        r@ == last_line(text@),
{
    let mut ls = lines(text);
    let ghost all = strings(ls@);
    assert(all.len() == ls@.len());
    match ls.pop() {
        Some(l) => {
            assert(all.last() == l@);
            l
        },
        None => "curl error".to_owned(),
    }
}

/// The command that asks for the latest release.
pub open spec fn check_request() -> Request {
    plain(
        "curl"@,
        seq![
            "-fsSL"@,
            "--max-time"@,
            "30"@,
            "-H"@,
            "Accept: application/vnd.github+json"@,
            RELEASES_LATEST_URL@,
        ],
        35,
    )
}

/// What the answer to it comes to.
pub open spec fn checked(reply: Reply, current: Seq<char>) -> Result<Option<Available>, Refusal> {
    match reply {
        Err(e) => Err(Refusal::Check { words: "curl: "@ + e.message_spec() }),
        Ok(out) => if out.exit_code != 0 {
            Err(Refusal::Check { words: "release check failed: "@ + last_line(lossy(out.stderr)) })
        } else {
            match json_document(encode_utf8(lossy(out.stdout))) {
                Ok(release) => match update_of(release, current) {
                    Ok(u) => Ok(u),
                    Err(e) => Err(Refusal::Check { words: e }),
                },
                Err(e) => Err(Refusal::Check { words: "bad release JSON: "@ + e }),
            }
        },
    }
}

/// The commands that stage an update: download, unpack, verify the signature, read it.
pub open spec fn stage_requests(stage_dir: Seq<char>, zip_url: Seq<char>) -> Seq<Request> {
    let zip = joined(stage_dir, "Tomte.zip"@);
    let unpacked = joined(stage_dir, "unpacked"@);
    let app = joined(unpacked, "Tomte.app"@);
    seq![
        plain("curl"@, seq!["-fSL"@, "--max-time"@, "300"@, "-o"@, zip, zip_url], 320),
        plain("ditto"@, seq!["-x"@, "-k"@, zip, unpacked], 120),
        plain("codesign"@, seq!["--verify"@, "--strict"@, "--deep"@, app], 60),
        plain("codesign"@, seq!["-dvv"@, app], 60),
    ]
}

/// What is wrong with the `k`-th answer to them.
pub open spec fn refused(k: int, reply: Reply, team: Seq<char>) -> Option<Refusal> {
    match reply {
        Err(e) => Some(
            if k == 0 {
                Refusal::Download { words: "curl: "@ + e.message_spec() }
            } else if k == 1 {
                Refusal::Download { words: "ditto: "@ + e.message_spec() }
            } else if k == 2 {
                Refusal::Verify { words: "codesign: "@ + e.message_spec() }
            } else {
                Refusal::Verify { words: "codesign -dvv: "@ + e.message_spec() }
            },
        ),
        Ok(out) => if k == 3 {
            match team_of(lossy(out.stderr)) {
                Some(t) => if t == team {
                    None
                } else {
                    Some(
                        Refusal::Verify {
                            words: "bundle signed by team "@ + t + ", expected "@ + team,
                        },
                    )
                },
                None => Some(Refusal::Verify { words: "no TeamIdentifier in signature"@ }),
            }
        } else if out.exit_code == 0 {
            None
        } else if k == 0 {
            Some(Refusal::Download { words: last_line(lossy(out.stderr)) })
        } else if k == 1 {
            Some(Refusal::Download { words: "unpack: "@ + lossy(out.stderr) })
        } else {
            Some(Refusal::Verify { words: "signature invalid: "@ + lossy(out.stderr) })
        },
    }
}

/// The staging came that far: all answers but perhaps the last are fine, and only if the last
/// one is too all four came. The result is what is wrong with it, or where the bundle is.
pub open spec fn stages(
    answers: Seq<Reply>,
    team: Seq<char>,
    app: Seq<char>,
    r: Result<Seq<char>, Refusal>,
) -> bool {
    &&& 1 <= answers.len() <= 4
    &&& forall|k: int|
        0 <= k < answers.len() - 1 ==> refused(k, #[trigger] answers[k], team) is None
    &&& match refused(answers.len() - 1, answers.last(), team) {
        Some(f) => r == Err::<Seq<char>, Refusal>(f),
        None => answers.len() == 4 && r == Ok::<Seq<char>, Refusal>(app),
    }
}

/// A bundle is staged only if it was downloaded and unpacked, its signature holds, and the team
/// that signed it is the one it has to be.
pub proof fn law_only_bundles_of_the_team_are_staged(
    answers: Seq<Reply>,
    team: Seq<char>,
    app: Seq<char>,
    r: Result<Seq<char>, Refusal>,
)
    requires
        stages(answers, team, app, r),
        r is Ok,
    ensures
        answers.len() == 4,
        forall|k: int|
            0 <= k < 3 ==> ((#[trigger] answers[k]) matches Ok(out) && out.exit_code == 0),
        answers[3] matches Ok(out) && team_of(lossy(out.stderr)) == Some(team),
{
    assert(answers.last() == answers[3]);
    assert forall|k: int| 0 <= k < 3 implies ((#[trigger] answers[k]) matches Ok(out)
        && out.exit_code == 0) by {
        assert(refused(k, answers[k], team) is None);
    }
}

impl<R: CommandRunner> Updater<R> {
    /// Asks for the latest release.
    pub fn check(&mut self, current: &str) -> (r: Result<Option<AvailableUpdate>, UpdateError>)
        ensures
            final(self).stage_dir == old(self).stage_dir,
            final(self).runner.sent() == old(self).runner.sent().push(check_request()),
            final(self).runner.replies() == old(self).runner.replies().push(
                final(self).runner.replies().last(),
            ),
            old(self).runner.answers(
                check_request(),
                final(self).runner.replies().last(),
                &final(self).runner,
            ),
            match r {
                Ok(Some(u)) => checked(final(self).runner.replies().last(), current@) == Ok::<
                    Option<Available>,
                    Refusal,
                >(Some(u@)),
                Ok(None) => checked(final(self).runner.replies().last(), current@) == Ok::<
                    Option<Available>,
                    Refusal,
                >(None),
                Err(e) => checked(final(self).runner.replies().last(), current@) == Err::<
                    Option<Available>,
                    Refusal,
                >(e@),
            },
    {
        let args = vec![
            "-fsSL",
            "--max-time",
            "30",
            "-H",
            "Accept: application/vnd.github+json",
            RELEASES_LATEST_URL,
        ];
        assert(crate::merge::views(args@) =~= check_request().args);
        let out = match self.runner.run(command("curl", args.as_slice(), 35)) {
            Ok(out) => out,
            Err(e) => {
                return Err(UpdateError::Check(words("curl: ", e.message().as_str())));
            },
        };
        if !out.success() {
            return Err(
                UpdateError::Check(
                    words(
                        "release check failed: ",
                        last_line_of(out.stderr_utf8().as_str()).as_str(),
                    ),
                ),
            );
        }
        match pick_update(out.stdout_utf8().as_str(), current) {
            Ok(u) => Ok(u),
            Err(e) => Err(UpdateError::Check(e)),
        }
    }

    /// Runs the `k`-th command of staging, and tells what is wrong with its answer.
    fn run_stage(
        &mut self,
        k: usize,
        req: CommandRequest,
        team: &str,
    ) -> (r: Option<UpdateError>)
        requires
            k < 4,
        ensures
            final(self).stage_dir == old(self).stage_dir,
            final(self).runner.sent() == old(self).runner.sent().push(req@),
            final(self).runner.replies() == old(self).runner.replies().push(
                final(self).runner.replies().last(),
            ),
            old(self).runner.answers(
                req@,
                final(self).runner.replies().last(),
                &final(self).runner,
            ),
            (match r {
                Some(e) => Some(e@),
                None => None,
            }) == refused(k as int, final(self).runner.replies().last(), team@),
    {
        let out = match self.runner.run(req) {
            Ok(out) => out,
            Err(e) => {
                let m = e.message();
                return Some(
                    if k == 0 {
                        UpdateError::Download(words("curl: ", m.as_str()))
                    } else if k == 1 {
                        UpdateError::Download(words("ditto: ", m.as_str()))
                    } else if k == 2 {
                        UpdateError::Verify(words("codesign: ", m.as_str()))
                    } else {
                        UpdateError::Verify(words("codesign -dvv: ", m.as_str()))
                    },
                );
            },
        };
        let said = out.stderr_utf8();
        if k == 3 {
            match team_identifier(said.as_str()) {
                Some(t) => {
                    if same(t.as_str(), team) {
                        None
                    } else {
                        let mut s = words("bundle signed by team ", t.as_str());
                        s.append(", expected ");
                        s.append(team);
                        Some(UpdateError::Verify(s))
                    }
                },
                None => Some(UpdateError::Verify("no TeamIdentifier in signature".to_owned())),
            }
        } else if out.success() {
            None
        } else if k == 0 {
            Some(UpdateError::Download(last_line_of(said.as_str())))
        } else if k == 1 {
            Some(UpdateError::Download(words("unpack: ", said.as_str())))
        } else {
            Some(UpdateError::Verify(words("signature invalid: ", said.as_str())))
        }
    }

    /// Downloads an update, unpacks it and verifies it; gives the bundle. `prepare` makes the
    /// directory for it anew. Without a team nothing is done at all.
    pub fn download_and_stage<F: Fn(String) -> Result<(), String>>(
        &mut self,
        update: &AvailableUpdate,
        team: Option<&str>,
        prepare: &F,
    ) -> (r: Result<String, UpdateError>)
        requires
            forall|p: String| prepare.requires((p,)),
        ensures
            final(self).stage_dir == old(self).stage_dir,
            match team {
                None => {
                    &&& r matches Err(UpdateError::Verify(s)) && s@
                        == "dev build (no baked Team ID) — updater disabled"@
                    &&& final(self).runner == old(self).runner
                },
                Some(t) => {
                    let before = old(self).runner.replies();
                    let answers = added(before, final(self).runner.replies());
                    let calls = stage_requests(old(self).stage_dir@, update.zip_url@);
                    let app = joined(
                        joined(old(self).stage_dir@, "unpacked"@),
                        "Tomte.app"@,
                    );
                    exists|made: Result<(), String>| #[trigger]
                        prepares(*prepare, old(self).stage_dir@, made) && match made {
                            Err(e) => {
                                &&& r matches Err(UpdateError::Download(s)) && s@
                                    == "stage dir: "@ + e@
                                &&& final(self).runner == old(self).runner
                            },
                            Ok(_) => {
                                &&& final(self).runner.sent() == old(self).runner.sent()
                                    + calls.take(answers.len() as int)
                                &&& final(self).runner.replies() == before + answers
                                &&& answered(
                                    old(self).runner,
                                    calls.take(answers.len() as int),
                                    answers,
                                    final(self).runner,
                                )
                                &&& stages(
                                    answers,
                                    t@,
                                    app,
                                    match r {
                                        Ok(p) => Ok(p@),
                                        Err(e) => Err(e@),
                                    },
                                )
                            },
                        }
                },
            },
    {
        let team = match team {
            Some(t) => t,
            None => {
                return Err(
                    UpdateError::Verify(
                        "dev build (no baked Team ID) — updater disabled".to_owned(),
                    ),
                );
            },
        };
        let dir = self.stage_dir.clone();
        let made = prepare(dir);
        assert(prepares(*prepare, old(self).stage_dir@, made)) by {
            assert(dir@ == old(self).stage_dir@ && prepare.ensures((dir,), made));
        }
        match made {
            Ok(_) => {},
            Err(e) => {
                return Err(UpdateError::Download(words("stage dir: ", e.as_str())));
            },
        }
        let ghost (s0, r0) = (self.runner.sent(), self.runner.replies());
        let ghost w0 = self.runner;
        let ghost calls = stage_requests(self.stage_dir@, update.zip_url@);
        let zip = crate::paths::join(self.stage_dir.as_str(), "Tomte.zip");
        let unpacked = crate::paths::join(self.stage_dir.as_str(), "unpacked");
        let app = crate::paths::join(unpacked.as_str(), "Tomte.app");
        let args = vec![
            "-fSL",
            "--max-time",
            "300",
            "-o",
            zip.as_str(),
            update.zip_url.as_str(),
        ];
        assert(crate::merge::views(args@) =~= calls[0].args);
        let refusal = self.run_stage(0, command("curl", args.as_slice(), 320), team);
        let ghost a0 = self.runner.replies().last();
        proof {
            assert(added(r0, self.runner.replies()) =~= seq![a0]);
            assert(calls.take(1) =~= seq![calls[0]]);
            assert(self.runner.sent() =~= s0 + calls.take(1));
            lemma_one_more_answer(w0, w0, self.runner, seq![], seq![], calls[0], a0);
            assert(seq![].push(calls[0]) =~= calls.take(1));
            assert(seq![].push(a0) =~= seq![a0]);
        }
        let ghost w1 = self.runner;
        match refusal {
            Some(e) => {
                return Err(e);
            },
            None => {},
        }
        let args = vec!["-x", "-k", zip.as_str(), unpacked.as_str()];
        assert(crate::merge::views(args@) =~= calls[1].args);
        let refusal = self.run_stage(1, command("ditto", args.as_slice(), 120), team);
        let ghost a1 = self.runner.replies().last();
        proof {
            assert(added(r0, self.runner.replies()) =~= seq![a0, a1]);
            assert(self.runner.sent() =~= s0 + calls.take(2));
            lemma_one_more_answer(w0, w1, self.runner, calls.take(1), seq![a0], calls[1], a1);
            assert(calls.take(1).push(calls[1]) =~= calls.take(2));
            assert(seq![a0].push(a1) =~= seq![a0, a1]);
        }
        let ghost w2 = self.runner;
        match refusal {
            Some(e) => {
                return Err(e);
            },
            None => {},
        }
        let args = vec!["--verify", "--strict", "--deep", app.as_str()];
        assert(crate::merge::views(args@) =~= calls[2].args);
        let refusal = self.run_stage(2, command("codesign", args.as_slice(), 60), team);
        let ghost a2 = self.runner.replies().last();
        proof {
            assert(added(r0, self.runner.replies()) =~= seq![a0, a1, a2]);
            assert(self.runner.sent() =~= s0 + calls.take(3));
            lemma_one_more_answer(w0, w2, self.runner, calls.take(2), seq![a0, a1], calls[2], a2);
            assert(calls.take(2).push(calls[2]) =~= calls.take(3));
            assert(seq![a0, a1].push(a2) =~= seq![a0, a1, a2]);
        }
        let ghost w3 = self.runner;
        match refusal {
            Some(e) => {
                return Err(e);
            },
            None => {},
        }
        let args = vec!["-dvv", app.as_str()];
        assert(crate::merge::views(args@) =~= calls[3].args);
        let refusal = self.run_stage(3, command("codesign", args.as_slice(), 60), team);
        let ghost a3 = self.runner.replies().last();
        proof {
            assert(added(r0, self.runner.replies()) =~= seq![a0, a1, a2, a3]);
            assert(self.runner.sent() =~= s0 + calls.take(4));
            let (reqs, replies) = (calls.take(3), seq![a0, a1, a2]);
            lemma_one_more_answer(w0, w3, self.runner, reqs, replies, calls[3], a3);
            assert(reqs.push(calls[3]) =~= calls.take(4));
            assert(replies.push(a3) =~= seq![a0, a1, a2, a3]);
        }
        match refusal {
            Some(e) => Err(e),
            None => Ok(app),
        }
    }
}

/// Making the directory anew may give this.
pub open spec fn prepares<F: Fn(String) -> Result<(), String>>(
    prepare: F,
    dir: Seq<char>,
    r: Result<(), String>,
) -> bool {
    exists|p: String| p@ == dir && #[trigger] prepare.ensures((p,), r)
}

// ---------------------------------------------------------------------------
// Putting a bundle in place

/// How often it is looked whether the program that is replaced has ended.
pub const EXIT_POLLS: u32 = 100;

/// What is done to put a staged bundle in the place of another.
#[derive(Debug, Clone, Copy, PartialEq, Eq, Structural)]
pub enum Swap {
    /// Wait for the program to end; so many looks were taken.
    Wait { looks: u32 },
    /// Move the old bundle aside.
    Retire,
    /// Move the staged bundle in its place.
    Install,
    /// Move the old bundle back.
    RollBack,
    /// Start the new bundle.
    Launch,
    /// End with this code.
    Exit { code: i32 },
}

/// What comes after a step. `fine` says of the wait that the program has ended, and of any
/// other step that it was done. Waiting ends in any case; a bundle that cannot be moved aside
/// ends the swap, and if the new one cannot be put in place the old one is moved back.
pub fn swap_step(step: Swap, fine: bool) -> (r: Swap)
    ensures
        r == (match step {
            Swap::Wait { looks } => if fine || looks >= EXIT_POLLS - 1 {
                Swap::Retire
            } else {
                Swap::Wait { looks: (looks + 1) as u32 }
            },
            Swap::Retire => if fine {
                Swap::Install
            } else {
                Swap::Exit { code: 1 }
            },
            Swap::Install => if fine {
                Swap::Launch
            } else {
                Swap::RollBack
            },
            Swap::RollBack => Swap::Exit { code: 1 },
            Swap::Launch => Swap::Exit { code: 0 },
            Swap::Exit { code } => Swap::Exit { code },
        }),
{
    match step {
        Swap::Wait { looks } => if fine || looks >= EXIT_POLLS - 1 {
            Swap::Retire
        } else {
            Swap::Wait { looks: looks + 1 }
        },
        Swap::Retire => if fine {
            Swap::Install
        } else {
            Swap::Exit { code: 1 }
        },
        Swap::Install => if fine {
            Swap::Launch
        } else {
            Swap::RollBack
        },
        Swap::RollBack => Swap::Exit { code: 1 },
        Swap::Launch => Swap::Exit { code: 0 },
        Swap::Exit { code } => Swap::Exit { code },
    }
}

// ---------------------------------------------------------------------------
// Laws of updates

/// Three numbers with dots between them.
pub open spec fn dotted(v: (nat, nat, nat)) -> Seq<char> {
    crate::text::decimal(v.0) + seq!['.'] + (crate::text::decimal(v.1) + seq!['.']
        + crate::text::decimal(v.2))
}

/// A version that is written as three numbers is read back, with or without a `v` in front; with
/// a fourth number behind them it is none.
pub proof fn law_written_versions_are_read_back(v: (nat, nat, nat), more: nat)
    requires
        v.0 <= u64::MAX,
        v.1 <= u64::MAX,
        v.2 <= u64::MAX,
    ensures
        semver_of(dotted(v)) == Some(v),
        semver_of(seq!['v'] + dotted(v)) == Some(v),
        semver_of(dotted(v) + seq!['.'] + crate::text::decimal(more)) is None,
{
    let (a, b, c) = (
        crate::text::decimal(v.0),
        crate::text::decimal(v.1),
        crate::text::decimal(v.2),
    );
    let d = crate::text::decimal(more);
    crate::text::lemma_digits_have_no(v.0, '.');
    crate::text::lemma_digits_have_no(v.1, '.');
    crate::text::lemma_digits_have_no(v.2, '.');
    crate::text::lemma_digits_have_no(more, '.');
    crate::text::lemma_digits_have_no(v.0, 'v');
    crate::text::lemma_digits_are_solid(v.0);
    crate::text::law_numbers_round_trip(v.0, u64::MAX as nat);
    crate::text::law_numbers_round_trip(v.1, u64::MAX as nat);
    crate::text::law_numbers_round_trip(v.2, u64::MAX as nat);
    let tail = b + seq!['.'] + c;
    crate::text::law_parts_are_told_apart(a, '.', tail);
    crate::text::law_parts_are_told_apart(b, '.', c);
    crate::text::law_parts_are_told_apart(c, '.', d);
    crate::text::law_parts_are_told_apart(d, '.', d);
    assert(a.contains(a[0]));
    assert(dotted(v)[0] == a[0]);
    let p = parts(dotted(v), '.');
    assert(p =~= seq![a, b, c]);
    let tagged = seq!['v'] + dotted(v);
    assert(tagged[0] == 'v');
    assert(tagged.drop_first() =~= dotted(v));
    let long = dotted(v) + seq!['.'] + d;
    let (end, mid) = (c + seq!['.'] + d, b + seq!['.'] + (c + seq!['.'] + d));
    crate::text::law_parts_are_told_apart(b, '.', end);
    crate::text::law_parts_are_told_apart(a, '.', mid);
    assert(long =~= a + seq!['.'] + mid);
    assert(long[0] == a[0]);
    assert(parts(long, '.') =~= seq![a, b, c, d]);
}

/// The first number counts before the second, and that before the third, whatever stands behind:
/// a version with a greater one in front is newer, and none is newer than itself.
pub proof fn law_the_first_greater_number_decides(a: nat, b: nat, c: nat, more: nat, x: nat, y: nat)
    requires
        more > 0,
    ensures
        newer((a + more, x, y), (a, b, c)),
        !newer((a, b, c), (a + more, x, y)),
        newer((a, b + more, y), (a, b, c)),
        !newer((a, b, c), (a, b + more, y)),
        newer((a, b, c + more), (a, b, c)),
        !newer((a, b, c), (a, b, c + more)),
        !newer((a, b, c), (a, b, c)),
{
}

proof fn lemma_asset_found(list: Seq<Json>, name: Seq<char>, k: int, from: int)
    requires
        0 <= from <= k < list.len(),
        text_member(list[k], "name"@) == Some(name),
        forall|j: int| from <= j < k ==> text_member(#[trigger] list[j], "name"@) != Some(name),
    ensures
        asset(list, name, from) == Some(list[k]),
    decreases k - from,
{
    if from < k {
        assert(text_member(list[from], "name"@) != Some(name));
        lemma_asset_found(list, name, k, from + 1);
    }
}

proof fn lemma_no_asset(list: Seq<Json>, name: Seq<char>, from: int)
    requires
        0 <= from,
        forall|j: int| from <= j < list.len() ==> text_member(#[trigger] list[j], "name"@) != Some(
            name,
        ),
    ensures
        asset(list, name, from) is None,
    decreases list.len() - from,
{
    if from < list.len() {
        assert(text_member(list[from], "name"@) != Some(name));
        lemma_no_asset(list, name, from + 1);
    }
}

/// A release that is newer than what runs and has the archive for its version is offered, with
/// the place of that archive and with what it says is new; one that is not newer, or has no
/// such archive, is not, and is no error.
pub proof fn law_newer_releases_are_offered(
    release: Json,
    current: Seq<char>,
    tag: Seq<char>,
    list: Vec<Json>,
    k: int,
)
    requires
        text_member(release, "tag_name"@) == Some(tag),
        semver_of(tag) is Some,
        semver_of(current) is Some,
        member(release, "assets"@) == Some(Json::List(list)),
    ensures
        ({
            let version = if tag[0] == 'v' {
                tag.drop_first()
            } else {
                tag
            };
            let name = "Tomte-"@ + version + ".zip"@;
            let is_new = newer(semver_of(tag)->Some_0, semver_of(current)->Some_0);
            &&& !is_new ==> update_of(release, current) == Ok::<Option<Available>, Seq<char>>(None)
            &&& is_new && 0 <= k < list@.len() && text_member(list@[k], "name"@) == Some(name)
                && (forall|j: int|
                0 <= j < k ==> text_member(#[trigger] list@[j], "name"@) != Some(name)) ==> (
            match text_member(list@[k], "browser_download_url"@) {
                Some(url) => update_of(release, current) matches Ok(Some(u)) && u.zip_url == url
                    && u.version == version && match text_member(release, "body"@) {
                    Some(body) => u.notes == if trim(body).len() == 0 {
                        None
                    } else {
                        Some(trim(body))
                    },
                    None => u.notes is None,
                },
                None => update_of(release, current) == Ok::<Option<Available>, Seq<char>>(None),
            })
            &&& (forall|j: int|
                0 <= j < list@.len() ==> text_member(#[trigger] list@[j], "name"@) != Some(name))
                ==> update_of(release, current) == Ok::<Option<Available>, Seq<char>>(None)
        }),
{
    assert(tag.len() > 0) by {
        if tag.len() == 0 {
            crate::text::law_parts_are_told_apart(tag, '.', tag);
        }
    }
    let version = bare_version(tag);
    let name = "Tomte-"@ + version + ".zip"@;
    if 0 <= k < list@.len() && text_member(list@[k], "name"@) == Some(name) && (forall|j: int|
        0 <= j < k ==> text_member(#[trigger] list@[j], "name"@) != Some(name)) {
        lemma_asset_found(list@, name, k, 0);
    }
    if forall|j: int|
        0 <= j < list@.len() ==> text_member(#[trigger] list@[j], "name"@) != Some(name) {
        lemma_no_asset(list@, name, 0);
    }
}

proof fn lemma_first_with(ls: Seq<Seq<char>>, prefix: Seq<char>, k: int, from: int)
    requires
        0 <= from <= k < ls.len(),
        starts_with_text(ls[k], prefix),
        forall|j: int| from <= j < k ==> !starts_with_text(#[trigger] ls[j], prefix),
    ensures
        first_with(ls, prefix, from) == Some(ls[k].skip(prefix.len() as int)),
    decreases k - from,
{
    if from < k {
        assert(!starts_with_text(ls[from], prefix));
        lemma_first_with(ls, prefix, k, from + 1);
    }
}

/// The team is read from the first line that names one, wherever among the details it stands.
pub proof fn law_the_named_team_is_read(ls: Seq<Seq<char>>, team: Seq<char>, k: int)
    requires
        forall|j: int| 0 <= j < ls.len() ==> crate::merge::fits_a_line(#[trigger] ls[j]),
        0 <= k < ls.len(),
        ls[k] == "TeamIdentifier="@ + team,
        forall|j: int| 0 <= j < k ==> !starts_with_text(#[trigger] ls[j], "TeamIdentifier="@),
    ensures
        team_of(crate::merge::printed(ls)) == Some(trim(team)),
{
    crate::merge::law_printed_lines_are_read_back(ls);
    let p = "TeamIdentifier="@;
    assert(ls[k].take(p.len() as int) =~= p);
    assert(ls[k].skip(p.len() as int) =~= team);
    lemma_first_with(ls, p, k, 0);
}

/// Whether a bundle is staged is decided by the answers: where the download, the unpacking and
/// the check of the signature end well and the signature names the team, the bundle is given;
/// the first answer that is not so stops the staging, and the refusal tells at which of the two
/// it was, the download or the verification.
pub proof fn law_good_answers_stage_the_bundle(
    answers: Seq<Reply>,
    team: Seq<char>,
    app: Seq<char>,
    r: Result<Seq<char>, Refusal>,
)
    requires
        stages(answers, team, app, r),
    ensures
        answers.len() == 4 && (forall|k: int|
            0 <= k < 3 ==> ((#[trigger] answers[k]) matches Ok(out) && out.exit_code == 0)) && (
        answers[3] matches Ok(out) && team_of(lossy(out.stderr)) == Some(team)) ==> r == Ok::<
            Seq<char>,
            Refusal,
        >(app),
        r matches Err(f) ==> (answers.len() <= 2 <==> f is Download) && (answers.len() > 2
            <==> f is Verify),
        answers.len() < 4 ==> (r is Err && (answers.last() matches Ok(out) ==> out.exit_code != 0)),
{
    assert(answers[answers.len() - 1] == answers.last());
}

/// A program in a bundle finds the bundle, three above it.
pub proof fn law_programs_find_their_bundle(dir: Seq<char>, stem: Seq<char>, name: Seq<char>)
    requires
        dir.len() > 0,
        is_plain_name(stem + ".app"@) && stem.len() > 0 && !stem.contains('/'),
        is_plain_name(name) && name != ".."@,
    ensures
        ({
            let app = joined(dir, stem + ".app"@);
            let exe = joined(joined(joined(app, "Contents"@), "MacOS"@), name);
            bundle_of(exe) matches Some(found) && same_path(found, app)
        }),
{
    reveal_strlit(".app");
    reveal_strlit("app");
    reveal_strlit("Contents");
    reveal_strlit("MacOS");
    reveal_strlit(".");
    reveal_strlit("..");
    let app = joined(dir, stem + ".app"@);
    let contents = joined(app, "Contents"@);
    let macos = joined(contents, "MacOS"@);
    let exe = joined(macos, name);
    assert(stem + ".app"@ =~= stem + seq!['.'] + "app"@);
    assert((stem + ".app"@).len() >= 5);
    law_extensions_stand_behind_the_last_dot(dir, stem, "app"@);
    law_files_are_found_in_their_directory(dir, stem + ".app"@);
    law_joined_paths_have_both_parts(dir, stem + ".app"@);
    law_joined_paths_have_both_parts(app, "Contents"@);
    law_joined_paths_have_both_parts(contents, "MacOS"@);
    law_joined_paths_have_both_parts(macos, name);
    law_a_name_is_one_part(stem + ".app"@, false);
    law_a_name_is_one_part("Contents"@, false);
    law_a_name_is_one_part("MacOS"@, false);
    law_a_name_is_one_part(name, false);
    let c = components(exe);
    let b = components(app);
    assert(c =~= b + seq!["Contents"@, "MacOS"@, name]);
    assert(b.len() >= 1);
    law_parts_of_paths_have_their_components(exe, b.len() as int);
    assert(c.take(b.len() as int) =~= b);
}

} // verus!
