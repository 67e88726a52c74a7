//! The dashboard: how things stand, and what has happened.

use std::collections::HashSet;
use vstd::prelude::*;

use crate::cmd::{optional, CommandRequest, Duration, Request};
use crate::model::{
    ago, attention, class_label, class_words, glyph_of, group_timeline, grouped, is_known, items_of,
    kind_glyph, kind_label, kind_words, lemma_place, place, rows_of, time_ago, Item, Row, State,
    SyncModel, TimelineItem, TimelineRow,
};
use crate::paths::{is_same_path, parent_dir, parent_of};
use crate::proto::{copy_text, drifts, Drift, DriftSummary};
use crate::resolve::{display_name, shown_name, ResolveError, ResolveOutcome};
use crate::text::{
    chars_of, contains, contains_text, decimal, decimal_text, is_white, string_of, trim_end,
    trimmed_end,
};
use crate::theme::Theme;
use crate::views::review::ResolveAction;

verus! {

// ---------------------------------------------------------------------------
// What can be done about it

/// What may help where something cannot be evaluated.
#[derive(Debug, Clone, Copy, PartialEq, Eq, Structural)]
pub enum DegradedRemedy {
    /// To unlock the password manager.
    UnlockOnePassword,
    /// To change a setting.
    OpenSettings,
}

/// What may help, as the hint says it.
pub open spec fn remedy_for(hint: Seq<char>) -> Option<DegradedRemedy> {
    if contains_text(hint, "Unlock 1Password"@) {
        Some(DegradedRemedy::UnlockOnePassword)
    } else if contains_text(hint, "Settings"@) {
        Some(DegradedRemedy::OpenSettings)
    } else {
        None
    }
}

/// What may help, as the hint says it.
pub fn degraded_remedy(hint: &str) -> (r: Option<DegradedRemedy>)
    ensures
        r == remedy_for(hint@),
{
    if contains(hint, "Unlock 1Password") {
        Some(DegradedRemedy::UnlockOnePassword)
    } else if contains(hint, "Settings") {
        Some(DegradedRemedy::OpenSettings)
    } else {
        None
    }
}

/// The text ends so.
pub open spec fn ends_with_text(s: Seq<char>, end: Seq<char>) -> bool {
    end.len() <= s.len() && s.skip(s.len() - end.len()) == end
}

/// The text without that end, however often it stands there.
pub open spec fn without_ends(s: Seq<char>, end: Seq<char>) -> Seq<char>
    decreases s.len(),
{
    if end.len() > 0 && ends_with_text(s, end) {
        without_ends(s.take(s.len() - end.len()), end)
    } else {
        s
    }
}

/// What is said of it. Where a button says how to help, the hint does not repeat it.
pub open spec fn hint_words(hint: Seq<char>) -> Seq<char> {
    if remedy_for(hint) == Some(DegradedRemedy::UnlockOnePassword) {
        trim_end(without_ends(trim_end(hint), "Unlock 1Password and retry."@))
    } else {
        hint
    }
}

fn ends_so(v: &Vec<char>, n: usize, end: &Vec<char>) -> (r: bool)
    requires
        n <= v@.len(),
    ensures
        r == ends_with_text(v@.take(n as int), end@),
{
    if end.len() > n {
        return false;
    }
    let at: usize = n - end.len();
    let ghost tail = v@.take(n as int).skip(at as int);
    let mut k: usize = 0;
    while k < end.len()
        invariant
            at + end@.len() == n,
            n <= v@.len(),
            tail == v@.take(n as int).skip(at as int),
            k <= end@.len(),
            forall|j: int| 0 <= j < k ==> tail[j] == end@[j],
        decreases end@.len() - k,
    {
        if v[at + k] != end[k] {
            assert(tail[k as int] != end@[k as int]);
            return false;
        }
        k = k + 1;
    }
    assert(tail =~= end@);
    true
}

/// What is said of what cannot be evaluated.
pub fn hint_text(hint: &str) -> (r: String)
    ensures
        r@ == hint_words(hint@),
{
    match degraded_remedy(hint) {
        Some(DegradedRemedy::UnlockOnePassword) => {},
        _ => {
            return hint.to_owned();
        },
    }
    let v = chars_of(hint);
    let end = chars_of("Unlock 1Password and retry.");
    proof {
        reveal_strlit("Unlock 1Password and retry.");
    }
    let mut n: usize = trimmed_end(v.as_slice());
    while ends_so(&v, n, &end)
        invariant
            n <= v@.len(),
            v@ == hint@,
            end@ == "Unlock 1Password and retry."@,
            end@.len() > 0,
            without_ends(trim_end(hint@), end@) == without_ends(v@.take(n as int), end@),
        decreases n,
    {
        proof {
            let cur = v@.take(n as int);
            assert(cur.take(cur.len() - end@.len()) =~= v@.take(n - end@.len()));
        }
        n = n - end.len();
    }
    let front = string_of(v.as_slice(), 0, n);
    assert(front@ =~= v@.take(n as int));
    let w = chars_of(front.as_str());
    let m: usize = trimmed_end(w.as_slice());
    let s = string_of(w.as_slice(), 0, m);
    assert(s@ =~= w@.take(m as int));
    s
}

/// The command that makes the password manager ask to be unlocked. It waits for somebody.
pub fn unlock_request() -> (r: CommandRequest)
    ensures
        r@ == (Request {
            program: "op"@,
            args: seq!["whoami"@, "--format=json"@],
            env: seq![],
            cwd: None,
            stdin: None,
            timeout: Duration::seconds(120),
        }),
{
    let args = vec!["whoami", "--format=json"];
    let r = CommandRequest::new("op").args(args.as_slice()).timeout(Duration::from_secs(120));
    assert(r@.args =~= seq!["whoami"@, "--format=json"@]);
    r
}

// ---------------------------------------------------------------------------
// How things stand

/// How something is to be taken.
#[derive(Debug, Clone, Copy, PartialEq, Eq, Structural)]
pub enum Tone {
    Plain,
    Muted,
    Fine,
    Drift,
    Conflict,
}

/// A value with what it is.
#[derive(Debug, PartialEq, Eq)]
pub struct Tile {
    pub value: String,
    pub label: &'static str,
    pub tone: Tone,
}

/// The numbers are known: the daemon is there, and has scanned once.
pub open spec fn counts_known(s: State) -> bool {
    s.connected && (s.drifted.len() > 0 || s.in_sync > 0 || !s.scanning)
}

/// After so many seconds what was fetched is stale.
pub const STALE_SECS: u64 = 1800;

/// The three tiles: what needs a decision, how fresh the remote is, and what is in sync.
pub open spec fn are_tiles(s: State, now: u64, t: (Tile, Tile, Tile)) -> bool {
    let n = attention(s.drifted, s.drifted.len() as int);
    &&& t.0.label@ == "need a decision"@
    &&& t.0.value@ == (if counts_known(s) {
        decimal(n)
    } else {
        "–"@
    })
    &&& t.0.tone == (if n > 0 {
        Tone::Conflict
    } else {
        Tone::Muted
    })
    &&& t.1.label@ == "origin"@
    &&& match s.last_fetch_ts {
        Some(ts) => {
            &&& t.1.value@ == "fetched "@ + ago(now, ts)
            &&& t.1.tone == (if now - ts > STALE_SECS {
                Tone::Drift
            } else {
                Tone::Plain
            })
        },
        None => t.1.value@ == "never fetched"@ && t.1.tone == Tone::Muted,
    }
    &&& t.2.label@ == "in sync"@
    &&& t.2.value@ == (if counts_known(s) {
        decimal(s.in_sync as nat)
    } else {
        "–"@
    })
    &&& t.2.tone == (if counts_known(s) {
        Tone::Fine
    } else {
        Tone::Muted
    })
}

/// The three tiles.
pub fn tiles(model: &SyncModel, now: u64) -> (r: (Tile, Tile, Tile))
    ensures
        are_tiles(model@, now, r),
{
    let n: usize = model.needs_attention();
    let drifted: usize = model.drifted.len();
    assert(model@.drifted.len() == drifted);
    let known: bool = model.connected && (drifted > 0 || model.in_sync > 0 || !model.scanning);
    let decisions = Tile {
        value: if known {
            decimal_text(n as u64)
        } else {
            "–".to_owned()
        },
        label: "need a decision",
        tone: if n > 0 {
            Tone::Conflict
        } else {
            Tone::Muted
        },
    };
    let origin = match model.last_fetch_ts {
        Some(ts) => {
            let mut s = "fetched ".to_owned();
            s.append(time_ago(now, ts).as_str());
            Tile {
                value: s,
                label: "origin",
                tone: if now > ts && now - ts > STALE_SECS {
                    Tone::Drift
                } else {
                    Tone::Plain
                },
            }
        },
        None => Tile { value: "never fetched".to_owned(), label: "origin", tone: Tone::Muted },
    };
    let in_sync = Tile {
        value: if known {
            decimal_text(model.in_sync)
        } else {
            "–".to_owned()
        },
        label: "in sync",
        tone: if known {
            Tone::Fine
        } else {
            Tone::Muted
        },
    };
    (decisions, origin, in_sync)
}

/// What stands where no event does.
#[derive(Debug, PartialEq, Eq)]
pub enum EmptyState {
    /// The first scan is under way.
    Skeleton,
    /// A title and a line below it.
    Note { title: &'static str, detail: String, tone: Tone },
}

/// What stands where no event does.
pub open spec fn is_empty_state(s: State, e: EmptyState) -> bool {
    if s.scanning {
        e is Skeleton
    } else {
        e matches EmptyState::Note { title, detail, tone } && if !s.connected {
            title@ == "Sync daemon not connected"@ && detail@ == "reconnecting automatically…"@
                && tone == Tone::Conflict
        } else {
            title@ == "Everything in sync"@ && detail@ == decimal(s.in_sync as nat)
                + " files tracked"@ && tone == Tone::Fine
        }
    }
}

/// What stands where no event does.
pub fn empty_state(model: &SyncModel) -> (r: EmptyState)
    ensures
        is_empty_state(model@, r),
{
    if model.scanning {
        return EmptyState::Skeleton;
    }
    if !model.connected {
        return EmptyState::Note {
            title: "Sync daemon not connected",
            detail: "reconnecting automatically…".to_owned(),
            tone: Tone::Conflict,
        };
    }
    let mut detail = decimal_text(model.in_sync);
    detail.append(" files tracked");
    EmptyState::Note { title: "Everything in sync", detail, tone: Tone::Fine }
}

// ---------------------------------------------------------------------------
// What has happened

/// A line of the list of events.
#[derive(Debug)]
pub enum Line {
    Event {
        time: String,
        glyph: &'static str,
        name: String,
        /// The directory of the file.
        dir: Option<String>,
        chip: Option<&'static str>,
        class: Option<String>,
        target: Option<String>,
        /// It stands below a group that is open.
        indented: bool,
        /// Its file has drifted now.
        drifted: bool,
    },
    /// Scans and fetches in one line.
    Group { count: usize, time: String, key: u64, expanded: bool },
}

/// A line of the list of events, as the model has it.
pub enum EventLine {
    Event {
        time: Seq<char>,
        glyph: Seq<char>,
        name: Seq<char>,
        dir: Option<Seq<char>>,
        chip: Option<Seq<char>>,
        class: Option<Seq<char>>,
        target: Option<Seq<char>>,
        indented: bool,
        drifted: bool,
    },
    Group { count: nat, time: Seq<char>, key: u64, expanded: bool },
}

impl View for Line {
    type V = EventLine;

    open spec fn view(&self) -> EventLine {
        match *self {
            Line::Event { time, glyph, name, dir, chip, class, target, indented, drifted } =>
                EventLine::Event {
                    time: time@,
                    glyph: glyph@,
                    name: name@,
                    dir: optional(dir),
                    chip: match chip {
                        Some(c) => Some(c@),
                        None => None,
                    },
                    class: optional(class),
                    target: optional(target),
                    indented,
                    drifted,
                },
            Line::Group { count, time, key, expanded } => EventLine::Group {
                count: count as nat,
                time: time@,
                key,
                expanded,
            },
        }
    }
}

pub open spec fn line_views(v: Seq<Line>) -> Seq<EventLine> {
    v.map_values(|l: Line| l@)
}

/// The line of a row. A row about a file is known by the file, one about none by its kind.
pub open spec fn event_line(row: Row, now: u64, indented: bool, drifted: bool) -> EventLine {
    EventLine::Event {
        time: ago(now, row.ts),
        glyph: glyph_of(row.kind),
        name: match row.target {
            Some(t) => shown_name(t),
            None => kind_words(row.kind),
        },
        dir: match row.target {
            Some(t) => parent_of(t),
            None => None,
        },
        chip: match row.class {
            Some(c) => Some(class_words(c)),
            None => None,
        },
        class: row.class,
        target: row.target,
        indented,
        drifted,
    }
}

impl Line {
    /// The line of a row.
    pub fn event(row: &TimelineRow, now: u64, indented: bool, drifted: bool) -> (r: Self)
        ensures
            r@ == event_line(row@, now, indented, drifted),
    {
        let (name, dir) = match &row.target {
            Some(t) => (display_name(t.as_str()), parent_dir(t.as_str())),
            None => (kind_label(row.kind.as_str()).to_owned(), None),
        };
        let chip = match &row.class {
            Some(c) => Some(class_label(c.as_str())),
            None => None,
        };
        Line::Event {
            time: time_ago(now, row.ts),
            glyph: kind_glyph(row.kind.as_str()),
            name,
            dir,
            chip,
            class: copy_text(&row.class),
            target: copy_text(&row.target),
            indented,
            drifted,
        }
    }
}

/// The file of a row has drifted now.
pub open spec fn drifted_now(d: Seq<Drift>, row: Row) -> bool {
    row.target matches Some(t) && place(d, t, 0) is Some
}

/// Whether the file of a row has drifted now.
pub fn is_drifted(drifted: &Vec<DriftSummary>, row: &TimelineRow) -> (r: bool)
    ensures
        r == drifted_now(drifts(drifted@), row@),
{
    let target = match &row.target {
        Some(t) => t,
        None => {
            return false;
        },
    };
    let ghost d = drifts(drifted@);
    let mut i: usize = 0;
    assert(d.len() == drifted@.len());
    while i < drifted.len()
        invariant
            d == drifts(drifted@),
            d.len() == drifted@.len(),
            i <= drifted@.len(),
            row@.target == Some(target@),
            place(d, target@, 0) == place(d, target@, i as int),
        decreases drifted@.len() - i,
    {
        assert(d[i as int] == drifted@[i as int]@);
        if is_same_path(drifted[i].target.as_str(), target.as_str()) {
            return true;
        }
        i = i + 1;
    }
    false
}

/// The lines of rows.
pub open spec fn row_lines(rows: Seq<Row>, d: Seq<Drift>, now: u64, indented: bool) -> Seq<EventLine> {
    rows.map_values(|r: Row| event_line(r, now, indented, drifted_now(d, r)))
}

/// The lines of an item: of a group there is one, and its rows below it while it is open.
pub open spec fn item_lines(
    item: Item,
    d: Seq<Drift>,
    now: u64,
    expanded: Set<u64>,
) -> Seq<EventLine> {
    match item {
        Item::One(row) => row_lines(seq![row], d, now, false),
        Item::Group { count, newest_ts, rows } => {
            let open = expanded.contains(newest_ts);
            let head = EventLine::Group {
                count,
                time: ago(now, newest_ts),
                key: newest_ts,
                expanded: open,
            };
            if open {
                seq![head] + row_lines(rows, d, now, true)
            } else {
                seq![head]
            }
        },
    }
}

/// The lines of the first `n` items.
pub open spec fn all_lines(
    items: Seq<Item>,
    n: int,
    d: Seq<Drift>,
    now: u64,
    expanded: Set<u64>,
) -> Seq<EventLine>
    decreases n,
{
    if n <= 0 {
        seq![]
    } else {
        all_lines(items, n - 1, d, now, expanded) + item_lines(items[n - 1], d, now, expanded)
    }
}

/// The lines of the list of events.
pub open spec fn timeline_lines(s: State, now: u64, expanded: Set<u64>) -> Seq<EventLine> {
    let items = grouped(s.timeline);
    all_lines(items, items.len() as int, s.drifted, now, expanded)
}

fn push_rows(
    lines: &mut Vec<Line>,
    rows: &Vec<TimelineRow>,
    drifted: &Vec<DriftSummary>,
    now: u64,
    indented: bool,
)
    ensures
        line_views(final(lines)@) == line_views(old(lines)@) + row_lines(
            rows_of(rows@),
            drifts(drifted@),
            now,
            indented,
        ),
{
    let ghost had = line_views(lines@);
    let ghost new = row_lines(rows_of(rows@), drifts(drifted@), now, indented);
    let mut i: usize = 0;
    assert(had + new.take(0) =~= had);
    while i < rows.len()
        invariant
            i <= rows@.len(),
            new == row_lines(rows_of(rows@), drifts(drifted@), now, indented),
            line_views(lines@) == had + new.take(i as int),
        decreases rows@.len() - i,
    {
        let ghost before = line_views(lines@);
        let line = Line::event(&rows[i], now, indented, is_drifted(drifted, &rows[i]));
        lines.push(line);
        proof {
            assert(rows_of(rows@)[i as int] == rows@[i as int]@);
            assert(new[i as int] == line@);
            assert(line_views(lines@) =~= before.push(line@));
            assert(had + new.take(i + 1) =~= (had + new.take(i as int)).push(new[i as int]));
        }
        i = i + 1;
    }
    assert(new.take(i as int) =~= new);
}

/// The lines of the list of events.
pub fn build_lines(model: &SyncModel, now: u64, expanded: &HashSet<u64>) -> (r: Vec<Line>)
    ensures
        line_views(r@) == timeline_lines(model@, now, expanded@),
{
    broadcast use vstd::std_specs::hash::group_hash_axioms;

    let items = group_timeline(&model.timeline);
    let ghost all = items_of(items@);
    let ghost d = model@.drifted;
    let mut lines: Vec<Line> = Vec::new();
    let mut i: usize = 0;
    assert(all.len() == items@.len());
    assert(line_views(lines@) =~= seq![]);
    while i < items.len()
        invariant
            all == items_of(items@),
            all.len() == items@.len(),
            d == model@.drifted,
            i <= items@.len(),
            line_views(lines@) == all_lines(all, i as int, d, now, expanded@),
        decreases items@.len() - i,
    {
        let ghost had = line_views(lines@);
        assert(all[i as int] == items@[i as int]@);
        match &items[i] {
            TimelineItem::Row(row) => {
                let line = Line::event(row, now, false, is_drifted(&model.drifted, row));
                lines.push(line);
                proof {
                    let new = item_lines(all[i as int], d, now, expanded@);
                    assert(new =~= seq![line@]);
                    assert(line_views(lines@) =~= had + new);
                }
            },
            TimelineItem::ScanGroup { count, newest_ts, rows } => {
                let open: bool = expanded.contains(newest_ts);
                let head = Line::Group {
                    count: *count,
                    time: time_ago(now, *newest_ts),
                    key: *newest_ts,
                    expanded: open,
                };
                lines.push(head);
                assert(line_views(lines@) =~= had + seq![head@]);
                if open {
                    push_rows(&mut lines, rows, &model.drifted, now, true);
                    proof {
                        let below = row_lines(rows_of(rows@), d, now, true);
                        assert((had + seq![head@]) + below =~= had + (seq![head@] + below));
                    }
                }
            },
        }
        i = i + 1;
    }
    lines
}

/// Opens a group, or closes it if it is open.
pub fn toggle(expanded: &mut HashSet<u64>, key: u64)
    ensures
        final(expanded)@ == (if old(expanded)@.contains(key) {
            old(expanded)@.remove(key)
        } else {
            old(expanded)@.insert(key)
        }),
{
    broadcast use vstd::std_specs::hash::group_hash_axioms;

    if expanded.contains(&key) {
        expanded.remove(&key);
    } else {
        expanded.insert(key);
    }
}

/// To open a group and close it again changes nothing.
pub proof fn law_toggling_twice_changes_nothing(expanded: Set<u64>, key: u64)
    ensures
        !expanded.contains(key) ==> expanded.insert(key).remove(key) =~= expanded,
        expanded.contains(key) ==> expanded.remove(key).insert(key) =~= expanded,
{
}

// ---------------------------------------------------------------------------
// Actions

/// What is told of an action on a file.
pub open spec fn action_told(
    action: ResolveAction,
    target: Seq<char>,
    result: Result<ResolveOutcome, ResolveError>,
) -> Seq<char> {
    let name = shown_name(target);
    match result {
        Ok(ResolveOutcome::Done { session: _, committed: _, pushed: _, note }) => {
            let done = action.verb_words() + ": "@ + name;
            match note {
                Some(n) => done + " · "@ + n@,
                None => done,
            }
        },
        Ok(ResolveOutcome::NeedsMergeEditor) => name + " is templated · use the merge editor"@,
        Ok(ResolveOutcome::ProtectedSpan { .. }) => name
            + ": this change touches a templated value · open the merge editor"@,
        Err(e) => action.label_words() + " "@ + name + " failed: "@ + e.message_spec(),
    }
}

/// What is told of an action on a file.
pub fn quick_action_body(
    action: ResolveAction,
    target: &str,
    result: &Result<ResolveOutcome, ResolveError>,
) -> (r: String)
    ensures
        r@ == action_told(action, target@, *result),
{
    let name = display_name(target);
    match result {
        Ok(ResolveOutcome::Done { session: _, committed: _, pushed: _, note }) => {
            let mut s = action.verb().to_owned();
            s.append(": ");
            s.append(name.as_str());
            match note {
                Some(n) => {
                    s.append(" · ");
                    s.append(n.as_str());
                },
                None => {},
            }
            s
        },
        Ok(ResolveOutcome::NeedsMergeEditor) => {
            let mut s = name;
            s.append(" is templated · use the merge editor");
            s
        },
        Ok(ResolveOutcome::ProtectedSpan { .. }) => {
            let mut s = name;
            s.append(": this change touches a templated value · open the merge editor");
            s
        },
        Err(e) => {
            let mut s = action.label().to_owned();
            s.append(" ");
            s.append(name.as_str());
            s.append(" failed: ");
            s.append(e.message().as_str());
            s
        },
    }
}

/// What is offered beside a line.
#[derive(Debug, Clone, Copy, PartialEq, Eq, Structural)]
pub enum RowActions {
    /// Nothing: its file has not drifted.
    Nothing,
    /// An action is under way.
    Working,
    /// The two resolutions; they can be used only while there is a daemon.
    Offered { enabled: bool },
}

/// What is offered beside a line.
pub fn row_actions(line: &Line, engine_ready: bool, busy: bool) -> (r: RowActions)
    ensures
        r == (match *line {
            Line::Event { target, drifted, .. } => if !drifted || target is None {
                RowActions::Nothing
            } else if busy {
                RowActions::Working
            } else {
                RowActions::Offered { enabled: engine_ready }
            },
            Line::Group { .. } => RowActions::Nothing,
        }),
{
    match line {
        Line::Event { target, drifted, .. } => {
            if !*drifted || target.is_none() {
                RowActions::Nothing
            } else if busy {
                RowActions::Working
            } else {
                RowActions::Offered { enabled: engine_ready }
            }
        },
        Line::Group { .. } => RowActions::Nothing,
    }
}

// ---------------------------------------------------------------------------
// All of it

/// What can be done beside the hint.
#[derive(Debug, Clone, Copy, PartialEq, Eq, Structural)]
pub enum BannerAction {
    /// Nothing: the password manager was asked, and somebody is to answer it.
    Waiting,
    Unlock,
    OpenSettings,
    /// Nothing helps that could be done here.
    Nothing,
}

/// The banner about what cannot be evaluated.
#[derive(Debug)]
pub struct DegradedBanner {
    pub text: String,
    pub action: BannerAction,
}

/// What stands below the tiles.
#[derive(Debug)]
pub enum DashboardBody {
    Lines(Vec<Line>),
    Empty(EmptyState),
}

/// All that the dashboard shows.
#[derive(Debug)]
pub struct Dashboard {
    pub tiles: (Tile, Tile, Tile),
    /// The way to the review, while something has drifted.
    pub review_link: Option<String>,
    pub banner: Option<DegradedBanner>,
    /// The list of events has a head.
    pub activity: bool,
    /// A scan is under way.
    pub scanning: bool,
    pub body: DashboardBody,
}

/// What can be done beside a hint.
pub open spec fn banner_action(hint: Seq<char>, unlock_in_flight: bool) -> BannerAction {
    if unlock_in_flight {
        BannerAction::Waiting
    } else {
        match remedy_for(hint) {
            Some(DegradedRemedy::UnlockOnePassword) => BannerAction::Unlock,
            Some(DegradedRemedy::OpenSettings) => BannerAction::OpenSettings,
            None => BannerAction::Nothing,
        }
    }
}

/// The dashboard shows the state of things.
pub open spec fn shows(
    d: Dashboard,
    s: State,
    now: u64,
    expanded: Set<u64>,
    unlock_in_flight: bool,
) -> bool {
    let lines = timeline_lines(s, now, expanded);
    &&& are_tiles(s, now, d.tiles)
    &&& optional(d.review_link) == (if s.drifted.len() > 0 {
        Some("Review "@ + decimal(s.drifted.len()) + " →"@)
    } else {
        None
    })
    &&& match s.degraded {
        Some(hint) => d.banner matches Some(b) && b.text@ == hint_words(hint) && b.action
            == banner_action(hint, unlock_in_flight),
        None => d.banner is None,
    }
    &&& d.activity == (lines.len() > 0 || s.scanning)
    &&& d.scanning == s.scanning
    &&& match d.body {
        DashboardBody::Lines(v) => lines.len() > 0 && line_views(v@) == lines,
        DashboardBody::Empty(e) => lines.len() == 0 && is_empty_state(s, e),
    }
}

/// All that the dashboard shows.
pub fn render(
    model: &SyncModel,
    now: u64,
    expanded: &HashSet<u64>,
    unlock_in_flight: bool,
) -> (r: Dashboard)
    ensures
        shows(r, model@, now, expanded@, unlock_in_flight),
{
    let lines = build_lines(model, now, expanded);
    assert(line_views(lines@).len() == lines@.len());
    let drifted: usize = model.drifted.len();
    assert(model@.drifted.len() == drifted);
    let review_link = if drifted > 0 {
        let mut s = "Review ".to_owned();
        s.append(decimal_text(drifted as u64).as_str());
        s.append(" →");
        Some(s)
    } else {
        None
    };
    let banner = match &model.degraded {
        Some(hint) => {
            let action = if unlock_in_flight {
                BannerAction::Waiting
            } else {
                match degraded_remedy(hint.as_str()) {
                    Some(DegradedRemedy::UnlockOnePassword) => BannerAction::Unlock,
                    Some(DegradedRemedy::OpenSettings) => BannerAction::OpenSettings,
                    None => BannerAction::Nothing,
                }
            };
            Some(DegradedBanner { text: hint_text(hint.as_str()), action })
        },
        None => None,
    };
    Dashboard {
        tiles: tiles(model, now),
        review_link,
        banner,
        activity: lines.len() > 0 || model.scanning,
        scanning: model.scanning,
        body: if lines.len() > 0 {
            DashboardBody::Lines(lines)
        } else {
            DashboardBody::Empty(empty_state(model))
        },
    }
}

/// How a line looks.
#[derive(Debug)]
pub struct LineLook {
    /// The colour of its glyph and its chip.
    pub color: u32,
    /// Its text is muted.
    pub muted: bool,
    /// The words of a line that stands for many.
    pub words: Option<String>,
    /// The file that is opened with it.
    pub opens: Option<String>,
}

/// How a line looks. A line about a file leads to it, and has the colour of its class.
pub fn line_look(line: &Line, theme: &Theme) -> (r: LineLook)
    ensures
        match line@ {
            EventLine::Event { class, target, indented, .. } => {
                &&& r.color == (match class {
                    Some(c) => theme.color_of(c),
                    None => theme.text_muted,
                })
                &&& r.muted == indented
                &&& r.words is None
                &&& optional(r.opens) == target
            },
            EventLine::Group { count, .. } => {
                &&& r.color == theme.text_muted
                &&& r.muted
                &&& optional(r.words) == Some(decimal(count) + " scans"@)
                &&& r.opens is None
            },
        },
{
    match line {
        Line::Event { class, target, indented, .. } => LineLook {
            color: match class {
                Some(c) => theme.class_color(c.as_str()),
                None => theme.text_muted,
            },
            muted: *indented,
            words: None,
            opens: copy_text(target),
        },
        Line::Group { count, .. } => {
            let mut words = decimal_text(*count as u64);
            words.append(" scans");
            LineLook { color: theme.text_muted, muted: true, words: Some(words), opens: None }
        },
    }
}

// ---------------------------------------------------------------------------
// What is told of what happened

/// What a line tells of a row: when it was, of which target, and its class.
pub open spec fn tells_of(line: EventLine) -> (Seq<char>, Option<Seq<char>>, Option<Seq<char>>) {
    match line {
        EventLine::Event { time, target, class, .. } => (time, target, class),
        EventLine::Group { time, .. } => (time, None, None),
    }
}

/// All that is told of rows, in their order.
pub open spec fn news_of(rows: Seq<Row>, now: u64) -> Seq<
    (Seq<char>, Option<Seq<char>>, Option<Seq<char>>),
> {
    rows.map_values(|r: Row| (ago(now, r.ts), r.target, r.class))
}

/// What the lines tell, without the headings of groups.
pub open spec fn told_by(lines: Seq<EventLine>) -> Seq<
    (Seq<char>, Option<Seq<char>>, Option<Seq<char>>),
>
    decreases lines.len(),
{
    if lines.len() == 0 {
        seq![]
    } else if lines.last() is Event {
        told_by(lines.drop_last()).push(tells_of(lines.last()))
    } else {
        told_by(lines.drop_last())
    }
}

proof fn lemma_told_join(a: Seq<EventLine>, b: Seq<EventLine>)
    ensures
        told_by(a + b) == told_by(a) + told_by(b),
    decreases b.len(),
{
    if b.len() == 0 {
        assert(a + b =~= a);
        assert(told_by(a) + told_by(b) =~= told_by(a));
    } else {
        lemma_told_join(a, b.drop_last());
        assert((a + b).drop_last() =~= a + b.drop_last());
        assert((a + b).last() == b.last());
        if b.last() is Event {
            let x = tells_of(b.last());
            assert(told_by(a) + told_by(b.drop_last()).push(x) =~= (told_by(a) + told_by(
                b.drop_last(),
            )).push(x));
        }
    }
}

proof fn lemma_rows_told(rows: Seq<Row>, d: Seq<Drift>, now: u64, indented: bool)
    ensures
        told_by(row_lines(rows, d, now, indented)) == news_of(rows, now),
    decreases rows.len(),
{
    let lines = row_lines(rows, d, now, indented);
    if rows.len() == 0 {
        assert(news_of(rows, now) =~= seq![]);
    } else {
        lemma_rows_told(rows.drop_last(), d, now, indented);
        assert(lines.drop_last() =~= row_lines(rows.drop_last(), d, now, indented));
        assert(news_of(rows, now) =~= news_of(rows.drop_last(), now).push(
            (ago(now, rows.last().ts), rows.last().target, rows.last().class),
        ));
    }
}

/// The rows of the first `n` items.
pub open spec fn rows_upto(items: Seq<Item>, n: int) -> Seq<Row>
    decreases n,
{
    if n <= 0 {
        seq![]
    } else {
        rows_upto(items, n - 1) + match items[n - 1] {
            Item::One(r) => seq![r],
            Item::Group { rows, .. } => rows,
        }
    }
}

/// The item is no group, or one that is open.
pub open spec fn is_unfolded(item: Item, expanded: Set<u64>) -> bool {
    match item {
        Item::One(_) => true,
        Item::Group { newest_ts, .. } => expanded.contains(newest_ts),
    }
}

/// Where every group is open, the lines tell of every row, in their order. Where one is not, its
/// rows are told in one line with their number.
pub proof fn law_open_timelines_tell_of_every_row(
    items: Seq<Item>,
    n: int,
    d: Seq<Drift>,
    now: u64,
    expanded: Set<u64>,
)
    requires
        0 <= n <= items.len(),
        forall|k: int| 0 <= k < n ==> is_unfolded(#[trigger] items[k], expanded),
    ensures
        told_by(all_lines(items, n, d, now, expanded)) == news_of(rows_upto(items, n), now),
    decreases n,
{
    if n > 0 {
        law_open_timelines_tell_of_every_row(items, n - 1, d, now, expanded);
        assert(is_unfolded(items[n - 1], expanded));
        let front = all_lines(items, n - 1, d, now, expanded);
        let own = item_lines(items[n - 1], d, now, expanded);
        lemma_told_join(front, own);
        let rows = match items[n - 1] {
            Item::One(r) => seq![r],
            Item::Group { rows, .. } => rows,
        };
        match items[n - 1] {
            Item::One(r) => {
                lemma_rows_told(rows, d, now, false);
            },
            Item::Group { count, newest_ts, rows } => {
                lemma_rows_told(rows, d, now, true);
                let head = EventLine::Group {
                    count,
                    time: ago(now, newest_ts),
                    key: newest_ts,
                    expanded: true,
                };
                lemma_told_join(seq![head], row_lines(rows, d, now, true));
                assert(told_by(seq![head].drop_last()) =~= seq![]);
                assert(told_by(seq![head]) =~= seq![]);
                assert(Seq::<(Seq<char>, Option<Seq<char>>, Option<Seq<char>>)>::empty() + news_of(
                    rows,
                    now,
                ) =~= news_of(rows, now));
            },
        }
        assert(news_of(rows_upto(items, n - 1) + rows, now) =~= news_of(
            rows_upto(items, n - 1),
            now,
        ) + news_of(rows, now));
    } else {
        assert(news_of(rows_upto(items, n), now) =~= seq![]);
    }
}

/// A group that is not open is one line, which tells how many rows it holds and how old the newest
/// is.
pub proof fn law_closed_groups_tell_their_number(
    count: nat,
    newest_ts: u64,
    rows: Seq<Row>,
    d: Seq<Drift>,
    now: u64,
    expanded: Set<u64>,
)
    ensures
        ({
            let lines = item_lines(Item::Group { count, newest_ts, rows }, d, now, expanded);
            &&& lines.len() > 0
            &&& lines[0] matches EventLine::Group { count: c, time, key, expanded: open } && {
                &&& c == count
                &&& time == ago(now, newest_ts)
                &&& key == newest_ts
                &&& open == expanded.contains(newest_ts)
            }
            &&& !expanded.contains(newest_ts) ==> lines.len() == 1
        }),
{
}

proof fn lemma_cut_ends(s: Seq<char>, end: Seq<char>)
    ensures
        without_ends(s, end).is_prefix_of(s),
        end.len() > 0 ==> !ends_with_text(without_ends(s, end), end),
    decreases s.len(),
{
    if end.len() > 0 && ends_with_text(s, end) {
        lemma_cut_ends(s.take(s.len() - end.len()), end);
    }
}

proof fn lemma_cut_blanks(s: Seq<char>)
    ensures
        trim_end(s).is_prefix_of(s),
        trim_end(s).len() > 0 ==> !is_white(trim_end(s).last()),
    decreases s.len(),
{
    if s.len() > 0 && is_white(s.last()) {
        lemma_cut_blanks(s.drop_last());
    }
}

/// A hint is told as it is, but for the advice to unlock the password manager where there is a
/// button for that: then the front of it is told, without white space at its end.
pub proof fn law_hints_are_told(hint: Seq<char>)
    ensures
        hint_words(hint).is_prefix_of(hint),
        remedy_for(hint) == Some(DegradedRemedy::UnlockOnePassword) <==> contains_text(
            hint,
            "Unlock 1Password"@,
        ),
        !contains_text(hint, "Unlock 1Password"@) ==> hint_words(hint) == hint && (remedy_for(hint)
            == Some(DegradedRemedy::OpenSettings) <==> contains_text(hint, "Settings"@)) && (
        remedy_for(hint) is None <==> !contains_text(hint, "Settings"@)),
        contains_text(hint, "Unlock 1Password"@) && hint_words(hint).len() > 0 ==> !is_white(
            hint_words(hint).last(),
        ),
{
    let end = "Unlock 1Password and retry."@;
    let a = trim_end(hint);
    let b = without_ends(a, end);
    lemma_cut_blanks(hint);
    lemma_cut_ends(a, end);
    lemma_cut_blanks(b);
}

/// A line says that its file has drifted exactly where it is known to have, whatever the row says
/// of it.
pub proof fn law_lines_say_what_has_drifted(d: Seq<Drift>, row: Row)
    ensures
        drifted_now(d, row) <==> (row.target matches Some(t) && is_known(d, t)),
{
    match row.target {
        Some(t) => {
            lemma_place(d, t, 0);
        },
        None => {},
    }
}

} // verus!
