//! What the app knows of the state of things: filled from a status reply and the journal, and
//! kept up to date by what the daemon pushes.

use vstd::prelude::*;
use vstd::string::*;

use crate::cmd::optional;
use crate::json::text_member;
use crate::paths::{is_same_path, same_path};
use crate::proto::{copy_text, drifts, Drift, DriftSummary, Event, EventRow};
use crate::text::{decimal, decimal_text, same};

verus! {

/// The timeline has at most this many rows.
pub const TIMELINE_CAP: usize = 500;

/// A row of the timeline. Its kind is one of the journal's.
#[derive(Debug)]
pub struct TimelineRow {
    pub ts: u64,
    pub kind: String,
    pub target: Option<String>,
    pub machine: String,
    pub class: Option<String>,
}

/// A row, as the model has it.
#[verifier::ext_equal]
pub struct Row {
    pub ts: u64,
    pub kind: Seq<char>,
    pub target: Option<Seq<char>>,
    pub machine: Seq<char>,
    pub class: Option<Seq<char>>,
}

impl View for TimelineRow {
    type V = Row;

    open spec fn view(&self) -> Row {
        Row {
            ts: self.ts,
            kind: self.kind@,
            target: optional(self.target),
            machine: self.machine@,
            class: optional(self.class),
        }
    }
}

impl Clone for TimelineRow {
    fn clone(&self) -> (r: Self)
        ensures
            r@ == self@,
    {
        TimelineRow {
            ts: self.ts,
            kind: self.kind.clone(),
            target: copy_text(&self.target),
            machine: self.machine.clone(),
            class: copy_text(&self.class),
        }
    }
}

pub open spec fn rows_of(v: Seq<TimelineRow>) -> Seq<Row> {
    v.map_values(|r: TimelineRow| r@)
}

#[derive(Debug)]
pub struct SyncModel {
    /// The drifted targets, none of them twice.
    pub drifted: Vec<DriftSummary>,
    pub in_sync: u64,
    pub degraded: Option<String>,
    /// The newest row first.
    pub timeline: Vec<TimelineRow>,
    pub last_fetch_ts: Option<u64>,
    pub connected: bool,
    /// The daemon starts, or scans: nothing is known to be in sync.
    pub scanning: bool,
}

/// The state, as the model has it.
#[verifier::ext_equal]
pub struct State {
    pub drifted: Seq<Drift>,
    pub in_sync: u64,
    pub degraded: Option<Seq<char>>,
    pub timeline: Seq<Row>,
    pub last_fetch_ts: Option<u64>,
    pub connected: bool,
    pub scanning: bool,
}

impl View for SyncModel {
    type V = State;

    open spec fn view(&self) -> State {
        State {
            drifted: drifts(self.drifted@),
            in_sync: self.in_sync,
            degraded: optional(self.degraded),
            timeline: rows_of(self.timeline@),
            last_fetch_ts: self.last_fetch_ts,
            connected: self.connected,
            scanning: self.scanning,
        }
    }
}

/// No target is there twice.
pub open spec fn unique(d: Seq<Drift>) -> bool {
    forall|j: int, k: int|
        #![trigger d[j], d[k]]
        0 <= j < k < d.len() ==> !same_path(d[j].target, d[k].target)
}

/// The invariant of the state.
pub open spec fn sound(s: State) -> bool {
    unique(s.drifted) && s.timeline.len() <= TIMELINE_CAP
}

/// The place of a target from `k` on.
pub open spec fn place(d: Seq<Drift>, target: Seq<char>, k: int) -> Option<int>
    decreases d.len() - k,
{
    if k < 0 || k >= d.len() {
        None
    } else if same_path(d[k].target, target) {
        Some(k)
    } else {
        place(d, target, k + 1)
    }
}

/// The drifted targets, but for one.
pub open spec fn without(d: Seq<Drift>, target: Seq<char>) -> Seq<Drift>
    decreases d.len(),
{
    if d.len() == 0 {
        d
    } else {
        let front = without(d.drop_last(), target);
        if same_path(d.last().target, target) {
            front
        } else {
            front.push(d.last())
        }
    }
}

/// Whether it is news that a target has drifted: it had not, or its class was another.
pub open spec fn is_news(d: Seq<Drift>, target: Seq<char>, class: Seq<char>) -> bool {
    match place(d, target, 0) {
        Some(k) => d[k].class != class,
        None => true,
    }
}

/// The drifted targets, with what is known of one of them. A class that was known stays since
/// when it was.
pub open spec fn upserted(d: Seq<Drift>, target: Seq<char>, class: Seq<char>, ts: u64) -> Seq<
    Drift,
> {
    match place(d, target, 0) {
        Some(k) => if d[k].class == class {
            d
        } else {
            d.update(k, Drift { target: d[k].target, class, since_ts: Some(ts) })
        },
        None => d.push(Drift { target, class, since_ts: Some(ts) }),
    }
}

/// The timeline with a row in front, without what is too much.
pub open spec fn with_row(t: Seq<Row>, row: Row) -> Seq<Row> {
    let all = seq![row] + t;
    if all.len() > TIMELINE_CAP {
        all.take(TIMELINE_CAP as int)
    } else {
        all
    }
}

/// The journal's kind for a class of drift.
pub open spec fn kind_of_class(class: Seq<char>) -> Seq<char> {
    if class == "remote_ahead"@ {
        "remote_advanced"@
    } else if class == "source_ahead"@ || class == "local_source_diverged"@ {
        "source_changed"@
    } else if class == "eval_failed"@ {
        "eval_failed"@
    } else {
        "dest_changed"@
    }
}

/// The journal's kind for a class of drift.
pub fn kind_for_class(class: &str) -> (r: &'static str)
    ensures
        r@ == kind_of_class(class@),
{
    if same(class, "remote_ahead") {
        "remote_advanced"
    } else if same(class, "source_ahead") || same(class, "local_source_diverged") {
        "source_changed"
    } else if same(class, "eval_failed") {
        "eval_failed"
    } else {
        "dest_changed"
    }
}

/// A row about this machine.
pub open spec fn local_row(
    ts: u64,
    kind: Seq<char>,
    target: Option<Seq<char>>,
    class: Option<Seq<char>>,
) -> Row {
    Row { ts, kind, target, machine: "local"@, class }
}

fn local_timeline_row(
    ts: u64,
    kind: &str,
    target: Option<String>,
    class: Option<String>,
) -> (r: TimelineRow)
    ensures
        r@ == local_row(ts, kind@, optional(target), optional(class)),
{
    TimelineRow { ts, kind: kind.to_owned(), target, machine: "local".to_owned(), class }
}

/// What an event makes of the state. Only news about drift make a row: what is seen again does
/// not, and what is in sync again does not either.
pub open spec fn applied(s: State, ev: Event) -> State {
    match ev {
        Event::Drift { target, class, ts } => if class@ == "in_sync"@ {
            State { drifted: without(s.drifted, target@), ..s }
        } else {
            State {
                drifted: upserted(s.drifted, target@, class@, ts),
                timeline: if is_news(s.drifted, target@, class@) {
                    with_row(
                        s.timeline,
                        local_row(ts, kind_of_class(class@), Some(target@), Some(class@)),
                    )
                } else {
                    s.timeline
                },
                ..s
            }
        },
        Event::EvalFailed { target, hint: _, ts } => {
            let row = local_row(ts, "eval_failed"@, optional(target), Some("eval_failed"@));
            match target {
                None => State { timeline: with_row(s.timeline, row), ..s },
                Some(t) => State {
                    drifted: upserted(s.drifted, t@, "eval_failed"@, ts),
                    timeline: if is_news(s.drifted, t@, "eval_failed"@) {
                        with_row(s.timeline, row)
                    } else {
                        s.timeline
                    },
                    ..s
                },
            }
        },
        Event::LeftManagement { target, ts } => State {
            drifted: without(s.drifted, target@),
            timeline: with_row(
                s.timeline,
                local_row(ts, "left_management"@, Some(target@), None),
            ),
            ..s
        },
        Event::FetchDone { ts, behind: _ } => State {
            last_fetch_ts: Some(ts),
            timeline: with_row(s.timeline, local_row(ts, "fetch"@, None, None)),
            ..s
        },
        Event::ScanDone { ts: _, drifted } => if drifted == 0 {
            State { drifted: seq![], ..s }
        } else {
            s
        },
        Event::RemoteAdvanced { target, ts } => State {
            timeline: with_row(
                s.timeline,
                local_row(ts, "remote_advanced"@, Some(target@), None),
            ),
            ..s
        },
    }
}

/// The drifted targets of a status reply among the first `n`, the first of those that are there
/// twice.
pub open spec fn deduped(d: Seq<Drift>, n: int) -> Seq<Drift>
    decreases n,
{
    if n <= 0 {
        seq![]
    } else {
        let front = deduped(d, n - 1);
        if place(front, d[n - 1].target, 0) is Some {
            front
        } else {
            front.push(d[n - 1])
        }
    }
}

/// What a status reply makes of the state. The zeros of a scan that has just begun do not
/// replace what is known.
pub open spec fn hydrated(
    s: State,
    drifted: Seq<Drift>,
    in_sync: u64,
    degraded: Option<Seq<char>>,
    scanning: bool,
) -> State {
    if scanning && drifted.len() == 0 && in_sync == 0 && (s.drifted.len() > 0 || s.in_sync > 0) {
        State { degraded, scanning, ..s }
    } else {
        State {
            drifted: deduped(drifted, drifted.len() as int),
            in_sync,
            degraded,
            scanning,
            ..s
        }
    }
}

/// The row of the timeline for a row of the journal.
pub open spec fn row_of(r: EventRow) -> Row {
    Row {
        ts: r.ts,
        kind: r.kind@,
        target: optional(r.target),
        machine: r.machine@,
        class: match r.meta {
            Some(m) => text_member(m, "class"@),
            None => None,
        },
    }
}

/// How many rows of the journal are shown.
pub open spec fn shown(rows: nat) -> nat {
    if rows < TIMELINE_CAP {
        rows
    } else {
        TIMELINE_CAP as nat
    }
}

// ---------------------------------------------------------------------------
// Soundness

pub proof fn lemma_place(d: Seq<Drift>, target: Seq<char>, k: int)
    requires
        0 <= k,
    ensures
        match place(d, target, k) {
            Some(j) => {
                &&& k <= j < d.len()
                &&& same_path(d[j].target, target)
                &&& forall|i: int| k <= i < j ==> !same_path(#[trigger] d[i].target, target)
            },
            None => forall|i: int|
                k <= i < d.len() ==> !same_path(#[trigger] d[i].target, target),
        },
    decreases d.len() - k,
{
    if k < d.len() {
        lemma_place(d, target, k + 1);
    }
}

pub proof fn lemma_without(d: Seq<Drift>, target: Seq<char>)
    ensures
        unique(d) ==> unique(without(d, target)),
        without(d, target).len() <= d.len(),
        forall|k: int|
            0 <= k < without(d, target).len() ==> {
                &&& !same_path(#[trigger] without(d, target)[k].target, target)
                &&& d.contains(without(d, target)[k])
            },
        forall|k: int|
            0 <= k < d.len() && !same_path(#[trigger] d[k].target, target) ==> without(
                d,
                target,
            ).contains(d[k]),
    decreases d.len(),
{
    if d.len() > 0 {
        let front = d.drop_last();
        lemma_without(front, target);
        let out = without(d, target);
        let kept = without(front, target);
        assert forall|k: int| 0 <= k < out.len() implies {
            &&& !same_path(#[trigger] out[k].target, target)
            &&& d.contains(out[k])
        } by {
            if k < kept.len() {
                assert(out[k] == kept[k]);
                let j = choose|j: int| 0 <= j < front.len() && front[j] == kept[k];
                assert(d[j] == out[k]);
            } else {
                assert(d[d.len() - 1] == out[k]);
            }
        }
        assert forall|k: int|
            0 <= k < d.len() && !same_path(#[trigger] d[k].target, target) implies out.contains(
            d[k],
        ) by {
            if k < front.len() {
                assert(front[k] == d[k]);
                let j = choose|j: int| 0 <= j < kept.len() && kept[j] == front[k];
                assert(out[j] == d[k]);
            } else {
                assert(out[out.len() - 1] == d[k]);
            }
        }
        if unique(d) {
            assert(unique(front)) by {
                assert forall|j: int, k: int|
                    #![trigger front[j], front[k]]
                    0 <= j < k < front.len() implies !same_path(
                    front[j].target,
                    front[k].target,
                ) by {
                    assert(front[j] == d[j] && front[k] == d[k]);
                }
            }
            assert forall|j: int, k: int|
                #![trigger out[j], out[k]]
                0 <= j < k < out.len() implies !same_path(out[j].target, out[k].target) by {
                assert(out[j] == kept[j]);
                if k < kept.len() {
                    assert(out[k] == kept[k]);
                } else {
                    let i = choose|i: int| 0 <= i < front.len() && front[i] == kept[j];
                    assert(d[i] == out[j] && d[d.len() - 1] == out[k]);
                }
            }
        }
    }
}

proof fn lemma_upserted(d: Seq<Drift>, target: Seq<char>, class: Seq<char>, ts: u64)
    requires
        unique(d),
    ensures
        unique(upserted(d, target, class, ts)),
{
    lemma_place(d, target, 0);
    let out = upserted(d, target, class, ts);
    assert forall|j: int, k: int|
        #![trigger out[j], out[k]]
        0 <= j < k < out.len() implies !same_path(out[j].target, out[k].target) by {
        match place(d, target, 0) {
            Some(i) => {
                assert(out[j].target == d[j].target && out[k].target == d[k].target);
            },
            None => {
                assert(out[j] == d[j]);
                if k < d.len() {
                    assert(out[k] == d[k]);
                }
            },
        }
    }
}

proof fn lemma_deduped(d: Seq<Drift>, n: int)
    requires
        n <= d.len(),
    ensures
        unique(deduped(d, n)),
    decreases n,
{
    if n > 0 {
        lemma_deduped(d, n - 1);
        let front = deduped(d, n - 1);
        lemma_place(front, d[n - 1].target, 0);
        let out = deduped(d, n);
        assert forall|j: int, k: int|
            #![trigger out[j], out[k]]
            0 <= j < k < out.len() implies !same_path(out[j].target, out[k].target) by {
            assert(out[j] == front[j]);
            if k < front.len() {
                assert(out[k] == front[k]);
            }
        }
    }
}

/// Every event keeps the drifted targets unique and the timeline within its limit.
pub proof fn law_events_keep_the_state_sound(s: State, ev: Event)
    requires
        sound(s),
    ensures
        sound(applied(s, ev)),
{
    match ev {
        Event::Drift { target, class, ts } => {
            lemma_without(s.drifted, target@);
            lemma_upserted(s.drifted, target@, class@, ts);
        },
        Event::EvalFailed { target, hint: _, ts } => match target {
            Some(t) => {
                lemma_upserted(s.drifted, t@, "eval_failed"@, ts);
            },
            None => {},
        },
        Event::LeftManagement { target, ts: _ } => {
            lemma_without(s.drifted, target@);
        },
        _ => {},
    }
}

/// A status reply, whatever it holds, keeps them so too.
pub proof fn law_status_replies_keep_the_state_sound(
    s: State,
    drifted: Seq<Drift>,
    in_sync: u64,
    degraded: Option<Seq<char>>,
    scanning: bool,
)
    requires
        sound(s),
    ensures
        sound(hydrated(s, drifted, in_sync, degraded, scanning)),
{
    lemma_deduped(drifted, drifted.len() as int);
}

/// The same event again is no news: what was seen once makes no second row, and leaves the
/// drifted targets as they are.
pub proof fn law_seen_drift_is_no_news(s: State, target: String, class: String, ts: u64, later: u64)
    requires
        class@ != "in_sync"@,
    ensures
        ({
            let once = applied(s, Event::Drift { target, class, ts });
            applied(once, Event::Drift { target, class, ts: later }) == once
        }),
{
    let d = s.drifted;
    lemma_place(d, target@, 0);
    let once = upserted(d, target@, class@, ts);
    lemma_place(once, target@, 0);
    match place(d, target@, 0) {
        Some(k) => {
            assert(once[k].target == d[k].target);
            assert forall|i: int| 0 <= i < k implies !same_path(
                #[trigger] once[i].target,
                target@,
            ) by {
                assert(once[i].target == d[i].target);
            }
            assert(place(once, target@, 0) == Some(k));
        },
        None => {
            assert(once[d.len() as int].target == target@);
            assert forall|i: int| 0 <= i < d.len() implies !same_path(
                #[trigger] once[i].target,
                target@,
            ) by {
                assert(once[i] == d[i]);
            }
            assert(place(once, target@, 0) == Some(d.len() as int));
        },
    }
    assert(applied(
        applied(s, Event::Drift { target, class, ts }),
        Event::Drift { target, class, ts: later },
    ) =~= applied(s, Event::Drift { target, class, ts }));
}

/// What is in sync again, or left management, is no longer drifted; all else still is.
pub proof fn law_what_is_in_sync_is_not_drifted(s: State, target: Seq<char>)
    ensures
        forall|k: int|
            0 <= k < without(s.drifted, target).len() ==> !same_path(
                #[trigger] without(s.drifted, target)[k].target,
                target,
            ),
        forall|k: int|
            0 <= k < s.drifted.len() && !same_path(#[trigger] s.drifted[k].target, target)
                ==> without(s.drifted, target).contains(s.drifted[k]),
{
    lemma_without(s.drifted, target);
}

// ---------------------------------------------------------------------------
// What is shown

/// A class that needs somebody to decide.
pub open spec fn wants_attention(class: Seq<char>) -> bool {
    class == "conflict"@ || class == "local_source_diverged"@ || class == "eval_failed"@
}

/// How many of the first `n` need somebody to decide.
pub open spec fn attention(d: Seq<Drift>, n: int) -> nat
    decreases n,
{
    if n <= 0 {
        0
    } else {
        attention(d, n - 1) + if wants_attention(d[n - 1].class) {
            1
        } else {
            0nat
        }
    }
}

/// The title of the status item: the app's mark, with how many targets need somebody.
pub open spec fn title_of(s: State) -> Seq<char> {
    let n = attention(s.drifted, s.drifted.len() as int);
    if !s.connected || s.scanning {
        "cz …"@
    } else if n == 0 {
        "cz"@
    } else {
        "cz ●"@ + decimal(n)
    }
}

/// How long ago something was, in words. What lies ahead is now.
pub open spec fn ago(now: u64, ts: u64) -> Seq<char> {
    let delta = if now >= ts {
        (now - ts) as nat
    } else {
        0
    };
    if delta < 60 {
        "just now"@
    } else if delta < 3_600 {
        decimal(delta / 60) + "m ago"@
    } else if delta < 86_400 {
        decimal(delta / 3_600) + "h ago"@
    } else {
        decimal(delta / 86_400) + "d ago"@
    }
}

/// How long ago something was, in words.
pub fn time_ago(now_ts: u64, ts: u64) -> (r: String)
    ensures
        r@ == ago(now_ts, ts),
{
    let delta: u64 = if now_ts >= ts {
        now_ts - ts
    } else {
        0
    };
    if delta < 60 {
        "just now".to_owned()
    } else if delta < 3_600 {
        let mut s = decimal_text(delta / 60);
        s.append("m ago");
        s
    } else if delta < 86_400 {
        let mut s = decimal_text(delta / 3_600);
        s.append("h ago");
        s
    } else {
        let mut s = decimal_text(delta / 86_400);
        s.append("d ago");
        s
    }
}

/// The first line of the menu.
pub open spec fn header_of(s: State) -> Seq<char> {
    let n = attention(s.drifted, s.drifted.len() as int);
    if !s.connected {
        "chezmoid not connected"@
    } else if s.scanning {
        "scanning…"@
    } else if s.drifted.len() == 0 {
        "All in sync · "@ + decimal(s.in_sync as nat) + " files"@
    } else if n == 0 {
        decimal(s.drifted.len()) + " drifted"@
    } else {
        decimal(s.drifted.len()) + " drifted · "@ + decimal(n) + " need attention"@
    }
}

/// How fresh the state of the remote is.
pub open spec fn freshness_of(s: State, now: u64) -> Seq<char> {
    match s.last_fetch_ts {
        None => "origin: never fetched"@,
        Some(ts) => "origin: fetched "@ + ago(now, ts),
    }
}

/// All is clean, and known to be: nothing has drifted, nothing is being scanned, nothing could
/// not be evaluated, and the daemon is there.
pub open spec fn may_sync_all(s: State) -> bool {
    s.drifted.len() == 0 && s.connected && !s.scanning && s.degraded is None
}

impl Default for SyncModel {
    fn default() -> (r: Self)
        ensures
            sound(r@),
            r@ == (State {
                drifted: seq![],
                in_sync: 0,
                degraded: None,
                timeline: seq![],
                last_fetch_ts: None,
                connected: false,
                scanning: false,
            }),
    {
        let r = SyncModel {
            drifted: Vec::new(),
            in_sync: 0,
            degraded: None,
            timeline: Vec::new(),
            last_fetch_ts: None,
            connected: false,
            scanning: false,
        };
        assert(r@.drifted =~= seq![]);
        assert(r@.timeline =~= seq![]);
        r
    }
}

/// The place of a target in a list.
fn find_drift(v: &Vec<DriftSummary>, target: &str) -> (r: Option<usize>)
    ensures
        match r {
            Some(k) => place(drifts(v@), target@, 0) == Some(k as int) && k < v@.len(),
            None => place(drifts(v@), target@, 0) is None,
        },
{
    let mut i: usize = 0;
    while i < v.len()
        invariant
            i <= v@.len(),
            place(drifts(v@), target@, 0) == place(drifts(v@), target@, i as int),
        decreases v@.len() - i,
    {
        assert(drifts(v@)[i as int] == v@[i as int]@);
        if is_same_path(v[i].target.as_str(), target) {
            return Some(i);
        }
        i = i + 1;
    }
    None
}

fn remove_drift(v: &mut Vec<DriftSummary>, target: &str)
    ensures
        drifts(final(v)@) == without(drifts(old(v)@), target@),
{
    let ghost all = drifts(v@);
    let mut i: usize = 0;
    let ghost mut seen: int = 0;
    while i < v.len()
        invariant
            0 <= seen <= all.len(),
            i <= v@.len(),
            v@.len() - i == all.len() - seen,
            drifts(v@).take(i as int) == without(all.take(seen), target@),
            drifts(v@).skip(i as int) == all.skip(seen),
        decreases v@.len() - i,
    {
        let ghost before = drifts(v@);
        proof {
            assert(before.skip(i as int)[0] == before[i as int]);
            assert(all.skip(seen)[0] == all[seen]);
            assert(before[i as int] == v@[i as int]@);
            assert(all.take(seen + 1).drop_last() =~= all.take(seen));
            assert(all.skip(seen + 1) =~= all.skip(seen).drop_first());
            assert(before.skip(i + 1) =~= before.skip(i as int).drop_first());
        }
        if is_same_path(v[i].target.as_str(), target) {
            v.remove(i);
            proof {
                assert(drifts(v@) =~= before.remove(i as int));
                assert(drifts(v@).take(i as int) =~= before.take(i as int));
                assert(drifts(v@).skip(i as int) =~= before.skip(i + 1));
            }
        } else {
            proof {
                assert(before.take(i + 1) =~= before.take(i as int).push(before[i as int]));
            }
            i = i + 1;
        }
        proof {
            seen = seen + 1;
        }
    }
    assert(drifts(v@).take(i as int) =~= drifts(v@));
    assert(all.take(seen) =~= all);
}

impl SyncModel {
    /// Takes a status reply in.
    pub fn hydrate_status(
        &mut self,
        drifted: Vec<DriftSummary>,
        in_sync: u64,
        degraded: Option<String>,
        scanning: bool,
    )
        ensures
            final(self)@ == hydrated(
                old(self)@,
                drifts(drifted@),
                in_sync,
                optional(degraded),
                scanning,
            ),
    {
        self.scanning = scanning;
        if scanning && drifted.len() == 0 && in_sync == 0 && (self.drifted.len() > 0
            || self.in_sync > 0) {
            self.degraded = degraded;
            return ;
        }
        let ghost all = drifts(drifted@);
        let mut kept: Vec<DriftSummary> = Vec::new();
        let mut i: usize = 0;
        assert(drifts(kept@) =~= seq![]);
        while i < drifted.len()
            invariant
                all == drifts(drifted@),
                i <= drifted@.len(),
                drifts(kept@) == deduped(all, i as int),
            decreases drifted@.len() - i,
        {
            let ghost had = drifts(kept@);
            assert(all[i as int] == drifted@[i as int]@);
            if find_drift(&kept, drifted[i].target.as_str()).is_none() {
                kept.push(drifted[i].clone());
                assert(drifts(kept@) =~= had.push(all[i as int]));
            }
            i = i + 1;
        }
        self.drifted = kept;
        self.in_sync = in_sync;
        self.degraded = degraded;
    }

    /// Takes rows of the journal in, the newest first.
    pub fn hydrate_timeline(&mut self, rows: Vec<EventRow>)
        ensures
            final(self)@ == (State {
                timeline: Seq::new(shown(rows@.len()), |k: int| row_of(rows@[k])),
                ..old(self)@
            }),
    {
        let mut out: Vec<TimelineRow> = Vec::new();
        let mut i: usize = 0;
        while i < rows.len() && i < TIMELINE_CAP
            invariant
                i <= rows@.len(),
                i <= TIMELINE_CAP,
                out@.len() == i,
                forall|k: int| 0 <= k < i ==> #[trigger] out@[k]@ == row_of(rows@[k]),
            decreases rows@.len() - i,
        {
            let r = &rows[i];
            let class = match &r.meta {
                Some(m) => match m.get_text("class") {
                    Some(t) => Some(t.clone()),
                    None => None,
                },
                None => None,
            };
            out.push(
                TimelineRow {
                    ts: r.ts,
                    kind: r.kind.clone(),
                    target: copy_text(&r.target),
                    machine: r.machine.clone(),
                    class,
                },
            );
            i = i + 1;
        }
        self.timeline = out;
        assert(rows_of(self.timeline@) =~= Seq::new(
            shown(rows@.len()),
            |k: int| row_of(rows@[k]),
        ));
    }

    fn upsert_drift(&mut self, target: &str, class: &str, ts: u64) -> (r: bool)
        ensures
            r == is_news(old(self)@.drifted, target@, class@),
            final(self)@ == (State {
                drifted: upserted(old(self)@.drifted, target@, class@, ts),
                ..old(self)@
            }),
    {
        let ghost had = drifts(self.drifted@);
        match find_drift(&self.drifted, target) {
            Some(k) => {
                assert(had[k as int] == self.drifted@[k as int]@);
                if same(self.drifted[k].class.as_str(), class) {
                    return false;
                }
                let changed = DriftSummary {
                    target: self.drifted[k].target.clone(),
                    class: class.to_owned(),
                    since_ts: Some(ts),
                };
                let ghost c = changed@;
                self.drifted.set(k, changed);
                assert(drifts(self.drifted@) =~= had.update(k as int, c));
                true
            },
            None => {
                let new = DriftSummary {
                    target: target.to_owned(),
                    class: class.to_owned(),
                    since_ts: Some(ts),
                };
                let ghost c = new@;
                self.drifted.push(new);
                assert(drifts(self.drifted@) =~= had.push(c));
                true
            },
        }
    }

    fn push_row(&mut self, row: TimelineRow)
        requires
            old(self).timeline@.len() <= TIMELINE_CAP,
        ensures
            final(self)@ == (State {
                timeline: with_row(old(self)@.timeline, row@),
                ..old(self)@
            }),
    {
        let ghost had = rows_of(self.timeline@);
        let ghost r = row@;
        self.timeline.insert(0, row);
        assert(rows_of(self.timeline@) =~= seq![r] + had);
        if self.timeline.len() > TIMELINE_CAP {
            self.timeline.truncate(TIMELINE_CAP);
            assert(rows_of(self.timeline@) =~= (seq![r] + had).take(TIMELINE_CAP as int));
        }
    }

    /// Takes what the daemon pushed in.
    pub fn apply_event(&mut self, ev: Event)
        requires
            sound(old(self)@),
        ensures
            final(self)@ == applied(old(self)@, ev),
            sound(final(self)@),
    {
        proof {
            law_events_keep_the_state_sound(self@, ev);
        }
        assert(self@.timeline.len() == self.timeline@.len());
        match ev {
            Event::Drift { target, class, ts } => {
                if same(class.as_str(), "in_sync") {
                    remove_drift(&mut self.drifted, target.as_str());
                    return ;
                }
                if self.upsert_drift(target.as_str(), class.as_str(), ts) {
                    let kind = kind_for_class(class.as_str());
                    self.push_row(local_timeline_row(ts, kind, Some(target), Some(class)));
                }
            },
            Event::EvalFailed { target, hint: _, ts } => {
                let is_news = match &target {
                    Some(t) => self.upsert_drift(t.as_str(), "eval_failed", ts),
                    None => true,
                };
                if is_news {
                    self.push_row(
                        local_timeline_row(
                            ts,
                            "eval_failed",
                            target,
                            Some("eval_failed".to_owned()),
                        ),
                    );
                }
            },
            Event::LeftManagement { target, ts } => {
                remove_drift(&mut self.drifted, target.as_str());
                self.push_row(local_timeline_row(ts, "left_management", Some(target), None));
            },
            Event::FetchDone { ts, behind: _ } => {
                self.last_fetch_ts = Some(ts);
                self.push_row(local_timeline_row(ts, "fetch", None, None));
            },
            Event::ScanDone { ts: _, drifted } => {
                if drifted == 0 {
                    self.drifted.clear();
                    assert(self@.drifted =~= seq![]);
                }
            },
            Event::RemoteAdvanced { target, ts } => {
                self.push_row(local_timeline_row(ts, "remote_advanced", Some(target), None));
            },
        }
    }

    /// Takes note that a target was resolved: it is in sync until the next scan tells otherwise.
    pub fn confirm_resolved(&mut self, target: &str)
        ensures
            final(self)@ == (State {
                drifted: without(old(self)@.drifted, target@),
                ..old(self)@
            }),
    {
        remove_drift(&mut self.drifted, target);
    }

    /// How many drifted targets need somebody to decide.
    pub fn needs_attention(&self) -> (r: usize)
        ensures
            r == attention(self@.drifted, self@.drifted.len() as int),
            r <= self@.drifted.len(),
    {
        let mut n: usize = 0;
        let mut i: usize = 0;
        while i < self.drifted.len()
            invariant
                i <= self.drifted@.len(),
                n <= i,
                n == attention(self@.drifted, i as int),
            decreases self.drifted@.len() - i,
        {
            let class = self.drifted[i].class.as_str();
            assert(self@.drifted[i as int].class == class@);
            if same(class, "conflict") || same(class, "local_source_diverged") || same(
                class,
                "eval_failed",
            ) {
                n = n + 1;
            }
            i = i + 1;
        }
        assert(self@.drifted.len() == self.drifted@.len());
        n
    }

    /// The title of the status item.
    pub fn status_title(&self) -> (r: String)
        ensures
            r@ == title_of(self@),
    {
        let n: usize = self.needs_attention();
        if !self.connected || self.scanning {
            "cz …".to_owned()
        } else if n == 0 {
            "cz".to_owned()
        } else {
            let mut s = "cz ●".to_owned();
            s.append(decimal_text(n as u64).as_str());
            s
        }
    }

    fn header(&self) -> (r: String)
        ensures
            r@ == header_of(self@),
    {
        let n: usize = self.needs_attention();
        assert(self@.drifted.len() == self.drifted@.len());
        if !self.connected {
            "chezmoid not connected".to_owned()
        } else if self.scanning {
            "scanning…".to_owned()
        } else if self.drifted.len() == 0 {
            let mut s = "All in sync · ".to_owned();
            s.append(decimal_text(self.in_sync).as_str());
            s.append(" files");
            s
        } else {
            let mut s = decimal_text(self.drifted.len() as u64);
            if n == 0 {
                s.append(" drifted");
            } else {
                s.append(" drifted · ");
                s.append(decimal_text(n as u64).as_str());
                s.append(" need attention");
            }
            s
        }
    }

    /// What the menu shows: its first line, how fresh the state of the remote is, what leads to
    /// the review, and whether everything may be synced.
    pub fn menu_spec(&self, now_ts: u64) -> (r: (String, String, Option<String>, bool))
        ensures
            r.0@ == header_of(self@),
            r.1@ == freshness_of(self@, now_ts),
            optional(r.2) == if self@.drifted.len() == 0 {
                None
            } else {
                Some("Review "@ + decimal(self@.drifted.len()) + "…"@)
            },
            r.3 == may_sync_all(self@),
    {
        let header = self.header();
        assert(self@.drifted.len() == self.drifted@.len());
        let freshness = match self.last_fetch_ts {
            None => "origin: never fetched".to_owned(),
            Some(ts) => {
                let mut s = "origin: fetched ".to_owned();
                s.append(time_ago(now_ts, ts).as_str());
                s
            },
        };
        let review_label = if self.drifted.len() == 0 {
            None
        } else {
            let mut s = "Review ".to_owned();
            s.append(decimal_text(self.drifted.len() as u64).as_str());
            s.append("…");
            Some(s)
        };
        let sync_all_enabled = self.drifted.len() == 0 && self.connected && !self.scanning
            && self.degraded.is_none();
        (header, freshness, review_label, sync_all_enabled)
    }
}

// ---------------------------------------------------------------------------
// The timeline in groups

/// An item of the timeline: a row, or rows that say little on their own.
#[derive(Debug)]
pub enum TimelineItem {
    Row(TimelineRow),
    ScanGroup { count: usize, newest_ts: u64, rows: Vec<TimelineRow> },
}

/// An item, as the model has it.
pub enum Item {
    One(Row),
    Group { count: nat, newest_ts: u64, rows: Seq<Row> },
}

impl View for TimelineItem {
    type V = Item;

    open spec fn view(&self) -> Item {
        match *self {
            TimelineItem::Row(r) => Item::One(r@),
            TimelineItem::ScanGroup { count, newest_ts, rows } => Item::Group {
                count: count as nat,
                newest_ts,
                rows: rows_of(rows@),
            },
        }
    }
}

pub open spec fn items_of(v: Seq<TimelineItem>) -> Seq<Item> {
    v.map_values(|i: TimelineItem| i@)
}

/// A row about no target and of no class: a scan, or a fetch.
pub open spec fn is_info(r: Row) -> bool {
    r.target is None && r.class is None
}

/// How many rows in front are of that kind.
pub open spec fn info_run(rows: Seq<Row>) -> nat
    decreases rows.len(),
{
    if rows.len() > 0 && is_info(rows[0]) {
        1 + info_run(rows.drop_first())
    } else {
        0
    }
}

/// The rows, where two or more such rows that follow each other are one item.
pub open spec fn grouped(rows: Seq<Row>) -> Seq<Item>
    decreases rows.len(),
{
    if rows.len() == 0 {
        seq![]
    } else {
        proof {
            lemma_info_run(rows);
        }
        let k = info_run(rows);
        if k < 2 {
            seq![Item::One(rows[0])] + grouped(rows.drop_first())
        } else {
            seq![Item::Group { count: k, newest_ts: rows[0].ts, rows: rows.take(k as int) }]
                + grouped(rows.skip(k as int))
        }
    }
}

pub proof fn lemma_info_run(rows: Seq<Row>)
    ensures
        info_run(rows) <= rows.len(),
        forall|i: int| 0 <= i < info_run(rows) ==> is_info(#[trigger] rows[i]),
        info_run(rows) < rows.len() ==> !is_info(rows[info_run(rows) as int]),
    decreases rows.len(),
{
    if rows.len() > 0 && is_info(rows[0]) {
        let rest = rows.drop_first();
        lemma_info_run(rest);
        assert forall|i: int| 0 <= i < info_run(rows) implies is_info(#[trigger] rows[i]) by {
            if i > 0 {
                assert(rows[i] == rest[i - 1]);
            }
        }
        if info_run(rows) < rows.len() {
            assert(rows[info_run(rows) as int] == rest[info_run(rest) as int]);
        }
    }
}

/// The rows of the items.
pub open spec fn ungrouped(items: Seq<Item>) -> Seq<Row>
    decreases items.len(),
{
    if items.len() == 0 {
        seq![]
    } else {
        (match items[0] {
            Item::One(r) => seq![r],
            Item::Group { count: _, newest_ts: _, rows } => rows,
        }) + ungrouped(items.drop_first())
    }
}

/// Grouping loses no row and changes no order; a group holds two rows or more, all of them
/// scans or fetches, and is known by the newest.
pub proof fn law_groups_hold_all_rows(rows: Seq<Row>)
    ensures
        ungrouped(grouped(rows)) == rows,
        forall|i: int|
            0 <= i < grouped(rows).len() ==> match #[trigger] grouped(rows)[i] {
                Item::One(_) => true,
                Item::Group { count, newest_ts, rows: g } => {
                    &&& count == g.len() >= 2
                    &&& newest_ts == g[0].ts
                    &&& forall|j: int| 0 <= j < g.len() ==> is_info(#[trigger] g[j])
                },
            },
    decreases rows.len(),
{
    if rows.len() > 0 {
        lemma_info_run(rows);
        let k = info_run(rows);
        let n: int = if k < 2 {
            1
        } else {
            k as int
        };
        let rest = rows.skip(n);
        assert(rows.drop_first() =~= rows.skip(1));
        law_groups_hold_all_rows(rest);
        let items = grouped(rows);
        assert(items.drop_first() =~= grouped(rest));
        assert(rows =~= rows.take(n) + rest);
        if k < 2 {
            assert(rows.take(1) =~= seq![rows[0]]);
        }
        assert forall|i: int| 0 <= i < items.len() implies match #[trigger] items[i] {
            Item::One(_) => true,
            Item::Group { count, newest_ts, rows: g } => {
                &&& count == g.len() >= 2
                &&& newest_ts == g[0].ts
                &&& forall|j: int| 0 <= j < g.len() ==> is_info(#[trigger] g[j])
            },
        } by {
            if i > 0 {
                assert(items[i] == grouped(rest)[i - 1]);
            }
        }
    }
}

fn run_from(rows: &Vec<TimelineRow>, from: usize) -> (r: usize)
    requires
        from <= rows@.len(),
    ensures
        r == info_run(rows_of(rows@).skip(from as int)),
        from + r <= rows@.len(),
{
    let ghost all = rows_of(rows@);
    let mut k: usize = from;
    while k < rows.len() && rows[k].target.is_none() && rows[k].class.is_none()
        invariant
            all == rows_of(rows@),
            from <= k <= rows@.len(),
            info_run(all.skip(from as int)) == (k - from) + info_run(all.skip(k as int)),
        decreases rows@.len() - k,
    {
        proof {
            assert(all.skip(k as int)[0] == all[k as int]);
            assert(all[k as int] == rows@[k as int]@);
            assert(all.skip(k as int).drop_first() =~= all.skip(k + 1));
        }
        k = k + 1;
    }
    proof {
        if k < rows.len() {
            assert(all.skip(k as int)[0] == all[k as int]);
            assert(all[k as int] == rows@[k as int]@);
        }
        lemma_info_run(all.skip(from as int));
    }
    k - from
}

/// The rows, where two or more scans or fetches that follow each other are one item.
pub fn group_timeline(rows: &Vec<TimelineRow>) -> (r: Vec<TimelineItem>)
    ensures
        items_of(r@) == grouped(rows_of(rows@)),
{
    let ghost all = rows_of(rows@);
    let mut out: Vec<TimelineItem> = Vec::new();
    let mut i: usize = 0;
    assert(all.skip(0) =~= all);
    assert(items_of(out@) =~= seq![]);
    while i < rows.len()
        invariant
            all == rows_of(rows@),
            i <= rows@.len(),
            items_of(out@) + grouped(all.skip(i as int)) == grouped(all),
        decreases rows@.len() - i,
    {
        let ghost had = items_of(out@);
        let ghost rest = all.skip(i as int);
        let k: usize = run_from(rows, i);
        proof {
            assert(rest[0] == all[i as int]);
            assert(all[i as int] == rows@[i as int]@);
        }
        if k < 2 {
            out.push(TimelineItem::Row(rows[i].clone()));
            proof {
                assert(items_of(out@) =~= had.push(Item::One(rest[0])));
                assert(rest.drop_first() =~= all.skip(i + 1));
                assert(items_of(out@) + grouped(all.skip(i + 1)) =~= had + grouped(rest));
            }
            i = i + 1;
        } else {
            let mut group: Vec<TimelineRow> = Vec::new();
            let len: usize = rows.len();
            let mut j: usize = 0;
            while j < k
                invariant
                    all == rows_of(rows@),
                    i + k <= len,
                    len == rows@.len(),
                    j <= k,
                    group@.len() == j,
                    forall|m: int| 0 <= m < j ==> #[trigger] group@[m]@ == all[i + m],
                decreases k - j,
            {
                assert(all[i + j] == rows@[i + j]@);
                group.push(rows[i + j].clone());
                j = j + 1;
            }
            assert(rows_of(group@) =~= rest.take(k as int));
            let item = TimelineItem::ScanGroup { count: k, newest_ts: rows[i].ts, rows: group };
            let ghost it = item@;
            out.push(item);
            proof {
                assert(items_of(out@) =~= had.push(it));
                assert(rest.skip(k as int) =~= all.skip(i + k));
                assert(items_of(out@) + grouped(all.skip(i + k)) =~= had + grouped(rest));
            }
            i = i + k;
        }
    }
    assert(all.skip(i as int) =~= seq![]);
    assert(items_of(out@) + grouped(all.skip(i as int)) =~= items_of(out@));
    out
}

// ---------------------------------------------------------------------------
// Words

/// A class of drift in words.
pub open spec fn class_words(class: Seq<char>) -> Seq<char> {
    if class == "destination_drift"@ {
        "modified on disk"@
    } else if class == "source_ahead"@ {
        "source updated"@
    } else if class == "remote_ahead"@ {
        "origin ahead"@
    } else if class == "local_source_diverged"@ {
        "diverged from origin"@
    } else if class == "conflict"@ {
        "conflict"@
    } else if class == "eval_failed"@ {
        "can't evaluate"@
    } else if class == "in_sync"@ {
        "in sync"@
    } else {
        "changed"@
    }
}

/// A class of drift in words.
pub fn class_label(class: &str) -> (r: &'static str)
    ensures
        r@ == class_words(class@),
{
    if same(class, "destination_drift") {
        "modified on disk"
    } else if same(class, "source_ahead") {
        "source updated"
    } else if same(class, "remote_ahead") {
        "origin ahead"
    } else if same(class, "local_source_diverged") {
        "diverged from origin"
    } else if same(class, "conflict") {
        "conflict"
    } else if same(class, "eval_failed") {
        "can't evaluate"
    } else if same(class, "in_sync") {
        "in sync"
    } else {
        "changed"
    }
}

/// A kind of event in words.
pub open spec fn kind_words(kind: Seq<char>) -> Seq<char> {
    if kind == "dest_changed"@ {
        "modified on disk"@
    } else if kind == "source_changed"@ {
        "source changed"@
    } else if kind == "remote_advanced"@ {
        "origin advanced"@
    } else if kind == "applied"@ {
        "applied"@
    } else if kind == "readded"@ {
        "re-added"@
    } else if kind == "resolved"@ {
        "resolved"@
    } else if kind == "eval_failed"@ {
        "can't evaluate"@
    } else if kind == "fetch"@ {
        "scan"@
    } else if kind == "left_management"@ {
        "left management"@
    } else if kind == "session_start"@ || kind == "session_end"@ {
        "session"@
    } else {
        "event"@
    }
}

/// A kind of event in words.
pub fn kind_label(kind: &str) -> (r: &'static str)
    ensures
        r@ == kind_words(kind@),
{
    if same(kind, "dest_changed") {
        "modified on disk"
    } else if same(kind, "source_changed") {
        "source changed"
    } else if same(kind, "remote_advanced") {
        "origin advanced"
    } else if same(kind, "applied") {
        "applied"
    } else if same(kind, "readded") {
        "re-added"
    } else if same(kind, "resolved") {
        "resolved"
    } else if same(kind, "eval_failed") {
        "can't evaluate"
    } else if same(kind, "fetch") {
        "scan"
    } else if same(kind, "left_management") {
        "left management"
    } else if same(kind, "session_start") || same(kind, "session_end") {
        "session"
    } else {
        "event"
    }
}

/// The mark of a kind of event.
pub open spec fn glyph_of(kind: Seq<char>) -> Seq<char> {
    if kind == "dest_changed"@ {
        "Δ"@
    } else if kind == "remote_advanced"@ {
        "↓"@
    } else if kind == "applied"@ || kind == "resolved"@ {
        "✓"@
    } else if kind == "eval_failed"@ {
        "⛔"@
    } else if kind == "left_management"@ {
        "−"@
    } else {
        "·"@
    }
}

/// The mark of a kind of event; a dot where it has none of its own.
pub fn kind_glyph(kind: &str) -> (r: &'static str)
    ensures
        r@ == glyph_of(kind@),
{
    if same(kind, "dest_changed") {
        "Δ"
    } else if same(kind, "remote_advanced") {
        "↓"
    } else if same(kind, "applied") || same(kind, "resolved") {
        "✓"
    } else if same(kind, "eval_failed") {
        "⛔"
    } else if same(kind, "left_management") {
        "−"
    } else {
        "·"
    }
}

// ---------------------------------------------------------------------------
// What events and replies do

/// All that is known of other targets stays as it was, and nothing is made up of them.
pub open spec fn others_stay(before: Seq<Drift>, after: Seq<Drift>, target: Seq<char>) -> bool {
    &&& forall|k: int|
        0 <= k < before.len() && !same_path((#[trigger] before[k]).target, target)
            ==> after.contains(before[k])
    &&& forall|k: int|
        0 <= k < after.len() && !same_path((#[trigger] after[k]).target, target)
            ==> before.contains(after[k])
}

/// The target is known to have drifted, with this class.
pub open spec fn known_as(d: Seq<Drift>, target: Seq<char>, class: Seq<char>) -> bool {
    exists|k: int|
        0 <= k < d.len() && same_path((#[trigger] d[k]).target, target) && d[k].class == class
}

/// The target is known to have drifted.
pub open spec fn is_known(d: Seq<Drift>, target: Seq<char>) -> bool {
    exists|k: int| 0 <= k < d.len() && same_path((#[trigger] d[k]).target, target)
}

/// The timeline has the row in front, and behind it what it had, as far as there is room.
pub open spec fn grown_by(before: Seq<Row>, after: Seq<Row>, row: Row) -> bool {
    &&& after.len() > 0
    &&& after[0] == row
    &&& after.len() <= TIMELINE_CAP
    &&& after.len() == before.len() + 1 || after.len() == TIMELINE_CAP
    &&& forall|k: int| 1 <= k < after.len() ==> #[trigger] after[k] == before[k - 1]
}

proof fn lemma_upsert_does(d: Seq<Drift>, target: Seq<char>, class: Seq<char>, ts: u64)
    requires
        unique(d),
    ensures
        ({
            let out = upserted(d, target, class, ts);
            &&& known_as(out, target, class)
            &&& others_stay(d, out, target)
            &&& known_as(d, target, class) ==> out == d
            &&& !known_as(d, target, class) ==> forall|k: int|
                0 <= k < out.len() && same_path((#[trigger] out[k]).target, target)
                    ==> out[k].since_ts == Some(ts) && out[k].class == class
            &&& is_news(d, target, class) <==> !known_as(d, target, class)
        }),
{
    let out = upserted(d, target, class, ts);
    lemma_place(d, target, 0);
    match place(d, target, 0) {
        Some(j) => {
            assert forall|k: int| 0 <= k < d.len() && k != j implies !same_path(
                (#[trigger] d[k]).target,
                target,
            ) by {
                if k < j {
                    assert(!same_path(d[k].target, d[j].target));
                } else {
                    assert(!same_path(d[j].target, d[k].target));
                }
            }
            assert(same_path(out[j].target, target) && out[j].class == class);
            assert forall|k: int|
                0 <= k < d.len() && !same_path(
                    (#[trigger] d[k]).target,
                    target,
                ) implies out.contains(d[k]) by {
                assert(out[k] == d[k]);
            }
            assert forall|k: int|
                0 <= k < out.len() && !same_path(
                    (#[trigger] out[k]).target,
                    target,
                ) implies d.contains(out[k]) by {
                assert(out[k] == d[k]);
            }
            assert forall|k: int|
                0 <= k < out.len() && same_path(
                    (#[trigger] out[k]).target,
                    target,
                ) implies k == j by {
                if k != j {
                    assert(out[k] == d[k]);
                }
            }
        },
        None => {
            assert(out[d.len() as int].class == class);
            assert(same_path(out[d.len() as int].target, target));
            assert forall|k: int|
                0 <= k < d.len() && !same_path(
                    (#[trigger] d[k]).target,
                    target,
                ) implies out.contains(d[k]) by {
                assert(out[k] == d[k]);
            }
            assert forall|k: int|
                0 <= k < out.len() && !same_path(
                    (#[trigger] out[k]).target,
                    target,
                ) implies d.contains(out[k]) by {
                assert(out[k] == d[k]);
            }
            assert forall|k: int|
                0 <= k < out.len() && same_path(
                    (#[trigger] out[k]).target,
                    target,
                ) implies k == d.len() by {
                if k < d.len() {
                    assert(out[k] == d[k]);
                    assert(!same_path(d[k].target, target));
                }
            }
        },
    }
}

proof fn lemma_grown(t: Seq<Row>, row: Row)
    requires
        t.len() <= TIMELINE_CAP,
    ensures
        grown_by(t, with_row(t, row), row),
{
    let all = seq![row] + t;
    assert(all[0] == row);
}

/// News of a drift are taken in: the target is known with its class then, since the time of the
/// news or, where it was known so already, since before, and nothing else changes but that the
/// news is a row of the timeline. A target that is in sync again is no longer known. What is
/// known of other targets stays.
pub proof fn law_drift_is_taken_in(s: State, target: String, class: String, ts: u64)
    requires
        sound(s),
    ensures
        ({
            let t = applied(s, Event::Drift { target, class, ts });
            &&& others_stay(s.drifted, t.drifted, target@)
            &&& t.in_sync == s.in_sync && t.degraded == s.degraded && t.last_fetch_ts
                == s.last_fetch_ts && t.connected == s.connected && t.scanning == s.scanning
            &&& class@ == "in_sync"@ ==> !is_known(t.drifted, target@) && t.timeline == s.timeline
            &&& class@ != "in_sync"@ ==> known_as(t.drifted, target@, class@)
            &&& class@ != "in_sync"@ && known_as(s.drifted, target@, class@) ==> t == s
            &&& class@ != "in_sync"@ && !known_as(s.drifted, target@, class@) ==> {
                &&& forall|k: int|
                    0 <= k < t.drifted.len() && same_path(
                        (#[trigger] t.drifted[k]).target,
                        target@,
                    ) ==> t.drifted[k].since_ts == Some(ts) && t.drifted[k].class == class@
                &&& exists|row: Row| #[trigger]
                    grown_by(s.timeline, t.timeline, row) && row.ts == ts && row.target == Some(
                        target@,
                    ) && row.class == Some(class@)
            }
        }),
{
    lemma_without(s.drifted, target@);
    lemma_upsert_does(s.drifted, target@, class@, ts);
    let t = applied(s, Event::Drift { target, class, ts });
    let row = local_row(ts, kind_of_class(class@), Some(target@), Some(class@));
    lemma_grown(s.timeline, row);
    if class@ != "in_sync"@ && known_as(s.drifted, target@, class@) {
        assert(t =~= s);
    }
    if class@ != "in_sync"@ && !known_as(s.drifted, target@, class@) {
        assert(grown_by(s.timeline, t.timeline, row));
    }
}

/// What could not be evaluated is known as such, and is told in the timeline once; a failure
/// that is about no target is told, and changes nothing of the targets.
pub proof fn law_evaluation_failures_are_taken_in(
    s: State,
    target: Option<String>,
    hint: String,
    ts: u64,
)
    requires
        sound(s),
    ensures
        ({
            let t = applied(s, Event::EvalFailed { target, hint, ts });
            match target {
                None => t.drifted == s.drifted && exists|row: Row| #[trigger]
                    grown_by(s.timeline, t.timeline, row) && row.ts == ts && row.kind
                        == "eval_failed"@ && row.target is None,
                Some(name) => {
                    &&& known_as(t.drifted, name@, "eval_failed"@)
                    &&& others_stay(s.drifted, t.drifted, name@)
                    &&& known_as(s.drifted, name@, "eval_failed"@) ==> t == s
                    &&& !known_as(s.drifted, name@, "eval_failed"@) ==> exists|row: Row|
                        #[trigger]
                        grown_by(s.timeline, t.timeline, row) && row.ts == ts && row.kind
                            == "eval_failed"@ && row.target == Some(name@)
                },
            }
        }),
{
    let t = applied(s, Event::EvalFailed { target, hint, ts });
    let row = local_row(ts, "eval_failed"@, optional(target), Some("eval_failed"@));
    lemma_grown(s.timeline, row);
    match target {
        None => {
            assert(grown_by(s.timeline, t.timeline, row));
        },
        Some(name) => {
            lemma_upsert_does(s.drifted, name@, "eval_failed"@, ts);
            if known_as(s.drifted, name@, "eval_failed"@) {
                assert(t =~= s);
            } else {
                assert(grown_by(s.timeline, t.timeline, row));
            }
        },
    }
}

/// What leaves management is no longer known, and told; a fetch is told, with its time as that of
/// the last; news of the remote are told. None of them touches another target. A scan that found
/// nothing clears the drifted targets, and one that found some leaves them to their own events.
pub proof fn law_other_events_are_taken_in(
    s: State,
    target: String,
    ts: u64,
    behind: u32,
    count: u64,
)
    requires
        sound(s),
    ensures
        ({
            let left = applied(s, Event::LeftManagement { target, ts });
            &&& !is_known(left.drifted, target@)
            &&& others_stay(s.drifted, left.drifted, target@)
            &&& exists|row: Row| #[trigger]
                grown_by(s.timeline, left.timeline, row) && row.ts == ts && row.kind
                    == "left_management"@ && row.target == Some(target@)
        }),
        ({
            let fetched = applied(s, Event::FetchDone { ts, behind });
            &&& fetched.drifted == s.drifted
            &&& fetched.last_fetch_ts == Some(ts)
            &&& exists|row: Row| #[trigger]
                grown_by(s.timeline, fetched.timeline, row) && row.ts == ts && row.kind == "fetch"@
                    && row.target is None && row.class is None
        }),
        ({
            let moved = applied(s, Event::RemoteAdvanced { target, ts });
            &&& moved.drifted == s.drifted
            &&& exists|row: Row| #[trigger]
                grown_by(s.timeline, moved.timeline, row) && row.ts == ts && row.kind
                    == "remote_advanced"@ && row.target == Some(target@)
        }),
        ({
            let done = applied(s, Event::ScanDone { ts, drifted: count });
            &&& done.timeline == s.timeline
            &&& count == 0 ==> done.drifted.len() == 0
            &&& count > 0 ==> done == s
        }),
{
    lemma_without(s.drifted, target@);
    let left = local_row(ts, "left_management"@, Some(target@), None);
    lemma_grown(s.timeline, left);
    let fetched = local_row(ts, "fetch"@, None, None);
    lemma_grown(s.timeline, fetched);
    let moved = local_row(ts, "remote_advanced"@, Some(target@), None);
    lemma_grown(s.timeline, moved);
    assert(grown_by(
        s.timeline,
        applied(s, Event::LeftManagement { target, ts }).timeline,
        left,
    ));
    assert(grown_by(
        s.timeline,
        applied(s, Event::FetchDone { ts, behind }).timeline,
        fetched,
    ));
    assert(grown_by(
        s.timeline,
        applied(s, Event::RemoteAdvanced { target, ts }).timeline,
        moved,
    ));
}

/// Nothing in front of the entry is about the same target.
pub open spec fn is_first(d: Seq<Drift>, j: int) -> bool {
    forall|i: int| 0 <= i < j ==> !same_path((#[trigger] d[i]).target, d[j].target)
}

/// The entry is one of the first `n`, and the first about its target.
pub open spec fn said_first(d: Seq<Drift>, n: int, entry: Drift) -> bool {
    exists|j: int| 0 <= j < n && #[trigger] is_first(d, j) && d[j] == entry
}

proof fn lemma_all_known(d: Seq<Drift>, n: int)
    requires
        0 <= n <= d.len(),
    ensures
        forall|k: int| 0 <= k < n ==> is_known(deduped(d, n), (#[trigger] d[k]).target),
    decreases n,
{
    if n > 0 {
        lemma_all_known(d, n - 1);
        let front = deduped(d, n - 1);
        let out = deduped(d, n);
        lemma_place(front, d[n - 1].target, 0);
        assert forall|k: int| 0 <= k < n implies is_known(out, (#[trigger] d[k]).target) by {
            if k < n - 1 {
                assert(is_known(front, d[k].target));
                let j = choose|j: int|
                    0 <= j < front.len() && same_path((#[trigger] front[j]).target, d[k].target);
                assert(out[j] == front[j]);
            } else {
                match place(front, d[n - 1].target, 0) {
                    Some(j) => {
                        assert(out[j] == front[j]);
                    },
                    None => {
                        assert(out[front.len() as int] == d[n - 1]);
                    },
                }
            }
        }
    }
}

proof fn lemma_firsts_are_kept(d: Seq<Drift>, n: int)
    requires
        0 <= n <= d.len(),
    ensures
        forall|k: int|
            0 <= k < deduped(d, n).len() ==> said_first(d, n, #[trigger] deduped(d, n)[k]),
    decreases n,
{
    if n > 0 {
        lemma_firsts_are_kept(d, n - 1);
        lemma_all_known(d, n - 1);
        let front = deduped(d, n - 1);
        let out = deduped(d, n);
        lemma_place(front, d[n - 1].target, 0);
        assert forall|k: int| 0 <= k < out.len() implies said_first(d, n, #[trigger] out[k]) by {
            if k < front.len() {
                assert(out[k] == front[k]);
                assert(said_first(d, n - 1, front[k]));
                let j = choose|j: int|
                    0 <= j < n - 1 && #[trigger] is_first(d, j) && d[j] == front[k];
                assert(is_first(d, j) && d[j] == out[k]);
            } else {
                assert(d[n - 1] == out[k]);
                assert forall|i: int| 0 <= i < n - 1 implies !same_path(
                    (#[trigger] d[i]).target,
                    d[n - 1].target,
                ) by {
                    assert(is_known(front, d[i].target));
                    let j = choose|j: int|
                        0 <= j < front.len() && same_path(
                            (#[trigger] front[j]).target,
                            d[i].target,
                        );
                    assert(!same_path(front[j].target, d[n - 1].target));
                }
                assert(is_first(d, n - 1));
            }
        }
    }
}

/// A status reply is taken over: every target that it names is known then, with what it says of
/// it first, and no other is; how many are in sync, what degrades it and whether a scan runs are
/// as it says. Only the zeros of a scan that has just begun do not wipe out what is known.
pub proof fn law_status_replies_are_taken_over(
    s: State,
    drifted: Seq<Drift>,
    in_sync: u64,
    degraded: Option<Seq<char>>,
    scanning: bool,
)
    ensures
        ({
            let t = hydrated(s, drifted, in_sync, degraded, scanning);
            let empty = scanning && drifted.len() == 0 && in_sync == 0;
            let known = s.drifted.len() > 0 || s.in_sync > 0;
            &&& t.degraded == degraded && t.scanning == scanning
            &&& t.timeline == s.timeline && t.last_fetch_ts == s.last_fetch_ts && t.connected
                == s.connected
            &&& empty && known ==> t.drifted == s.drifted && t.in_sync == s.in_sync
            &&& !(empty && known) ==> {
                &&& t.in_sync == in_sync
                &&& forall|k: int|
                    0 <= k < drifted.len() ==> is_known(t.drifted, (#[trigger] drifted[k]).target)
                &&& forall|k: int|
                    0 <= k < t.drifted.len() ==> said_first(
                        drifted,
                        drifted.len() as int,
                        #[trigger] t.drifted[k],
                    )
            }
        }),
{
    lemma_all_known(drifted, drifted.len() as int);
    lemma_firsts_are_kept(drifted, drifted.len() as int);
}

pub proof fn lemma_attention(d: Seq<Drift>, n: int)
    requires
        0 <= n <= d.len(),
    ensures
        attention(d, n) == d.take(n).filter(
            |x: Drift|
                x.class == "conflict"@ || x.class == "local_source_diverged"@ || x.class
                    == "eval_failed"@,
        ).len(),
    decreases n,
{
    reveal(Seq::filter);
    if n > 0 {
        lemma_attention(d, n - 1);
        assert(d.take(n).drop_last() =~= d.take(n - 1));
        assert(d.take(n).last() == d[n - 1]);
    }
}

/// The status item counts the targets that need somebody: those in conflict, those whose branches
/// have come apart, and those that could not be evaluated. It claims nothing while a scan runs or
/// without the daemon, and everything is only said to be in sync where nothing has drifted.
pub proof fn law_the_title_counts_what_needs_somebody(s: State)
    ensures
        ({
            let n = s.drifted.filter(
                |x: Drift|
                    x.class == "conflict"@ || x.class == "local_source_diverged"@ || x.class
                        == "eval_failed"@,
            ).len();
            let known = s.connected && !s.scanning;
            &&& !known ==> title_of(s) == "cz …"@
            &&& known && n == 0 ==> title_of(s) == "cz"@
            &&& known && n > 0 ==> title_of(s) == "cz ●"@ + decimal(n)
            &&& known && s.drifted.len() == 0 <==> header_of(s) == "All in sync · "@ + decimal(
                s.in_sync as nat,
            ) + " files"@ && known && s.drifted.len() == 0
            &&& known && s.drifted.len() > 0 && n == 0 ==> header_of(s) == decimal(s.drifted.len())
                + " drifted"@
            &&& known && n > 0 ==> header_of(s) == decimal(s.drifted.len()) + " drifted · "@
                + decimal(n) + " need attention"@
            &&& may_sync_all(s) <==> known && s.drifted.len() == 0 && s.degraded is None
        }),
{
    lemma_attention(s.drifted, s.drifted.len() as int);
    assert(s.drifted.take(s.drifted.len() as int) =~= s.drifted);
    reveal(Seq::filter);
    if s.drifted.len() == 0 {
        assert(s.drifted.filter(
            |x: Drift|
                x.class == "conflict"@ || x.class == "local_source_diverged"@ || x.class
                    == "eval_failed"@,
        ).len() == 0);
    }
}

/// How long ago something was is told in whole minutes, hours or days, rounded down; less than a
/// minute, and what lies ahead, is now.
pub proof fn law_times_are_told_in_whole_units(now: u64, n: nat, rest: nat)
    ensures
        n == 0 && rest < 60 && rest <= now ==> ago(now, (now - rest) as u64) == "just now"@,
        0 < n < 60 && rest < 60 && 60 * n + rest <= now ==> ago(
            now,
            (now - (60 * n + rest)) as u64,
        ) == decimal(n) + "m ago"@,
        0 < n < 24 && rest < 3600 && 3600 * n + rest <= now ==> ago(
            now,
            (now - (3600 * n + rest)) as u64,
        ) == decimal(n) + "h ago"@,
        0 < n && rest < 86400 && 86400 * n + rest <= now ==> ago(
            now,
            (now - (86400 * n + rest)) as u64,
        ) == decimal(n) + "d ago"@,
        forall|ts: u64| ts > now ==> #[trigger] ago(now, ts) == "just now"@,
{
}

/// The first row of an item, and the last.
pub open spec fn ends_of(item: Item) -> (Row, Row) {
    match item {
        Item::One(r) => (r, r),
        Item::Group { count: _, newest_ts: _, rows } => (rows[0], rows.last()),
    }
}

/// Scans and fetches that follow each other are all put together: two of them never stand beside
/// each other in different items.
pub proof fn law_groups_are_as_large_as_can_be(rows: Seq<Row>, i: int)
    requires
        0 <= i && i + 1 < grouped(rows).len(),
    ensures
        !(is_info(ends_of(grouped(rows)[i]).1) && is_info(ends_of(grouped(rows)[i + 1]).0)),
    decreases rows.len(),
{
    lemma_info_run(rows);
    let k = info_run(rows);
    let n = if k < 2 {
        1
    } else {
        k as int
    };
    let rest = rows.skip(n);
    assert(rows.drop_first() =~= rows.skip(1));
    let items = grouped(rows);
    assert(items.drop_first() =~= grouped(rest));
    if i > 0 {
        law_groups_are_as_large_as_can_be(rest, i - 1);
        assert(items[i] == grouped(rest)[i - 1] && items[i + 1] == grouped(rest)[i]);
    } else {
        assert(items[1] == grouped(rest)[0]);
        lemma_first_row(rest);
        lemma_run_ends(rows);
    }
}

proof fn lemma_first_row(rows: Seq<Row>)
    requires
        grouped(rows).len() > 0,
    ensures
        rows.len() > 0,
        ends_of(grouped(rows)[0]).0 == rows[0],
{
    lemma_info_run(rows);
}

proof fn lemma_run_ends(rows: Seq<Row>)
    ensures
        info_run(rows) < rows.len() ==> !is_info(rows[info_run(rows) as int]),
    decreases rows.len(),
{
    lemma_info_run(rows);
    if rows.len() > 0 && is_info(rows[0]) {
        lemma_run_ends(rows.drop_first());
    }
}

/// News of a drift are told by their kind: that the remote has moved on, that the source has
/// changed, that something could not be evaluated, and all else as a change on disk.
pub proof fn law_kinds_follow_the_class(
    s: State,
    target: String,
    class: String,
    ts: u64,
)
    requires
        sound(s),
        class@ != "in_sync"@,
        !known_as(s.drifted, target@, class@),
    ensures
        ({
            let kind = applied(s, Event::Drift { target, class, ts }).timeline[0].kind;
            let source = class@ == "source_ahead"@ || class@ == "local_source_diverged"@;
            &&& kind == "remote_advanced"@ <==> class@ == "remote_ahead"@
            &&& kind == "source_changed"@ <==> source
            &&& kind == "eval_failed"@ <==> class@ == "eval_failed"@
            &&& class@ != "remote_ahead"@ && !source && class@ != "eval_failed"@ ==> kind
                == "dest_changed"@
        }),
{
    reveal_strlit("remote_advanced");
    reveal_strlit("source_changed");
    reveal_strlit("eval_failed");
    reveal_strlit("dest_changed");
    reveal_strlit("remote_ahead");
    reveal_strlit("source_ahead");
    reveal_strlit("local_source_diverged");
    assert("remote_advanced"@[0] == 'r' && "source_changed"@[0] == 's' && "eval_failed"@[0] == 'e'
        && "dest_changed"@[0] == 'd' && "remote_ahead"@[0] == 'r' && "source_ahead"@[0] == 's'
        && "local_source_diverged"@[0] == 'l');
    assert("source_ahead"@.len() != "source_changed"@.len());
    lemma_upsert_does(s.drifted, target@, class@, ts);
    lemma_grown(s.timeline, local_row(ts, kind_of_class(class@), Some(target@), Some(class@)));
}

} // verus!
