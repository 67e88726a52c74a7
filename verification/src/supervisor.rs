//! The link to the daemon: when it is made, kept fresh and given up, and what is told of what
//! comes over it. Times are milliseconds of a clock that never goes back.

use vstd::prelude::*;

use crate::model::{applied, attention, is_known, lemma_place, may_sync_all, place, sound};
use crate::model::{wants_attention, without, State, SyncModel};
use crate::notify_osa::{drift_body, remote_advanced_body};
use crate::paths::{join, joined, same_path};
use crate::proto::{Drift, Event, Response};
use crate::resolve::{shown_name, ResolveError};
use crate::text::{contains, contains_text, decimal, decimal_text, has_text, same, strings};
use crate::views::Route;

verus! {

// ---------------------------------------------------------------------------
// What is news

/// What an event means to somebody who is not looking.
#[derive(Debug, PartialEq, Eq)]
pub enum NotifySignal {
    /// Nothing.
    Quiet,
    /// Something has drifted, or has become worse.
    NewDrift,
    /// The remote has moved on for a file.
    RemoteAdvanced(String),
}

/// An event may be news of drift.
pub open spec fn tells_of_drift(ev: Event) -> bool {
    ev matches Event::Drift { .. } || ev matches Event::EvalFailed { .. }
}

/// More has drifted in the one state than in the other, or more of it needs a decision.
pub open spec fn worse(after: State, before: State) -> bool {
    after.drifted.len() > before.drifted.len() || attention(
        after.drifted,
        after.drifted.len() as int,
    ) > attention(before.drifted, before.drifted.len() as int)
}

/// Takes an event into the model, and tells what it means to somebody who is not looking. What
/// was seen before, or has become better, means nothing.
pub fn apply_and_signal(model: &mut SyncModel, ev: Event) -> (r: NotifySignal)
    requires
        sound(old(model)@),
    ensures
        final(model)@ == applied(old(model)@, ev),
        sound(final(model)@),
        match ev {
            Event::RemoteAdvanced { target, .. } => r matches NotifySignal::RemoteAdvanced(t)
                && t@ == target@,
            _ => r == (if tells_of_drift(ev) && worse(final(model)@, old(model)@) {
                NotifySignal::NewDrift
            } else {
                NotifySignal::Quiet
            }),
        },
{
    proof {
        crate::model::law_events_keep_the_state_sound(model@, ev);
    }
    match &ev {
        Event::RemoteAdvanced { target, .. } => {
            let target = target.clone();
            model.apply_event(ev);
            return NotifySignal::RemoteAdvanced(target);
        },
        _ => {},
    }
    let driftish: bool = match &ev {
        Event::Drift { .. } | Event::EvalFailed { .. } => true,
        _ => false,
    };
    let before: usize = model.drifted.len();
    let attention_before: usize = model.needs_attention();
    assert(model@.drifted.len() == before);
    model.apply_event(ev);
    assert(model@.drifted.len() == model.drifted@.len());
    if driftish && (model.drifted.len() > before || model.needs_attention() > attention_before) {
        NotifySignal::NewDrift
    } else {
        NotifySignal::Quiet
    }
}

/// The same drift seen again is no news.
pub proof fn law_drift_is_news_once(
    s: State,
    target: String,
    class: String,
    ts: u64,
    later: u64,
)
    ensures
        ({
            let once = applied(s, Event::Drift { target, class, ts });
            !worse(applied(once, Event::Drift { target, class, ts: later }), once)
        }),
{
    if class@ == "in_sync"@ {
        lemma_without_again(s.drifted, target@);
    } else {
        crate::model::law_seen_drift_is_no_news(s, target, class, ts, later);
    }
}

proof fn lemma_without_again(d: Seq<Drift>, target: Seq<char>)
    ensures
        without(without(d, target), target) == without(d, target),
    decreases d.len(),
{
    if d.len() > 0 {
        lemma_without_again(d.drop_last(), target);
        if !same_path(d.last().target, target) {
            let front = without(d.drop_last(), target);
            assert(front.push(d.last()).drop_last() =~= front);
        }
    }
}

// ---------------------------------------------------------------------------
// Making the link

/// At most so long it is waited before the next attempt, in seconds.
pub const MAX_BACKOFF_SECS: u64 = 15;

/// A daemon is started at most once in so many milliseconds.
pub const SPAWN_EVERY_MILLIS: u64 = 60_000;

/// How long it is waited after a wait that did not help: twice as long, up to a limit.
pub open spec fn next_wait(secs: u64) -> u64 {
    if 2 * secs > MAX_BACKOFF_SECS {
        MAX_BACKOFF_SECS
    } else {
        (2 * secs) as u64
    }
}

/// The attempts to reach the daemon.
#[derive(Debug)]
pub struct Link {
    pub backoff_secs: u64,
    pub last_spawn: Option<u64>,
}

impl Link {
    pub open spec fn wf(self) -> bool {
        1 <= self.backoff_secs <= MAX_BACKOFF_SECS
    }

    /// A daemon may be started: none was, or not lately.
    pub open spec fn may_spawn(self, now: u64) -> bool {
        match self.last_spawn {
            None => true,
            Some(t) => now - t > SPAWN_EVERY_MILLIS,
        }
    }

    pub fn new() -> (r: Self)
        ensures
            r.wf(),
            r.backoff_secs == 1,
            r.last_spawn is None,
    {
        Link { backoff_secs: 1, last_spawn: None }
    }

    /// Begins an attempt. Tells whether a daemon may be started for it; if so, it is taken that
    /// one is.
    pub fn attempt(&mut self, now: u64) -> (r: bool)
        requires
            old(self).wf(),
        ensures
            final(self).wf(),
            r == old(self).may_spawn(now),
            final(self).backoff_secs == old(self).backoff_secs,
            final(self).last_spawn == (if r {
                Some(now)
            } else {
                old(self).last_spawn
            }),
    {
        let may: bool = match self.last_spawn {
            None => true,
            Some(t) => now > t && now - t > SPAWN_EVERY_MILLIS,
        };
        if may {
            self.last_spawn = Some(now);
        }
        may
    }

    /// The attempt was good.
    pub fn succeeded(&mut self)
        requires
            old(self).wf(),
        ensures
            final(self).wf(),
            *final(self) == (Link { backoff_secs: 1, ..*old(self) }),
    {
        self.backoff_secs = 1;
    }

    /// The attempt failed. Gives how many seconds to wait before the next; each time it is
    /// twice as long, up to a limit.
    pub fn failed(&mut self) -> (r: u64)
        requires
            old(self).wf(),
        ensures
            final(self).wf(),
            r == old(self).backoff_secs,
            final(self).backoff_secs == next_wait(r),
            final(self).last_spawn == old(self).last_spawn,
    {
        let wait: u64 = self.backoff_secs;
        self.backoff_secs = if wait * 2 > MAX_BACKOFF_SECS {
            MAX_BACKOFF_SECS
        } else {
            wait * 2
        };
        wait
    }
}

/// Between two starts of a daemon there is more than a minute, whatever happens in between.
pub proof fn law_daemons_are_not_started_in_a_storm(link: Link, first: u64, second: u64)
    requires
        link.may_spawn(first),
        (Link { last_spawn: Some(first), ..link }).may_spawn(second),
    ensures
        second - first > SPAWN_EVERY_MILLIS,
{
}

/// What is said of an attempt that failed.
pub fn retry_line(wait_secs: u64, error: &str) -> (r: String)
    ensures
        r@ == "daemon connection failed (retrying in "@ + decimal(wait_secs as nat) + "s): "@
            + error@,
{
    let mut s = "daemon connection failed (retrying in ".to_owned();
    s.append(decimal_text(wait_secs).as_str());
    s.append("s): ");
    s.append(error);
    s
}

// ---------------------------------------------------------------------------
// Keeping watch

/// Drift is told in one for so many milliseconds.
pub const DRIFT_NOTIFY_MILLIS: u64 = 5_000;

/// The status is asked for at least once in so many milliseconds.
pub const REFRESH_MILLIS: u64 = 30_000;

/// A daemon that is scanning or starting for longer than this is stuck.
pub const STUCK_MILLIS: u64 = 180_000;

/// What is remembered while the link is there.
#[derive(Debug)]
pub struct Watch {
    /// How much drift is yet to be told.
    pub pending_drift: usize,
    /// Since when.
    pub window_started: Option<u64>,
    pub last_refresh: u64,
    pub stuck_since: Option<u64>,
}

/// So much time has passed.
pub open spec fn elapsed(since: u64, now: u64) -> int {
    if now >= since {
        now - since
    } else {
        0
    }
}

fn elapsed_millis(since: u64, now: u64) -> (r: u64)
    ensures
        r == elapsed(since, now),
{
    if now >= since {
        now - since
    } else {
        0
    }
}

/// What is told of so much drift.
pub open spec fn drift_words(n: nat) -> Seq<char> {
    if n == 1 {
        "1 file drifted"@
    } else {
        decimal(n) + " files drifted"@
    }
}

impl Watch {
    /// There is drift to be told exactly while a window is open.
    pub open spec fn wf(self) -> bool {
        self.window_started is Some <==> self.pending_drift > 0
    }

    /// The watch after what is to be told was told.
    pub open spec fn after_flush(self, now: u64) -> Watch {
        if self.window_over(now) {
            Watch { pending_drift: 0, window_started: None, ..self }
        } else {
            self
        }
    }

    /// What is to be told now.
    pub open spec fn flushed(self, now: u64) -> Option<Seq<char>> {
        if self.window_over(now) {
            Some(drift_words(self.pending_drift as nat))
        } else {
            None
        }
    }

    /// The watch after more drift.
    pub open spec fn after_drift(self, now: u64) -> Watch {
        Watch {
            pending_drift: (self.pending_drift + 1) as usize,
            window_started: Some(
                match self.window_started {
                    Some(t) => t,
                    None => now,
                },
            ),
            ..self
        }
    }

    /// The status is to be asked for.
    pub open spec fn wants_refresh(self, scan_done: bool, now: u64) -> bool {
        scan_done || elapsed(self.last_refresh, now) >= REFRESH_MILLIS
    }

    /// For how many seconds a daemon has been stuck, where it has been for too long.
    pub open spec fn stuck_for(self, scanning: bool, now: u64) -> Option<u64> {
        match self.stuck_since {
            Some(t) => if scanning && elapsed(t, now) > STUCK_MILLIS {
                Some((elapsed(t, now) / 1000) as u64)
            } else {
                None
            },
            None => None,
        }
    }

    /// The watch after the daemon was judged.
    pub open spec fn after_judge(self, scanning: bool, now: u64) -> Watch {
        if !scanning || self.stuck_for(scanning, now) is Some {
            Watch { stuck_since: None, ..self }
        } else if self.stuck_since is None {
            Watch { stuck_since: Some(now), ..self }
        } else {
            self
        }
    }

    /// The window is over.
    pub open spec fn window_over(self, now: u64) -> bool {
        self.window_started matches Some(t) && elapsed(t, now) >= DRIFT_NOTIFY_MILLIS
    }

    pub fn new(now: u64) -> (r: Self)
        ensures
            r.wf(),
            r == (Watch {
                pending_drift: 0,
                window_started: None,
                last_refresh: now,
                stuck_since: None,
            }),
    {
        Watch { pending_drift: 0, window_started: None, last_refresh: now, stuck_since: None }
    }

    /// What is to be told now: once a window is over, all drift that came in it, in one.
    pub fn flush(&mut self, now: u64) -> (r: Option<String>)
        requires
            old(self).wf(),
        ensures
            final(self).wf(),
            *final(self) == old(self).after_flush(now),
            crate::cmd::optional(r) == old(self).flushed(now),
    {
        match self.window_started {
            Some(t) => {
                if elapsed_millis(t, now) < DRIFT_NOTIFY_MILLIS {
                    return None;
                }
            },
            None => {
                return None;
            },
        }
        let body = drift_body(self.pending_drift);
        self.pending_drift = 0;
        self.window_started = None;
        Some(body)
    }

    /// Takes note of what an event means. Drift is counted, and opens a window if none is open;
    /// that the remote has moved on is told at once.
    pub fn took(&mut self, signal: &NotifySignal, now: u64) -> (r: Option<String>)
        requires
            old(self).wf(),
            old(self).pending_drift < usize::MAX,
        ensures
            final(self).wf(),
            match *signal {
                NotifySignal::Quiet => r is None && *final(self) == *old(self),
                NotifySignal::NewDrift => r is None && *final(self) == old(self).after_drift(now),
                NotifySignal::RemoteAdvanced(target) => {
                    &&& r matches Some(body) && body@ == "origin advanced: "@ + shown_name(
                        target@,
                    )
                    &&& *final(self) == *old(self)
                },
            },
    {
        match signal {
            NotifySignal::Quiet => None,
            NotifySignal::NewDrift => {
                self.pending_drift = self.pending_drift + 1;
                if self.window_started.is_none() {
                    self.window_started = Some(now);
                }
                None
            },
            NotifySignal::RemoteAdvanced(target) => Some(remote_advanced_body(target.as_str())),
        }
    }

    /// Whether the status is to be asked for: after every scan, and if it was not for a while.
    pub fn refresh_due(&mut self, scan_done: bool, now: u64) -> (r: bool)
        requires
            old(self).wf(),
        ensures
            final(self).wf(),
            r == old(self).wants_refresh(scan_done, now),
            *final(self) == (if r {
                Watch { last_refresh: now, ..*old(self) }
            } else {
                *old(self)
            }),
    {
        if scan_done || elapsed_millis(self.last_refresh, now) >= REFRESH_MILLIS {
            self.last_refresh = now;
            true
        } else {
            false
        }
    }

    /// Judges a daemon by whether it is scanning. One that has been for too long is to be shut
    /// down: then for how many seconds it has been is returned, and the count starts anew.
    pub fn judge(&mut self, scanning: bool, now: u64) -> (r: Option<u64>)
        requires
            old(self).wf(),
        ensures
            final(self).wf(),
            r == old(self).stuck_for(scanning, now),
            *final(self) == old(self).after_judge(scanning, now),
    {
        if !scanning {
            self.stuck_since = None;
            return None;
        }
        match self.stuck_since {
            None => {
                self.stuck_since = Some(now);
                None
            },
            Some(t) => {
                let millis: u64 = elapsed_millis(t, now);
                if millis > STUCK_MILLIS {
                    self.stuck_since = None;
                    Some(millis / 1000)
                } else {
                    None
                }
            },
        }
    }
}

/// What is said of a daemon that is stuck.
pub fn stuck_line(secs: u64) -> (r: String)
    ensures
        r@ == "daemon stuck in scanning/starting for "@ + decimal(secs as nat)
            + "s — restarting it"@,
{
    let mut s = "daemon stuck in scanning/starting for ".to_owned();
    s.append(decimal_text(secs).as_str());
    s.append("s — restarting it");
    s
}

// ---------------------------------------------------------------------------
// The menu

/// What the menu offers.
#[derive(Debug, Clone, Copy, PartialEq, Eq, Structural)]
pub enum MenuCommand {
    OpenApp,
    Review,
    SyncAll,
    Settings,
    Quit,
}

/// What the menu says.
#[derive(Debug, PartialEq)]
pub struct MenuSpec {
    pub header: String,
    pub freshness: String,
    pub review_label: Option<String>,
    pub sync_all_enabled: bool,
}

/// A line of the menu.
#[derive(Debug, PartialEq)]
pub enum MenuItem {
    Separator,
    /// A text; with a command it can be chosen.
    Line { title: String, command: Option<MenuCommand> },
}

/// A line of the menu, as the model has it.
pub enum MenuLine {
    Separator,
    Line { title: Seq<char>, command: Option<MenuCommand> },
}

impl View for MenuItem {
    type V = MenuLine;

    open spec fn view(&self) -> MenuLine {
        match *self {
            MenuItem::Separator => MenuLine::Separator,
            MenuItem::Line { title, command } => MenuLine::Line { title: title@, command },
        }
    }
}

pub open spec fn menu_lines(v: Seq<MenuItem>) -> Seq<MenuLine> {
    v.map_values(|i: MenuItem| i@)
}

/// The lines of the menu. The review is offered only where there is something to review.
pub open spec fn menu_of(spec: MenuSpec) -> Seq<MenuLine> {
    let review = match spec.review_label {
        Some(label) => seq![
            MenuLine::Line { title: label@, command: Some(MenuCommand::Review) },
        ],
        None => seq![],
    };
    seq![
        MenuLine::Line { title: spec.header@, command: None },
        MenuLine::Line { title: spec.freshness@, command: None },
        MenuLine::Separator,
    ] + review + seq![
        MenuLine::Line {
            title: "Sync all"@,
            command: if spec.sync_all_enabled {
                Some(MenuCommand::SyncAll)
            } else {
                None
            },
        },
        MenuLine::Separator,
        MenuLine::Line { title: "Open chezmoi UI"@, command: Some(MenuCommand::OpenApp) },
        MenuLine::Line { title: "Settings…"@, command: Some(MenuCommand::Settings) },
        MenuLine::Line { title: "Quit chezmoi UI"@, command: Some(MenuCommand::Quit) },
    ]
}

fn line(title: &str, command: Option<MenuCommand>) -> (r: MenuItem)
    ensures
        r@ == (MenuLine::Line { title: title@, command }),
{
    MenuItem::Line { title: title.to_owned(), command }
}

/// The lines of the menu.
pub fn menu_items(spec: &MenuSpec) -> (r: Vec<MenuItem>)
    ensures
        menu_lines(r@) == menu_of(*spec),
{
    let mut v: Vec<MenuItem> = Vec::new();
    v.push(line(spec.header.as_str(), None));
    v.push(line(spec.freshness.as_str(), None));
    v.push(MenuItem::Separator);
    match &spec.review_label {
        Some(label) => {
            v.push(line(label.as_str(), Some(MenuCommand::Review)));
        },
        None => {},
    }
    v.push(
        line(
            "Sync all",
            if spec.sync_all_enabled {
                Some(MenuCommand::SyncAll)
            } else {
                None
            },
        ),
    );
    v.push(MenuItem::Separator);
    v.push(line("Open chezmoi UI", Some(MenuCommand::OpenApp)));
    v.push(line("Settings…", Some(MenuCommand::Settings)));
    v.push(line("Quit chezmoi UI", Some(MenuCommand::Quit)));
    assert(menu_lines(v@) =~= menu_of(*spec));
    v
}

/// What a command does.
#[derive(Debug, Clone, Copy, PartialEq, Eq)]
pub enum MenuStep {
    Open(Route),
    SyncAll,
    Quit,
    /// Nothing: the state is no longer such that it may be done.
    Drop,
}

/// What a command does. The menu may be older than the state, so whether everything may be
/// synced is looked at again.
pub fn menu_step(command: MenuCommand, model: &SyncModel, engine_ready: bool) -> (r: MenuStep)
    ensures
        r == (match command {
            MenuCommand::OpenApp => MenuStep::Open(Route::Dashboard),
            MenuCommand::Review => MenuStep::Open(Route::Review),
            MenuCommand::Settings => MenuStep::Open(Route::Settings),
            MenuCommand::Quit => MenuStep::Quit,
            MenuCommand::SyncAll => if may_sync_all(model@) && engine_ready {
                MenuStep::SyncAll
            } else {
                MenuStep::Drop
            },
        }),
{
    match command {
        MenuCommand::OpenApp => MenuStep::Open(Route::Dashboard),
        MenuCommand::Review => MenuStep::Open(Route::Review),
        MenuCommand::Settings => MenuStep::Open(Route::Settings),
        MenuCommand::Quit => MenuStep::Quit,
        MenuCommand::SyncAll => {
            assert(model@.drifted.len() == model.drifted@.len());
            if model.connected && !model.scanning && model.degraded.is_none()
                && model.drifted.len() == 0 && engine_ready {
                MenuStep::SyncAll
            } else {
                MenuStep::Drop
            }
        },
    }
}

/// What is told of syncing everything.
pub fn sync_all_body(failure: Option<&ResolveError>) -> (r: String)
    ensures
        r@ == (match failure {
            None => "synced with origin"@,
            Some(e) => "sync all failed: "@ + e.message_spec(),
        }),
{
    match failure {
        None => "synced with origin".to_owned(),
        Some(e) => {
            let mut s = "sync all failed: ".to_owned();
            s.append(e.message().as_str());
            s
        },
    }
}

// ---------------------------------------------------------------------------
// Starting

/// What the program was started to do.
#[derive(Debug, PartialEq, Eq)]
pub enum Mode {
    VerifyConnectivity,
    PrintStatus,
    GalleryList,
    Live(Route),
    /// A route that there is not.
    UnknownRoute(String),
    Gallery { state: String, dark: Option<bool> },
    App,
}

/// What follows the first `flag`.
pub open spec fn value_of(args: Seq<Seq<char>>, flag: Seq<char>) -> Option<Seq<char>>
    decreases args.len(),
{
    if args.len() == 0 {
        None
    } else if args[0] == flag {
        if args.len() > 1 {
            Some(args[1])
        } else {
            None
        }
    } else {
        value_of(args.drop_first(), flag)
    }
}

/// The value behind a flag.
pub fn arg_value(args: &Vec<String>, flag: &str) -> (r: Option<String>)
    ensures
        crate::cmd::optional(r) == value_of(strings(args@), flag@),
{
    let ghost all = strings(args@);
    let mut i: usize = 0;
    assert(all.skip(0) =~= all);
    while i < args.len()
        invariant
            all == strings(args@),
            i <= args@.len(),
            value_of(all, flag@) == value_of(all.skip(i as int), flag@),
        decreases args@.len() - i,
    {
        let ghost rest = all.skip(i as int);
        assert(rest[0] == args@[i as int]@);
        if same(args[i].as_str(), flag) {
            if args.len() - i > 1 {
                assert(rest[1] == args@[i + 1]@);
                return Some(args[i + 1].clone());
            }
            return None;
        }
        assert(rest.drop_first() =~= all.skip(i + 1));
        i = i + 1;
    }
    None
}

/// The route of that name.
pub open spec fn route_named(name: Seq<char>) -> Option<Route> {
    if name == "dashboard"@ {
        Some(Route::Dashboard)
    } else if name == "review"@ {
        Some(Route::Review)
    } else if name == "settings"@ {
        Some(Route::Settings)
    } else {
        None
    }
}

/// The mode is what the arguments ask for. What only prints comes before what opens a window.
pub open spec fn mode_is(args: Seq<Seq<char>>, m: Mode) -> bool {
    if args.contains("--verify-connectivity"@) {
        m == Mode::VerifyConnectivity
    } else if args.contains("--print-status"@) {
        m == Mode::PrintStatus
    } else if args.contains("--gallery-list"@) {
        m == Mode::GalleryList
    } else {
        match (value_of(args, "--live"@), value_of(args, "--gallery"@)) {
            (Some(name), _) => match route_named(name) {
                Some(route) => m == Mode::Live(route),
                None => m matches Mode::UnknownRoute(n) && n@ == name,
            },
            (None, Some(name)) => m matches Mode::Gallery { state, dark } && state@ == name
                && dark == (if args.contains("--dark"@) == args.contains("--light"@) {
                None
            } else {
                Some(args.contains("--dark"@))
            }),
            (None, None) => m == Mode::App,
        }
    }
}

/// What the arguments ask for.
pub fn mode_of(args: &Vec<String>) -> (r: Mode)
    ensures
        mode_is(strings(args@), r),
{
    if has_text(args, "--verify-connectivity") {
        return Mode::VerifyConnectivity;
    }
    if has_text(args, "--print-status") {
        return Mode::PrintStatus;
    }
    if has_text(args, "--gallery-list") {
        return Mode::GalleryList;
    }
    match arg_value(args, "--live") {
        Some(name) => {
            return if same(name.as_str(), "dashboard") {
                Mode::Live(Route::Dashboard)
            } else if same(name.as_str(), "review") {
                Mode::Live(Route::Review)
            } else if same(name.as_str(), "settings") {
                Mode::Live(Route::Settings)
            } else {
                Mode::UnknownRoute(name)
            };
        },
        None => {},
    }
    match arg_value(args, "--gallery") {
        Some(state) => {
            let dark: bool = has_text(args, "--dark");
            let light: bool = has_text(args, "--light");
            Mode::Gallery {
                state,
                dark: if dark == light {
                    None
                } else {
                    Some(dark)
                },
            }
        },
        None => Mode::App,
    }
}

/// Where things are kept.
#[derive(Debug)]
pub struct Paths {
    pub socket: String,
    pub journal: String,
    pub settings: String,
    /// The program that is started where no daemon runs.
    pub daemon: String,
}

/// What the environment says of them.
#[derive(Debug)]
pub struct PathsFound {
    pub home: Option<String>,
    pub socket: Option<String>,
    pub journal: Option<String>,
    pub settings: Option<String>,
    pub daemon: Option<String>,
    /// A daemon beside this program, if there is such a file.
    pub sibling: Option<String>,
}

/// The directory of the program's own files.
pub open spec fn support_dir(home: Option<Seq<char>>) -> Seq<char> {
    joined(
        match home {
            Some(h) => h,
            None => "."@,
        },
        "Library/Application Support/Tomte"@,
    )
}

/// What is said, or else a file among the program's own.
pub open spec fn path_or(said: Option<String>, home: Option<String>, name: Seq<char>) -> Seq<char> {
    match said {
        Some(p) => p@,
        None => joined(support_dir(crate::cmd::optional(home)), name),
    }
}

fn choose_path(said: Option<String>, support: &str, name: &str) -> (r: String)
    ensures
        r@ == (match said {
            Some(p) => p@,
            None => joined(support@, name@),
        }),
{
    match said {
        Some(p) => p,
        None => join(support, name),
    }
}

/// Where things are kept: where the environment says, or else among the program's own files.
/// The daemon is the one that the environment names, the one beside the program, or the one
/// that is found by its name.
pub fn resolve_paths(found: PathsFound) -> (r: Paths)
    ensures
        r.socket@ == path_or(found.socket, found.home, "daemon.sock"@),
        r.journal@ == path_or(found.journal, found.home, "journal.db"@),
        r.settings@ == path_or(found.settings, found.home, "settings.toml"@),
        r.daemon@ == (match (found.daemon, found.sibling) {
            (Some(p), _) => p@,
            (None, Some(p)) => p@,
            (None, None) => "tomted"@,
        }),
{
    let home = match found.home {
        Some(h) => h,
        None => ".".to_owned(),
    };
    let support = join(home.as_str(), "Library/Application Support/Tomte");
    let daemon = match (found.daemon, found.sibling) {
        (Some(p), _) => p,
        (None, Some(p)) => p,
        (None, None) => "tomted".to_owned(),
    };
    Paths {
        socket: choose_path(found.socket, support.as_str(), "daemon.sock"),
        journal: choose_path(found.journal, support.as_str(), "journal.db"),
        settings: choose_path(found.settings, support.as_str(), "settings.toml"),
        daemon,
    }
}

// ---------------------------------------------------------------------------
// Diagnostics

/// The status in one line.
pub open spec fn status_words(
    drifted: nat,
    in_sync: u64,
    degraded: Option<Seq<char>>,
) -> Seq<char> {
    let counts = decimal(drifted) + " drifted, "@ + decimal(in_sync as nat) + " in sync"@;
    match degraded {
        Some(hint) => counts + ", degraded: "@ + hint,
        None => counts,
    }
}

/// The status in one line.
pub fn status_line(drifted: usize, in_sync: u64, degraded: &Option<String>) -> (r: String)
    ensures
        r@ == status_words(drifted as nat, in_sync, crate::cmd::optional(*degraded)),
{
    let mut s = decimal_text(drifted as u64);
    s.append(" drifted, ");
    s.append(decimal_text(in_sync).as_str());
    s.append(" in sync");
    match degraded {
        Some(hint) => {
            s.append(", degraded: ");
            s.append(hint.as_str());
        },
        None => {},
    }
    s
}

/// The status in one line, as the check of the connection has it.
pub fn connectivity_line(drifted: usize, in_sync: u64, degraded: &Option<String>) -> (r: String)
    ensures
        r@ == "[3/5] status ok: "@ + decimal(drifted as nat) + " drifted, "@ + decimal(
            in_sync as nat,
        ) + " in sync, degraded: "@ + (match *degraded {
            Some(hint) => hint@,
            None => "no"@,
        }),
{
    let mut s = "[3/5] status ok: ".to_owned();
    s.append(decimal_text(drifted as u64).as_str());
    s.append(" drifted, ");
    s.append(decimal_text(in_sync).as_str());
    s.append(" in sync, degraded: ");
    match degraded {
        Some(hint) => s.append(hint.as_str()),
        None => s.append("no"),
    }
    s
}

/// How often a scan is asked for while the daemon is busy.
pub const RESCAN_TRIES: u32 = 60;

/// What to do after a scan was asked for.
#[derive(Debug, Clone, Copy, PartialEq, Eq, Structural)]
pub enum RescanStep {
    /// It is under way, or was asked for often enough: wait for an event.
    Await,
    /// Ask again in a second.
    AskAgain,
    /// The reply is none to this question.
    Fail,
}

/// What to do after a scan was asked for; `tries` counts this time too. A daemon that is busy
/// or starting is asked again.
pub fn rescan_step(reply: &Response, tries: u32) -> (r: RescanStep)
    ensures
        r == (match *reply {
            Response::Done => RescanStep::Await,
            Response::Error { message } => if contains_text(message@, "busy"@) || contains_text(
                message@,
                "starting"@,
            ) {
                if tries < RESCAN_TRIES {
                    RescanStep::AskAgain
                } else {
                    RescanStep::Await
                }
            } else {
                RescanStep::Fail
            },
            _ => RescanStep::Fail,
        }),
{
    match reply {
        Response::Done => RescanStep::Await,
        Response::Error { message } => {
            if contains(message.as_str(), "busy") || contains(message.as_str(), "starting") {
                if tries < RESCAN_TRIES {
                    RescanStep::AskAgain
                } else {
                    RescanStep::Await
                }
            } else {
                RescanStep::Fail
            }
        },
        _ => RescanStep::Fail,
    }
}

proof fn lemma_attention_front(d: Seq<Drift>, x: Drift, n: int)
    requires
        0 <= n <= d.len(),
    ensures
        attention(d.push(x), n) == attention(d, n),
    decreases n,
{
    if n > 0 {
        lemma_attention_front(d, x, n - 1);
    }
}

proof fn lemma_attention_update(d: Seq<Drift>, j: int, x: Drift, n: int)
    requires
        0 <= j < d.len(),
        0 <= n <= d.len(),
        wants_attention(x.class),
        !wants_attention(d[j].class),
    ensures
        attention(d.update(j, x), n) == attention(d, n) + if j < n {
            1
        } else {
            0nat
        },
    decreases n,
{
    if n > 0 {
        lemma_attention_update(d, j, x, n - 1);
    }
}

/// The target is known, as something that needs nobody.
pub open spec fn known_harmless(s: State, target: Seq<char>) -> bool {
    exists|k: int|
        0 <= k < s.drifted.len() && same_path((#[trigger] s.drifted[k]).target, target)
            && !class_needs_somebody(s.drifted[k].class)
}

/// The class is one of those that only somebody can do something about.
pub open spec fn class_needs_somebody(class: Seq<char>) -> bool {
    class == "conflict"@ || class == "local_source_diverged"@ || class == "eval_failed"@
}

/// A target that was not known to have drifted is news when it has, and so is one that comes to
/// need somebody. One that is in sync again is not.
pub proof fn law_trouble_is_news(s: State, target: String, class: String, ts: u64)
    requires
        sound(s),
    ensures
        ({
            let after = applied(s, Event::Drift { target, class, ts });
            &&& class@ != "in_sync"@ && !is_known(s.drifted, target@) ==> worse(after, s)
            &&& class_needs_somebody(class@) && known_harmless(s, target@) ==> worse(after, s)
            &&& class@ == "in_sync"@ ==> !worse(after, s)
        }),
{
    reveal_strlit("in_sync");
    reveal_strlit("conflict");
    reveal_strlit("local_source_diverged");
    reveal_strlit("eval_failed");
    assert("in_sync"@[0] == 'i' && "conflict"@[0] == 'c' && "local_source_diverged"@[0] == 'l'
        && "eval_failed"@[0] == 'e');
    lemma_place(s.drifted, target@, 0);
    lemma_fewer(s.drifted, target@);
    match place(s.drifted, target@, 0) {
        Some(j) => {
            if class_needs_somebody(class@) && known_harmless(s, target@) {
                let k = choose|k: int|
                    0 <= k < s.drifted.len() && same_path((#[trigger] s.drifted[k]).target, target@)
                        && !class_needs_somebody(s.drifted[k].class);
                if k < j {
                    assert(!same_path(s.drifted[k].target, s.drifted[j].target));
                }
                if j < k {
                    assert(!same_path(s.drifted[j].target, s.drifted[k].target));
                }
                lemma_attention_update(
                    s.drifted,
                    j,
                    Drift { target: s.drifted[j].target, class: class@, since_ts: Some(ts) },
                    s.drifted.len() as int,
                );
            }
        },
        None => {},
    }
}

proof fn lemma_fewer(d: Seq<Drift>, target: Seq<char>)
    ensures
        without(d, target).len() <= d.len(),
        attention(without(d, target), without(d, target).len() as int) <= attention(
            d,
            d.len() as int,
        ),
    decreases d.len(),
{
    if d.len() > 0 {
        lemma_fewer(d.drop_last(), target);
        let front = without(d.drop_last(), target);
        lemma_attention_front(front, d.last(), front.len() as int);
        lemma_attention_front(d.drop_last(), d.last(), d.len() - 1);
        assert(d.drop_last().push(d.last()) =~= d);
    }
}

/// The value of a flag is what stands behind it, the first time that it stands there; a flag
/// that is the last has none, and neither has one that does not stand there.
pub proof fn law_values_stand_behind_their_flag(
    front: Seq<Seq<char>>,
    flag: Seq<char>,
    value: Seq<char>,
    back: Seq<Seq<char>>,
)
    requires
        !front.contains(flag),
    ensures
        value_of(front + seq![flag, value] + back, flag) == Some(value),
        value_of(front.push(flag), flag) is None,
        value_of(front, flag) is None,
    decreases front.len(),
{
    if front.len() > 0 {
        let rest = front.drop_first();
        assert forall|k: int| 0 <= k < rest.len() implies rest[k] != flag by {
            assert(front[k + 1] == rest[k]);
        }
        law_values_stand_behind_their_flag(rest, flag, value, back);
        assert(front[0] != flag);
        assert((front + seq![flag, value] + back).drop_first() =~= rest + seq![flag, value] + back);
        assert(front.push(flag).drop_first() =~= rest.push(flag));
    }
}

/// It is waited a second at first, and each time twice as long as before, but never longer than a
/// quarter of a minute.
pub proof fn law_waits_grow_to_their_limit(secs: u64)
    requires
        1 <= secs <= 15,
    ensures
        secs <= next_wait(secs) <= 15,
        secs <= 7 ==> next_wait(secs) == 2 * secs,
        secs > 7 ==> next_wait(secs) == 15,
{
}

/// No drift is forgotten and none is told twice: what comes is counted until it is told, five
/// seconds after the first of it, and then it is told in one and the count starts anew.
pub proof fn law_drift_is_told_in_one(w: Watch, first: u64, second: u64, now: u64)
    requires
        w.wf(),
        w.pending_drift == 0,
        first <= second,
    ensures
        ({
            let one = w.after_drift(first);
            let two = one.after_drift(second);
            &&& one.wf() && two.wf()
            &&& now < first + 5_000 ==> two.flushed(now) is None && two.after_flush(now) == two
            &&& now >= first + 5_000 ==> two.flushed(now) == Some("2"@ + " files drifted"@)
                && one.flushed(now) == Some("1 file drifted"@) && two.after_flush(
                now,
            ).pending_drift == 0 && two.after_flush(now).flushed(now) is None
            &&& w.flushed(now) is None
        }),
{
    reveal_strlit("2");
    assert(decimal(2) =~= "2"@) by {
        crate::text::lemma_decimal_digits(2);
        reveal_with_fuel(decimal, 3);
    }
}

/// However many come while a window is open, each is counted, and when the window ends does not
/// change.
pub proof fn law_every_drift_is_counted(w: Watch, now: u64)
    requires
        w.wf(),
        w.pending_drift < usize::MAX,
    ensures
        w.after_drift(now).wf(),
        w.after_drift(now).pending_drift == w.pending_drift + 1,
        w.window_started matches Some(t) ==> w.after_drift(now).window_started == Some(t),
        w.window_started is None ==> w.after_drift(now).window_started == Some(now),
        w.after_drift(now).last_refresh == w.last_refresh,
        w.after_drift(now).stuck_since == w.stuck_since,
{
}

/// A daemon that is seen scanning at two times, and at all between them, is given up exactly where
/// more than three minutes lie between them; one that was seen idle starts anew.
pub proof fn law_stuck_daemons_are_given_up(w: Watch, since: u64, now: u64)
    requires
        w.stuck_since is None,
        since <= now,
    ensures
        ({
            let watched = w.after_judge(true, since);
            &&& w.stuck_for(true, since) is None
            &&& watched.stuck_for(true, now) is Some <==> now - since > 180_000
            &&& watched.stuck_for(true, now) matches Some(secs) ==> secs == (now - since) / 1000
            &&& now - since <= 180_000 ==> watched.after_judge(true, now) == watched
            &&& watched.stuck_for(false, now) is None
            &&& watched.after_judge(false, now).stuck_since is None
            &&& now - since > 180_000 ==> watched.after_judge(true, now).stuck_since is None
        }),
{
}

/// The status is asked for after every scan, and at least every half minute.
pub proof fn law_the_status_is_kept_fresh(w: Watch, scan_done: bool, now: u64)
    requires
        w.last_refresh <= now,
    ensures
        w.wants_refresh(scan_done, now) <==> scan_done || now - w.last_refresh >= 30_000,
{
}

} // verus!
