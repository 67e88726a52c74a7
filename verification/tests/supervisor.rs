//! What runs the app.

use tomte::model::SyncModel;
use tomte::proto::{DriftSummary, Event, Response};
use tomte::resolve::ResolveError;
use tomte::supervisor::{
    apply_and_signal, arg_value, connectivity_line, menu_items, menu_step, mode_of, rescan_step,
    resolve_paths, retry_line, status_line, stuck_line, sync_all_body, Link, MenuCommand, MenuItem,
    MenuSpec, MenuStep, Mode, NotifySignal, PathsFound, RescanStep, Watch,
};
use tomte::views::Route;

fn drift(target: &str, class: &str, ts: u64) -> Event {
    Event::Drift {
        target: target.into(),
        class: class.into(),
        ts,
    }
}

#[test]
fn drift_notifies_only_on_news() {
    let mut m = SyncModel::default();
    assert_eq!(
        apply_and_signal(&mut m, drift("/a", "destination_drift", 1)),
        NotifySignal::NewDrift
    );
    assert_eq!(
        apply_and_signal(&mut m, drift("/a", "destination_drift", 2)),
        NotifySignal::Quiet
    );
    assert_eq!(
        apply_and_signal(&mut m, drift("/a", "conflict", 3)),
        NotifySignal::NewDrift
    );
    assert_eq!(
        apply_and_signal(&mut m, drift("/a", "destination_drift", 4)),
        NotifySignal::Quiet
    );
    assert_eq!(
        apply_and_signal(&mut m, drift("/a", "in_sync", 5)),
        NotifySignal::Quiet
    );
    assert!(m.drifted.is_empty(), "model still ingested every event");
}

#[test]
fn eval_failed_counts_as_drift_news_once() {
    let mut m = SyncModel::default();
    assert_eq!(
        apply_and_signal(
            &mut m,
            Event::EvalFailed {
                target: Some("/tpl".into()),
                hint: "bad template".into(),
                ts: 1,
            }
        ),
        NotifySignal::NewDrift
    );
    assert_eq!(
        apply_and_signal(&mut m, drift("/tpl", "eval_failed", 2)),
        NotifySignal::Quiet
    );
    assert_eq!(
        apply_and_signal(
            &mut m,
            Event::EvalFailed {
                target: None,
                hint: "doctor".into(),
                ts: 3,
            }
        ),
        NotifySignal::Quiet
    );
}

#[test]
fn remote_advanced_notifies_and_lifecycle_events_stay_silent() {
    let mut m = SyncModel::default();
    assert_eq!(
        apply_and_signal(
            &mut m,
            Event::RemoteAdvanced {
                target: "/b".into(),
                ts: 1,
            }
        ),
        NotifySignal::RemoteAdvanced("/b".into())
    );
    assert_eq!(
        apply_and_signal(&mut m, Event::FetchDone { ts: 2, behind: 3 }),
        NotifySignal::Quiet
    );
    assert_eq!(
        apply_and_signal(&mut m, Event::ScanDone { ts: 3, drifted: 0 }),
        NotifySignal::Quiet
    );
    assert_eq!(
        apply_and_signal(
            &mut m,
            Event::LeftManagement {
                target: "/b".into(),
                ts: 4,
            }
        ),
        NotifySignal::Quiet
    );
    assert_eq!(m.last_fetch_ts, Some(2));
}

#[test]
fn daemons_are_started_once_a_minute_and_waits_grow() {
    let mut link = Link::new();
    assert!(link.attempt(1_000));
    assert_eq!(link.failed(), 1);
    assert!(!link.attempt(30_000));
    assert_eq!(link.failed(), 2);
    assert_eq!(link.failed(), 4);
    assert_eq!(link.failed(), 8);
    assert_eq!(link.failed(), 15);
    assert_eq!(link.failed(), 15);
    assert!(link.attempt(62_000));
    link.succeeded();
    assert_eq!(link.failed(), 1);
    assert!(retry_line(4, "refused").contains("refused"));
}

#[test]
fn drift_is_told_in_one_notification() {
    let mut w = Watch::new(0);
    assert_eq!(w.flush(10_000), None);
    assert_eq!(w.took(&NotifySignal::NewDrift, 10_000), None);
    assert_eq!(w.took(&NotifySignal::NewDrift, 12_000), None);
    assert_eq!(w.flush(14_999), None);
    assert_eq!(w.flush(15_000).as_deref(), Some("2 files drifted"));
    assert_eq!(w.flush(30_000), None);
    assert_eq!(
        w.took(&NotifySignal::RemoteAdvanced("/h/.zshrc".into()), 31_000)
            .as_deref(),
        Some("origin advanced: .zshrc")
    );
    assert_eq!(w.took(&NotifySignal::Quiet, 31_000), None);
}

#[test]
fn the_status_is_asked_for_now_and_then_and_a_stuck_scan_is_noticed() {
    let mut w = Watch::new(0);
    assert!(!w.refresh_due(false, 29_999));
    assert!(w.refresh_due(false, 30_000));
    assert!(!w.refresh_due(false, 31_000));
    assert!(w.refresh_due(true, 32_000));

    assert_eq!(w.judge(true, 100_000), None);
    assert_eq!(w.judge(true, 279_999), None);
    assert_eq!(w.judge(true, 280_001), Some(180));
    assert_eq!(w.judge(false, 281_000), None);
    assert_eq!(w.judge(true, 500_000), None);
    assert!(stuck_line(180).contains("180"));
}

fn drifted_model() -> SyncModel {
    let mut m = SyncModel::default();
    m.hydrate_status(
        vec![DriftSummary {
            target: "/a".into(),
            class: "conflict".into(),
            since_ts: None,
        }],
        3,
        None,
        false,
    );
    m.connected = true;
    m
}

#[test]
fn the_menu_holds_what_can_be_done() {
    let items = menu_items(&MenuSpec {
        header: "1 drifted".into(),
        freshness: "Fetched just now".into(),
        review_label: Some("Review 1 file…".into()),
        sync_all_enabled: false,
    });
    let commands: Vec<Option<MenuCommand>> = items
        .iter()
        .filter_map(|i| match i {
            MenuItem::Line { command, .. } => Some(*command),
            MenuItem::Separator => None,
        })
        .collect();
    assert!(commands.contains(&Some(MenuCommand::Review)));
    assert!(!commands.contains(&Some(MenuCommand::SyncAll)));
    assert!(commands.contains(&Some(MenuCommand::Quit)));
}

#[test]
fn a_menu_that_was_open_too_long_does_nothing() {
    let m = drifted_model();
    assert_eq!(
        menu_step(MenuCommand::OpenApp, &m, true),
        MenuStep::Open(Route::Dashboard)
    );
    assert_eq!(
        menu_step(MenuCommand::Settings, &m, false),
        MenuStep::Open(Route::Settings)
    );
    assert_eq!(
        menu_step(MenuCommand::Review, &m, true),
        MenuStep::Open(Route::Review)
    );
    assert_eq!(menu_step(MenuCommand::Quit, &m, false), MenuStep::Quit);
    assert_eq!(menu_step(MenuCommand::SyncAll, &m, true), MenuStep::Drop);
    assert_eq!(sync_all_body(None), "synced with origin");
    assert_eq!(
        sync_all_body(Some(&ResolveError::Failed("no net".into()))),
        "sync all failed: no net"
    );
}

fn args(words: &[&str]) -> Vec<String> {
    words.iter().map(|w| w.to_string()).collect()
}

#[test]
fn arguments_choose_a_mode() {
    assert_eq!(mode_of(&args(&["tomte"])), Mode::App);
    assert_eq!(
        mode_of(&args(&["tomte", "--print-status"])),
        Mode::PrintStatus
    );
    assert_eq!(
        mode_of(&args(&["tomte", "--verify-connectivity"])),
        Mode::VerifyConnectivity
    );
    assert_eq!(
        mode_of(&args(&["tomte", "--gallery-list"])),
        Mode::GalleryList
    );
    assert_eq!(
        arg_value(&args(&["tomte", "--gallery", "x", "--theme", "dark"]), "--theme").as_deref(),
        Some("dark")
    );
    assert_eq!(arg_value(&args(&["tomte", "--theme"]), "--theme"), None);
}

#[test]
fn paths_come_from_the_environment_or_lie_in_the_home() {
    let found = PathsFound {
        home: Some("/h".into()),
        socket: Some("/run/s".into()),
        journal: None,
        settings: None,
        daemon: None,
        sibling: Some("/bin/tomted".into()),
    };
    let p = resolve_paths(found);
    assert_eq!(p.socket, "/run/s");
    assert!(p.journal.starts_with("/h/Library/Application Support/Tomte/"));
    assert!(p.settings.ends_with("settings.toml"));
    assert_eq!(p.daemon, "/bin/tomted");
}

#[test]
fn status_lines_count() {
    assert_eq!(status_line(2, 40, &None), "2 drifted, 40 in sync");
    assert!(connectivity_line(2, 40, &Some("locked".into())).contains("locked"));
}

#[test]
fn a_busy_daemon_is_asked_again() {
    assert_eq!(rescan_step(&Response::Done, 0), RescanStep::Await);
    let busy = Response::Error {
        message: "busy: a scan is under way".into(),
    };
    assert_eq!(rescan_step(&busy, 0), RescanStep::AskAgain);
    assert_eq!(rescan_step(&busy, 60), RescanStep::Await);
    assert_eq!(
        rescan_step(&Response::HelloOk { version: 1 }, 0),
        RescanStep::Fail
    );
}
