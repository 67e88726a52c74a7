//! The dashboard, and the window around it.

use std::collections::HashSet;

use tomte::model::{SyncModel, TimelineRow};
use tomte::proto::{DriftSummary, Event};
use tomte::resolve::{ResolveError, ResolveOutcome};
use tomte::theme::Theme;
use tomte::views::dashboard::{
    build_lines, degraded_remedy, empty_state, hint_text, line_look, quick_action_body, render,
    row_actions, tiles, toggle, unlock_request, BannerAction, DashboardBody, DegradedRemedy,
    EmptyState, Line, RowActions, Tone,
};
use tomte::views::review::{BannerTint, OutcomeBanner, ResolveAction, ReviewState};
use tomte::views::{footer_freshness, footer_status, review_badge, Route, Shell, StatusTone};

fn done(note: Option<&str>) -> ResolveOutcome {
    ResolveOutcome::Done {
        session: 1,
        committed: true,
        pushed: note.is_none(),
        note: note.map(str::to_owned),
    }
}

#[test]
fn degraded_remedy_matches_cause() {
    assert_eq!(
        degraded_remedy("1Password CLI could not authenticate. Unlock 1Password and retry."),
        Some(DegradedRemedy::UnlockOnePassword)
    );
    assert_eq!(
        degraded_remedy(
            "Select a 1Password account in Settings (sets OP_ACCOUNT for all chezmoi calls)."
        ),
        Some(DegradedRemedy::OpenSettings)
    );
    assert_eq!(degraded_remedy("age decryption failed"), None);
}

#[test]
fn quick_action_body_reports_success_degraded_templated_and_error() {
    let t = "/Users/x/.zshrc";
    assert_eq!(
        quick_action_body(ResolveAction::KeepDisk, t, &Ok(done(None))),
        "Kept disk version: .zshrc"
    );
    assert_eq!(
        quick_action_body(ResolveAction::KeepSource, t, &Ok(done(Some("push failed")))),
        "Restored chezmoi's version: .zshrc · push failed"
    );
    assert_eq!(
        quick_action_body(
            ResolveAction::KeepDisk,
            t,
            &Ok(ResolveOutcome::NeedsMergeEditor)
        ),
        ".zshrc is templated · use the merge editor"
    );
    assert_eq!(
        quick_action_body(
            ResolveAction::KeepDisk,
            t,
            &Err(ResolveError::Failed("daemon gone".into()))
        ),
        "Keep disk .zshrc failed: daemon gone"
    );
    assert_eq!(
        quick_action_body(
            ResolveAction::KeepDisk,
            t,
            &Ok(ResolveOutcome::ProtectedSpan {
                detail: "touches a protected template span".into()
            })
        ),
        ".zshrc: this change touches a templated value · open the merge editor"
    );
}

fn summary(target: &str, class: &str) -> DriftSummary {
    DriftSummary {
        target: target.into(),
        class: class.into(),
        since_ts: Some(10),
    }
}

fn model(drifted: Vec<DriftSummary>) -> SyncModel {
    let mut m = SyncModel::default();
    m.hydrate_status(drifted, 7, None, false);
    m.connected = true;
    m
}

#[test]
fn tiles_count_and_warn() {
    let mut m = model(vec![summary("/a", "conflict"), summary("/b", "remote_ahead")]);
    m.last_fetch_ts = Some(100);
    let (decisions, origin, in_sync) = tiles(&m, 160);
    assert_eq!(decisions.value, "1");
    assert_eq!(decisions.tone, Tone::Conflict);
    assert_eq!(origin.value, "fetched 1m ago");
    assert_eq!(origin.tone, Tone::Plain);
    assert_eq!(in_sync.value, "7");
    assert_eq!(tiles(&m, 1900).1.tone, Tone::Plain);
    assert_eq!(tiles(&m, 1901).1.tone, Tone::Drift);
    m.connected = false;
    assert_eq!(tiles(&m, 160).2.value, "–");
}

#[test]
fn an_empty_timeline_says_why() {
    let mut m = SyncModel::default();
    m.scanning = true;
    m.connected = true;
    assert_eq!(empty_state(&m), EmptyState::Skeleton);
    let m = model(vec![]);
    assert!(matches!(empty_state(&m), EmptyState::Note { .. }));
}

fn row(ts: u64, kind: &str, target: Option<&str>) -> TimelineRow {
    TimelineRow {
        ts,
        kind: kind.into(),
        target: target.map(str::to_string),
        machine: "mac".into(),
        class: None,
    }
}

#[test]
fn scans_are_one_line_until_it_is_opened() {
    let mut m = model(vec![summary("/h/.zshrc", "conflict")]);
    m.timeline = vec![
        row(50, "drift", Some("/h/.zshrc")),
        row(40, "scan_done", None),
        row(30, "scan_done", None),
        row(20, "fetch_done", None),
    ];
    let mut open = HashSet::new();
    let lines = build_lines(&m, 60, &open);
    assert_eq!(lines.len(), 2, "{lines:?}");
    match &lines[0] {
        Line::Event { name, dir, drifted, indented, .. } => {
            assert_eq!(name, ".zshrc");
            assert_eq!(dir.as_deref(), Some("/h"));
            assert!(*drifted);
            assert!(!*indented);
        }
        other => panic!("{other:?}"),
    }
    assert_eq!(row_actions(&lines[0], true, false), RowActions::Offered { enabled: true });
    assert_eq!(row_actions(&lines[0], false, false), RowActions::Offered { enabled: false });
    assert_eq!(row_actions(&lines[0], true, true), RowActions::Working);
    let key = match &lines[1] {
        Line::Group { count, key, expanded, .. } => {
            assert_eq!(*count, 3);
            assert!(!*expanded);
            *key
        }
        other => panic!("{other:?}"),
    };
    assert_eq!(row_actions(&lines[1], true, false), RowActions::Nothing);
    toggle(&mut open, key);
    assert_eq!(build_lines(&m, 60, &open).len(), 5);
    toggle(&mut open, key);
    assert!(open.is_empty());
}

#[test]
fn unlocking_asks_the_password_manager() {
    let r = unlock_request();
    assert_eq!(r.program, "op");
    assert!(!hint_text("Select a 1Password account").is_empty());
}

#[test]
fn the_badge_and_the_footer_tell_the_state() {
    let m = model(vec![summary("/a", "conflict"), summary("/b", "remote_ahead")]);
    let (text, tone) = review_badge(&m).unwrap();
    assert_eq!(text, "1");
    assert_eq!(tone, StatusTone::Conflict);
    assert!(review_badge(&model(vec![])).is_none());
    assert_eq!(footer_status(&model(vec![])).0, StatusTone::Fine);
    let mut m = model(vec![]);
    m.apply_event(Event::FetchDone { ts: 100, behind: 0 });
    assert!(footer_freshness(&m, 160).contains("1m"));
}

#[test]
fn a_finished_merge_leads_back_to_the_review() {
    let mut shell = Shell::new(Route::Dashboard);
    shell.open_review(Some("/a"));
    assert_eq!(shell.route, Route::Review);
    shell.open_merge();
    assert_eq!(shell.route, Route::Merge);
    shell.merge_done(OutcomeBanner {
        text: "merged".into(),
        tint: BannerTint::Fine,
        undoable: true,
    });
    assert_eq!(shell.route, Route::Review);
    let review: &ReviewState = shell.review.as_ref().unwrap();
    assert_eq!(review.last_outcome.as_ref().unwrap().text, "merged");
    assert!(review.offers_undo());
}

#[test]
fn the_dashboard_shows_the_state_of_things() {
    let mut m = model(vec![summary("/h/.zshrc", "conflict")]);
    m.degraded = Some(
        "1Password CLI could not authenticate. Unlock 1Password and retry.".to_string(),
    );
    let shown = render(&m, 60, &HashSet::new(), false);
    assert_eq!(shown.review_link.as_deref(), Some("Review 1 →"));
    let banner = shown.banner.unwrap();
    assert_eq!(banner.text, "1Password CLI could not authenticate.");
    assert_eq!(banner.action, BannerAction::Unlock);
    assert!(!shown.activity);
    assert!(matches!(shown.body, DashboardBody::Empty(_)));

    m.timeline = vec![row(50, "drift", Some("/h/.zshrc"))];
    let shown = render(&m, 60, &HashSet::new(), true);
    assert_eq!(shown.banner.unwrap().action, BannerAction::Waiting);
    assert!(shown.activity);
    match shown.body {
        DashboardBody::Lines(lines) => assert_eq!(lines.len(), 1),
        other => panic!("{other:?}"),
    }
    let quiet = render(&model(vec![]), 60, &HashSet::new(), false);
    assert!(quiet.review_link.is_none() && quiet.banner.is_none());
}

#[test]
fn lines_have_the_colour_of_their_class() {
    let t = Theme::dark();
    let mut r = row(50, "dest_changed", Some("/h/.zshrc"));
    r.class = Some("conflict".to_string());
    let look = line_look(&Line::event(&r, 60, true, false), &t);
    assert_eq!(look.color, t.conflict);
    assert!(look.muted);
    assert_eq!(look.opens.as_deref(), Some("/h/.zshrc"));
    let group = Line::Group {
        count: 3,
        time: "now".to_string(),
        key: 1,
        expanded: false,
    };
    let look = line_look(&group, &t);
    assert_eq!(look.words.as_deref(), Some("3 scans"));
    assert_eq!(look.color, t.text_muted);
}
