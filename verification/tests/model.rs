//! The state of the app.

use tomte::json::Json;
use tomte::model::{
    class_label, group_timeline, kind_glyph, kind_label, time_ago, SyncModel, TimelineItem,
    TimelineRow, TIMELINE_CAP,
};
use tomte::proto::{DriftSummary, Event, EventRow};

fn drift(target: &str, class: &str, ts: u64) -> Event {
    Event::Drift {
        target: target.into(),
        class: class.into(),
        ts,
    }
}

fn summary(target: &str, class: &str, since_ts: Option<u64>) -> DriftSummary {
    DriftSummary {
        target: target.into(),
        class: class.into(),
        since_ts,
    }
}

fn row(id: i64, kind: &str, meta: Option<Json>) -> EventRow {
    EventRow {
        id,
        target: Some("/home/u/.zshrc".into()),
        ts: id as u64,
        machine: "mac-a".into(),
        kind: kind.into(),
        from_hash: None,
        to_hash: None,
        meta,
    }
}

fn object(name: &str, value: Json) -> Json {
    Json::Object(vec![(name.to_string(), value)])
}

#[test]
fn hydrate_status_populates_and_dedups_by_target() {
    let mut m = SyncModel::default();
    m.hydrate_status(
        vec![
            summary("/a", "conflict", Some(1)),
            summary("/b", "destination_drift", Some(2)),
            summary("/a", "destination_drift", Some(3)),
        ],
        12,
        Some("chezmoi doctor".into()),
        false,
    );
    assert_eq!(m.in_sync, 12);
    assert_eq!(m.degraded.as_deref(), Some("chezmoi doctor"));
    assert_eq!(m.drifted.len(), 2);
    assert_eq!(m.drifted[0].target, "/a");
    assert_eq!(m.drifted[0].class, "conflict");
    assert_eq!(m.drifted[1].target, "/b");
}

#[test]
fn hydrate_timeline_maps_rows_and_extracts_meta_class() {
    let cases: Vec<(Option<Json>, Option<&str>)> = vec![
        (
            Some(object("class", Json::Text("conflict".into()))),
            Some("conflict"),
        ),
        (Some(object("hint", Json::Text("x".into()))), None),
        (Some(object("class", Json::Unsigned(3))), None),
        (None, None),
    ];
    let wants: Vec<Option<&str>> = cases.iter().map(|c| c.1).collect();
    let mut m = SyncModel::default();
    m.hydrate_timeline(
        cases
            .into_iter()
            .enumerate()
            .map(|(i, (meta, _))| row(i as i64 + 1, "dest_changed", meta))
            .collect(),
    );
    assert_eq!(m.timeline.len(), wants.len());
    for (i, want) in wants.iter().enumerate() {
        assert_eq!(m.timeline[i].class.as_deref(), *want, "case {i}");
        assert_eq!(m.timeline[i].ts, i as u64 + 1);
        assert_eq!(m.timeline[i].kind, "dest_changed");
        assert_eq!(m.timeline[i].machine, "mac-a");
        assert_eq!(m.timeline[i].target.as_deref(), Some("/home/u/.zshrc"));
    }

    let mut m2 = SyncModel::default();
    m2.hydrate_timeline(vec![EventRow {
        target: None,
        ..row(9, "fetch", None)
    }]);
    assert_eq!(m2.timeline[0].target, None);
    assert_eq!(m2.timeline[0].kind, "fetch");
}

#[test]
fn apply_drift_dedups_by_target_and_rows_only_on_new_information() {
    let mut m = SyncModel::default();

    m.apply_event(drift("/a", "destination_drift", 100));
    assert_eq!(m.drifted.len(), 1);
    assert_eq!(m.drifted[0].since_ts, Some(100));
    assert_eq!(m.timeline.len(), 1);
    assert_eq!(m.timeline[0].kind, "dest_changed");
    assert_eq!(m.timeline[0].class.as_deref(), Some("destination_drift"));
    assert_eq!(m.timeline[0].machine, "local");

    m.apply_event(drift("/a", "destination_drift", 160));
    assert_eq!(m.drifted.len(), 1);
    assert_eq!(m.drifted[0].since_ts, Some(100));
    assert_eq!(m.timeline.len(), 1);

    m.apply_event(drift("/a", "conflict", 200));
    assert_eq!(m.drifted.len(), 1);
    assert_eq!(m.drifted[0].class, "conflict");
    assert_eq!(m.drifted[0].since_ts, Some(200));
    assert_eq!(m.timeline.len(), 2);
    assert_eq!(m.timeline[0].ts, 200, "newest first");

    m.apply_event(drift("/b", "remote_ahead", 300));
    assert_eq!(m.drifted.len(), 2);
    assert_eq!(m.timeline[0].kind, "remote_advanced");

    m.apply_event(drift("/a", "in_sync", 400));
    assert_eq!(m.drifted.len(), 1);
    assert_eq!(m.drifted[0].target, "/b");
    assert_eq!(m.timeline.len(), 3);
}

#[test]
fn apply_drift_maps_class_to_journal_kind() {
    let cases = [
        ("destination_drift", "dest_changed"),
        ("conflict", "dest_changed"),
        ("source_ahead", "source_changed"),
        ("local_source_diverged", "source_changed"),
        ("remote_ahead", "remote_advanced"),
        ("eval_failed", "eval_failed"),
    ];
    for (class, want_kind) in cases {
        let mut m = SyncModel::default();
        m.apply_event(drift("/f", class, 1));
        assert_eq!(m.timeline[0].kind, want_kind, "class {class}");
        assert_eq!(m.timeline[0].class.as_deref(), Some(class));
    }
}

#[test]
fn apply_lifecycle_events() {
    let mut m = SyncModel::default();
    m.apply_event(drift("/a", "conflict", 10));
    m.apply_event(drift("/b", "destination_drift", 11));

    m.apply_event(Event::LeftManagement {
        target: "/a".into(),
        ts: 20,
    });
    assert_eq!(m.drifted.len(), 1);
    assert_eq!(m.timeline[0].kind, "left_management");
    assert_eq!(m.timeline[0].class, None);

    m.apply_event(Event::FetchDone { ts: 30, behind: 2 });
    assert_eq!(m.last_fetch_ts, Some(30));
    assert_eq!(m.timeline[0].kind, "fetch");
    assert_eq!(m.timeline[0].target, None);

    m.apply_event(Event::ScanDone { ts: 40, drifted: 1 });
    assert_eq!(m.drifted.len(), 1);
    m.apply_event(Event::ScanDone { ts: 50, drifted: 0 });
    assert!(m.drifted.is_empty());

    m.apply_event(Event::EvalFailed {
        target: Some("/tpl".into()),
        hint: "bad template".into(),
        ts: 60,
    });
    assert_eq!(m.drifted.len(), 1);
    assert_eq!(m.drifted[0].class, "eval_failed");
    assert_eq!(m.timeline[0].kind, "eval_failed");
    m.apply_event(drift("/tpl", "eval_failed", 61));
    assert_eq!(m.drifted.len(), 1);
    assert_eq!(m.timeline[0].ts, 60);

    m.apply_event(Event::EvalFailed {
        target: None,
        hint: "doctor".into(),
        ts: 70,
    });
    assert_eq!(m.drifted.len(), 1);
    assert_eq!(m.timeline[0].target, None);

    m.apply_event(Event::RemoteAdvanced {
        target: "/b".into(),
        ts: 80,
    });
    assert_eq!(m.timeline[0].kind, "remote_advanced");
    assert_eq!(m.drifted.len(), 1);
}

#[test]
fn needs_attention_counts_only_conflictish_classes() {
    let cases: Vec<(Vec<&str>, usize)> = vec![
        (vec![], 0),
        (vec!["destination_drift", "source_ahead", "remote_ahead"], 0),
        (vec!["conflict"], 1),
        (vec!["local_source_diverged"], 1),
        (vec!["eval_failed"], 1),
        (
            vec!["conflict", "eval_failed", "destination_drift", "conflict"],
            3,
        ),
    ];
    for (classes, want) in cases {
        let mut m = SyncModel::default();
        m.hydrate_status(
            classes
                .iter()
                .enumerate()
                .map(|(i, c)| summary(&format!("/f{i}"), c, Some(1)))
                .collect(),
            0,
            None,
            false,
        );
        assert_eq!(m.needs_attention(), want, "classes {classes:?}");
    }
}

#[test]
fn status_title_shows_attention_count() {
    let cases: Vec<(Vec<&str>, &str)> = vec![
        (vec![], "cz"),
        (vec!["destination_drift"], "cz"),
        (vec!["conflict"], "cz ●1"),
        (
            vec!["conflict", "eval_failed", "local_source_diverged"],
            "cz ●3",
        ),
    ];
    for (classes, want) in cases {
        let mut m = SyncModel {
            connected: true,
            ..Default::default()
        };
        m.hydrate_status(
            classes
                .iter()
                .enumerate()
                .map(|(i, c)| summary(&format!("/f{i}"), c, Some(1)))
                .collect(),
            0,
            None,
            false,
        );
        assert_eq!(m.status_title(), want, "classes {classes:?}");
    }
}

#[test]
fn menu_spec_reflects_connection_drift_and_freshness() {
    let mut m = SyncModel::default();
    let (header, freshness, review, sync_all) = m.menu_spec(1_000);
    assert_eq!(header, "chezmoid not connected");
    assert_eq!(freshness, "origin: never fetched");
    assert_eq!(review, None);
    assert!(!sync_all);

    m.connected = true;
    m.hydrate_status(vec![], 42, None, false);
    m.last_fetch_ts = Some(1_000 - 30);
    let (header, freshness, review, sync_all) = m.menu_spec(1_000);
    assert_eq!(header, "All in sync · 42 files");
    assert_eq!(freshness, "origin: fetched just now");
    assert_eq!(review, None);
    assert!(sync_all);

    m.apply_event(drift("/a", "conflict", 900));
    m.apply_event(drift("/b", "destination_drift", 901));
    let (header, _, review, sync_all) = m.menu_spec(1_000);
    assert_eq!(header, "2 drifted · 1 need attention");
    assert_eq!(review.as_deref(), Some("Review 2…"));
    assert!(!sync_all);

    let mut calm = SyncModel {
        connected: true,
        ..SyncModel::default()
    };
    calm.apply_event(drift("/a", "destination_drift", 1));
    let (header, _, _, _) = calm.menu_spec(1_000);
    assert_eq!(header, "1 drifted");

    let fresh_cases = [
        (59, "origin: fetched just now"),
        (60, "origin: fetched 1m ago"),
        (185, "origin: fetched 3m ago"),
        (3_600, "origin: fetched 1h ago"),
        (7_260, "origin: fetched 2h ago"),
        (86_400, "origin: fetched 1d ago"),
        (259_200, "origin: fetched 3d ago"),
    ];
    for (age, want) in fresh_cases {
        let m = SyncModel {
            connected: true,
            last_fetch_ts: Some(1_000_000 - age),
            ..SyncModel::default()
        };
        let (_, freshness, _, _) = m.menu_spec(1_000_000);
        assert_eq!(freshness, want, "age {age}s");
    }
    let m = SyncModel {
        last_fetch_ts: Some(2_000),
        ..SyncModel::default()
    };
    let (_, freshness, _, _) = m.menu_spec(1_000);
    assert_eq!(freshness, "origin: fetched just now");
}

#[test]
fn time_ago_buckets() {
    let cases = [
        (0, "just now"),
        (59, "just now"),
        (60, "1m ago"),
        (185, "3m ago"),
        (3_599, "59m ago"),
        (3_600, "1h ago"),
        (86_399, "23h ago"),
        (86_400, "1d ago"),
        (259_200, "3d ago"),
    ];
    for (age, want) in cases {
        assert_eq!(time_ago(1_000_000, 1_000_000 - age), want, "age {age}s");
    }
    assert_eq!(time_ago(100, 200), "just now");
}

#[test]
fn kind_glyphs_cover_the_journal_vocabulary() {
    let cases = [
        ("dest_changed", "Δ"),
        ("remote_advanced", "↓"),
        ("applied", "✓"),
        ("resolved", "✓"),
        ("eval_failed", "⛔"),
        ("left_management", "−"),
        ("fetch", "·"),
        ("source_changed", "·"),
        ("unknown_future_kind", "·"),
    ];
    for (kind, want) in cases {
        assert_eq!(kind_glyph(kind), want, "kind {kind}");
    }
}

#[test]
fn timeline_caps_at_500_rows() {
    let mut m = SyncModel::default();
    m.hydrate_timeline((0..600).map(|i| row(i, "dest_changed", None)).collect());
    assert_eq!(m.timeline.len(), TIMELINE_CAP);
    assert_eq!(m.timeline[0].ts, 0);

    let mut m = SyncModel::default();
    for i in 0..510u64 {
        m.apply_event(drift(&format!("/f{i}"), "destination_drift", i));
    }
    assert_eq!(m.timeline.len(), TIMELINE_CAP);
    assert_eq!(m.timeline[0].ts, 509, "newest first");
    assert_eq!(m.timeline[TIMELINE_CAP - 1].ts, 10, "oldest rows trimmed");
    assert_eq!(m.drifted.len(), 510, "drift list is not capped");
}

#[test]
fn rescan_placeholder_does_not_wipe_known_stats() {
    let mut m = SyncModel {
        connected: true,
        ..Default::default()
    };
    m.hydrate_status(
        vec![summary("/a", "destination_drift", Some(1))],
        954,
        None,
        false,
    );
    m.hydrate_status(vec![], 0, Some("scan in progress…".into()), true);
    assert_eq!(m.in_sync, 954, "stats must survive a rescan");
    assert_eq!(m.drifted.len(), 1);
    assert!(m.scanning);
    m.hydrate_status(vec![], 955, None, false);
    assert_eq!(m.in_sync, 955);
    assert!(m.drifted.is_empty());
    assert!(!m.scanning);
}

#[test]
fn group_timeline_collapses_consecutive_info_rows() {
    let info = |ts| TimelineRow {
        ts,
        kind: "fetch".into(),
        target: None,
        machine: "m".into(),
        class: None,
    };
    let drift = |ts| TimelineRow {
        ts,
        kind: "dest_changed".into(),
        target: Some("/f".into()),
        machine: "m".into(),
        class: Some("destination_drift".into()),
    };
    let rows = vec![
        info(10),
        info(9),
        info(8),
        drift(7),
        info(6),
        drift(5),
        info(4),
    ];
    let items = group_timeline(&rows);
    assert_eq!(items.len(), 5);
    match &items[0] {
        TimelineItem::ScanGroup {
            count: 3,
            newest_ts: 10,
            rows,
        } => {
            assert_eq!(rows.len(), 3)
        }
        other => panic!("expected group, got {other:?}"),
    }
    assert!(matches!(&items[1], TimelineItem::Row(r) if r.ts == 7));
    assert!(matches!(&items[2], TimelineItem::Row(r) if r.ts == 6));
    assert!(matches!(&items[3], TimelineItem::Row(r) if r.ts == 5));
    assert!(matches!(&items[4], TimelineItem::Row(r) if r.ts == 4));
}

#[test]
fn a_resolved_target_is_taken_off_the_list() {
    let mut m = SyncModel::default();
    m.apply_event(drift("/a", "conflict", 1));
    m.apply_event(drift("/b", "conflict", 2));
    // the same path, written otherwise
    m.confirm_resolved("//a/.");
    assert_eq!(m.drifted.len(), 1);
    assert_eq!(m.drifted[0].target, "/b");
    assert_eq!(m.timeline.len(), 2);
}

#[test]
fn classes_and_kinds_have_words() {
    assert_eq!(class_label("destination_drift"), "modified on disk");
    assert_eq!(class_label("eval_failed"), "can't evaluate");
    assert_eq!(class_label("anything"), "changed");
    assert_eq!(kind_label("fetch"), "scan");
    assert_eq!(kind_label("session_end"), "session");
    assert_eq!(kind_label("anything"), "event");
}
