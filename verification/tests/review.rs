//! The review of what has drifted.

use tomte::chezmoi::{ChezmoiClient, ChezmoiOptions};
use tomte::cmd::fake::FakeRunner;
use tomte::json::Json;
use tomte::merge::{MergeDocument, MergeOptions, RegionKind};
use tomte::merge_inputs::MergeInputs;
use tomte::model::SyncModel;
use tomte::proto::{DriftSummary, EventRow};
use tomte::resolve::{ResolveError, ResolveOutcome};
use tomte::theme::Theme;
use tomte::views::review::{
    auto_merge, diff_color, flatten_document, in_sync_line, is_conflict, keep_both_banner, load_preview,
    outcome_banner, per_line_ranges, prov_row, provenance_chip, provenance_line, severity_groups, sidebar_rows,
    undo_banner, BannerTint, DetailActions, DetailBody, DiffLine, LineTint, LoadedDetail,
    PreviewState, ResolveAction, ReviewState, SidebarRow,
};

fn s(target: &str, class: &str) -> DriftSummary {
    DriftSummary {
        target: target.into(),
        class: class.into(),
        since_ts: Some(1),
    }
}

fn targets(group: &[DriftSummary]) -> Vec<&str> {
    group.iter().map(|d| d.target.as_str()).collect()
}

#[test]
fn severity_groups_classifies_needs_you_vs_one_click() {
    let drifted = vec![
        s("/a", "conflict"),
        s("/b", "destination_drift"),
        s("/c", "local_source_diverged"),
        s("/d", "source_ahead"),
        s("/e", "eval_failed"),
        s("/f", "remote_ahead"),
    ];
    let (needs_you, one_click) = severity_groups(&drifted);
    assert_eq!(targets(&needs_you), ["/a", "/c", "/e"]);
    assert_eq!(targets(&one_click), ["/b", "/d", "/f"]);
}

#[test]
fn severity_groups_orders_conflicts_first_within_needs_you() {
    let drifted = vec![
        s("/lsd", "local_source_diverged"),
        s("/c1", "conflict"),
        s("/ef", "eval_failed"),
        s("/c2", "conflict"),
    ];
    let (needs_you, one_click) = severity_groups(&drifted);
    assert_eq!(targets(&needs_you), ["/c1", "/c2", "/lsd", "/ef"]);
    assert!(one_click.is_empty());
}

#[test]
fn severity_groups_is_stable_within_groups() {
    let drifted = vec![
        s("/1", "destination_drift"),
        s("/2", "remote_ahead"),
        s("/3", "destination_drift"),
        s("/4", "source_ahead"),
    ];
    let (needs_you, one_click) = severity_groups(&drifted);
    assert!(needs_you.is_empty());
    assert_eq!(targets(&one_click), ["/1", "/2", "/3", "/4"]);
}

#[test]
fn severity_groups_puts_unknown_classes_in_one_click() {
    let drifted = vec![s("/a", "some_future_class"), s("/b", "conflict")];
    let (needs_you, one_click) = severity_groups(&drifted);
    assert_eq!(targets(&needs_you), ["/b"]);
    assert_eq!(targets(&one_click), ["/a"]);
}

#[test]
fn severity_groups_empty_input_yields_empty_groups() {
    let (needs_you, one_click) = severity_groups(&Vec::new());
    assert!(needs_you.is_empty());
    assert!(one_click.is_empty());
}

fn two_way(rendered: &str, destination: &str) -> MergeDocument {
    MergeDocument::compute(rendered, destination, rendered, MergeOptions::default())
}

fn shape(lines: &[DiffLine]) -> Vec<(&str, LineTint, &str)> {
    lines
        .iter()
        .map(|l| (l.text.as_ref(), l.tint, l.marker))
        .collect()
}

#[test]
fn two_way_compute_never_yields_conflicts() {
    let cases = [
        ("a\nb\nc\n", "a\nB\nc\n"),
        ("a\n", "a\nextra\n"),
        ("gone\nkeep\n", "keep\n"),
        ("", "new\n"),
        ("old\n", ""),
    ];
    for (rendered, destination) in cases {
        let doc = two_way(rendered, destination);
        for region in &doc.regions {
            assert!(
                matches!(region.kind, RegionKind::Unchanged | RegionKind::OursOnly),
                "unexpected {:?} for ({rendered:?}, {destination:?})",
                region.kind
            );
        }
    }
}

#[test]
fn flatten_maps_two_way_regions_to_tinted_lines() {
    let doc = two_way("a\nv = 1\nz\n", "a\nv = 2\nz\n");
    let lines = flatten_document(&doc);
    assert_eq!(
        shape(&lines),
        [
            ("a", LineTint::Context, " "),
            ("v = 1", LineTint::Rendered, "−"),
            ("v = 2", LineTint::Destination, "+"),
            ("z", LineTint::Context, " "),
        ]
    );
    assert_eq!(lines[1].highlights, vec![4..5]);
    assert_eq!(lines[2].highlights, vec![4..5]);
    assert!(lines[0].highlights.is_empty());
    assert!(lines[3].highlights.is_empty());
}

#[test]
fn flatten_disk_only_addition_has_no_rendered_pair() {
    let doc = two_way("a\nb\n", "a\nx\nb\n");
    let lines = flatten_document(&doc);
    assert_eq!(
        shape(&lines),
        [
            ("a", LineTint::Context, " "),
            ("x", LineTint::Destination, "+"),
            ("b", LineTint::Context, " "),
        ]
    );
    assert!(lines[1].highlights.is_empty());
}

#[test]
fn flatten_deleted_on_disk_shows_rendered_only() {
    let doc = two_way("only\n", "");
    let lines = flatten_document(&doc);
    assert_eq!(shape(&lines), [("only", LineTint::Rendered, "−")]);
}

fn done(committed: bool, pushed: bool, note: Option<&str>) -> ResolveOutcome {
    ResolveOutcome::Done {
        session: 7,
        committed,
        pushed,
        note: note.map(str::to_owned),
    }
}

#[test]
fn outcome_banner_full_success_is_ok_tinted_and_undoable() {
    let b = outcome_banner(ResolveAction::KeepDisk, &Ok(done(true, true, None)));
    assert_eq!(b.text, "Kept disk version · committed & pushed");
    assert_eq!(b.tint, BannerTint::Fine);
    assert!(b.undoable);

    let b = outcome_banner(ResolveAction::KeepSource, &Ok(done(false, false, None)));
    assert_eq!(b.text, "Restored chezmoi's version");
    assert_eq!(b.tint, BannerTint::Fine);
    assert!(b.undoable);
}

#[test]
fn outcome_banner_degraded_commit_shows_note_in_drift_tint() {
    let b = outcome_banner(
        ResolveAction::KeepDisk,
        &Ok(done(true, false, Some("push failed: locked"))),
    );
    assert_eq!(b.text, "Kept disk version · push failed: locked");
    assert_eq!(b.tint, BannerTint::Drift);
    assert!(b.undoable, "the resolution itself succeeded");
}

#[test]
fn outcome_banner_templated_and_error_are_not_undoable() {
    let b = outcome_banner(
        ResolveAction::KeepDisk,
        &Ok(ResolveOutcome::NeedsMergeEditor),
    );
    assert_eq!(b.text, "Templated file · use the merge editor");
    assert_eq!(b.tint, BannerTint::Drift);
    assert!(!b.undoable);

    let b = outcome_banner(
        ResolveAction::KeepSource,
        &Err(ResolveError::Failed("daemon gone".into())),
    );
    assert_eq!(b.text, "Keep source failed: daemon gone");
    assert_eq!(b.tint, BannerTint::Conflict);
    assert!(!b.undoable);
}

#[test]
fn outcome_banner_protected_span_uses_the_plan_copy() {
    let b = outcome_banner(
        ResolveAction::KeepDisk,
        &Ok(ResolveOutcome::ProtectedSpan {
            detail: "edit at rendered bytes 8..13 touches a protected template span".into(),
        }),
    );
    assert_eq!(
        b.text,
        "This change touches a templated value · open the merge editor"
    );
    assert_eq!(b.tint, BannerTint::Drift);
    assert!(!b.undoable, "nothing was mutated — nothing to undo");
}

#[test]
fn undo_banner_covers_restored_nothing_and_error() {
    let b = undo_banner(&Ok(Some(3)));
    assert_eq!(b.text, "restored files from snapshots");
    assert_eq!(b.tint, BannerTint::Fine);
    assert!(!b.undoable);

    let b = undo_banner(&Ok(None));
    assert_eq!(b.text, "nothing to undo");
    assert_eq!(b.tint, BannerTint::Drift);

    let b = undo_banner(&Err(ResolveError::Failed("blob missing".into())));
    assert_eq!(b.text, "undo failed: blob missing");
    assert_eq!(b.tint, BannerTint::Conflict);
}

#[test]
fn per_line_ranges_splits_and_clamps_to_display_text() {
    let lines = vec!["ab\n".to_string(), "cd\n".to_string()];
    let out = per_line_ranges(&lines, &vec![1..4]);
    assert_eq!(out, vec![vec![1..2], vec![0..1]]);
    let out = per_line_ranges(&lines, &vec![2..3]);
    assert_eq!(out, vec![Vec::<std::ops::Range<usize>>::new(), Vec::new()]);
}

fn client(answers: &[(i32, &str, &str)]) -> ChezmoiClient<FakeRunner> {
    let mut fake = FakeRunner::new();
    for (code, out, err) in answers {
        fake.push_ok(*code, out, err);
    }
    ChezmoiClient::new(fake, ChezmoiOptions::default())
}

#[test]
fn a_preview_compares_what_is_rendered_with_what_is_on_disk() {
    let mut c = client(&[(0, "a\nb\n", "")]);
    match load_preview(
        &mut c,
        &|path: String| {
            assert_eq!(path, "/h/.rc");
            Ok(Some(b"a\nB\n".to_vec()))
        },
        "/h/.rc",
    ) {
        PreviewState::Ready(doc) => assert_eq!(
            shape(&flatten_document(&doc)),
            [
                ("a", LineTint::Context, " "),
                ("b", LineTint::Rendered, "−"),
                ("B", LineTint::Destination, "+"),
            ]
        ),
        other => panic!("{other:?}"),
    }

    let mut c = client(&[(0, "a\n", "")]);
    assert!(matches!(
        load_preview(&mut c, &|_p: String| Ok(None), "/h/.rc"),
        PreviewState::Ready(_)
    ));
    let mut c = client(&[(0, "a\n", "")]);
    assert!(matches!(
        load_preview(&mut c, &|_p: String| Err("denied".into()), "/h/.rc"),
        PreviewState::Error(_)
    ));
    let mut c = client(&[(0, "a\n", "")]);
    match load_preview(&mut c, &|_p: String| Ok(Some(vec![0xff])), "/h/.rc") {
        PreviewState::Ready(doc) => assert_eq!(doc.ours_lines, vec!["\u{fffd}".to_string()]),
        other => panic!("{other:?}"),
    }
    let mut c = client(&[(1, "", "boom")]);
    assert!(!matches!(
        load_preview(&mut c, &|_p: String| Ok(None), "/h/.rc"),
        PreviewState::Ready(_)
    ));
}

fn inputs(base: Option<&str>, ours: &str, theirs: &str) -> MergeInputs {
    MergeInputs {
        target: "/h/.rc".into(),
        ours: ours.into(),
        theirs: theirs.into(),
        base: base.map(str::to_string),
        source_path: "/src/dot_rc".into(),
        templated: false,
        template: None,
        span_map: None,
    }
}

#[test]
fn changes_that_do_not_meet_are_merged_by_themselves() {
    assert_eq!(
        auto_merge(&inputs(Some("a\nb\nc\n"), "A\nb\nc\n", "a\nb\nC\n")).as_deref(),
        Some("A\nb\nC\n")
    );
    assert_eq!(
        auto_merge(&inputs(Some("a\nb\nc\n"), "a\nx\nc\n", "a\ny\nc\n")),
        None
    );
    assert_eq!(auto_merge(&inputs(None, "a\n", "b\n")), None);
}

#[test]
fn both_changes_are_kept_in_one_step() {
    let b = keep_both_banner(&Ok(done(true, true, None)));
    assert_eq!(b.tint, BannerTint::Fine);
    assert!(b.undoable);
    let b = keep_both_banner(&Err(ResolveError::Failed("gone".into())));
    assert_eq!(b.tint, BannerTint::Conflict);
    assert!(!b.undoable);
}

#[test]
fn provenance_tells_what_came_from_elsewhere() {
    let row = prov_row(EventRow {
        id: 1,
        target: Some("/h/.rc".into()),
        ts: 12,
        machine: "mac-a".into(),
        kind: "drift".into(),
        from_hash: None,
        to_hash: None,
        meta: Some(Json::Object(vec![(
            "class".to_string(),
            Json::Text("conflict".to_string()),
        )])),
    });
    assert_eq!(row.ts, 12);
    assert_eq!(row.class.as_deref(), Some("conflict"));
    assert_eq!(provenance_chip(&row), Some("conflict"));
    let t = Theme::dark();
    let line = provenance_line(&row, 72, &t);
    assert_eq!(line.time, "1m ago");
    assert_eq!(line.color, t.conflict);
    assert_eq!(line.machine, "mac-a");
    assert_eq!(line.chip, Some("conflict"));
    assert_eq!(diff_color(LineTint::Rendered, &t), t.accent);
    assert_eq!(diff_color(LineTint::Destination, &t), t.drift);
    assert_eq!(diff_color(LineTint::Context, &t), t.text_muted);
}

#[test]
fn the_sidebar_has_a_head_for_each_group() {
    let drifted = vec![s("/h/one", "destination_drift"), s("/h/two", "conflict")];
    let rows = sidebar_rows(&drifted, &Some("/h/two".to_string()), 61);
    let mut heads = 0;
    let mut names = Vec::new();
    for row in &rows {
        match row {
            SidebarRow::Header(_) => heads += 1,
            SidebarRow::Target { name, selected, .. } => names.push((name.as_str(), *selected)),
            SidebarRow::Note(_) => {}
        }
    }
    assert_eq!(heads, 2);
    assert_eq!(names, vec![("two", true), ("one", false)]);
    assert!(in_sync_line(40).contains("40"));
    assert!(is_conflict(&drifted, "/h/two"));
    assert!(!is_conflict(&drifted, "/h/one"));
}

#[test]
fn the_merge_editor_stands_out_for_conflicts() {
    let t = Theme::dark();
    let drifted = vec![s("/h/two", "conflict"), s("/h/one", "local_change")];
    let mut r = ReviewState::new();
    assert!(r.detail_header(&drifted, true, &t).is_none());
    r.select("/h/two");
    let h = r.detail_header(&drifted, true, &t).unwrap();
    assert_eq!((h.name.as_str(), h.path.as_str()), ("two", "/h/two"));
    assert!(h.merge.enabled);
    assert_eq!((h.merge.color, h.merge.border), (t.accent, t.accent));
    let h = r.detail_header(&drifted, false, &t).unwrap();
    assert!(!h.merge.enabled);
    assert_eq!((h.merge.color, h.merge.border), (t.text_muted, t.border));
    r.select("/h/one");
    let h = r.detail_header(&drifted, true, &t).unwrap();
    assert_eq!((h.merge.color, h.merge.border), (t.text, t.border));
}

#[test]
fn an_action_is_taken_once_and_its_outcome_shown() {
    let mut model = SyncModel::default();
    model.hydrate_status(vec![s("/a", "conflict"), s("/b", "conflict")], 1, None, false);
    let mut r = ReviewState::new();
    assert_eq!(r.begin_action(true), None, "nothing is selected");
    r.select("/a");
    assert!(matches!(r.preview, PreviewState::Loading));
    r.loaded(
        "/b",
        LoadedDetail {
            provenance: vec![],
            preview: PreviewState::Error("late".into()),
            auto_merge: None,
        },
    );
    assert!(matches!(r.preview, PreviewState::Loading), "for another file");
    r.loaded(
        "/a",
        LoadedDetail {
            provenance: vec![],
            preview: PreviewState::Ready(two_way("a\n", "b\n")),
            auto_merge: None,
        },
    );
    assert_eq!(r.detail_body(), DetailBody::Diff);
    assert_eq!(
        r.detail_actions(true),
        DetailActions::Offered {
            enabled: true,
            keep_both: false
        }
    );
    assert_eq!(r.begin_action(false), None, "no daemon");
    assert_eq!(r.begin_action(true).as_deref(), Some("/a"));
    assert_eq!(r.detail_actions(true), DetailActions::Working);
    assert_eq!(r.begin_action(true), None, "one at a time");
    r.end_action(
        ResolveAction::KeepDisk,
        "/a",
        &Ok(done(true, true, None)),
        &mut model,
    );
    assert!(!r.action_in_flight);
    assert!(r.offers_undo());
    assert_eq!(targets(&model.drifted), ["/b"]);
    assert!(r.begin_undo(true));
    r.end_undo(&Ok(Some(7)));
    assert!(!r.offers_undo());
}
