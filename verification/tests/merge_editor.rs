//! The merge editor.

use std::collections::HashSet;

use tomte::merge::{Choice, RegionKind};
use tomte::merge_inputs::{MergeInputs, MergeInputsError};
use tomte::merge_state::MergeState;
use tomte::resolve::{ResolveError, ResolveOutcome};
use tomte::template::anchor::anchor;
use tomte::template::lexer::lex;
use tomte::theme::{Theme, Wash};
use tomte::views::merge::{
    block_at, block_height, conflicts_left, editor_key, geometry, merge_banner, next_target,
    pane_bg, pane_lines, progress_line, protected_line_info, region_display, region_holding,
    region_line_starts, result_bg, row_bg, template_line_at, visible, ChoiceKind, EditorBody,
    EditorKey, LoadedMerge, MergeView, PaneLine, PaneSide, RegionDisplay, SaveButton,
    SaveStep,
};
use tomte::views::review::BannerTint;

fn inputs(base: Option<&str>, ours: &str, theirs: &str) -> MergeInputs {
    MergeInputs {
        target: "/home/u/.testrc".into(),
        ours: ours.to_string(),
        theirs: theirs.to_string(),
        base: base.map(str::to_string),
        source_path: "/src/dot_testrc".into(),
        templated: false,
        template: None,
        span_map: None,
    }
}

fn conflict_inputs() -> MergeInputs {
    inputs(Some("a\nv = 1\nz\n"), "a\nv = 2\nz\n", "a\nv = 3\nz\n")
}

fn conflict_state() -> MergeState {
    MergeState::new(&conflict_inputs())
}

fn wash(color: u32, percent: u8) -> Wash {
    Wash { color, percent }
}

#[test]
fn pane_lines_cover_every_side_line_with_region_kinds() {
    let state = conflict_state();
    let none = Vec::new();
    for side in [PaneSide::Theirs, PaneSide::Base, PaneSide::Ours] {
        let rows = pane_lines(&state.doc, side, &none);
        assert_eq!(rows.len(), 3, "{side:?} pane covers all lines");
        assert_eq!(
            rows.iter().map(|r| r.kind).collect::<Vec<_>>(),
            [
                RegionKind::Unchanged,
                RegionKind::Conflict,
                RegionKind::Unchanged
            ]
        );
        assert!(rows.iter().all(|r| r.protected.is_none()));
    }
    let ours = pane_lines(&state.doc, PaneSide::Ours, &none);
    assert_eq!(ours[1].text, "v = 2", "newline stripped");
}

#[test]
fn row_bg_tints_by_owning_side() {
    let t = Theme::dark();
    assert_eq!(
        row_bg(RegionKind::Conflict, PaneSide::Ours, &t),
        Some(wash(t.drift, 16))
    );
    assert_eq!(
        row_bg(RegionKind::Conflict, PaneSide::Theirs, &t),
        Some(wash(t.accent, 16))
    );
    assert_eq!(
        row_bg(RegionKind::Conflict, PaneSide::Base, &t),
        Some(wash(t.text_muted, 16))
    );
    for side in [PaneSide::Theirs, PaneSide::Base, PaneSide::Ours] {
        assert_eq!(row_bg(RegionKind::Unchanged, side, &t), None);
    }
    assert_eq!(
        row_bg(RegionKind::OursOnly, PaneSide::Ours, &t),
        Some(wash(t.drift, 8))
    );
    assert_eq!(row_bg(RegionKind::OursOnly, PaneSide::Theirs, &t), None);
    assert_eq!(row_bg(RegionKind::OursOnly, PaneSide::Base, &t), None);
    assert_eq!(
        row_bg(RegionKind::TheirsOnly, PaneSide::Theirs, &t),
        Some(wash(t.accent, 8))
    );
    assert_eq!(row_bg(RegionKind::TheirsOnly, PaneSide::Ours, &t), None);
    assert_eq!(
        row_bg(RegionKind::BothSame, PaneSide::Ours, &t),
        Some(wash(t.ok, 6))
    );
    assert_eq!(row_bg(RegionKind::BothSame, PaneSide::Base, &t), None);
}

#[test]
fn protected_line_info_marks_lines_and_names_the_template_line() {
    let template = "email = {{ .email }}\neditor = hx\n";
    let rendered = "email = a@b.c\neditor = hx\n";
    let map = anchor(template, &lex(template).unwrap(), rendered);
    let lines: Vec<String> = rendered.split_inclusive('\n').map(str::to_owned).collect();
    let protected = protected_line_info(&lines, &map, Some(template));
    let tip = protected[0].as_ref().expect("value line is protected");
    assert!(
        tip.contains("email = {{ .email }}"),
        "tooltip names the template line: {tip}"
    );
    assert!(
        protected[1].is_none(),
        "the literal editor line is not protected"
    );
}

#[test]
fn loaded_merge_marks_theirs_pane_protected_rows_only() {
    let template = "email = {{ .email }}\neditor = hx\n";
    let rendered = "email = a@b.c\neditor = hx\n";
    let map = anchor(template, &lex(template).unwrap(), rendered);
    let loaded = LoadedMerge::new(MergeInputs {
        target: "/home/u/.testrc".into(),
        ours: "email = a@b.c\neditor = nvim\n".into(),
        theirs: rendered.into(),
        base: Some(rendered.into()),
        source_path: "/src/dot_testrc.tmpl".into(),
        templated: true,
        template: Some(template.into()),
        span_map: Some(map),
    });
    assert!(loaded.theirs_rows[0].protected.is_some());
    assert!(loaded.theirs_rows[1].protected.is_none());
    assert!(loaded.base_rows.iter().all(|r| r.protected.is_none()));
    assert!(loaded.ours_rows.iter().all(|r| r.protected.is_none()));
}

#[test]
fn next_target_cycles_changed_regions_when_no_conflicts_remain() {
    let mut state = MergeState::new(&inputs(Some("a\nb\nc\n"), "A\nb\nc\n", "a\nb\nC\n"));
    assert!(state.unresolved().is_empty(), "no conflicts in this doc");
    let changed = state.changed_regions();
    assert!(changed.len() >= 2, "need at least two stops: {changed:?}");

    let first = next_target(&mut state).expect("first stop");
    let second = next_target(&mut state).expect("second stop");
    assert_ne!(first, second, "Next must advance, not restart");
    let mut cur = second;
    for _ in 0..changed.len() {
        cur = next_target(&mut state).expect("cycling");
        if cur == first {
            break;
        }
    }
    assert_eq!(cur, first, "cycle wraps to the first stop");
}

#[test]
fn lines_lie_in_the_region_that_holds_them() {
    let starts = vec![[0usize, 0, 0], [4, 4, 0], [6, 6, 2]];
    assert_eq!(region_holding(&starts, 0, 2), 0);
    assert_eq!(region_holding(&starts, 2, 1), 1);
    assert_eq!(region_holding(&starts, 0, 99), 1);
    let state = conflict_state();
    assert_eq!(
        region_line_starts(&state.doc),
        vec![[0, 0, 0], [1, 1, 1], [2, 2, 2], [3, 3, 3]]
    );
}

#[test]
fn region_display_conflict_lifecycle() {
    let mut state = conflict_state();
    let region = state.conflicts()[0];
    let none = HashSet::new();

    match region_display(&state, region, &none, &Vec::new()) {
        RegionDisplay::Deciding {
            current: None,
            focused: true,
            provenance: Some((ours, theirs, _)),
            ..
        } => {
            assert_eq!(ours, vec!["v = 2".to_string()]);
            assert_eq!(theirs, vec!["v = 3".to_string()]);
        }
        other => panic!("expected open conflict, got {other:?}"),
    }

    state.pick(region, Choice::Theirs);
    match region_display(&state, region, &none, &Vec::new()) {
        RegionDisplay::Decided {
            choice: ChoiceKind::Theirs,
            focused: false,
            lines,
        } => assert_eq!(lines, vec![("v = 3".to_string(), Some(PaneSide::Theirs))]),
        other => panic!("expected decided, got {other:?}"),
    }

    let mut revisiting = HashSet::new();
    revisiting.insert(region);
    match region_display(&state, region, &revisiting, &Vec::new()) {
        RegionDisplay::Deciding {
            current: Some(ChoiceKind::Theirs),
            provenance: Some(_),
            ..
        } => {}
        other => panic!("expected revisit, got {other:?}"),
    }

    state.pick(region, Choice::Both);
    match region_display(&state, region, &none, &Vec::new()) {
        RegionDisplay::Decided {
            choice: ChoiceKind::Both,
            focused: false,
            lines,
        } => assert_eq!(
            lines,
            vec![
                ("v = 2".to_string(), Some(PaneSide::Ours)),
                ("v = 3".to_string(), Some(PaneSide::Theirs)),
            ]
        ),
        other => panic!("expected both, got {other:?}"),
    }
}

#[test]
fn auto_region_shows_overridable_default() {
    let state = MergeState::new(&inputs(Some("a\nb\n"), "a\nB\n", "a\nb\n"));
    let none = HashSet::new();
    let region_ix = state
        .doc
        .regions
        .iter()
        .position(|r| r.kind == RegionKind::OursOnly)
        .expect("ours-only region");
    match region_display(&state, region_ix, &none, &Vec::new()) {
        RegionDisplay::Deciding {
            current: Some(ChoiceKind::Ours),
            focused: false,
            provenance: None,
            lines,
            ..
        } => assert_eq!(lines, vec![("B".to_string(), Some(PaneSide::Ours))]),
        other => panic!("expected auto decision, got {other:?}"),
    }
}

fn done(committed: bool, pushed: bool, note: Option<&str>) -> ResolveOutcome {
    ResolveOutcome::Done {
        session: 9,
        committed,
        pushed,
        note: note.map(str::to_owned),
    }
}

#[test]
fn merge_banner_full_success_is_ok_and_undoable() {
    let b = merge_banner(&Ok(done(true, true, None)));
    assert_eq!(b.text, "Merged · committed & pushed");
    assert_eq!(b.tint, BannerTint::Fine);
    assert!(b.undoable);

    let b = merge_banner(&Ok(done(true, false, None)));
    assert_eq!(b.text, "merged");
    assert_eq!(b.tint, BannerTint::Fine);
}

#[test]
fn merge_banner_degraded_commit_carries_the_note_in_drift_tint() {
    let b = merge_banner(&Ok(done(true, false, Some("push failed: locked"))));
    assert_eq!(b.text, "Merged · push failed: locked");
    assert_eq!(b.tint, BannerTint::Drift);
    assert!(b.undoable, "the merge itself succeeded");
}

#[test]
fn merge_banner_protected_span_and_error_stay_not_undoable() {
    let b = merge_banner(&Ok(ResolveOutcome::ProtectedSpan {
        detail: "edit at rendered bytes 8..13 touches a protected template span".into(),
    }));
    assert!(
        b.text.starts_with("This change touches a templated value · "),
        "text: {}",
        b.text
    );
    assert_eq!(b.tint, BannerTint::Drift);
    assert!(!b.undoable, "nothing was mutated");

    let b = merge_banner(&Err(ResolveError::Failed("daemon gone".into())));
    assert_eq!(b.text, "save failed: daemon gone");
    assert_eq!(b.tint, BannerTint::Conflict);
    assert!(!b.undoable);
}

fn open_view() -> (MergeView, usize) {
    let mut view = MergeView::new();
    assert!(matches!(view.body(), EditorBody::Note(_)));
    view.load("/home/u/.testrc");
    assert!(view.loading);
    view.take_inputs("/home/u/.testrc", Ok(conflict_inputs()));
    assert_eq!(view.body(), EditorBody::Panes { two_way: false });
    let region = view.loaded.as_ref().unwrap().state.conflicts()[0];
    (view, region)
}

fn unresolved(view: &MergeView) -> usize {
    view.loaded.as_ref().unwrap().state.unresolved().len()
}

#[test]
fn choices_can_be_undone_and_made_again() {
    let (mut view, region) = open_view();
    assert_eq!(unresolved(&view), 1);
    view.undo();
    assert_eq!(unresolved(&view), 1, "nothing to undo");
    view.apply(region, Choice::Theirs);
    assert_eq!(unresolved(&view), 0);
    view.undo();
    assert_eq!(unresolved(&view), 1);
    assert_eq!(view.loaded.as_ref().unwrap().state.cursor, Some(region));
    view.redo();
    assert_eq!(
        view.loaded.as_ref().unwrap().state.resolution.get(region),
        Some(&Choice::Theirs)
    );
    view.undo();
    view.apply(region, Choice::Ours);
    view.redo();
    assert_eq!(
        view.loaded.as_ref().unwrap().state.resolution.get(region),
        Some(&Choice::Ours),
        "a new choice drops what was undone"
    );
}

#[test]
fn keys_choose_for_the_region_in_focus() {
    let (mut view, region) = open_view();
    view.pick_at_cursor(ChoiceKind::Base);
    assert_eq!(
        view.loaded.as_ref().unwrap().state.resolution.get(region),
        Some(&Choice::Base)
    );
    view.revisit(region);
    assert!(view.revisiting.contains(&region));
}

#[test]
fn a_merge_is_saved_once_all_is_decided() {
    let (mut view, region) = open_view();
    assert!(matches!(view.begin_save(true), SaveStep::Nothing));
    view.apply(region, Choice::Both);
    assert!(matches!(view.begin_save(false), SaveStep::NoDaemon));
    match view.begin_save(true) {
        SaveStep::Write(text) => assert_eq!(text, "a\nv = 2\nv = 3\nz\n"),
        other => panic!("{other:?}"),
    }
    assert!(view.saving);
    assert!(matches!(view.begin_save(true), SaveStep::Nothing));
    assert!(view
        .end_save(&Err(ResolveError::Failed("gone".into())))
        .is_none());
    assert_eq!(view.banner.as_ref().unwrap().text, "save failed: gone");
    assert!(matches!(view.begin_save(true), SaveStep::Write(_)));
    let banner = view.end_save(&Ok(done(true, true, None))).unwrap();
    assert_eq!(banner.text, "Merged · committed & pushed");
}

#[test]
fn inputs_for_another_file_come_too_late() {
    let mut view = MergeView::new();
    view.load("/a");
    view.load("/b");
    view.take_inputs("/a", Ok(conflict_inputs()));
    assert!(view.loaded.is_none());
    view.take_inputs("/b", Err(MergeInputsError::Binary));
    assert!(view.error.is_some());
    assert!(matches!(view.body(), EditorBody::Message { .. }));
}

#[test]
fn the_header_tells_what_is_left() {
    let t = Theme::dark();
    let mut view = MergeView::new();
    let h = view.header(&t);
    assert_eq!((h.name.as_str(), h.path.as_str()), ("merge editor", ""));
    assert!(h.progress.is_none() && h.next.is_none() && h.save.is_none());
    view.load("/home/u/.testrc");
    view.take_inputs("/home/u/.testrc", Ok(conflict_inputs()));
    let h = view.header(&t);
    assert_eq!(h.name, ".testrc");
    assert_eq!(h.path, "/home/u/.testrc");
    assert_eq!(h.progress, Some(("1 conflict, 0 resolved".into(), t.conflict)));
    assert_eq!(h.next, Some(t.conflict));
    assert!(matches!(h.save, Some(SaveButton::Waiting(why)) if why == "1 conflict left"));
    let region = view.loaded.as_ref().unwrap().state.conflicts()[0];
    view.apply(region, Choice::Ours);
    let h = view.header(&t);
    assert_eq!(h.progress, Some(("1 conflict, 1 resolved".into(), t.ok)));
    assert_eq!(h.next, Some(t.text));
    assert!(matches!(h.save, Some(SaveButton::Ready)));
    assert!(matches!(view.begin_save(true), SaveStep::Write(_)));
    assert!(matches!(view.header(&t).save, Some(SaveButton::Saving)));
}

#[test]
fn progress_is_counted() {
    let mut state = conflict_state();
    let (_, finished) = progress_line(&state);
    assert!(!finished);
    let region = state.conflicts()[0];
    state.pick(region, Choice::Ours);
    let (_, finished) = progress_line(&state);
    assert!(finished);
    assert_ne!(conflicts_left(1), conflicts_left(2));
}

#[test]
fn template_lines_are_found_by_their_bytes() {
    assert_eq!(template_line_at("ab\ncd\n", 4), "cd");
    assert_eq!(template_line_at("ab\ncd\n", 0), "ab");
}

#[test]
fn blocks_are_as_high_as_their_lines() {
    let state = conflict_state();
    let none = HashSet::new();
    let context = region_display(&state, 0, &none, &Vec::new());
    let open = region_display(&state, 1, &none, &Vec::new());
    assert!(block_height(&context) < block_height(&open));
}

#[test]
fn only_what_is_near_is_drawn() {
    let (view, _) = open_view();
    let blocks = geometry(&view.display_cache).unwrap();
    assert_eq!(blocks, vec![(4, 20), (24, 112), (136, 20)]);
    let all = visible(&blocks, 0, 1000);
    assert_eq!((all.lead, all.blocks, all.trail), (0, vec![0, 1, 2], 0));
    let some = visible(&blocks, 30, 100);
    assert_eq!((some.lead, some.blocks, some.trail), (20, vec![1], 20));
    assert_eq!(block_at(&blocks, 23), Some(0));
    assert_eq!(block_at(&blocks, 24), Some(1));
    assert_eq!(block_at(&blocks, 9999), Some(2));
    assert_eq!(block_at(&Vec::new(), 0), None);
}

#[test]
fn keys_and_washes_of_the_editor() {
    assert_eq!(editor_key("1"), Some(EditorKey::Pick(ChoiceKind::Ours)));
    assert_eq!(editor_key("2"), Some(EditorKey::Pick(ChoiceKind::Theirs)));
    assert_eq!(editor_key("3"), Some(EditorKey::Pick(ChoiceKind::Base)));
    assert_eq!(editor_key("b"), Some(EditorKey::Pick(ChoiceKind::Both)));
    assert_eq!(editor_key("n"), Some(EditorKey::Next));
    assert_eq!(editor_key("cmd-z"), Some(EditorKey::Undo));
    assert_eq!(editor_key("cmd-shift-z"), Some(EditorKey::Redo));
    assert_eq!(editor_key("x"), None);

    let t = Theme::dark();
    let mut line = PaneLine {
        text: "a".to_string(),
        kind: RegionKind::Unchanged,
        protected: None,
    };
    assert_eq!(pane_bg(&line, PaneSide::Theirs, &t), None);
    line.protected = Some("generated".to_string());
    assert_eq!(pane_bg(&line, PaneSide::Theirs, &t), Some(wash(t.drift, 15)));
    assert_eq!(result_bg(Some(PaneSide::Ours), &t), wash(t.drift, 7));
    assert_eq!(result_bg(None, &t), wash(t.ok, 7));
}
