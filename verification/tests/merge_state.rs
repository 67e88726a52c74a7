//! The state of a merge, and what it starts from.

use tomte::chezmoi::{ChezmoiClient, ChezmoiOptions};
use tomte::cmd::fake::FakeRunner;
use tomte::merge::{Choice, RegionKind};
use tomte::merge_inputs::{load, MergeInputs, MergeInputsError};
use tomte::merge_state::MergeState;

fn inputs(base: Option<&str>, ours: &str, theirs: &str) -> MergeInputs {
    MergeInputs {
        target: "/home/u/.testrc".into(),
        ours: ours.to_string(),
        theirs: theirs.to_string(),
        base: base.map(str::to_string),
        source_path: "/src/dot_testrc".into(),
        templated: false,
        template: None,
        span_map: None,
    }
}

fn two_conflicts() -> MergeState {
    MergeState::new(&inputs(
        Some("a\nv = 1\nz\nw = 1\ne\n"),
        "a\nv = 2\nz\nw = 2\ne\n",
        "a\nv = 3\nz\nw = 3\ne\n",
    ))
}

#[test]
fn conflict_bookkeeping_tracks_decisions() {
    let mut state = MergeState::new(&inputs(
        Some("a\nv = 1\nz\n"),
        "a\nv = 2\nz\n",
        "a\nv = 3\nz\n",
    ));
    assert!(!state.degraded_base);
    let conflicts = state.conflicts();
    assert_eq!(conflicts.len(), 1);
    let region = conflicts[0];
    assert_eq!(state.doc.regions[region].kind, RegionKind::Conflict);
    assert_eq!(state.unresolved(), conflicts);
    assert_eq!(state.progress(), (0, 1));
    assert_eq!(state.cursor, Some(region), "cursor starts on the conflict");

    state.pick(region, Choice::Ours);
    assert!(state.unresolved().is_empty());
    assert_eq!(state.progress(), (1, 1));
}

#[test]
fn missing_base_degrades_to_two_way_against_theirs() {
    let state = MergeState::new(&inputs(None, "a\nlocal\n", "a\nrendered\n"));
    assert!(state.degraded_base);
    assert!(state.conflicts().is_empty());
    assert_eq!(state.progress(), (0, 0));
    assert_eq!(state.cursor, None);
    assert_eq!(state.assembled().as_deref(), Some("a\nlocal\n"));
}

#[test]
fn pick_overrides_an_earlier_choice() {
    let mut state = two_conflicts();
    let region = state.conflicts()[0];
    state.pick(region, Choice::Ours);
    assert_eq!(state.resolution.get(region), Some(&Choice::Ours));
    state.pick(region, Choice::Theirs);
    assert_eq!(state.resolution.get(region), Some(&Choice::Theirs));
    assert_eq!(
        state.progress(),
        (1, 2),
        "an override is still one decision"
    );
}

#[test]
fn pick_can_override_a_non_conflict_default() {
    let mut state = MergeState::new(&inputs(None, "new\n", "old\n"));
    assert_eq!(state.doc.regions[0].kind, RegionKind::OursOnly);
    assert_eq!(state.assembled().as_deref(), Some("new\n"));
    state.pick(0, Choice::Base);
    assert_eq!(state.assembled().as_deref(), Some("old\n"));
    assert_eq!(state.progress(), (0, 0), "non-conflicts never count");
}

#[test]
fn pick_on_the_cursor_advances_it_elsewhere_it_stays() {
    let mut state = two_conflicts();
    let conflicts = state.conflicts();
    let (first, second) = (conflicts[0], conflicts[1]);
    assert_eq!(state.cursor, Some(first));

    state.pick(second, Choice::Theirs);
    assert_eq!(state.cursor, Some(first));

    state.pick(first, Choice::Ours);
    assert_eq!(state.cursor, None);
}

#[test]
fn next_unresolved_wraps_around() {
    let mut state = two_conflicts();
    let conflicts = state.conflicts();
    let (first, second) = (conflicts[0], conflicts[1]);
    assert_eq!(state.cursor, Some(first));
    assert_eq!(state.next_unresolved(), Some(second));
    assert_eq!(state.next_unresolved(), Some(first), "wraps to the start");
    assert_eq!(state.cursor, Some(first));

    state.pick(second, Choice::Theirs);
    assert_eq!(state.next_unresolved(), Some(first));
    assert_eq!(state.next_unresolved(), Some(first));

    state.pick(first, Choice::Ours);
    assert_eq!(state.next_unresolved(), None);
    assert_eq!(state.cursor, None);
}

#[test]
fn assembled_gates_on_full_resolution_then_matches_doc_assemble() {
    let mut state = two_conflicts();
    let conflicts = state.conflicts();
    assert_eq!(
        state.assembled(),
        None,
        "unresolved conflicts gate assembly"
    );

    state.pick(conflicts[0], Choice::Ours);
    assert_eq!(state.assembled(), None, "one conflict still open");

    state.pick(conflicts[1], Choice::Theirs);
    let assembled = state.assembled().expect("fully resolved must assemble");
    assert_eq!(assembled, "a\nv = 2\nz\nw = 3\ne\n");
    assert_eq!(
        assembled,
        state.doc.assemble(&state.resolution).unwrap(),
        "assembled() is exactly doc.assemble"
    );
}

#[test]
fn next_changed_goes_round_all_changed_regions() {
    let mut state = MergeState::new(&inputs(Some("a\nb\nc\n"), "A\nb\nc\n", "a\nb\nC\n"));
    assert_eq!(state.changed_regions(), vec![0, 2]);
    assert_eq!(state.next_changed(), Some(0));
    assert_eq!(state.next_changed(), Some(2));
    assert_eq!(state.next_changed(), Some(0));
}

// ---------------------------------------------------------------------------
// Loading

const RENDERED: &str = "a=1\n";
const DRIFTED: &str = "a=local\n";
const TARGET: &str = "/home/u/.testrc";

/// A client that answers the three calls of a load, in order.
fn client(source_path: &str, rendered: &str, dump_json: &str) -> ChezmoiClient<FakeRunner> {
    let mut fake = FakeRunner::new();
    fake.push_ok(0, &format!("{source_path}\n"), "");
    fake.push_ok(0, rendered, "");
    fake.push_ok(0, dump_json, "");
    ChezmoiClient::new(fake, ChezmoiOptions::default())
}

fn dump_with_hash(hash: &str) -> String {
    format!(r#"{{"entryState":{{"{TARGET}":{{"contentsSHA256":"{hash}","mode":420,"type":"file"}}}}}}"#)
}

fn no_text(_: String) -> Result<String, String> {
    Err("no template here".into())
}

fn no_blob(_: String) -> Option<Vec<u8>> {
    None
}

#[test]
fn load_plain_file_with_snapshotted_base() {
    let hash = "ab".repeat(32);
    let mut c = client("/src/dot_testrc", RENDERED, &dump_with_hash(&hash));
    let wanted = hash.clone();
    let inputs = load(
        &mut c,
        &|_| Ok(Some(DRIFTED.as_bytes().to_vec())),
        &no_text,
        &move |h: String| (h == wanted).then_some(RENDERED.as_bytes().to_vec()),
        TARGET,
    )
    .unwrap();
    assert_eq!(inputs.target, TARGET);
    assert_eq!(inputs.ours, DRIFTED);
    assert_eq!(inputs.theirs, RENDERED);
    assert_eq!(inputs.base.as_deref(), Some(RENDERED));
    assert_eq!(inputs.source_path, "/src/dot_testrc");
    assert!(!inputs.templated);
    assert!(inputs.span_map.is_none());
}

#[test]
fn load_detects_templated_source_and_builds_span_map() {
    let mut c = client("/src/dot_testrc.tmpl", RENDERED, "{}");
    let inputs = load(
        &mut c,
        &|_| Ok(Some(DRIFTED.as_bytes().to_vec())),
        &|p: String| {
            assert_eq!(p, "/src/dot_testrc.tmpl");
            Ok("a={{ .v }}\n".to_string())
        },
        &no_blob,
        TARGET,
    )
    .unwrap();
    assert!(inputs.templated);
    assert_eq!(inputs.base, None);
    let map = inputs.span_map.expect("templated load must anchor spans");
    assert!(
        !map.spans.is_empty(),
        "the span map must cover the rendered text"
    );
}

#[test]
fn load_missing_destination_reads_as_empty_ours() {
    let mut c = client("/src/dot_testrc", RENDERED, "{}");
    let inputs = load(&mut c, &|_| Ok(None), &no_text, &no_blob, TARGET).unwrap();
    assert_eq!(inputs.ours, "");
    assert_eq!(inputs.theirs, RENDERED);
}

#[test]
fn load_rejects_binary_destination() {
    let mut c = client("/src/dot_testrc", RENDERED, "{}");
    let err = load(
        &mut c,
        &|_| Ok(Some(vec![0xff, 0xfe, 0x00, 0x01])),
        &no_text,
        &no_blob,
        TARGET,
    )
    .unwrap_err();
    assert!(matches!(err, MergeInputsError::Binary), "got {err:?}");
}

#[test]
fn load_rejects_binary_rendered_output() {
    let mut fake = FakeRunner::new();
    fake.push_ok(0, "/src/dot_testrc\n", "");
    fake.push_ok_bytes(0, &[0xff, 0xfe, 0x00, 0x01], b"");
    let mut c = ChezmoiClient::new(fake, ChezmoiOptions::default());
    let err = load(
        &mut c,
        &|_| Ok(Some(DRIFTED.as_bytes().to_vec())),
        &no_text,
        &no_blob,
        TARGET,
    )
    .unwrap_err();
    assert!(matches!(err, MergeInputsError::Binary), "got {err:?}");
    assert_eq!(
        err.message(),
        "binary content — the merge editor handles UTF-8 text only"
    );
}

#[test]
fn load_base_misses_degrade_to_none_not_errors() {
    // no journal, or no such blob in it
    let mut c = client("/src/dot_testrc", RENDERED, &dump_with_hash(&"ab".repeat(32)));
    let inputs = load(
        &mut c,
        &|_| Ok(Some(DRIFTED.as_bytes().to_vec())),
        &no_text,
        &no_blob,
        TARGET,
    )
    .unwrap();
    assert_eq!(inputs.base, None, "missing journal must miss to None");

    // a blob that is no text
    let mut c = client("/src/dot_testrc", RENDERED, &dump_with_hash(&"cd".repeat(32)));
    let inputs = load(
        &mut c,
        &|_| Ok(Some(DRIFTED.as_bytes().to_vec())),
        &no_text,
        &|_| Some(vec![0xff]),
        TARGET,
    )
    .unwrap();
    assert_eq!(inputs.base, None, "missing blob must miss to None");
}

#[test]
fn load_reports_unreadable_files_and_malformed_templates() {
    let mut c = client("/src/dot_testrc", RENDERED, "{}");
    let err = load(
        &mut c,
        &|_| Err("permission denied".into()),
        &no_text,
        &no_blob,
        TARGET,
    )
    .unwrap_err();
    assert_eq!(err.message(), "permission denied");

    let mut c = client("/src/x.tmpl", RENDERED, "{}");
    let err = load(&mut c, &|_| Ok(None), &no_text, &no_blob, TARGET).unwrap_err();
    assert_eq!(err.message(), "no template here");

    let mut c = client("/src/x.tmpl", RENDERED, "{}");
    let err = load(
        &mut c,
        &|_| Ok(None),
        &|_| Ok("{{ .x".to_string()),
        &no_blob,
        TARGET,
    )
    .unwrap_err();
    assert!(matches!(err, MergeInputsError::Lex(_)));

    let mut fake = FakeRunner::new();
    fake.push_ok(1, "", "boom");
    let mut c = ChezmoiClient::new(fake, ChezmoiOptions::default());
    let err = load(&mut c, &|_| Ok(None), &no_text, &no_blob, TARGET).unwrap_err();
    assert!(matches!(err, MergeInputsError::Chezmoi(_)));
}
