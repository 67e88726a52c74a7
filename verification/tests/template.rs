//! Templates: lexing, anchoring, writing back.

use tomte::chezmoi::{ChezmoiClient, ChezmoiOptions};
use tomte::cmd::fake::FakeRunner;
use tomte::template::anchor::{anchor, SpanMap, SpanOrigin};
use tomte::template::lexer::{lex, ActionClass, LexError, Segment, SegmentKind};
use tomte::template::verify::{verify_write_back, VerifyError};
use tomte::template::writeback::{write_back, WriteBackError};

fn lex_ok(src: &str) -> Vec<Segment> {
    lex(src).unwrap()
}

fn text<'a>(src: &'a str, seg: &Segment) -> &'a str {
    &src[seg.src.clone()]
}

#[test]
fn plain_text_is_one_literal() {
    let src = "hello\nworld\n";
    let segs = lex_ok(src);
    assert_eq!(segs.len(), 1);
    assert!(matches!(segs[0].kind, SegmentKind::Literal));
    assert_eq!(text(src, &segs[0]), src);
}

#[test]
fn value_action_between_literals() {
    let src = "email = {{ .email }}!\n";
    let segs = lex_ok(src);
    assert_eq!(segs.len(), 3);
    assert!(matches!(segs[0].kind, SegmentKind::Literal));
    assert!(matches!(
        segs[1].kind,
        SegmentKind::Action {
            class: ActionClass::Value,
            trim_before: false,
            trim_after: false
        }
    ));
    assert_eq!(text(src, &segs[1]), "{{ .email }}");
    assert_eq!(text(src, &segs[2]), "!\n");
}

#[test]
fn trim_markers_are_recorded() {
    let src = "a\n{{- if .x -}}\nb\n{{- end }}\n";
    let segs = lex_ok(src);
    let SegmentKind::Action {
        class,
        trim_before,
        trim_after,
    } = segs[1].kind
    else {
        panic!("expected action");
    };
    assert_eq!(class, ActionClass::ControlOpen);
    assert!(trim_before && trim_after);
}

#[test]
fn depths_track_nesting() {
    let src = "t{{ if .a }}x{{ if .b }}y{{ end }}z{{ end }}u";
    let segs = lex_ok(src);
    let lit_depths: Vec<(String, u32)> = segs
        .iter()
        .filter(|s| matches!(s.kind, SegmentKind::Literal))
        .map(|s| (text(src, s).to_string(), s.depth))
        .collect();
    assert_eq!(
        lit_depths,
        vec![
            ("t".to_string(), 0),
            ("x".to_string(), 1),
            ("y".to_string(), 2),
            ("z".to_string(), 1),
            ("u".to_string(), 0),
        ]
    );
}

#[test]
fn strings_hide_closers_and_comments_lex() {
    let src = r#"{{ printf "}}" }}{{/* note }} here */}}end"#;
    let segs = lex_ok(src);
    assert!(matches!(
        segs[0].kind,
        SegmentKind::Action {
            class: ActionClass::Value,
            ..
        }
    ));
    assert!(matches!(segs[1].kind, SegmentKind::Comment { .. }));
    assert_eq!(text(src, &segs[2]), "end");
}

#[test]
fn errors_are_reported() {
    assert!(matches!(
        lex("a {{ .x "),
        Err(LexError::UnclosedAction { .. })
    ));
    assert!(matches!(
        lex("a {{ end }}"),
        Err(LexError::UnbalancedEnd { .. })
    ));
}

#[test]
fn lex_errors_name_their_place() {
    assert_eq!(
        lex("a {{ .x ").unwrap_err().message(),
        "unclosed template action starting at byte 2"
    );
    assert_eq!(
        lex("ab {{ end }}").unwrap_err().message(),
        "unbalanced {{ end }} at byte 3"
    );
}

#[test]
fn the_segments_tile_the_template() {
    let src = "é{{- with .a -}} x {{ else }}`}}` {{ `}}` }}{{ end }}\n{{/* c */}}{{ if .b }}open";
    let mut at = 0;
    for seg in lex_ok(src) {
        assert_eq!(seg.src.start, at);
        at = seg.src.end;
    }
    assert_eq!(at, src.len());
}

// ---------------------------------------------------------------------------
// Anchoring

fn spans_of(tmpl: &str, rendered: &str) -> SpanMap {
    anchor(tmpl, &lex(tmpl).unwrap(), rendered)
}

fn tiles(map: &SpanMap, len: usize) {
    let mut pos = 0;
    for s in &map.spans {
        assert_eq!(s.range.start, pos, "gap/overlap at {pos}");
        pos = s.range.end;
    }
    assert_eq!(pos, len, "spans must cover the full rendered text");
}

#[test]
fn pure_value_template_maps_fully() {
    let tmpl = "email = {{ .email }}!\n";
    let rendered = "email = a@b.c!\n";
    let map = spans_of(tmpl, rendered);
    tiles(&map, rendered.len());
    assert_eq!(map.spans.len(), 3);
    assert!(matches!(
        map.spans[0].origin,
        SpanOrigin::Literal {
            repeated: false,
            ..
        }
    ));
    assert!(matches!(map.spans[1].origin, SpanOrigin::Action { .. }));
    assert_eq!(&rendered[map.spans[1].range.clone()], "a@b.c");
    assert!(matches!(map.spans[2].origin, SpanOrigin::Literal { .. }));
}

#[test]
fn if_block_present_and_absent() {
    let tmpl = "start\n{{ if .x }}inside\n{{ end }}end\n";
    let present = "start\ninside\nend\n";
    let map = spans_of(tmpl, present);
    tiles(&map, present.len());
    let inside = map
        .spans
        .iter()
        .find(|s| &present[s.range.clone()] == "inside\n")
        .unwrap();
    assert!(matches!(inside.origin, SpanOrigin::Literal { .. }));
    let absent = "start\nend\n";
    let map2 = spans_of(tmpl, absent);
    tiles(&map2, absent.len());
    assert!(map2
        .spans
        .iter()
        .all(|s| !matches!(s.origin, SpanOrigin::Unmapped)));
}

#[test]
fn range_blocks_mark_repeated_literals() {
    let tmpl = "# top\n{{ range .shells }}alias {{ . }}\n{{ end }}# bottom\n";
    let rendered = "# top\nalias zsh\nalias nu\n# bottom\n";
    let map = spans_of(tmpl, rendered);
    tiles(&map, rendered.len());
    let alias_spans: Vec<_> = map
        .spans
        .iter()
        .filter(|s| &rendered[s.range.clone()] == "alias ")
        .collect();
    assert_eq!(alias_spans.len(), 2);
    for s in alias_spans {
        assert!(matches!(
            s.origin,
            SpanOrigin::Literal { repeated: true, .. }
        ));
    }
}

#[test]
fn unmatched_required_literal_protects_tail() {
    let tmpl = "aaa BBB ccc";
    let rendered = "aaa XXX zzz";
    let map = spans_of(tmpl, rendered);
    tiles(&map, rendered.len());
    assert!(matches!(
        map.spans.last().unwrap().origin,
        SpanOrigin::Unmapped
    ));
}

#[test]
fn trim_markers_shrink_anchored_literals() {
    let tmpl = "a\n{{- if .x }}\nb{{ end }}\n";
    let rendered = "a\nb\n";
    let map = spans_of(tmpl, rendered);
    tiles(&map, rendered.len());
    assert!(map
        .spans
        .iter()
        .all(|s| !matches!(s.origin, SpanOrigin::Unmapped)));
}

#[test]
fn a_byte_is_found_in_its_span() {
    let map = spans_of("x = {{ .v }}\n", "x = 1\n");
    assert!(matches!(
        map.span_at(0).unwrap().origin,
        SpanOrigin::Literal { .. }
    ));
    assert!(matches!(
        map.span_at(4).unwrap().origin,
        SpanOrigin::Action { .. }
    ));
    assert!(map.span_at(6).is_none());
}

// ---------------------------------------------------------------------------
// Writing back

#[test]
fn identity_writeback_returns_template_unchanged() {
    let tmpl = "email = {{ .email }}\neditor = hx\n";
    let rendered = "email = a@b.c\neditor = hx\n";
    let map = spans_of(tmpl, rendered);
    assert_eq!(write_back(tmpl, &map, rendered, rendered).unwrap(), tmpl);
}

#[test]
fn literal_edit_lands_in_template() {
    let tmpl = "email = {{ .email }}\neditor = hx\n";
    let rendered = "email = a@b.c\neditor = hx\n";
    let resolved = "email = a@b.c\neditor = nvim\n";
    let map = spans_of(tmpl, rendered);
    let out = write_back(tmpl, &map, rendered, resolved).unwrap();
    assert_eq!(out, "email = {{ .email }}\neditor = nvim\n");
}

#[test]
fn edit_touching_action_output_is_rejected() {
    let tmpl = "email = {{ .email }}\neditor = hx\n";
    let rendered = "email = a@b.c\neditor = hx\n";
    let resolved = "email = x@y.z\neditor = hx\n";
    let map = spans_of(tmpl, rendered);
    assert!(matches!(
        write_back(tmpl, &map, rendered, resolved),
        Err(WriteBackError::ProtectedSpanTouched { .. })
    ));
}

#[test]
fn edit_in_repeated_literal_is_rejected() {
    let tmpl = "{{ range .shells }}alias {{ . }}\n{{ end }}";
    let rendered = "alias zsh\nalias nu\n";
    let resolved = "alia zsh\nalias nu\n";
    let map = spans_of(tmpl, rendered);
    assert!(matches!(
        write_back(tmpl, &map, rendered, resolved),
        Err(WriteBackError::RepeatedLiteral { .. })
            | Err(WriteBackError::ProtectedSpanTouched { .. })
    ));
}

#[test]
fn multi_line_literal_edit_including_insertion() {
    let tmpl = "# header\nline1\nline2\n";
    let rendered = tmpl;
    let resolved = "# header\nline1\nline1.5\nline2 changed\n";
    let map = spans_of(tmpl, rendered);
    assert_eq!(
        write_back(tmpl, &map, rendered, resolved).unwrap(),
        resolved
    );
}

#[test]
fn write_back_errors_name_the_edit() {
    let e = WriteBackError::ProtectedSpanTouched {
        rendered_range: 8..13,
    };
    assert_eq!(
        e.message(),
        "edit at rendered bytes 8..13 touches a protected template span"
    );
    let e = WriteBackError::RepeatedLiteral {
        rendered_range: 0..1,
    };
    assert_eq!(
        e.message(),
        "edit at rendered bytes 0..1 touches a repeated (range-block) literal"
    );
    let e = WriteBackError::EditOutsideLiteral {
        rendered_range: 2..2,
    };
    assert_eq!(
        e.message(),
        "edit at rendered bytes 2..2 cannot be placed in a literal span"
    );
}

#[test]
fn two_edits_in_one_template_are_both_made() {
    let tmpl = "a = {{ .a }}\nb = 1\nc = {{ .c }}\nd = 2\n";
    let rendered = "a = x\nb = 1\nc = y\nd = 2\n";
    let resolved = "a = x\nb = 10\nc = y\nd = 20\n";
    let map = spans_of(tmpl, rendered);
    assert_eq!(
        write_back(tmpl, &map, rendered, resolved).unwrap(),
        "a = {{ .a }}\nb = 10\nc = {{ .c }}\nd = 20\n"
    );
}

// ---------------------------------------------------------------------------
// Rendering again

fn client() -> ChezmoiClient<FakeRunner> {
    ChezmoiClient::new(FakeRunner::new(), ChezmoiOptions::default())
}

#[test]
fn verification_compares_the_new_rendering() {
    let mut c = client();
    c.runner.push_ok(0, "x = 1\n", "");
    assert!(verify_write_back(&mut c, "x = {{ .v }}\n", "x = 1\n").is_ok());
    assert_eq!(
        c.runner.calls()[0].stdin.as_deref(),
        Some("x = {{ .v }}\n".as_bytes())
    );

    let mut c = client();
    c.runner.push_ok(0, "x = 2\n", "");
    let e = verify_write_back(&mut c, "x = {{ .v }}\n", "x = 1\n").unwrap_err();
    assert_eq!(
        e.message(),
        "re-rendered template does not match the resolved text"
    );
    match e {
        VerifyError::Mismatch { expected, actual } => {
            assert_eq!(expected, b"x = 1\n");
            assert_eq!(actual, b"x = 2\n");
        }
        other => panic!("expected a mismatch, got {other:?}"),
    }

    let mut c = client();
    c.runner.push_ok(1, "", "boom");
    assert!(matches!(
        verify_write_back(&mut c, "", ""),
        Err(VerifyError::Chezmoi(_))
    ));
}

#[test]
fn templates_survive_a_round_trip() {
    let corpus = [
        (
            "[user]\n    email = {{ .email }}\n[core]\n    editor = hx\n",
            "[user]\n    email = t@example.com\n[core]\n    editor = hx\n",
            "editor = hx",
            "editor = nvim",
        ),
        (
            "{{ if .work }}let work = true\n{{ end }}let editor = \"hx\"\n",
            "let work = true\nlet editor = \"hx\"\n",
            "\"hx\"",
            "\"nvim\"",
        ),
    ];
    for (tmpl, rendered, from, to) in corpus {
        let map = anchor(tmpl, &lex(tmpl).unwrap(), rendered);
        assert_eq!(write_back(tmpl, &map, rendered, rendered).unwrap(), tmpl);
        let resolved = rendered.replace(from, to);
        let out = write_back(tmpl, &map, rendered, &resolved).unwrap();
        assert_eq!(out, tmpl.replace(from, to));
    }
}

#[test]
fn a_plain_template_becomes_the_edited_text() {
    let t = "one\ntwo\nthree\n";
    let map = anchor(t, &lex_ok(t), t);
    for resolved in ["one\n2\nthree\n", "zero\none\nthree", "", "x", "one\ntwo\nthree\nfour é"] {
        assert_eq!(write_back(t, &map, t, resolved).unwrap(), resolved);
    }
}

#[test]
fn literals_outside_a_range_stay_editable_beside_it() {
    let t = "a\n{{ range .xs }}- {{ . }}\n{{ end }}{{ if .y }}tail\n{{ end }}z\n";
    let rendered = "a\n- 1\n- 2\nz\n";
    let map = anchor(t, &lex_ok(t), rendered);
    let out = write_back(t, &map, rendered, "a!\n- 1\n- 2\nz!\n").unwrap();
    assert_eq!(out, t.replacen("a\n", "a!\n", 1).replace("z\n", "z!\n"));
}

#[test]
fn no_two_literals_follow_each_other() {
    for src in [
        "a{{ if .x }}b{{- /* c */ -}}d{{ end }}",
        "plain",
        "{{ .x }}{{ .y }}",
        "a {{ `}}` }} b {{ \"}}\" }} c",
    ] {
        let segs = lex_ok(src);
        for pair in segs.windows(2) {
            assert!(
                !(matches!(pair[0].kind, SegmentKind::Literal)
                    && matches!(pair[1].kind, SegmentKind::Literal)),
                "{src}"
            );
        }
        let whole: String = segs.iter().map(|s| text(src, s)).collect();
        assert_eq!(whole, src);
    }
}
