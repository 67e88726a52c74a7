//! Three-way merges.

use tomte::merge::worddiff::{is_word, tokens, word_diff, MAX_TOKENS};
use tomte::merge::{
    lines, split_lines, AssembleError, Choice, MergeDocument, MergeOptions, RegionKind, Resolution,
};

#[test]
fn both_choice_concatenates_ours_then_theirs() {
    let doc = MergeDocument::compute("x\n", "disk\n", "src\n", MergeOptions::default());
    let conflicts = doc.required_decisions();
    assert_eq!(conflicts.len(), 1);
    let mut res = Resolution::new();
    res.set(conflicts[0], Choice::Both);
    assert_eq!(doc.assemble(&res).unwrap(), "disk\nsrc\n");
}

#[test]
fn both_choice_on_one_sided_region_duplicates_nothing_missing() {
    let doc = MergeDocument::compute("a\n", "a\n", "a\nb\n", MergeOptions::default());
    let region_ix = doc
        .regions
        .iter()
        .position(|r| r.kind == RegionKind::TheirsOnly)
        .expect("theirs-only region");
    let mut res = Resolution::new();
    res.set(region_ix, Choice::Both);
    let out = doc.assemble(&res).unwrap();
    assert_eq!(out, "a\nb\n");
}

#[test]
fn both_choice_with_empty_ours_side_in_conflict() {
    let doc = MergeDocument::compute("x\n", "", "y\n", MergeOptions::default());
    let conflicts = doc.required_decisions();
    assert_eq!(conflicts.len(), 1);
    let mut res = Resolution::new();
    res.set(conflicts[0], Choice::Both);
    assert_eq!(doc.assemble(&res).unwrap(), "y\n");
}

fn kinds(doc: &MergeDocument) -> Vec<RegionKind> {
    doc.regions.iter().map(|r| r.kind).collect()
}

#[test]
fn identical_inputs_are_one_unchanged_region() {
    let doc = MergeDocument::compute("a\nb\n", "a\nb\n", "a\nb\n", MergeOptions::default());
    assert_eq!(kinds(&doc), vec![RegionKind::Unchanged]);
    assert_eq!(doc.regions[0].base, 0..2);
}

#[test]
fn one_sided_changes_classify_by_side() {
    let base = "a\nb\nc\nd\ne\n";
    let ours = "a\nB\nc\nd\ne\n";
    let theirs = "a\nb\nc\nD\ne\n";
    let doc = MergeDocument::compute(base, ours, theirs, MergeOptions::default());
    assert_eq!(
        kinds(&doc),
        vec![
            RegionKind::Unchanged,
            RegionKind::OursOnly,
            RegionKind::Unchanged,
            RegionKind::TheirsOnly,
            RegionKind::Unchanged,
        ]
    );
    let ours_region = &doc.regions[1];
    assert_eq!(
        doc.ours_lines()[ours_region.ours.clone()],
        ["B\n".to_string()]
    );
}

#[test]
fn same_change_on_both_sides_is_both_same() {
    let doc = MergeDocument::compute("x\n", "y\n", "y\n", MergeOptions::default());
    assert_eq!(kinds(&doc), vec![RegionKind::BothSame]);
}

#[test]
fn overlapping_different_changes_conflict() {
    let doc = MergeDocument::compute("v = 1\n", "v = 2\n", "v = 3\n", MergeOptions::default());
    assert_eq!(kinds(&doc), vec![RegionKind::Conflict]);
    assert_eq!(doc.required_decisions(), vec![0]);
}

#[test]
fn adjacent_insertions_from_both_sides_cluster_into_conflict() {
    let doc = MergeDocument::compute(
        "a\nz\n",
        "a\nours\nz\n",
        "a\ntheirs\nz\n",
        MergeOptions::default(),
    );
    assert_eq!(
        kinds(&doc),
        vec![
            RegionKind::Unchanged,
            RegionKind::Conflict,
            RegionKind::Unchanged
        ]
    );
}

#[test]
fn whitespace_only_difference_is_both_same_with_option() {
    let base = "k: v\n";
    let ours = "k: v  \n";
    let theirs = "k: v\t\n";
    let strict = MergeDocument::compute(base, ours, theirs, MergeOptions::default());
    assert_eq!(kinds(&strict), vec![RegionKind::Conflict]);
    let relaxed = MergeDocument::compute(
        base,
        ours,
        theirs,
        MergeOptions {
            ignore_trailing_whitespace: true,
        },
    );
    assert_eq!(kinds(&relaxed), vec![RegionKind::BothSame]);
}

#[test]
fn missing_trailing_newline_roundtrips() {
    let doc = MergeDocument::compute("a\nb", "a\nb", "a\nb", MergeOptions::default());
    assert_eq!(doc.base_lines().concat(), "a\nb");
}

#[test]
fn assemble_applies_defaults_and_choices() {
    let base = "a\nv = 1\nz\n";
    let ours = "a\nv = 2\nz\n";
    let theirs = "a\nv = 3\nz\n";
    let doc = MergeDocument::compute(base, ours, theirs, MergeOptions::default());
    let conflict = doc.required_decisions()[0];

    let mut res = Resolution::new();
    assert!(matches!(
        doc.assemble(&res),
        Err(AssembleError::Unresolved { region }) if region == conflict
    ));

    res.set(conflict, Choice::Theirs);
    assert_eq!(doc.assemble(&res).unwrap(), "a\nv = 3\nz\n");

    res.set(conflict, Choice::Edited("v = 23\n".to_string()));
    assert_eq!(doc.assemble(&res).unwrap(), "a\nv = 23\nz\n");
}

#[test]
fn assemble_override_beats_default() {
    let doc = MergeDocument::compute("old\n", "new\n", "old\n", MergeOptions::default());
    assert_eq!(doc.assemble(&Resolution::new()).unwrap(), "new\n");
    let mut res = Resolution::new();
    res.set(0, Choice::Base);
    assert_eq!(doc.assemble(&res).unwrap(), "old\n");
}

#[test]
fn a_choice_can_be_taken_back() {
    let doc = MergeDocument::compute("x\n", "y\n", "z\n", MergeOptions::default());
    let mut res = Resolution::new();
    res.set(0, Choice::Ours);
    assert_eq!(res.get(0), Some(&Choice::Ours));
    res.unset(0);
    assert_eq!(res.get(0), None);
    let err = doc.assemble(&res).unwrap_err();
    assert_eq!(
        err.message(),
        "region 0 is a conflict with no choice made"
    );
}

#[test]
fn one_choice_throughout_gives_that_side() {
    let base = "a\nb\nc\nd\n";
    let ours = "a\nB\nc\n";
    let theirs = "x\na\nb\nC\nd\n";
    let doc = MergeDocument::compute(base, ours, theirs, MergeOptions::default());
    for (choice, want) in [
        (Choice::Ours, ours),
        (Choice::Theirs, theirs),
        (Choice::Base, base),
    ] {
        let mut res = Resolution::new();
        for k in 0..doc.regions.len() {
            res.set(k, choice.clone());
        }
        assert_eq!(doc.assemble(&res).unwrap(), want);
    }
}

#[test]
fn the_regions_partition_all_three_texts() {
    let doc = MergeDocument::compute(
        "a\nb\nc\nd\ne\nf\n",
        "a\nB\nc\nd\ne\nf\ng\n",
        "b\nc\nD\ne\nf\nh\n",
        MergeOptions::default(),
    );
    let (mut b, mut o, mut t) = (0, 0, 0);
    for r in &doc.regions {
        assert_eq!((r.base.start, r.ours.start, r.theirs.start), (b, o, t));
        (b, o, t) = (r.base.end, r.ours.end, r.theirs.end);
    }
    assert_eq!(b, doc.base_lines().len());
    assert_eq!(o, doc.ours_lines().len());
    assert_eq!(t, doc.theirs_lines().len());
}

#[test]
fn lines_keep_or_drop_their_endings() {
    assert_eq!(split_lines("a\nb\r\n\nc"), vec!["a\n", "b\r\n", "\n", "c"]);
    assert_eq!(lines("a\nb\r\n\nc\r"), vec!["a", "b", "", "c\r"]);
    assert!(split_lines("").is_empty());
    assert!(lines("").is_empty());
}

// ---------------------------------------------------------------------------
// Words

#[test]
fn equal_strings_have_no_changes() {
    let d = word_diff("alias g=git\n", "alias g=git\n");
    assert!(d.changed_a.is_empty() && d.changed_b.is_empty());
}

#[test]
fn single_word_change_is_isolated() {
    let a = "profile = \"work\"\n";
    let b = "profile = \"personal\"\n";
    let d = word_diff(a, b);
    assert_eq!(d.changed_a.len(), 1);
    assert_eq!(&a[d.changed_a[0].clone()], "work");
    assert_eq!(&b[d.changed_b[0].clone()], "personal");
}

#[test]
fn insertion_only_marks_b() {
    let a = "a c\n";
    let b = "a b c\n";
    let d = word_diff(a, b);
    assert!(d.changed_a.is_empty());
    assert_eq!(d.changed_b.len(), 1);
    // whether " b" or "b " is marked is up to the difference algorithm
    assert_eq!(b[d.changed_b[0].clone()].trim(), "b");
}

#[test]
fn tokens_are_runs_of_one_kind() {
    assert_eq!(tokens("a.b-c  =\"d\"\n"), vec!["a.b-c", "  =\"", "d", "\"\n"]);
    assert_eq!(tokens("é中 x"), vec!["é中", " ", "x"]);
    assert!(tokens("").is_empty());
    assert!(is_word('é') && is_word('_') && is_word('7') && !is_word('=') && !is_word(' '));
}

#[test]
fn changed_words_behind_wide_characters_are_cut_at_their_bytes() {
    let a = "clé = œuf\n";
    let b = "clé = noix\n";
    let d = word_diff(a, b);
    assert_eq!(&a[d.changed_a[0].clone()], "œuf");
    assert_eq!(&b[d.changed_b[0].clone()], "noix");
}

#[test]
fn changed_words_stand_in_order_and_apart() {
    let d = word_diff("one two three four", "1 two 3 four");
    assert_eq!(d.changed_a, vec![0..3, 8..13]);
    assert_eq!(d.changed_b, vec![0..1, 6..7]);
}

#[test]
fn texts_of_too_many_words_differ_as_a_whole() {
    let many: String = "w ".repeat(MAX_TOKENS);
    let d = word_diff(&many, "w");
    assert_eq!(d.changed_a, vec![0..many.len()]);
    assert_eq!(d.changed_b, vec![0..1]);
    let d = word_diff(&many, "");
    assert_eq!(d.changed_a, vec![0..many.len()]);
    assert!(d.changed_b.is_empty());
}

#[test]
fn exchanging_the_sides_mirrors_the_regions() {
    let (base, ours, theirs) = ("a\nb\nc\nd\ne\n", "A\nb\nc\nD\ne\n", "a\nb\nC\nx\ne\n");
    let one = MergeDocument::compute(base, ours, theirs, MergeOptions::default());
    let other = MergeDocument::compute(base, theirs, ours, MergeOptions::default());
    assert_eq!(one.regions.len(), other.regions.len());
    for (x, y) in one.regions.iter().zip(&other.regions) {
        assert_eq!((&x.base, &x.ours, &x.theirs), (&y.base, &y.theirs, &y.ours));
        let mirrored = match x.kind {
            RegionKind::OursOnly => RegionKind::TheirsOnly,
            RegionKind::TheirsOnly => RegionKind::OursOnly,
            kind => kind,
        };
        assert_eq!(y.kind, mirrored);
    }
    assert!(one.regions.iter().any(|r| r.kind == RegionKind::OursOnly));
    assert!(one.regions.iter().any(|r| r.kind == RegionKind::Conflict));
}

#[test]
fn one_choice_throughout_gives_that_text_back() {
    let texts = ["a\nb\nc", "a\nB\nc\n", "x\na\nb\n"];
    let doc = MergeDocument::compute(texts[0], texts[1], texts[2], MergeOptions::default());
    for (text, n) in texts.iter().zip(0..3) {
        let mut res = Resolution::new();
        for k in 0..doc.regions.len() {
            let choice = match n {
                0 => Choice::Base,
                1 => Choice::Ours,
                _ => Choice::Theirs,
            };
            res.set(k, choice);
        }
        assert_eq!(&doc.assemble(&res).unwrap(), text);
    }
}

/// The bytes outside the ranges.
fn left_over(text: &str, ranges: &[std::ops::Range<usize>]) -> String {
    let mut out = String::new();
    let mut at = 0;
    for r in ranges {
        out.push_str(&text[at..r.start]);
        at = r.end;
    }
    out.push_str(&text[at..]);
    out
}

#[test]
fn what_is_left_outside_the_changed_words_is_the_same_in_both_texts() {
    for (a, b) in [
        ("alias g=git", "alias gg=git status"),
        ("é = über\n", "é = unter\nneu\n"),
        ("", "all new"),
        ("the same", "the same"),
    ] {
        let d = word_diff(a, b);
        assert_eq!(left_over(a, &d.changed_a), left_over(b, &d.changed_b));
    }
    let d = word_diff("alias g=git", "alias gg=git status");
    assert_eq!(left_over("alias g=git", &d.changed_a), "alias =git");
}

#[test]
fn kept_lines_and_changes_take_turns() {
    let base = "1\n2\n3\n4\n5\n6\n7\n";
    let doc = MergeDocument::compute(
        base,
        "1\nX\n3\n4\n5\n6\n7\nend\n",
        "1\n2\n3\nY\n5\n7\n",
        MergeOptions::default(),
    );
    assert!(doc.regions.len() > 4);
    for pair in doc.regions.windows(2) {
        assert_ne!(
            pair[0].kind == RegionKind::Unchanged,
            pair[1].kind == RegionKind::Unchanged
        );
    }
    let same = MergeDocument::compute("a\n", "a\n", "a\n", MergeOptions::default());
    assert_eq!(same.regions.len(), 1);
    assert_eq!(same.regions[0].kind, RegionKind::Unchanged);
}
