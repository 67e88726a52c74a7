//! The merge editor: three panes to compare, the regions to decide, and what can be undone.

use std::collections::HashSet;
use std::ops::Range;
use vstd::prelude::*;
use vstd::utf8::*;

use crate::cmd::optional;
use crate::merge::{
    conflicts, cut, law_lines_rejoin, lines_of, merge_sides, regions_of, regions_tile, split_lines,
    views, Choice, MergeDocument, MergeRegion, RegionKind,
};
use crate::merge_inputs::{MergeInputs, MergeInputsError};
use crate::merge_state::{
    base_of, changed, comparable, law_decided_means_no_conflict_is_open,
    law_lists_hold_just_their_regions, law_next_goes_round, next_of, MergeState,
};
use crate::paths::{is_same_path, same_path};
use crate::resolve::{display_name, shown_name, ResolveError, ResolveOutcome};
use crate::template::anchor::{RenderedSpan, SpanMap, SpanOrigin};
use crate::template::lexer::{lex, lexed, Segment};
use crate::text::{
    chars_of, decimal, decimal_text, has_text, join_from, join_texts, same, string_of, strings,
    trim_end, trimmed_end,
};
use crate::theme::{Theme, Wash};
use crate::views::review::{
    banner_done, banner_plain, banner_with, bytes_up_to, display_text, displayed, displayed_lines,
    done_banner, is_done, lemma_bytes_of_concat, lemma_bytes_up_to, plain_banner, Banner,
    BannerTint, OutcomeBanner,
};

verus! {

// ---------------------------------------------------------------------------
// Panes

/// The three texts beside each other.
#[derive(Debug, Clone, Copy, PartialEq, Eq, Structural)]
pub enum PaneSide {
    Theirs,
    Base,
    Ours,
}

/// A row of a pane.
#[derive(Debug, PartialEq)]
pub struct PaneLine {
    pub text: String,
    /// The kind of the region that the line lies in.
    pub kind: RegionKind,
    /// Some of the line is computed by the template: how.
    pub protected: Option<String>,
}

/// A row of a pane, as the model has it.
#[verifier::ext_equal]
pub struct PaneRow {
    pub text: Seq<char>,
    pub kind: RegionKind,
    pub protected: Option<Seq<char>>,
}

impl View for PaneLine {
    type V = PaneRow;

    open spec fn view(&self) -> PaneRow {
        PaneRow { text: self.text@, kind: self.kind, protected: optional(self.protected) }
    }
}

pub open spec fn pane_views(v: Seq<PaneLine>) -> Seq<PaneRow> {
    v.map_values(|l: PaneLine| l@)
}

/// The colour of a side.
pub open spec fn tint_of(side: PaneSide, theme: Theme) -> u32 {
    match side {
        PaneSide::Ours => theme.drift,
        PaneSide::Theirs => theme.accent,
        PaneSide::Base => theme.text_muted,
    }
}

/// The wash of a row.
pub open spec fn washed(kind: RegionKind, side: PaneSide, theme: Theme) -> Option<Wash> {
    match (kind, side) {
        (RegionKind::Conflict, _) => Some(Wash { color: tint_of(side, theme), percent: 16 }),
        (RegionKind::OursOnly, PaneSide::Ours) => Some(
            Wash { color: tint_of(side, theme), percent: 8 },
        ),
        (RegionKind::TheirsOnly, PaneSide::Theirs) => Some(
            Wash { color: tint_of(side, theme), percent: 8 },
        ),
        (RegionKind::BothSame, PaneSide::Ours) => Some(Wash { color: theme.ok, percent: 6 }),
        (RegionKind::BothSame, PaneSide::Theirs) => Some(Wash { color: theme.ok, percent: 6 }),
        _ => None,
    }
}

/// The wash of a row. A line has the colour of the pane that it stands in; a conflict is washed
/// in every pane, a change of one side in its own, and a change that both made in those two.
pub fn row_bg(kind: RegionKind, side: PaneSide, theme: &Theme) -> (r: Option<Wash>)
    ensures
        r == washed(kind, side, *theme),
{
    let tint: u32 = match side {
        PaneSide::Ours => theme.drift,
        PaneSide::Theirs => theme.accent,
        PaneSide::Base => theme.text_muted,
    };
    match (kind, side) {
        (RegionKind::Conflict, _) => Some(Wash { color: tint, percent: 16 }),
        (RegionKind::OursOnly, PaneSide::Ours) => Some(Wash { color: tint, percent: 8 }),
        (RegionKind::TheirsOnly, PaneSide::Theirs) => Some(Wash { color: tint, percent: 8 }),
        (RegionKind::BothSame, PaneSide::Ours) => Some(Wash { color: theme.ok, percent: 6 }),
        (RegionKind::BothSame, PaneSide::Theirs) => Some(Wash { color: theme.ok, percent: 6 }),
        _ => None,
    }
}

/// The wash of a line of a pane: one that a template computes is marked, whatever else it is.
pub fn pane_bg(line: &PaneLine, side: PaneSide, theme: &Theme) -> (r: Option<Wash>)
    ensures
        r == (if line.protected is Some {
            Some(Wash { color: theme.drift, percent: 15 })
        } else {
            washed(line.kind, side, *theme)
        }),
{
    if line.protected.is_some() {
        Some(Wash { color: theme.drift, percent: 15 })
    } else {
        row_bg(line.kind, side, theme)
    }
}

/// The wash of a line of the result, by the side that it comes from; a line of neither was
/// written by hand.
pub fn result_bg(side: Option<PaneSide>, theme: &Theme) -> (r: Wash)
    ensures
        r == (Wash {
            color: match side {
                Some(s) => tint_of(s, *theme),
                None => theme.ok,
            },
            percent: 7,
        }),
{
    Wash {
        color: match side {
            Some(PaneSide::Ours) => theme.drift,
            Some(PaneSide::Theirs) => theme.accent,
            Some(PaneSide::Base) => theme.text_muted,
            None => theme.ok,
        },
        percent: 7,
    }
}

/// What is known of a line; of lines that are not there nothing is.
pub open spec fn known(protected: Seq<Option<String>>, ix: int) -> Option<Seq<char>> {
    if 0 <= ix < protected.len() {
        optional(protected[ix])
    } else {
        None
    }
}

fn known_of(protected: &Vec<Option<String>>, ix: usize) -> (r: Option<String>)
    ensures
        optional(r) == known(protected@, ix as int),
{
    if ix < protected.len() {
        crate::proto::copy_text(&protected[ix])
    } else {
        None
    }
}

/// The lines of a side.
pub open spec fn side_of(doc: MergeDocument, side: PaneSide) -> Seq<Seq<char>> {
    match side {
        PaneSide::Theirs => doc.theirs(),
        PaneSide::Base => doc.base(),
        PaneSide::Ours => doc.ours(),
    }
}

/// The lines of a region on a side.
pub open spec fn stretch(r: MergeRegion, side: PaneSide) -> Range<usize> {
    match side {
        PaneSide::Theirs => r.theirs,
        PaneSide::Base => r.base,
        PaneSide::Ours => r.ours,
    }
}

/// The rows of a region.
pub open spec fn rows_of_region(
    lines: Seq<Seq<char>>,
    r: MergeRegion,
    side: PaneSide,
    protected: Seq<Option<String>>,
) -> Seq<PaneRow> {
    let range = stretch(r, side);
    Seq::new(
        (range.end - range.start) as nat,
        |k: int|
            PaneRow {
                text: displayed(lines[range.start + k]),
                kind: r.kind,
                protected: known(protected, range.start + k),
            },
    )
}

/// The rows of a pane: region after region.
pub open spec fn pane_rows(
    lines: Seq<Seq<char>>,
    regs: Seq<MergeRegion>,
    side: PaneSide,
    protected: Seq<Option<String>>,
) -> Seq<PaneRow>
    decreases regs.len(),
{
    if regs.len() == 0 {
        seq![]
    } else {
        rows_of_region(lines, regs[0], side, protected) + pane_rows(
            lines,
            regs.drop_first(),
            side,
            protected,
        )
    }
}

/// The place of a side among the three.
pub open spec fn side_place(at: (int, int, int), side: PaneSide) -> int {
    match side {
        PaneSide::Base => at.0,
        PaneSide::Ours => at.1,
        PaneSide::Theirs => at.2,
    }
}

/// A pane shows every line of its text once, in order, and what is known of it.
pub proof fn law_panes_show_every_line(
    lines: Seq<Seq<char>>,
    regs: Seq<MergeRegion>,
    side: PaneSide,
    protected: Seq<Option<String>>,
    at: (int, int, int),
    ends: (int, int, int),
)
    requires
        regions_tile(regs, at, ends),
        0 <= side_place(at, side) <= side_place(ends, side) == lines.len(),
        forall|k: int|
            0 <= k < regs.len() ==> stretch(#[trigger] regs[k], side).end <= lines.len(),
    ensures
        pane_rows(lines, regs, side, protected).len() == lines.len() - side_place(at, side),
        forall|k: int|
            #![trigger pane_rows(lines, regs, side, protected)[k]]
            0 <= k < lines.len() - side_place(at, side) ==> {
                let row = pane_rows(lines, regs, side, protected)[k];
                &&& row.text == displayed(lines[side_place(at, side) + k])
                &&& row.protected == known(protected, side_place(at, side) + k)
            },
    decreases regs.len(),
{
    if regs.len() > 0 {
        let r = regs[0];
        let rest = regs.drop_first();
        let next = (r.base.end as int, r.ours.end as int, r.theirs.end as int);
        assert forall|k: int| 0 <= k < rest.len() implies stretch(#[trigger] rest[k], side).end
            <= lines.len() by {
            assert(rest[k] == regs[k + 1]);
        }
        law_panes_show_every_line(lines, rest, side, protected, next, ends);
        let now = rows_of_region(lines, r, side, protected);
        let all = pane_rows(lines, regs, side, protected);
        let start = side_place(at, side);
        assert forall|k: int|
            #![trigger all[k]]
            0 <= k < lines.len() - start implies all[k].text == displayed(lines[start + k])
            && all[k].protected == known(protected, start + k) by {
            if k < now.len() {
                assert(all[k] == now[k]);
            } else {
                assert(all[k] == pane_rows(lines, rest, side, protected)[k - now.len()]);
            }
        }
    }
}

/// The rows of a pane.
pub fn pane_lines(doc: &MergeDocument, side: PaneSide, protected: &Vec<Option<String>>) -> (r: Vec<
    PaneLine,
>)
    requires
        doc.wf(),
    ensures
        pane_views(r@) == pane_rows(side_of(*doc, side), doc.regions@, side, protected@),
{
    let lines = match side {
        PaneSide::Theirs => doc.theirs_lines(),
        PaneSide::Base => doc.base_lines(),
        PaneSide::Ours => doc.ours_lines(),
    };
    let ghost all = side_of(*doc, side);
    let ghost regs = doc.regions@;
    let mut out: Vec<PaneLine> = Vec::new();
    let mut i: usize = 0;
    assert(strings(lines@) == all);
    assert(regs.skip(0) =~= regs);
    assert(pane_views(out@) =~= seq![]);
    while i < doc.regions.len()
        invariant
            doc.wf(),
            regs == doc.regions@,
            all == side_of(*doc, side),
            strings(lines@) == all,
            i <= regs.len(),
            pane_views(out@) + pane_rows(all, regs.skip(i as int), side, protected@) == pane_rows(
                all,
                regs,
                side,
                protected@,
            ),
        decreases regs.len() - i,
    {
        let ghost had = pane_views(out@);
        let reg = &doc.regions[i];
        let (from, to) = match side {
            PaneSide::Theirs => (reg.theirs.start, reg.theirs.end),
            PaneSide::Base => (reg.base.start, reg.base.end),
            PaneSide::Ours => (reg.ours.start, reg.ours.end),
        };
        let ghost now = rows_of_region(all, *reg, side, protected@);
        let mut ix: usize = from;
        assert(all.len() == lines@.len());
        assert(had + now.take(0) =~= had);
        while ix < to
            invariant
                from <= ix <= to <= lines@.len(),
                from == stretch(*reg, side).start,
                to == stretch(*reg, side).end,
                strings(lines@) == all,
                now == rows_of_region(all, *reg, side, protected@),
                pane_views(out@) == had + now.take(ix - from),
            decreases to - ix,
        {
            let ghost before = out@;
            out.push(
                PaneLine {
                    text: display_text(lines[ix].as_str()),
                    kind: reg.kind,
                    protected: known_of(protected, ix),
                },
            );
            proof {
                assert(all[ix as int] == lines@[ix as int]@);
                assert(out@.last()@ =~= now[ix - from]);
                assert(pane_views(out@) =~= pane_views(before).push(out@.last()@));
                assert(had + now.take(ix - from + 1) =~= (had + now.take(ix - from)).push(
                    now[ix - from],
                ));
            }
            ix = ix + 1;
        }
        proof {
            assert(now.take(ix - from) =~= now);
            assert(regs.skip(i as int).drop_first() =~= regs.skip(i + 1));
            let rest = pane_rows(all, regs.skip(i + 1), side, protected@);
            assert((had + now) + rest =~= had + (now + rest));
        }
        i = i + 1;
    }
    proof {
        assert(regs.skip(i as int) =~= seq![]);
        let rest = pane_rows(all, regs.skip(i as int), side, protected@);
        assert(pane_views(out@) + rest =~= pane_views(out@));
    }
    out
}

// ---------------------------------------------------------------------------
// What the template computes

/// A rendered stretch that cannot be written back: a value, something that is not anchored, or
/// a literal that occurs more than once.
pub open spec fn is_protected(origin: SpanOrigin) -> bool {
    match origin {
        SpanOrigin::Action { .. } => true,
        SpanOrigin::Unmapped => true,
        SpanOrigin::Literal { repeated, .. } => repeated,
    }
}

/// Whether a rendered stretch cannot be written back.
pub fn span_is_protected(origin: &SpanOrigin) -> (r: bool)
    ensures
        r == is_protected(*origin),
{
    match origin {
        SpanOrigin::Action { .. } => true,
        SpanOrigin::Unmapped => true,
        SpanOrigin::Literal { repeated, .. } => *repeated,
    }
}

/// The line, from the `k`-th on, that holds the byte at `pos`. Behind the last line feed there
/// is an empty line.
pub open spec fn line_holding(ls: Seq<Seq<char>>, pos: int, k: int) -> Seq<char>
    decreases ls.len() - k,
{
    if k < 0 || k >= ls.len() {
        seq![]
    } else if pos < bytes_up_to(ls, k + 1) {
        ls[k]
    } else if k == ls.len() - 1 && ls[k].len() > 0 && ls[k].last() != '\n' {
        ls[k]
    } else {
        line_holding(ls, pos, k + 1)
    }
}

/// The line of a template that holds the byte at `pos`, without white space at its end.
pub open spec fn template_line(template: Seq<char>, pos: int) -> Seq<char> {
    trim_end(line_holding(lines_of(template), pos, 0))
}

fn end_trimmed(line: &str) -> (r: String)
    ensures
        r@ == trim_end(line@),
{
    let v = chars_of(line);
    let n: usize = trimmed_end(v.as_slice());
    let s = string_of(v.as_slice(), 0, n);
    assert(s@ =~= trim_end(line@));
    s
}

/// The line of a template that holds the byte at `pos`.
pub fn template_line_at(template: &str, pos: usize) -> (r: String)
    ensures
        r@ == template_line(template@, pos as int),
{
    let ls = split_lines(template);
    let ghost all = lines_of(template@);
    let mut end: usize = 0;
    let mut k: usize = 0;
    let total: usize = template.as_bytes().len();
    proof {
        assert(all.len() == ls@.len());
        law_lines_rejoin(template@);
        lemma_bytes_of_concat(all, all.len() as int);
        assert(all.take(all.len() as int) =~= all);
    }
    while k < ls.len()
        invariant
            views(ls@) == all,
            all == lines_of(template@),
            all.len() == ls@.len(),
            k <= ls@.len(),
            end == bytes_up_to(all, k as int),
            bytes_up_to(all, all.len() as int) <= usize::MAX,
            line_holding(all, pos as int, 0) == line_holding(all, pos as int, k as int),
        decreases ls@.len() - k,
    {
        assert(all[k as int] == ls@[k as int]@);
        proof {
            lemma_bytes_up_to(all, k + 1, all.len() as int);
        }
        end = end + ls[k].as_bytes().len();
        if pos < end {
            return end_trimmed(ls[k]);
        }
        if k == ls.len() - 1 {
            let v = chars_of(ls[k]);
            if v.len() > 0 && v[v.len() - 1] != '\n' {
                return end_trimmed(ls[k]);
            }
        }
        k = k + 1;
    }
    let s = String::new();
    assert(s@ =~= seq![]);
    s
}

/// Why a rendered stretch cannot be written back: the line of the template behind it, where it
/// is known.
pub open spec fn reason_of(origin: SpanOrigin, template: Option<Seq<char>>) -> Seq<char> {
    match (origin, template) {
        (SpanOrigin::Action { segment }, Some(t)) => match lexed(encode_utf8(t)) {
            Ok(segs) => if segment < segs.len() {
                template_line(t, segs[segment as int].src.start as int)
            } else {
                "template expression"@
            },
            Err(_) => "template expression"@,
        },
        (SpanOrigin::Action { .. }, None) => "template expression"@,
        (SpanOrigin::Literal { src, .. }, Some(t)) => "repeated literal: "@ + template_line(
            t,
            src.start as int,
        ),
        (SpanOrigin::Literal { .. }, None) => "repeated template literal"@,
        (SpanOrigin::Unmapped, _) => "unanchored template output"@,
    }
}

fn reason_for(origin: &SpanOrigin, template: Option<&str>, segments: &Option<Vec<Segment>>) -> (r:
    String)
    requires
        match (template, *segments) {
            (Some(t), Some(segs)) => lexed(encode_utf8(t@)) matches Ok(s) && s == segs@,
            (Some(t), None) => lexed(encode_utf8(t@)) is Err,
            (None, _) => true,
        },
    ensures
        r@ == reason_of(
            *origin,
            match template {
                Some(t) => Some(t@),
                None => None,
            },
        ),
{
    match origin {
        SpanOrigin::Action { segment } => match (template, segments) {
            (Some(t), Some(segs)) => if *segment < segs.len() {
                template_line_at(t, segs[*segment].src.start)
            } else {
                "template expression".to_owned()
            },
            _ => "template expression".to_owned(),
        },
        SpanOrigin::Literal { src, .. } => match template {
            Some(t) => {
                let mut s = "repeated literal: ".to_owned();
                s.append(template_line_at(t, src.start).as_str());
                s
            },
            None => "repeated template literal".to_owned(),
        },
        SpanOrigin::Unmapped => "unanchored template output".to_owned(),
    }
}

/// The stretch is protected, and meets the bytes from `start` to `end`.
pub open spec fn guards(span: RenderedSpan, start: int, end: int) -> bool {
    &&& span.range.start < span.range.end
    &&& is_protected(span.origin)
    &&& span.range.start < end
    &&& start < span.range.end
}

/// The reasons why something between `start` and `end` cannot be written back, each once.
pub open spec fn reasons(
    spans: Seq<RenderedSpan>,
    n: int,
    start: int,
    end: int,
    template: Option<Seq<char>>,
) -> Seq<Seq<char>>
    decreases n,
{
    if n <= 0 {
        seq![]
    } else {
        let front = reasons(spans, n - 1, start, end, template);
        let reason = reason_of(spans[n - 1].origin, template);
        if guards(spans[n - 1], start, end) && !front.contains(reason) {
            front.push(reason)
        } else {
            front
        }
    }
}

/// What is said of a line: why some of it cannot be written back.
pub open spec fn tip(list: Seq<Seq<char>>) -> Option<Seq<char>> {
    if list.len() == 0 {
        None
    } else {
        Some("generated by template:\n"@ + join_texts(list, "\n"@))
    }
}

fn line_reasons(
    map: &SpanMap,
    start: usize,
    end: usize,
    template: Option<&str>,
    segments: &Option<Vec<Segment>>,
) -> (r: Vec<String>)
    requires
        match (template, *segments) {
            (Some(t), Some(segs)) => lexed(encode_utf8(t@)) matches Ok(s) && s == segs@,
            (Some(t), None) => lexed(encode_utf8(t@)) is Err,
            (None, _) => true,
        },
    ensures
        strings(r@) == reasons(
            map.spans@,
            map.spans@.len() as int,
            start as int,
            end as int,
            match template {
                Some(t) => Some(t@),
                None => None,
            },
        ),
{
    let ghost text = match template {
        Some(t) => Some(t@),
        None => None,
    };
    let mut list: Vec<String> = Vec::new();
    let mut i: usize = 0;
    assert(strings(list@) =~= seq![]);
    while i < map.spans.len()
        invariant
            match (template, *segments) {
                (Some(t), Some(segs)) => lexed(encode_utf8(t@)) matches Ok(s) && s == segs@,
                (Some(t), None) => lexed(encode_utf8(t@)) is Err,
                (None, _) => true,
            },
            text == (match template {
                Some(t) => Some(t@),
                None => None,
            }),
            i <= map.spans@.len(),
            strings(list@) == reasons(map.spans@, i as int, start as int, end as int, text),
        decreases map.spans@.len() - i,
    {
        let span = &map.spans[i];
        if span.range.start < span.range.end && span_is_protected(&span.origin)
            && span.range.start < end && start < span.range.end {
            let reason = reason_for(&span.origin, template, segments);
            let ghost had = strings(list@);
            if !has_text(&list, reason.as_str()) {
                list.push(reason);
                assert(strings(list@) =~= had.push(reason@));
            }
        }
        i = i + 1;
    }
    list
}

pub open spec fn tips(v: Seq<Option<String>>) -> Seq<Option<Seq<char>>> {
    v.map_values(|t: Option<String>| optional(t))
}

/// What is said of each line of a rendered text.
pub open spec fn protection(
    lines: Seq<Seq<char>>,
    spans: Seq<RenderedSpan>,
    template: Option<Seq<char>>,
) -> Seq<Option<Seq<char>>> {
    Seq::new(
        lines.len(),
        |k: int|
            tip(
                reasons(
                    spans,
                    spans.len() as int,
                    bytes_up_to(lines, k),
                    bytes_up_to(lines, k + 1),
                    template,
                ),
            ),
    )
}

/// What is said of each line of a rendered text: nothing, or why some of it cannot be written
/// back.
pub fn protected_line_info(lines: &[String], map: &SpanMap, template: Option<&str>) -> (r: Vec<
    Option<String>,
>)
    requires
        bytes_up_to(strings(lines@), lines@.len() as int) <= usize::MAX,
        template matches Some(t) ==> encode_utf8(t@).len() < 0x4_0000_0000,
    ensures
        tips(r@) == protection(
            strings(lines@),
            map.spans@,
            match template {
                Some(t) => Some(t@),
                None => None,
            },
        ),
{
    let segments: Option<Vec<Segment>> = match template {
        Some(t) => match lex(t) {
            Ok(s) => Some(s),
            Err(_) => None,
        },
        None => None,
    };
    let ghost all = strings(lines@);
    let ghost text = match template {
        Some(t) => Some(t@),
        None => None,
    };
    let mut out: Vec<Option<String>> = Vec::new();
    let mut start: usize = 0;
    let mut i: usize = 0;
    assert(all.len() == lines@.len());
    while i < lines.len()
        invariant
            match (template, segments) {
                (Some(t), Some(segs)) => lexed(encode_utf8(t@)) matches Ok(s) && s == segs@,
                (Some(t), None) => lexed(encode_utf8(t@)) is Err,
                (None, _) => true,
            },
            text == (match template {
                Some(t) => Some(t@),
                None => None,
            }),
            all == strings(lines@),
            all.len() == lines@.len(),
            i <= lines@.len(),
            out@.len() == i,
            start == bytes_up_to(all, i as int),
            bytes_up_to(all, all.len() as int) <= usize::MAX,
            forall|k: int|
                0 <= k < i ==> optional(#[trigger] out@[k]) == protection(all, map.spans@, text)[k],
        decreases lines@.len() - i,
    {
        assert(all[i as int] == lines@[i as int]@);
        proof {
            lemma_bytes_up_to(all, i + 1, all.len() as int);
        }
        let end: usize = start + lines[i].as_str().as_bytes().len();
        let list = line_reasons(map, start, end, template, &segments);
        assert(strings(list@).len() == list@.len());
        if list.len() == 0 {
            out.push(None);
        } else {
            let mut s = "generated by template:\n".to_owned();
            assert(strings(list@).skip(0) =~= strings(list@));
            s.append(join_from(&list, 0, "\n").as_str());
            out.push(Some(s));
        }
        start = end;
        i = i + 1;
    }
    assert(tips(out@) =~= protection(all, map.spans@, text));
    out
}

// ---------------------------------------------------------------------------
// Where the regions begin

/// How many lines a side has in the first `k` regions.
pub open spec fn lines_before(regs: Seq<MergeRegion>, side: PaneSide, k: int) -> int
    decreases k,
{
    if k <= 0 {
        0
    } else {
        let r = stretch(regs[k - 1], side);
        lines_before(regs, side, k - 1) + (r.end - r.start)
    }
}

/// The first line of each region in each pane (theirs, base, ours), and at the end how many
/// lines each has.
pub open spec fn are_starts(starts: Seq<[usize; 3]>, regs: Seq<MergeRegion>) -> bool {
    &&& starts.len() == regs.len() + 1
    &&& forall|k: int|
        #![trigger starts[k]]
        0 <= k <= regs.len() ==> {
            &&& starts[k][0] == lines_before(regs, PaneSide::Theirs, k)
            &&& starts[k][1] == lines_before(regs, PaneSide::Base, k)
            &&& starts[k][2] == lines_before(regs, PaneSide::Ours, k)
        }
}

/// The first line of each region in each pane.
pub fn region_line_starts(doc: &MergeDocument) -> (r: Vec<[usize; 3]>)
    requires
        regions_tile(
            doc.regions@,
            (0, 0, 0),
            (doc.base().len() as int, doc.ours().len() as int, doc.theirs().len() as int),
        ),
    ensures
        are_starts(r@, doc.regions@),
{
    let ghost regs = doc.regions@;
    let ghost ends = (
        doc.base().len() as int,
        doc.ours().len() as int,
        doc.theirs().len() as int,
    );
    let mut out: Vec<[usize; 3]> = Vec::new();
    let mut theirs: usize = 0;
    let mut base: usize = 0;
    let mut ours: usize = 0;
    let mut i: usize = 0;
    assert(regs.skip(0) =~= regs);
    while i < doc.regions.len()
        invariant
            regs == doc.regions@,
            i <= regs.len(),
            regions_tile(regs.skip(i as int), (base as int, ours as int, theirs as int), ends),
            theirs == lines_before(regs, PaneSide::Theirs, i as int),
            base == lines_before(regs, PaneSide::Base, i as int),
            ours == lines_before(regs, PaneSide::Ours, i as int),
            out@.len() == i,
            forall|k: int|
                #![trigger out@[k]]
                0 <= k < i ==> {
                    &&& out@[k][0] == lines_before(regs, PaneSide::Theirs, k)
                    &&& out@[k][1] == lines_before(regs, PaneSide::Base, k)
                    &&& out@[k][2] == lines_before(regs, PaneSide::Ours, k)
                },
        decreases regs.len() - i,
    {
        let reg = &doc.regions[i];
        out.push([theirs, base, ours]);
        proof {
            assert(regs.skip(i as int)[0] == *reg);
            assert(regs.skip(i as int).drop_first() =~= regs.skip(i + 1));
        }
        theirs = theirs + (reg.theirs.end - reg.theirs.start);
        base = base + (reg.base.end - reg.base.start);
        ours = ours + (reg.ours.end - reg.ours.start);
        i = i + 1;
    }
    out.push([theirs, base, ours]);
    out
}

/// The line lies in the region.
pub open spec fn lies_in(starts: Seq<[usize; 3]>, col: int, k: int, line: int) -> bool {
    starts[k][col] <= line < starts[k + 1][col]
}

/// The region that a line of a pane lies in. Behind the last line, and in front of the first, it
/// is the last one.
pub fn region_holding(starts: &Vec<[usize; 3]>, col: usize, line: i64) -> (r: usize)
    requires
        col < 3,
    ensures
        starts@.len() < 2 ==> r == 0,
        starts@.len() >= 2 ==> {
            &&& r < starts@.len() - 1
            &&& lies_in(starts@, col as int, r as int, line as int) || r == starts@.len() - 2
            &&& forall|k: int|
                0 <= k < r ==> !#[trigger] lies_in(starts@, col as int, k, line as int)
        },
{
    if starts.len() < 2 {
        return 0;
    }
    let regions: usize = starts.len() - 1;
    let mut k: usize = 0;
    while k < regions - 1
        invariant
            k < regions,
            regions == starts@.len() - 1,
            col < 3,
            forall|j: int| 0 <= j < k ==> !#[trigger] lies_in(starts@, col as int, j, line as int),
        decreases regions - k,
    {
        if line >= 0 && starts[k][col] as u64 <= line as u64 && (line as u64) < starts[k
            + 1][col] as u64 {
            assert(lies_in(starts@, col as int, k as int, line as int));
            return k;
        }
        k = k + 1;
    }
    k
}

// ---------------------------------------------------------------------------
// Regions

/// What was chosen for a region.
#[derive(Debug, Clone, Copy, PartialEq, Eq, Structural)]
pub enum ChoiceKind {
    Ours,
    Theirs,
    Base,
    Both,
    Edited,
}

pub open spec fn kind_of_choice(c: Choice) -> ChoiceKind {
    match c {
        Choice::Ours => ChoiceKind::Ours,
        Choice::Theirs => ChoiceKind::Theirs,
        Choice::Base => ChoiceKind::Base,
        Choice::Both => ChoiceKind::Both,
        Choice::Edited(_) => ChoiceKind::Edited,
    }
}

/// The kind of a choice.
pub fn choice_kind(choice: &Choice) -> (r: ChoiceKind)
    ensures
        r == kind_of_choice(*choice),
{
    match choice {
        Choice::Ours => ChoiceKind::Ours,
        Choice::Theirs => ChoiceKind::Theirs,
        Choice::Base => ChoiceKind::Base,
        Choice::Both => ChoiceKind::Both,
        Choice::Edited(_) => ChoiceKind::Edited,
    }
}

/// The choice that a button makes; an edit is made elsewhere.
pub open spec fn choice_of_kind(kind: ChoiceKind) -> Option<Choice> {
    match kind {
        ChoiceKind::Ours => Some(Choice::Ours),
        ChoiceKind::Theirs => Some(Choice::Theirs),
        ChoiceKind::Base => Some(Choice::Base),
        ChoiceKind::Both => Some(Choice::Both),
        ChoiceKind::Edited => None,
    }
}

/// The choice that a button makes.
pub fn picked_choice(kind: ChoiceKind) -> (r: Option<Choice>)
    ensures
        r == choice_of_kind(kind),
{
    match kind {
        ChoiceKind::Ours => Some(Choice::Ours),
        ChoiceKind::Theirs => Some(Choice::Theirs),
        ChoiceKind::Base => Some(Choice::Base),
        ChoiceKind::Both => Some(Choice::Both),
        ChoiceKind::Edited => None,
    }
}

/// How a region is shown.
#[allow(inconsistent_fields)]
#[derive(Debug, PartialEq)]
pub enum RegionDisplay {
    /// Lines that nothing changed.
    Context { lines: Vec<String> },
    /// Something to decide: a conflict, a decision that is looked at again, or a change that
    /// was taken without asking. With `provenance` both sides are shown, and what is known of
    /// their lines; without it the lines that the region becomes.
    Deciding {
        current: Option<ChoiceKind>,
        focused: bool,
        has_base: bool,
        provenance: Option<(Vec<String>, Vec<String>, Vec<Option<String>>)>,
        lines: Vec<(String, Option<PaneSide>)>,
    },
    /// A decision that was made, and the lines that the region becomes.
    Decided { choice: ChoiceKind, focused: bool, lines: Vec<(String, Option<PaneSide>)> },
}

/// How a region is shown, as the model has it.
#[allow(inconsistent_fields)]
pub enum Display {
    Context { lines: Seq<Seq<char>> },
    Deciding {
        current: Option<ChoiceKind>,
        focused: bool,
        has_base: bool,
        provenance: Option<(Seq<Seq<char>>, Seq<Seq<char>>, Seq<Option<Seq<char>>>)>,
        lines: Seq<(Seq<char>, Option<PaneSide>)>,
    },
    Decided { choice: ChoiceKind, focused: bool, lines: Seq<(Seq<char>, Option<PaneSide>)> },
}

pub open spec fn tagged_views(v: Seq<(String, Option<PaneSide>)>) -> Seq<
    (Seq<char>, Option<PaneSide>),
> {
    v.map_values(|l: (String, Option<PaneSide>)| (l.0@, l.1))
}

impl View for RegionDisplay {
    type V = Display;

    open spec fn view(&self) -> Display {
        match *self {
            RegionDisplay::Context { lines } => Display::Context { lines: strings(lines@) },
            RegionDisplay::Deciding { current, focused, has_base, provenance, lines } =>
                Display::Deciding {
                    current,
                    focused,
                    has_base,
                    provenance: match provenance {
                        Some(p) => Some((strings(p.0@), strings(p.1@), tips(p.2@))),
                        None => None,
                    },
                    lines: tagged_views(lines@),
                },
            RegionDisplay::Decided { choice, focused, lines } => Display::Decided {
                choice,
                focused,
                lines: tagged_views(lines@),
            },
        }
    }
}

/// The lines of a region on a side, as they are shown.
pub open spec fn shown_side(doc: MergeDocument, r: MergeRegion, side: PaneSide) -> Seq<Seq<char>> {
    displayed_lines(cut(side_of(doc, side), stretch(r, side)))
}

/// The lines of a region on a side.
pub fn side_lines(doc: &MergeDocument, region: &MergeRegion, side: PaneSide) -> (r: Vec<String>)
    requires
        stretch(*region, side).start <= stretch(*region, side).end <= side_of(*doc, side).len(),
    ensures
        strings(r@) == shown_side(*doc, *region, side),
{
    let (lines, from, to) = match side {
        PaneSide::Ours => (doc.ours_lines(), region.ours.start, region.ours.end),
        PaneSide::Theirs => (doc.theirs_lines(), region.theirs.start, region.theirs.end),
        PaneSide::Base => (doc.base_lines(), region.base.start, region.base.end),
    };
    let ghost all = side_of(*doc, side);
    let ghost want = shown_side(*doc, *region, side);
    let mut out: Vec<String> = Vec::new();
    let mut ix: usize = from;
    assert(strings(lines@) == all);
    assert(all.len() == lines@.len());
    while ix < to
        invariant
            strings(lines@) == all,
            from <= ix <= to <= lines@.len(),
            from == stretch(*region, side).start,
            to == stretch(*region, side).end,
            all == side_of(*doc, side),
            want == shown_side(*doc, *region, side),
            strings(out@) == want.take(ix - from),
        decreases to - ix,
    {
        let ghost had = strings(out@);
        out.push(display_text(lines[ix].as_str()));
        proof {
            assert(all[ix as int] == lines@[ix as int]@);
            assert(want[ix - from] == displayed(all[ix as int]));
            assert(strings(out@) =~= had.push(want[ix - from]));
            assert(want.take(ix - from + 1) =~= want.take(ix - from).push(want[ix - from]));
        }
        ix = ix + 1;
    }
    assert(want.take(ix - from) =~= want);
    out
}

/// Lines of one side.
pub open spec fn tagged(lines: Seq<Seq<char>>, side: Option<PaneSide>) -> Seq<
    (Seq<char>, Option<PaneSide>),
> {
    lines.map_values(|l: Seq<char>| (l, side))
}

/// The lines that a region becomes under a choice, and where each comes from.
pub open spec fn becomes(doc: MergeDocument, r: MergeRegion, choice: Choice) -> Seq<
    (Seq<char>, Option<PaneSide>),
> {
    let ours = tagged(shown_side(doc, r, PaneSide::Ours), Some(PaneSide::Ours));
    let theirs = tagged(shown_side(doc, r, PaneSide::Theirs), Some(PaneSide::Theirs));
    match choice {
        Choice::Ours => ours,
        Choice::Theirs => theirs,
        Choice::Base => tagged(shown_side(doc, r, PaneSide::Base), Some(PaneSide::Base)),
        Choice::Both => ours + theirs,
        Choice::Edited(text) => tagged(displayed_lines(lines_of(text@)), None),
    }
}

fn push_tagged(
    out: &mut Vec<(String, Option<PaneSide>)>,
    lines: Vec<String>,
    side: Option<PaneSide>,
)
    ensures
        tagged_views(final(out)@) == tagged_views(old(out)@) + tagged(strings(lines@), side),
{
    let ghost had = tagged_views(out@);
    let ghost new = tagged(strings(lines@), side);
    let mut i: usize = 0;
    assert(had + new.take(0) =~= had);
    while i < lines.len()
        invariant
            i <= lines@.len(),
            new == tagged(strings(lines@), side),
            tagged_views(out@) == had + new.take(i as int),
        decreases lines@.len() - i,
    {
        let ghost before = tagged_views(out@);
        out.push((lines[i].clone(), side));
        proof {
            assert(strings(lines@)[i as int] == lines@[i as int]@);
            assert(tagged_views(out@) =~= before.push(new[i as int]));
            assert(had + new.take(i + 1) =~= (had + new.take(i as int)).push(new[i as int]));
        }
        i = i + 1;
    }
    assert(new.take(i as int) =~= new);
}

fn edited_lines(text: &str) -> (r: Vec<String>)
    ensures
        strings(r@) == displayed_lines(lines_of(text@)),
{
    let ls = split_lines(text);
    let ghost all = lines_of(text@);
    let mut out: Vec<String> = Vec::new();
    let mut i: usize = 0;
    assert(all.len() == ls@.len());
    while i < ls.len()
        invariant
            views(ls@) == all,
            all.len() == ls@.len(),
            i <= ls@.len(),
            strings(out@) == displayed_lines(all).take(i as int),
        decreases ls@.len() - i,
    {
        let ghost had = strings(out@);
        out.push(display_text(ls[i]));
        proof {
            assert(all[i as int] == ls@[i as int]@);
            let want = displayed_lines(all);
            assert(strings(out@) =~= had.push(want[i as int]));
            assert(want.take(i + 1) =~= want.take(i as int).push(want[i as int]));
        }
        i = i + 1;
    }
    assert(displayed_lines(all).take(i as int) =~= displayed_lines(all));
    out
}

/// The region is a stretch of the three texts.
pub open spec fn fits_doc(doc: MergeDocument, r: MergeRegion) -> bool {
    &&& r.base.start <= r.base.end <= doc.base().len()
    &&& r.ours.start <= r.ours.end <= doc.ours().len()
    &&& r.theirs.start <= r.theirs.end <= doc.theirs().len()
}

/// The lines that a region becomes under a choice.
pub fn choice_lines(doc: &MergeDocument, region: &MergeRegion, choice: &Choice) -> (r: Vec<
    (String, Option<PaneSide>),
>)
    requires
        fits_doc(*doc, *region),
    ensures
        tagged_views(r@) == becomes(*doc, *region, *choice),
{
    let mut out: Vec<(String, Option<PaneSide>)> = Vec::new();
    assert(tagged_views(out@) =~= seq![]);
    match choice {
        Choice::Ours => {
            push_tagged(&mut out, side_lines(doc, region, PaneSide::Ours), Some(PaneSide::Ours));
        },
        Choice::Theirs => {
            push_tagged(
                &mut out,
                side_lines(doc, region, PaneSide::Theirs),
                Some(PaneSide::Theirs),
            );
        },
        Choice::Base => {
            push_tagged(&mut out, side_lines(doc, region, PaneSide::Base), Some(PaneSide::Base));
        },
        Choice::Both => {
            push_tagged(&mut out, side_lines(doc, region, PaneSide::Ours), Some(PaneSide::Ours));
            push_tagged(
                &mut out,
                side_lines(doc, region, PaneSide::Theirs),
                Some(PaneSide::Theirs),
            );
        },
        Choice::Edited(text) => {
            push_tagged(&mut out, edited_lines(text.as_str()), None);
        },
    }
    assert(tagged_views(out@) =~= becomes(*doc, *region, *choice));
    out
}

/// What is taken of a change without asking: the changed side, or ours where both agree.
pub open spec fn default_choice(kind: RegionKind) -> Option<Choice> {
    match kind {
        RegionKind::OursOnly | RegionKind::BothSame => Some(Choice::Ours),
        RegionKind::TheirsOnly => Some(Choice::Theirs),
        RegionKind::Unchanged | RegionKind::Conflict => None,
    }
}

/// What is taken of a change without asking.
pub fn auto_choice(kind: RegionKind) -> (r: Option<Choice>)
    ensures
        r == default_choice(kind),
{
    match kind {
        RegionKind::OursOnly | RegionKind::BothSame => Some(Choice::Ours),
        RegionKind::TheirsOnly => Some(Choice::Theirs),
        RegionKind::Unchanged | RegionKind::Conflict => None,
    }
}

/// The choice that is shown for a change is the one that the merged text takes.
pub proof fn law_defaults_shown_are_the_ones_taken(
    base: Seq<Seq<char>>,
    ours: Seq<Seq<char>>,
    theirs: Seq<Seq<char>>,
    r: MergeRegion,
)
    requires
        default_choice(r.kind) is Some,
    ensures
        crate::merge::piece(base, ours, theirs, r, None) == crate::merge::piece(
            base,
            ours,
            theirs,
            r,
            default_choice(r.kind),
        ),
{
}

/// Both sides of a region, and what is known of their lines.
pub open spec fn provenance_of(
    doc: MergeDocument,
    r: MergeRegion,
    protected: Seq<Option<String>>,
) -> (Seq<Seq<char>>, Seq<Seq<char>>, Seq<Option<Seq<char>>>) {
    (
        shown_side(doc, r, PaneSide::Ours),
        shown_side(doc, r, PaneSide::Theirs),
        Seq::new(
            (r.theirs.end - r.theirs.start) as nat,
            |k: int| known(protected, r.theirs.start + k),
        ),
    )
}

fn provenance(doc: &MergeDocument, region: &MergeRegion, protected: &Vec<Option<String>>) -> (r: (
    Vec<String>,
    Vec<String>,
    Vec<Option<String>>,
))
    requires
        fits_doc(*doc, *region),
    ensures
        (strings(r.0@), strings(r.1@), tips(r.2@)) == provenance_of(*doc, *region, protected@),
{
    let (from, to) = (region.theirs.start, region.theirs.end);
    let ghost want = provenance_of(*doc, *region, protected@).2;
    let mut out: Vec<Option<String>> = Vec::new();
    let mut ix: usize = from;
    while ix < to
        invariant
            from <= ix <= to,
            from == region.theirs.start,
            to == region.theirs.end,
            want == provenance_of(*doc, *region, protected@).2,
            tips(out@) == want.take(ix - from),
        decreases to - ix,
    {
        let ghost had = tips(out@);
        out.push(known_of(protected, ix));
        proof {
            assert(tips(out@) =~= had.push(want[ix - from]));
            assert(want.take(ix - from + 1) =~= want.take(ix - from).push(want[ix - from]));
        }
        ix = ix + 1;
    }
    assert(want.take(ix - from) =~= want);
    (side_lines(doc, region, PaneSide::Ours), side_lines(doc, region, PaneSide::Theirs), out)
}

/// How a region is shown: by the choice that was made for it, or else by its kind.
pub open spec fn display_of(
    state: MergeState,
    idx: int,
    revisiting: Set<usize>,
    protected: Seq<Option<String>>,
) -> Display {
    let r = state.regs()[idx];
    let m = state.resolution@;
    let focused = state.cursor == Some(idx as usize);
    let has_base = !state.degraded_base;
    let sides = Some(provenance_of(state.doc, r, protected));
    if m.contains_key(idx as usize) {
        let choice = m[idx as usize];
        if revisiting.contains(idx as usize) {
            Display::Deciding {
                current: Some(kind_of_choice(choice)),
                focused,
                has_base,
                provenance: sides,
                lines: seq![],
            }
        } else {
            Display::Decided {
                choice: kind_of_choice(choice),
                focused,
                lines: becomes(state.doc, r, choice),
            }
        }
    } else {
        match default_choice(r.kind) {
            Some(auto) => Display::Deciding {
                current: Some(kind_of_choice(auto)),
                focused: false,
                has_base,
                provenance: None,
                lines: becomes(state.doc, r, auto),
            },
            None => if r.kind == RegionKind::Conflict {
                Display::Deciding {
                    current: None,
                    focused,
                    has_base,
                    provenance: sides,
                    lines: seq![],
                }
            } else {
                Display::Context { lines: shown_side(state.doc, r, PaneSide::Base) }
            },
        }
    }
}

/// How a region is shown.
pub fn region_display(
    state: &MergeState,
    idx: usize,
    revisiting: &HashSet<usize>,
    protected: &Vec<Option<String>>,
) -> (r: RegionDisplay)
    requires
        state.wf(),
        idx < state.regs().len(),
    ensures
        r@ == display_of(*state, idx as int, revisiting@, protected@),
{
    broadcast use vstd::std_specs::hash::group_hash_axioms;

    let doc = &state.doc;
    let region = &doc.regions[idx];
    assert(fits_doc(*doc, *region));
    let has_base: bool = !state.degraded_base;
    let focused: bool = match state.cursor {
        Some(c) => c == idx,
        None => false,
    };
    let none: Vec<(String, Option<PaneSide>)> = Vec::new();
    assert(tagged_views(none@) =~= seq![]);
    match state.resolution.get(idx) {
        Some(choice) => {
            if revisiting.contains(&idx) {
                RegionDisplay::Deciding {
                    current: Some(choice_kind(choice)),
                    focused,
                    has_base,
                    provenance: Some(provenance(doc, region, protected)),
                    lines: none,
                }
            } else {
                RegionDisplay::Decided {
                    choice: choice_kind(choice),
                    focused,
                    lines: choice_lines(doc, region, choice),
                }
            }
        },
        None => match auto_choice(region.kind) {
            Some(auto) => RegionDisplay::Deciding {
                current: Some(choice_kind(&auto)),
                focused: false,
                has_base,
                provenance: None,
                lines: choice_lines(doc, region, &auto),
            },
            None => {
                if region.kind == RegionKind::Conflict {
                    RegionDisplay::Deciding {
                        current: None,
                        focused,
                        has_base,
                        provenance: Some(provenance(doc, region, protected)),
                        lines: none,
                    }
                } else {
                    RegionDisplay::Context { lines: side_lines(doc, region, PaneSide::Base) }
                }
            },
        },
    }
}

/// The height of what is shown of a region, in pixels: of each line, of the strip above it with
/// its margins, and of the labels of the two sides.
pub open spec fn height_of(d: Display) -> nat {
    match d {
        Display::Context { lines } => 20 * lines.len(),
        Display::Deciding { provenance, lines, .. } => 32 + match provenance {
            Some(p) => 40 + 20 * (p.0.len() + p.1.len()),
            None => 20 * lines.len(),
        },
        Display::Decided { lines, .. } => 32 + 20 * lines.len(),
    }
}

/// The height of what is shown of a region, in pixels.
pub fn block_height(display: &RegionDisplay) -> (r: u128)
    ensures
        r == height_of(display@),
{
    match display {
        RegionDisplay::Context { lines } => {
            assert(strings(lines@).len() == lines@.len());
            20 * (lines.len() as u128)
        },
        RegionDisplay::Deciding { provenance, lines, .. } => {
            assert(tagged_views(lines@).len() == lines@.len());
            match provenance {
                Some(p) => {
                    assert(strings(p.0@).len() == p.0@.len());
                    assert(strings(p.1@).len() == p.1@.len());
                    72 + 20 * (p.0.len() as u128 + p.1.len() as u128)
                },
                None => 32 + 20 * (lines.len() as u128),
            }
        },
        RegionDisplay::Decided { lines, .. } => {
            assert(tagged_views(lines@).len() == lines@.len());
            32 + 20 * (lines.len() as u128)
        },
    }
}

/// The room above the first region, in pixels.
pub const RESULT_PAD_TOP: u128 = 4;

/// The heights of the first `n` regions together.
pub open spec fn heights(d: Seq<Display>, n: int) -> nat
    decreases n,
{
    if n <= 0 {
        0
    } else {
        heights(d, n - 1) + height_of(d[n - 1])
    }
}

/// A height that a list of lines can have: there are never more lines than fit into a memory.
pub open spec fn fits_a_screen(d: Seq<Display>) -> bool {
    heights(d, d.len() as int) + RESULT_PAD_TOP <= i128::MAX
}

proof fn lemma_heights_grow(d: Seq<Display>, m: int, n: int)
    requires
        0 <= m <= n,
    ensures
        heights(d, m) <= heights(d, n),
    decreases n,
{
    if m < n {
        lemma_heights_grow(d, m, n - 1);
    }
}

/// Where each region begins, and how high it is, in pixels. None where that is too much to be
/// told.
pub fn geometry(cache: &Vec<RegionDisplay>) -> (r: Option<Vec<(u128, u128)>>)
    ensures
        match r {
            Some(g) => {
                &&& fits_a_screen(displays(cache@))
                &&& stacked(g@)
                &&& g@.len() == cache@.len()
                &&& forall|k: int|
                    0 <= k < g@.len() ==> (#[trigger] g@[k]).0 == RESULT_PAD_TOP + heights(
                        displays(cache@),
                        k,
                    ) && g@[k].1 == height_of(displays(cache@)[k])
            },
            None => !fits_a_screen(displays(cache@)),
        },
{
    let ghost d = displays(cache@);
    let mut g: Vec<(u128, u128)> = Vec::new();
    let mut top: u128 = RESULT_PAD_TOP;
    let mut k: usize = 0;
    assert(d.len() == cache@.len());
    while k < cache.len()
        invariant
            d == displays(cache@),
            d.len() == cache@.len(),
            k <= cache@.len(),
            g@.len() == k,
            top == RESULT_PAD_TOP + heights(d, k as int),
            top <= i128::MAX,
            forall|j: int|
                0 <= j < k ==> (#[trigger] g@[j]).0 == RESULT_PAD_TOP + heights(d, j) && g@[j].1
                    == height_of(d[j]),
        decreases cache@.len() - k,
    {
        let h: u128 = block_height(&cache[k]);
        assert(d[k as int] == cache@[k as int]@);
        if h > i128::MAX as u128 - top {
            proof {
                lemma_heights_grow(d, k + 1, d.len() as int);
            }
            return None;
        }
        g.push((top, h));
        top = top + h;
        k = k + 1;
    }
    assert forall|i: int, j: int|
        #![trigger g@[i], g@[j]]
        0 <= i && j == i + 1 && j < g@.len() implies g@[j].0 == g@[i].0 + g@[i].1 by {
        assert(heights(d, j) == heights(d, i) + height_of(d[i]));
    }
    assert forall|i: int| 0 <= i < g@.len() implies (#[trigger] g@[i]).0 + g@[i].1 <= i128::MAX by {
        lemma_heights_grow(d, i + 1, d.len() as int);
    }
    Some(g)
}

/// The regions that a stretch of the result meets, and the room above and below them, in pixels.
#[derive(Debug)]
pub struct Visible {
    pub lead: u128,
    pub blocks: Vec<usize>,
    pub trail: u128,
}

/// A region ends above the stretch.
pub open spec fn above(b: (u128, u128), lo: i128) -> bool {
    b.0 + b.1 < lo
}

/// A region begins below the stretch.
pub open spec fn below(b: (u128, u128), hi: i128) -> bool {
    b.0 > hi
}

/// The heights of the first `n` regions that end above the stretch, together.
pub open spec fn room_above(g: Seq<(u128, u128)>, lo: i128, n: int) -> nat
    decreases n,
{
    if n <= 0 {
        0
    } else {
        room_above(g, lo, n - 1) + if above(g[n - 1], lo) {
            g[n - 1].1 as nat
        } else {
            0
        }
    }
}

/// The heights of the first `n` regions that begin below the stretch, together.
pub open spec fn room_below(g: Seq<(u128, u128)>, lo: i128, hi: i128, n: int) -> nat
    decreases n,
{
    if n <= 0 {
        0
    } else {
        room_below(g, lo, hi, n - 1) + if !above(g[n - 1], lo) && below(g[n - 1], hi) {
            g[n - 1].1 as nat
        } else {
            0
        }
    }
}

/// The first `n` regions that the stretch meets.
pub open spec fn met(g: Seq<(u128, u128)>, lo: i128, hi: i128, n: int) -> Seq<usize>
    decreases n,
{
    if n <= 0 {
        seq![]
    } else if above(g[n - 1], lo) || below(g[n - 1], hi) {
        met(g, lo, hi, n - 1)
    } else {
        met(g, lo, hi, n - 1).push((n - 1) as usize)
    }
}

/// Regions that lie one below the other, within what can be told.
pub open spec fn stacked(g: Seq<(u128, u128)>) -> bool {
    &&& forall|k: int| 0 <= k < g.len() ==> (#[trigger] g[k]).0 + g[k].1 <= i128::MAX
    &&& forall|j: int, k: int|
        #![trigger g[j], g[k]]
        0 <= j && k == j + 1 && k < g.len() ==> g[k].0 == g[j].0 + g[j].1
}

/// The heights of the regions with these numbers, together.
pub open spec fn height_sum(g: Seq<(u128, u128)>, blocks: Seq<usize>) -> nat
    decreases blocks.len(),
{
    if blocks.len() == 0 {
        0
    } else {
        height_sum(g, blocks.drop_last()) + g[blocks.last() as int].1 as nat
    }
}

proof fn lemma_room(g: Seq<(u128, u128)>, lo: i128, hi: i128, n: int)
    requires
        stacked(g),
        0 < n <= g.len() <= usize::MAX,
    ensures
        room_above(g, lo, n) + height_sum(g, met(g, lo, hi, n)) + room_below(g, lo, hi, n)
            == g[n - 1].0 + g[n - 1].1 - g[0].0,
        room_above(g, lo, n) <= i128::MAX,
        room_below(g, lo, hi, n) <= i128::MAX,
    decreases n,
{
    let had = met(g, lo, hi, n - 1);
    if n > 1 {
        lemma_room(g, lo, hi, n - 1);
        assert(g[n - 1].0 == g[n - 2].0 + g[n - 2].1);
    } else {
        assert(room_above(g, lo, 0) == 0 && room_below(g, lo, hi, 0) == 0);
        assert(height_sum(g, had) == 0);
    }
    if !above(g[n - 1], lo) && !below(g[n - 1], hi) {
        assert(met(g, lo, hi, n).drop_last() =~= had);
    }
}

/// What is shown of the result takes the room of all of it: the regions that are drawn, and the
/// rooms above and below them, are as high as all regions are.
pub proof fn law_rooms_hold_the_height(g: Seq<(u128, u128)>, lo: i128, hi: i128)
    requires
        stacked(g),
        0 < g.len() <= usize::MAX,
    ensures
        room_above(g, lo, g.len() as int) + height_sum(g, met(g, lo, hi, g.len() as int))
            + room_below(g, lo, hi, g.len() as int) == g.last().0 + g.last().1 - g[0].0,
{
    lemma_room(g, lo, hi, g.len() as int);
}

/// The regions that the stretch from `lo` to `hi` meets, to be drawn, and how much room the
/// others take above and below.
pub fn visible(g: &Vec<(u128, u128)>, lo: i128, hi: i128) -> (r: Visible)
    requires
        stacked(g@),
    ensures
        r.lead == room_above(g@, lo, g@.len() as int),
        r.blocks@ == met(g@, lo, hi, g@.len() as int),
        r.trail == room_below(g@, lo, hi, g@.len() as int),
{
    let mut lead: u128 = 0;
    let mut trail: u128 = 0;
    let mut blocks: Vec<usize> = Vec::new();
    let mut k: usize = 0;
    while k < g.len()
        invariant
            stacked(g@),
            k <= g@.len(),
            lead == room_above(g@, lo, k as int),
            trail == room_below(g@, lo, hi, k as int),
            blocks@ == met(g@, lo, hi, k as int),
        decreases g@.len() - k,
    {
        let len: usize = g.len();
        proof {
            assert(len == g@.len());
            lemma_room(g@, lo, hi, k + 1);
        }
        let (top, height) = g[k];
        if ((top + height) as i128) < lo {
            lead = lead + height;
        } else if top as i128 > hi {
            trail = trail + height;
        } else {
            blocks.push(k);
        }
        k = k + 1;
    }
    Visible { lead, blocks, trail }
}

/// The region at a height of the result: the first that ends below it, or else the last.
pub fn block_at(g: &Vec<(u128, u128)>, y: i128) -> (r: Option<usize>)
    requires
        stacked(g@),
    ensures
        match r {
            Some(k) => {
                &&& k < g@.len()
                &&& y < g@[k as int].0 + g@[k as int].1 || k == g@.len() - 1
                &&& forall|j: int| 0 <= j < k ==> y >= (#[trigger] g@[j]).0 + g@[j].1
            },
            None => g@.len() == 0,
        },
{
    if g.len() == 0 {
        return None;
    }
    let mut k: usize = 0;
    while k < g.len() - 1
        invariant
            stacked(g@),
            k < g@.len(),
            forall|j: int| 0 <= j < k ==> y >= (#[trigger] g@[j]).0 + g@[j].1,
        decreases g@.len() - k,
    {
        let (top, height) = g[k];
        if y < (top + height) as i128 {
            return Some(k);
        }
        k = k + 1;
    }
    Some(k)
}

// ---------------------------------------------------------------------------
// What came of saving

/// What is told of a merge that was saved, or not.
pub open spec fn merge_told(result: Result<ResolveOutcome, ResolveError>) -> Banner {
    match result {
        Ok(ResolveOutcome::Done { session: _, committed, pushed, note }) => done_banner(
            "Merged"@,
            "merged"@,
            committed,
            pushed,
            optional(note),
        ),
        Ok(ResolveOutcome::ProtectedSpan { detail }) => plain_banner(
            "This change touches a templated value · "@ + detail@,
            BannerTint::Drift,
        ),
        Ok(ResolveOutcome::NeedsMergeEditor) => plain_banner(
            "Unexpected engine outcome · nothing was changed"@,
            BannerTint::Drift,
        ),
        Err(e) => plain_banner("save failed: "@ + e.message_spec(), BannerTint::Conflict),
    }
}

/// What is told of a merge that was saved, or not.
pub fn merge_banner(result: &Result<ResolveOutcome, ResolveError>) -> (r: OutcomeBanner)
    ensures
        r@ == merge_told(*result),
{
    match result {
        Ok(ResolveOutcome::Done { session: _, committed, pushed, note }) => banner_done(
            "Merged",
            "merged",
            *committed,
            *pushed,
            note,
        ),
        Ok(ResolveOutcome::ProtectedSpan { detail }) => banner_with(
            "This change touches a templated value · ",
            detail.as_str(),
            BannerTint::Drift,
        ),
        Ok(ResolveOutcome::NeedsMergeEditor) => banner_plain(
            "Unexpected engine outcome · nothing was changed".to_owned(),
            BannerTint::Drift,
        ),
        Err(e) => banner_with("save failed: ", e.message().as_str(), BannerTint::Conflict),
    }
}

// ---------------------------------------------------------------------------
// The editor

/// A target with all that is shown of it.
#[derive(Debug)]
pub struct LoadedMerge {
    pub inputs: MergeInputs,
    pub state: MergeState,
    pub theirs_rows: Vec<PaneLine>,
    pub base_rows: Vec<PaneLine>,
    pub ours_rows: Vec<PaneLine>,
    /// What is known of each line of their side.
    pub protected: Vec<Option<String>>,
    /// The first line of each region in each pane.
    pub region_line_starts: Vec<[usize; 3]>,
}

/// The inputs can be shown: their texts can be compared, and the template is not too large.
pub open spec fn showable(inputs: MergeInputs) -> bool {
    &&& comparable(inputs)
    &&& inputs.template matches Some(t) ==> encode_utf8(t@).len() < 0x4_0000_0000
}

/// What is known of each line of their side.
pub open spec fn protection_of(inputs: MergeInputs) -> Seq<Option<Seq<char>>> {
    match inputs.span_map {
        Some(map) => protection(
            lines_of(inputs.theirs@),
            map.spans@,
            optional(inputs.template),
        ),
        None => seq![],
    }
}

impl LoadedMerge {
    pub open spec fn wf(self) -> bool {
        self.state.wf()
    }

    /// Everything but the choices is as the inputs make it.
    pub open spec fn fresh(self) -> bool {
        let doc = self.state.doc;
        &&& tips(self.protected@) == protection_of(self.inputs)
        &&& pane_views(self.theirs_rows@) == pane_rows(
            doc.theirs(),
            doc.regions@,
            PaneSide::Theirs,
            self.protected@,
        )
        &&& pane_views(self.base_rows@) == pane_rows(
            doc.base(),
            doc.regions@,
            PaneSide::Base,
            seq![],
        )
        &&& pane_views(self.ours_rows@) == pane_rows(
            doc.ours(),
            doc.regions@,
            PaneSide::Ours,
            seq![],
        )
        &&& are_starts(self.region_line_starts@, doc.regions@)
    }

    /// Compares the inputs, and works out what is shown. What is known of the lines is shown on
    /// their side only.
    pub fn new(inputs: MergeInputs) -> (r: Self)
        requires
            showable(inputs),
        ensures
            r.wf(),
            r.fresh(),
            r.inputs == inputs,
            merges(r.state, inputs),
            r.state.resolution@ == Map::<usize, Choice>::empty(),
    {
        let state = MergeState::new(&inputs);
        let none: Vec<Option<String>> = Vec::new();
        let protected = match &inputs.span_map {
            Some(map) => {
                let theirs = state.doc.theirs_lines();
                proof {
                    let all = lines_of(inputs.theirs@);
                    law_lines_rejoin(inputs.theirs@);
                    lemma_bytes_of_concat(all, all.len() as int);
                    assert(all.take(all.len() as int) =~= all);
                    assert(all.len() == theirs@.len());
                }
                let total: usize = inputs.theirs.as_str().as_bytes().len();
                let template = match &inputs.template {
                    Some(t) => Some(t.as_str()),
                    None => None,
                };
                protected_line_info(theirs, map, template)
            },
            None => {
                let v: Vec<Option<String>> = Vec::new();
                assert(tips(v@) =~= seq![]);
                v
            },
        };
        let theirs_rows = pane_lines(&state.doc, PaneSide::Theirs, &protected);
        let base_rows = pane_lines(&state.doc, PaneSide::Base, &none);
        let ours_rows = pane_lines(&state.doc, PaneSide::Ours, &none);
        assert(none@ =~= seq![]);
        let starts = region_line_starts(&state.doc);
        LoadedMerge {
            inputs,
            state,
            theirs_rows,
            base_rows,
            ours_rows,
            protected,
            region_line_starts: starts,
        }
    }
}

/// A choice that can be taken back: what was chosen before, and what was in focus.
#[derive(Debug)]
pub struct UndoEntry {
    pub region: usize,
    pub prev: Option<Choice>,
    pub next: Choice,
    pub prev_cursor: Option<usize>,
}

/// The choices and the focus, after a choice.
pub open spec fn after_choice(
    regs: Seq<MergeRegion>,
    m: Map<usize, Choice>,
    cursor: Option<usize>,
    region: usize,
    choice: Choice,
) -> (Map<usize, Choice>, Option<usize>) {
    let made = m.insert(region, choice);
    (
        made,
        if cursor == Some(region) {
            next_of(
                crate::merge_state::undecided(regs, made, regs.len() as int),
                Some(region),
            )
        } else {
            cursor
        },
    )
}

/// The choices and the focus, after a choice was taken back.
pub open spec fn after_undo(
    m: Map<usize, Choice>,
    region: usize,
    prev: Option<Choice>,
    prev_cursor: Option<usize>,
) -> (Map<usize, Choice>, Option<usize>) {
    (
        match prev {
            Some(c) => m.insert(region, c),
            None => m.remove(region),
        },
        prev_cursor,
    )
}

/// Taking back a choice leaves everything as it was before it, the focus too.
pub proof fn law_undo_takes_back_a_choice(
    regs: Seq<MergeRegion>,
    m: Map<usize, Choice>,
    cursor: Option<usize>,
    region: usize,
    choice: Choice,
)
    ensures
        after_undo(
            after_choice(regs, m, cursor, region, choice).0,
            region,
            crate::merge::choice_for(m, region as int),
            cursor,
        ) == (m, cursor),
{
    let made = m.insert(region, choice);
    if m.contains_key(region) {
        assert(made.insert(region, m[region]) =~= m);
    } else {
        assert(made.remove(region) =~= m);
    }
}

/// Making a choice again that was taken back leaves everything as it was after it.
pub proof fn law_redo_makes_a_choice_again(
    regs: Seq<MergeRegion>,
    m: Map<usize, Choice>,
    cursor: Option<usize>,
    region: usize,
    choice: Choice,
)
    ensures
        ({
            let made = after_choice(regs, m, cursor, region, choice);
            let back = after_undo(
                made.0,
                region,
                crate::merge::choice_for(m, region as int),
                cursor,
            );
            after_choice(regs, back.0, back.1, region, choice) == made
        }),
{
    law_undo_takes_back_a_choice(regs, m, cursor, region, choice);
}

/// Moves the focus on: to the next conflict that is open, or once none is to the next change.
pub fn next_target(state: &mut MergeState) -> (r: Option<usize>)
    ensures
        r == (if old(state).open_conflicts().len() == 0 {
            next_of(
                changed(old(state).regs(), old(state).regs().len() as int),
                old(state).cursor,
            )
        } else {
            next_of(old(state).open_conflicts(), old(state).cursor)
        }),
        final(state).cursor == r,
        final(state).doc == old(state).doc,
        final(state).resolution@ == old(state).resolution@,
        final(state).degraded_base == old(state).degraded_base,
{
    if state.unresolved().len() == 0 {
        state.next_changed()
    } else {
        state.next_unresolved()
    }
}

/// The merge editor.
#[derive(Debug)]
pub struct MergeView {
    pub target: Option<String>,
    pub loading: bool,
    pub error: Option<String>,
    pub loaded: Option<LoadedMerge>,
    pub saving: bool,
    /// What is told of a save that left the editor open.
    pub banner: Option<OutcomeBanner>,
    /// Decisions that are looked at again.
    pub revisiting: HashSet<usize>,
    /// How each region is shown.
    pub display_cache: Vec<RegionDisplay>,
    pub undo: Vec<UndoEntry>,
    pub redo: Vec<UndoEntry>,
}

pub open spec fn displays(v: Seq<RegionDisplay>) -> Seq<Display> {
    v.map_values(|d: RegionDisplay| d@)
}

/// How the regions of a target are shown.
pub open spec fn displays_of(l: LoadedMerge, revisiting: Set<usize>) -> Seq<Display> {
    Seq::new(
        l.state.regs().len(),
        |k: int| display_of(l.state, k, revisiting, l.protected@),
    )
}

/// Two targets differ in their choices and in what is in focus at most.
pub open spec fn same_but_choices(a: LoadedMerge, b: LoadedMerge) -> bool {
    &&& a.inputs == b.inputs
    &&& a.state.doc == b.state.doc
    &&& a.state.degraded_base == b.state.degraded_base
    &&& a.theirs_rows == b.theirs_rows
    &&& a.base_rows == b.base_rows
    &&& a.ours_rows == b.ours_rows
    &&& a.protected == b.protected
    &&& a.region_line_starts == b.region_line_starts
}

/// What has nothing to do with the choices is the same.
pub open spec fn same_aside(a: MergeView, b: MergeView) -> bool {
    &&& a.target == b.target
    &&& a.loading == b.loading
    &&& a.error == b.error
    &&& a.saving == b.saving
    &&& a.banner == b.banner
}

/// What to do to save.
#[derive(Debug)]
pub enum SaveStep {
    /// Nothing: a save is under way, or something is left to decide.
    Nothing,
    /// Tell that there is no daemon.
    NoDaemon,
    /// Write this text.
    Write(String),
}

/// A choice was made for a region.
pub open spec fn chose(before: MergeView, region: usize, choice: Choice, after: MergeView) -> bool {
    match before.loaded {
        None => after == before,
        Some(l) => {
            let now = after.loaded->Some_0;
            &&& after.loaded is Some
            &&& same_but_choices(now, l)
            &&& (now.state.resolution@, now.state.cursor) == after_choice(
                l.state.regs(),
                l.state.resolution@,
                l.state.cursor,
                region,
                choice,
            )
            &&& after.revisiting@ == before.revisiting@.remove(region)
            &&& after.undo@ == before.undo@.push(
                UndoEntry {
                    region,
                    prev: crate::merge::choice_for(l.state.resolution@, region as int),
                    next: choice,
                    prev_cursor: l.state.cursor,
                },
            )
            &&& after.redo@.len() == 0
            &&& same_aside(after, before)
        },
    }
}

/// The last choice was taken back, if there is one.
pub open spec fn took_back(before: MergeView, after: MergeView) -> bool {
    if before.undo@.len() == 0 {
        after == before
    } else {
        let entry = before.undo@.last();
        let l = before.loaded->Some_0;
        let now = after.loaded->Some_0;
        &&& after.loaded is Some
        &&& same_but_choices(now, l)
        &&& (now.state.resolution@, now.state.cursor) == after_undo(
            l.state.resolution@,
            entry.region,
            entry.prev,
            entry.prev_cursor,
        )
        &&& after.undo@ == before.undo@.drop_last()
        &&& after.redo@ == before.redo@.push(entry)
        &&& after.revisiting == before.revisiting
        &&& same_aside(after, before)
    }
}

/// The choice that was last taken back was made again, if there is one.
pub open spec fn made_again(before: MergeView, after: MergeView) -> bool {
    if before.redo@.len() == 0 {
        after == before
    } else {
        let entry = before.redo@.last();
        let l = before.loaded->Some_0;
        let now = after.loaded->Some_0;
        &&& after.loaded is Some
        &&& same_but_choices(now, l)
        &&& (now.state.resolution@, now.state.cursor) == after_choice(
            l.state.regs(),
            l.state.resolution@,
            l.state.cursor,
            entry.region,
            entry.next,
        )
        &&& after.redo@ == before.redo@.drop_last()
        &&& after.undo@ == before.undo@.push(entry)
        &&& after.revisiting == before.revisiting
        &&& same_aside(after, before)
    }
}

/// A choice of that kind was made for the region in focus, where there is such a choice.
pub open spec fn picked(before: MergeView, kind: ChoiceKind, after: MergeView) -> bool {
    match before.loaded {
        None => after == before,
        Some(l) => if l.state.cursor is None || kind == ChoiceKind::Edited || (kind
            == ChoiceKind::Base && l.state.degraded_base) {
            after == before
        } else {
            chose(before, l.state.cursor->Some_0, choice_of_kind(kind)->Some_0, after)
        },
    }
}

/// The focus has moved on.
pub open spec fn moved_on(before: MergeView, r: Option<usize>, after: MergeView) -> bool {
    match before.loaded {
        None => r is None && after == before,
        Some(l) => {
            let now = after.loaded->Some_0;
            &&& after.loaded is Some
            &&& same_but_choices(now, l)
            &&& now.state.resolution@ == l.state.resolution@
            &&& now.state.cursor == r
            &&& r == (if l.state.open_conflicts().len() == 0 {
                next_of(changed(l.state.regs(), l.state.regs().len() as int), l.state.cursor)
            } else {
                next_of(l.state.open_conflicts(), l.state.cursor)
            })
        },
    }
}

/// A save was begun, or why none was.
pub open spec fn began_save(before: MergeView, ready: bool, r: SaveStep, after: MergeView) -> bool {
    match before.loaded {
        Some(l) => if before.saving || l.state.open_conflicts().len() > 0 {
            r is Nothing && after == before
        } else if !ready {
            &&& r is NoDaemon
            &&& after.banner matches Some(b) && b@ == plain_banner(
                "Daemon not connected · cannot save"@,
                BannerTint::Conflict,
            )
            &&& after == (MergeView { banner: after.banner, ..before })
        } else {
            &&& r matches SaveStep::Write(text) && l.state.doc.assembled(l.state.resolution@)
                == Ok::<Seq<char>, usize>(text@)
            &&& after == (MergeView { saving: true, banner: None, ..before })
        },
        None => r is Nothing && after == before,
    }
}

impl MergeView {
    /// What is shown is what the choices make of the target, and without a target there is
    /// nothing to undo.
    pub open spec fn wf(self) -> bool {
        match self.loaded {
            Some(l) => {
                &&& l.wf()
                &&& displays(self.display_cache@) == displays_of(l, self.revisiting@)
            },
            None => {
                &&& self.display_cache@.len() == 0
                &&& self.undo@.len() == 0
                &&& self.redo@.len() == 0
            },
        }
    }

    pub fn new() -> (r: Self)
        ensures
            r.wf(),
            r.target is None,
            r.loaded is None,
            r.error is None,
            r.banner is None,
            !r.loading,
            !r.saving,
            r.revisiting@ == Set::<usize>::empty(),
    {
        MergeView {
            target: None,
            loading: false,
            error: None,
            loaded: None,
            saving: false,
            banner: None,
            revisiting: HashSet::new(),
            display_cache: Vec::new(),
            undo: Vec::new(),
            redo: Vec::new(),
        }
    }

    /// Opens a target, which is to be loaded. It always starts afresh: earlier choices do not
    /// survive.
    pub fn load(&mut self, target: &str)
        ensures
            final(self).wf(),
            final(self).target matches Some(t) && t@ == target@,
            final(self).loading,
            final(self).error is None,
            final(self).loaded is None,
            !final(self).saving,
            final(self).banner is None,
            final(self).revisiting@ == Set::<usize>::empty(),
    {
        self.target = Some(target.to_owned());
        self.loading = true;
        self.error = None;
        self.loaded = None;
        self.saving = false;
        self.banner = None;
        self.revisiting = HashSet::new();
        self.display_cache = Vec::new();
        self.undo = Vec::new();
        self.redo = Vec::new();
    }

    fn rebuild_display(&mut self)
        requires
            old(self).loaded matches Some(l) ==> l.wf(),
            old(self).loaded is None ==> old(self).undo@.len() == 0 && old(self).redo@.len() == 0,
        ensures
            final(self).wf(),
            *final(self) == (MergeView { display_cache: final(self).display_cache, ..*old(self) }),
    {
        let mut cache: Vec<RegionDisplay> = Vec::new();
        match &self.loaded {
            Some(l) => {
                let ghost want = displays_of(*l, self.revisiting@);
                let mut k: usize = 0;
                assert(displays(cache@) =~= want.take(0));
                while k < l.state.doc.regions.len()
                    invariant
                        l.wf(),
                        k <= l.state.regs().len(),
                        want == displays_of(*l, self.revisiting@),
                        displays(cache@) == want.take(k as int),
                    decreases l.state.regs().len() - k,
                {
                    let ghost had = displays(cache@);
                    cache.push(region_display(&l.state, k, &self.revisiting, &l.protected));
                    proof {
                        assert(displays(cache@) =~= had.push(want[k as int]));
                        assert(want.take(k + 1) =~= want.take(k as int).push(want[k as int]));
                    }
                    k = k + 1;
                }
                assert(want.take(k as int) =~= want);
            },
            None => {},
        }
        self.display_cache = cache;
    }

    /// Takes what was loaded for a target, unless another one is open by now.
    pub fn take_inputs(&mut self, target: &str, result: Result<MergeInputs, MergeInputsError>)
        requires
            old(self).wf(),
            result matches Ok(inputs) ==> showable(inputs),
        ensures
            final(self).wf(),
            !is_open(old(self).target, target@) ==> *final(self) == *old(self),
            is_open(old(self).target, target@) ==> {
                &&& !final(self).loading
                &&& final(self).target == old(self).target
                &&& final(self).saving == old(self).saving
                &&& final(self).banner == old(self).banner
                &&& final(self).revisiting == old(self).revisiting
                &&& final(self).undo == old(self).undo
                &&& final(self).redo == old(self).redo
                &&& match result {
                    Ok(inputs) => {
                        &&& final(self).loaded matches Some(l) && l.inputs == inputs && l.fresh()
                            && l.state.resolution@ == Map::<usize, Choice>::empty()
                            && merges(l.state, inputs)
                        &&& final(self).error == old(self).error
                    },
                    Err(e) => {
                        &&& final(self).error matches Some(m) && m@ == e.message_spec()
                        &&& final(self).loaded == old(self).loaded
                    },
                }
            },
    {
        let open: bool = match &self.target {
            Some(t) => is_same_path(t.as_str(), target),
            None => false,
        };
        if !open {
            return;
        }
        self.loading = false;
        match result {
            Ok(inputs) => {
                self.loaded = Some(LoadedMerge::new(inputs));
            },
            Err(e) => {
                self.error = Some(e.message());
            },
        }
        self.rebuild_display();
    }

    /// Makes a choice for a region. It can be taken back; what was taken back before cannot be
    /// made again.
    pub fn apply(&mut self, region: usize, choice: Choice)
        requires
            old(self).wf(),
        ensures
            final(self).wf(),
            chose(*old(self), region, choice, *final(self)),
    {
        broadcast use vstd::std_specs::hash::group_hash_axioms;

        let mut loaded = match self.loaded.take() {
            Some(l) => l,
            None => {
                return;
            },
        };
        let prev = match loaded.state.resolution.get(region) {
            Some(c) => Some(c.clone()),
            None => None,
        };
        let prev_cursor = loaded.state.cursor;
        loaded.state.pick(region, choice.clone());
        self.loaded = Some(loaded);
        self.revisiting.remove(&region);
        self.undo.push(UndoEntry { region, prev, next: choice, prev_cursor });
        self.redo = Vec::new();
        self.rebuild_display();
    }

    /// Takes back the last choice.
    pub fn undo(&mut self)
        requires
            old(self).wf(),
        ensures
            final(self).wf(),
            took_back(*old(self), *final(self)),
    {
        if self.undo.len() == 0 {
            return;
        }
        let mut loaded = match self.loaded.take() {
            Some(l) => l,
            None => {
                return;
            },
        };
        match self.undo.pop() {
            Some(entry) => {
                match &entry.prev {
                    Some(c) => loaded.state.resolution.set(entry.region, c.clone()),
                    None => loaded.state.resolution.unset(entry.region),
                }
                loaded.state.cursor = entry.prev_cursor;
                self.redo.push(entry);
            },
            None => {},
        }
        self.loaded = Some(loaded);
        self.rebuild_display();
    }

    /// Makes the choice again that was last taken back.
    pub fn redo(&mut self)
        requires
            old(self).wf(),
        ensures
            final(self).wf(),
            made_again(*old(self), *final(self)),
    {
        if self.redo.len() == 0 {
            return;
        }
        let mut loaded = match self.loaded.take() {
            Some(l) => l,
            None => {
                return;
            },
        };
        match self.redo.pop() {
            Some(entry) => {
                loaded.state.pick(entry.region, entry.next.clone());
                self.undo.push(entry);
            },
            None => {},
        }
        self.loaded = Some(loaded);
        self.rebuild_display();
    }

    /// Looks at a decision again. The choice stands until another is made.
    pub fn revisit(&mut self, region: usize)
        requires
            old(self).wf(),
        ensures
            final(self).wf(),
            final(self).revisiting@ == old(self).revisiting@.insert(region),
            match old(self).loaded {
                None => final(self).loaded is None,
                Some(l) => {
                    let now = final(self).loaded->Some_0;
                    &&& final(self).loaded is Some
                    &&& same_but_choices(now, l)
                    &&& now.state.resolution@ == l.state.resolution@
                    &&& now.state.cursor == Some(region)
                },
            },
            final(self).undo == old(self).undo,
            final(self).redo == old(self).redo,
            same_aside(*final(self), *old(self)),
    {
        broadcast use vstd::std_specs::hash::group_hash_axioms;

        self.revisiting.insert(region);
        match self.loaded.take() {
            Some(l) => {
                let mut loaded = l;
                loaded.state.cursor = Some(region);
                self.loaded = Some(loaded);
            },
            None => {},
        }
        self.rebuild_display();
    }

    /// Makes a choice for the region in focus, if one is. There is no base to choose where the
    /// merge has none.
    pub fn pick_at_cursor(&mut self, kind: ChoiceKind)
        requires
            old(self).wf(),
        ensures
            final(self).wf(),
            picked(*old(self), kind, *final(self)),
    {
        let (region, degraded) = match &self.loaded {
            Some(l) => match l.state.cursor {
                Some(c) => (c, l.state.degraded_base),
                None => {
                    return;
                },
            },
            None => {
                return;
            },
        };
        match kind {
            ChoiceKind::Base => {
                if degraded {
                    return;
                }
            },
            _ => {},
        }
        match picked_choice(kind) {
            Some(choice) => {
                self.apply(region, choice);
            },
            None => {},
        }
    }

    /// Moves the focus on.
    pub fn next(&mut self) -> (r: Option<usize>)
        requires
            old(self).wf(),
        ensures
            final(self).wf(),
            moved_on(*old(self), r, *final(self)),
            final(self).undo == old(self).undo,
            final(self).redo == old(self).redo,
            final(self).revisiting == old(self).revisiting,
            same_aside(*final(self), *old(self)),
    {
        let mut loaded = match self.loaded.take() {
            Some(l) => l,
            None => {
                return None;
            },
        };
        let r = next_target(&mut loaded.state);
        self.loaded = Some(loaded);
        self.rebuild_display();
        r
    }

    /// Begins to save. That needs every conflict to be decided; without a daemon it is told so.
    pub fn begin_save(&mut self, engine_ready: bool) -> (r: SaveStep)
        requires
            old(self).wf(),
        ensures
            final(self).wf(),
            began_save(*old(self), engine_ready, r, *final(self)),
    {
        if self.saving {
            return SaveStep::Nothing;
        }
        let resolved = match &self.loaded {
            Some(l) => match l.state.assembled() {
                Some(t) => t,
                None => {
                    return SaveStep::Nothing;
                },
            },
            None => {
                return SaveStep::Nothing;
            },
        };
        if !engine_ready {
            self.banner = Some(
                banner_plain(
                    "Daemon not connected · cannot save".to_owned(),
                    BannerTint::Conflict,
                ),
            );
            return SaveStep::NoDaemon;
        }
        self.saving = true;
        self.banner = None;
        SaveStep::Write(resolved)
    }

    /// Ends a save. What was saved is told elsewhere: then the banner is returned; otherwise the
    /// editor stays open and tells it itself.
    pub fn end_save(&mut self, result: &Result<ResolveOutcome, ResolveError>) -> (r: Option<
        OutcomeBanner,
    >)
        requires
            old(self).wf(),
        ensures
            final(self).wf(),
            if is_done(*result) {
                &&& r matches Some(b) && b@ == merge_told(*result)
                &&& *final(self) == (MergeView { saving: false, ..*old(self) })
            } else {
                &&& r is None
                &&& final(self).banner matches Some(b) && b@ == merge_told(*result)
                &&& *final(self) == (MergeView {
                    saving: false,
                    banner: final(self).banner,
                    ..*old(self)
                })
            },
    {
        self.saving = false;
        let banner = merge_banner(result);
        match result {
            Ok(ResolveOutcome::Done { .. }) => Some(banner),
            _ => {
                self.banner = Some(banner);
                None
            },
        }
    }
}

/// The target is the one that is open.
pub open spec fn is_open(open: Option<String>, target: Seq<char>) -> bool {
    open matches Some(t) && same_path(t@, target)
}

/// The state is the merge of the inputs, with the first conflict in focus.
pub open spec fn merges(state: MergeState, inputs: MergeInputs) -> bool {
    &&& state.doc.base() == lines_of(base_of(inputs))
    &&& state.doc.ours() == lines_of(inputs.ours@)
    &&& state.doc.theirs() == lines_of(inputs.theirs@)
    &&& state.regs() == regions_of(
        merge_sides(base_of(inputs), inputs.ours@, inputs.theirs@, false),
    )
    &&& state.cursor == next_of(conflicts(state.regs(), state.regs().len() as int), None)
    &&& state.degraded_base == inputs.base is None
}

// ---------------------------------------------------------------------------
// The header

/// The ending of a word for more than one thing.
pub open spec fn plural(n: nat) -> Seq<char> {
    if n == 1 {
        ""@
    } else {
        "s"@
    }
}

fn plural_of(n: usize) -> (r: &'static str)
    ensures
        r@ == plural(n as nat),
{
    if n == 1 {
        ""
    } else {
        "s"
    }
}

/// How far the decisions are, in words.
pub open spec fn progress_words(total: nat, decided: nat, changes: nat) -> Seq<char> {
    if total == 0 {
        if changes == 0 {
            "Nothing to merge"@
        } else {
            "auto-merged · "@ + decimal(changes) + " changed region"@ + plural(changes)
                + " — review below"@
        }
    } else {
        decimal(total) + " conflict"@ + plural(total) + ", "@ + decimal(decided) + " resolved"@
    }
}

/// How far the decisions are: in words, and whether all are made.
pub fn progress_line(state: &MergeState) -> (r: (String, bool))
    ensures
        ({
            let total = conflicts(state.regs(), state.regs().len() as int).len();
            let open = state.open_conflicts().len();
            &&& open <= total
            &&& r.0@ == progress_words(
                total,
                (total - open) as nat,
                changed(state.regs(), state.regs().len() as int).len(),
            )
            &&& r.1 == (open == 0)
        }),
{
    let (decided, total) = state.progress();
    let open: usize = total - decided;
    if total == 0 {
        let changes: usize = state.changed_regions().len();
        if changes == 0 {
            return ("Nothing to merge".to_owned(), true);
        }
        let mut s = "auto-merged · ".to_owned();
        s.append(decimal_text(changes as u64).as_str());
        s.append(" changed region");
        s.append(plural_of(changes));
        s.append(" — review below");
        return (s, true);
    }
    let mut s = decimal_text(total as u64);
    s.append(" conflict");
    s.append(plural_of(total));
    s.append(", ");
    s.append(decimal_text(decided as u64).as_str());
    s.append(" resolved");
    (s, open == 0)
}

/// Why there is nothing to save yet.
pub fn conflicts_left(unresolved: usize) -> (r: String)
    ensures
        r@ == decimal(unresolved as nat) + " conflict"@ + plural(unresolved as nat) + " left"@,
{
    let mut s = decimal_text(unresolved as u64);
    s.append(" conflict");
    s.append(plural_of(unresolved));
    s.append(" left");
    s
}

/// What stands where the merge is saved.
#[derive(Debug)]
pub enum SaveButton {
    /// The save is under way.
    Saving,
    Ready,
    /// It cannot be saved yet; this is why.
    Waiting(String),
}

/// What stands above the panes.
#[derive(Debug)]
pub struct EditorHeader {
    pub name: String,
    pub path: String,
    /// How far the decisions are, in words, and the colour of them.
    pub progress: Option<(String, u32)>,
    /// The colour of the button that goes to the next change, where there is a change.
    pub next: Option<u32>,
    pub save: Option<SaveButton>,
}

/// The progress is told, changes can be gone through, and the merge can be saved once no
/// conflict is open.
pub open spec fn header_of(
    state: MergeState,
    saving: bool,
    theme: Theme,
    h: EditorHeader,
) -> bool {
    let total = conflicts(state.regs(), state.regs().len() as int).len();
    let open = state.open_conflicts().len();
    let changes = changed(state.regs(), state.regs().len() as int).len();
    &&& h.progress matches Some(p) && p.0@ == progress_words(total, (total - open) as nat, changes)
        && p.1 == (if open == 0 {
        theme.ok
    } else {
        theme.conflict
    })
    &&& h.next == (if changes == 0 {
        None
    } else if open > 0 {
        Some(theme.conflict)
    } else {
        Some(theme.text)
    })
    &&& if saving {
        h.save matches Some(SaveButton::Saving)
    } else if open == 0 {
        h.save matches Some(SaveButton::Ready)
    } else {
        h.save matches Some(SaveButton::Waiting(why)) && why@ == decimal(open) + " conflict"@
            + plural(open) + " left"@
    }
}

impl MergeView {
    /// What stands above the panes.
    pub fn header(&self, theme: &Theme) -> (r: EditorHeader)
        ensures
            match self.target {
                Some(t) => r.name@ == shown_name(t@) && r.path@ == t@,
                None => r.name@ == "merge editor"@ && r.path@ == ""@,
            },
            match self.loaded {
                Some(l) => header_of(l.state, self.saving, *theme, r),
                None => r.progress is None && r.next is None && r.save is None,
            },
    {
        let (name, path) = match &self.target {
            Some(t) => (display_name(t.as_str()), t.clone()),
            None => ("merge editor".to_owned(), "".to_owned()),
        };
        match &self.loaded {
            None => EditorHeader { name, path, progress: None, next: None, save: None },
            Some(l) => {
                let (words, decided) = progress_line(&l.state);
                let open: usize = l.state.unresolved().len();
                let color: u32 = if decided {
                    theme.ok
                } else {
                    theme.conflict
                };
                let next = if l.state.changed_regions().len() == 0 {
                    None
                } else if open > 0 {
                    Some(theme.conflict)
                } else {
                    Some(theme.text)
                };
                let save = if self.saving {
                    SaveButton::Saving
                } else if open == 0 {
                    SaveButton::Ready
                } else {
                    SaveButton::Waiting(conflicts_left(open))
                };
                EditorHeader { name, path, progress: Some((words, color)), next, save: Some(save) }
            },
        }
    }
}

/// What the editor shows.
#[derive(Debug, PartialEq, Eq)]
pub enum EditorBody {
    Note(&'static str),
    Message { title: &'static str, text: String, advice: &'static str },
    /// The three panes, and the regions below them. Without a base the pane of it says so.
    Panes { two_way: bool },
}

impl MergeView {
    /// What the editor shows.
    pub fn body(&self) -> (r: EditorBody)
        ensures
            if self.loading {
                r matches EditorBody::Note(s) && s@ == "loading merge inputs…"@
            } else {
                match (self.error, self.loaded) {
                    (Some(m), _) => r matches EditorBody::Message { title, text, advice }
                        && title@ == "could not load merge inputs"@ && text@ == m@ && advice@
                        == "Fix this, then reopen the merge editor from Review."@,
                    (None, None) => r matches EditorBody::Note(s) && s@
                        == "open a file from Review to start a merge"@,
                    (None, Some(l)) => r == (EditorBody::Panes { two_way: l.state.degraded_base }),
                }
            },
    {
        if self.loading {
            return EditorBody::Note("loading merge inputs…");
        }
        match (&self.error, &self.loaded) {
            (Some(m), _) => EditorBody::Message {
                title: "could not load merge inputs",
                text: m.clone(),
                advice: "Fix this, then reopen the merge editor from Review.",
            },
            (None, None) => EditorBody::Note("open a file from Review to start a merge"),
            (None, Some(l)) => EditorBody::Panes { two_way: l.state.degraded_base },
        }
    }
}

// ---------------------------------------------------------------------------
// Keys

/// What a key does in the editor.
#[derive(Debug, Clone, Copy, PartialEq, Eq, Structural)]
pub enum EditorKey {
    Pick(ChoiceKind),
    Next,
    Undo,
    Redo,
}

/// What a key does.
pub open spec fn key_of(key: Seq<char>) -> Option<EditorKey> {
    if key == "1"@ {
        Some(EditorKey::Pick(ChoiceKind::Ours))
    } else if key == "2"@ {
        Some(EditorKey::Pick(ChoiceKind::Theirs))
    } else if key == "3"@ {
        Some(EditorKey::Pick(ChoiceKind::Base))
    } else if key == "b"@ {
        Some(EditorKey::Pick(ChoiceKind::Both))
    } else if key == "n"@ {
        Some(EditorKey::Next)
    } else if key == "cmd-z"@ {
        Some(EditorKey::Undo)
    } else if key == "cmd-shift-z"@ {
        Some(EditorKey::Redo)
    } else {
        None
    }
}

/// What a key does in the editor, if anything.
pub fn editor_key(key: &str) -> (r: Option<EditorKey>)
    ensures
        r == key_of(key@),
{
    if same(key, "1") {
        Some(EditorKey::Pick(ChoiceKind::Ours))
    } else if same(key, "2") {
        Some(EditorKey::Pick(ChoiceKind::Theirs))
    } else if same(key, "3") {
        Some(EditorKey::Pick(ChoiceKind::Base))
    } else if same(key, "b") {
        Some(EditorKey::Pick(ChoiceKind::Both))
    } else if same(key, "n") {
        Some(EditorKey::Next)
    } else if same(key, "cmd-z") {
        Some(EditorKey::Undo)
    } else if same(key, "cmd-shift-z") {
        Some(EditorKey::Redo)
    } else {
        None
    }
}

// ---------------------------------------------------------------------------
// What is shown is what there is

/// The lines that are shown are those of the text, each without its line feed.
pub open spec fn shows_text(shown: Seq<Seq<char>>, text: Seq<char>) -> bool {
    exists|lines: Seq<Seq<char>>| #[trigger]
        displayed_lines(lines) == shown && lines.flatten() == text
}

/// The lines that the region becomes, where they are shown; else both sides are.
pub open spec fn result_of(d: Display) -> Option<Seq<Seq<char>>> {
    match d {
        Display::Context { lines } => Some(lines),
        Display::Decided { lines, .. } => Some(untagged(lines)),
        Display::Deciding { provenance, lines, .. } => if provenance is Some {
            None
        } else {
            Some(untagged(lines))
        },
    }
}

/// Lines, without where they come from.
pub open spec fn untagged(lines: Seq<(Seq<char>, Option<PaneSide>)>) -> Seq<Seq<char>> {
    lines.map_values(|l: (Seq<char>, Option<PaneSide>)| l.0)
}

/// The text that a region becomes.
pub open spec fn text_of_region(
    doc: MergeDocument,
    r: MergeRegion,
    choice: Option<Choice>,
) -> Option<Seq<char>> {
    crate::merge::piece(doc.base(), doc.ours(), doc.theirs(), r, choice)
}

proof fn lemma_untagged(lines: Seq<Seq<char>>, side: Option<PaneSide>)
    ensures
        untagged(tagged(lines, side)) == lines,
{
    assert(untagged(tagged(lines, side)) =~= lines);
}

/// The lines that a choice is shown with are those of the text that the choice puts into the
/// merged text, and each line that is said to be of a side is one of that side.
pub proof fn law_choices_show_the_merged_text(doc: MergeDocument, r: MergeRegion, choice: Choice)
    ensures
        text_of_region(doc, r, Some(choice)) matches Some(text) && shows_text(
            untagged(becomes(doc, r, choice)),
            text,
        ),
        forall|k: int|
            #![trigger becomes(doc, r, choice)[k]]
            0 <= k < becomes(doc, r, choice).len() ==> match becomes(doc, r, choice)[k].1 {
                Some(side) => shown_side(doc, r, side).contains(becomes(doc, r, choice)[k].0),
                None => choice is Edited,
            },
{
    let o = cut(doc.ours(), r.ours);
    let t = cut(doc.theirs(), r.theirs);
    let b = cut(doc.base(), r.base);
    lemma_untagged(displayed_lines(o), Some(PaneSide::Ours));
    lemma_untagged(displayed_lines(t), Some(PaneSide::Theirs));
    lemma_untagged(displayed_lines(b), Some(PaneSide::Base));
    vstd::seq_lib::lemma_flatten_concat(o, t);
    assert(displayed_lines(o + t) =~= displayed_lines(o) + displayed_lines(t));
    let (to, tt) = (
        tagged(displayed_lines(o), Some(PaneSide::Ours)),
        tagged(displayed_lines(t), Some(PaneSide::Theirs)),
    );
    assert(untagged(to + tt) =~= untagged(to) + untagged(tt));
    let all = becomes(doc, r, choice);
    match choice {
        Choice::Edited(text) => {
            law_lines_rejoin(text@);
            lemma_untagged(displayed_lines(lines_of(text@)), None);
        },
        _ => {},
    }
    assert forall|k: int|
        #![trigger all[k]]
        0 <= k < all.len() implies match all[k].1 {
        Some(side) => shown_side(doc, r, side).contains(all[k].0),
        None => choice is Edited,
    } by {
        match choice {
            Choice::Ours => {
                assert(shown_side(doc, r, PaneSide::Ours)[k] == all[k].0);
            },
            Choice::Theirs => {
                assert(shown_side(doc, r, PaneSide::Theirs)[k] == all[k].0);
            },
            Choice::Base => {
                assert(shown_side(doc, r, PaneSide::Base)[k] == all[k].0);
            },
            Choice::Both => {
                if k < o.len() {
                    assert(shown_side(doc, r, PaneSide::Ours)[k] == all[k].0);
                } else {
                    assert(shown_side(doc, r, PaneSide::Theirs)[k - o.len()] == all[k].0);
                }
            },
            Choice::Edited(_) => {},
        }
    }
}

/// A region is shown as the text that it becomes. Both sides are shown instead where it becomes
/// none, since it is a conflict without a choice, and where a choice is looked at again.
pub proof fn law_regions_are_shown_as_they_become(
    state: MergeState,
    idx: usize,
    revisiting: Set<usize>,
    protected: Seq<Option<String>>,
)
    requires
        idx < state.regs().len(),
    ensures
        ({
            let r = state.regs()[idx as int];
            let m = state.resolution@;
            let d = display_of(state, idx as int, revisiting, protected);
            let text = text_of_region(state.doc, r, crate::merge::choice_for(m, idx as int));
            let again = m.contains_key(idx) && revisiting.contains(idx);
            match result_of(d) {
                None => {
                    &&& text is None || again
                    &&& d matches Display::Deciding { provenance: Some(p), current, .. } && {
                        &&& p.0 == shown_side(state.doc, r, PaneSide::Ours)
                        &&& p.1 == shown_side(state.doc, r, PaneSide::Theirs)
                        &&& current is None <==> text is None
                    }
                },
                Some(shown) => !again && (text matches Some(t) && shows_text(shown, t)),
            }
        }),
{
    let r = state.regs()[idx as int];
    let m = state.resolution@;
    match crate::merge::choice_for(m, idx as int) {
        Some(choice) => {
            law_choices_show_the_merged_text(state.doc, r, choice);
        },
        None => match default_choice(r.kind) {
            Some(auto) => {
                law_choices_show_the_merged_text(state.doc, r, auto);
                law_defaults_shown_are_the_ones_taken(
                    state.doc.base(),
                    state.doc.ours(),
                    state.doc.theirs(),
                    r,
                );
            },
            None => {
                let b = cut(state.doc.base(), r.base);
                assert(displayed_lines(b) == shown_side(state.doc, r, PaneSide::Base));
            },
        },
    }
}

/// The byte of the rendered text stands in a stretch that cannot be written back: anything but a
/// literal that occurs once.
pub open spec fn computed_at(spans: Seq<RenderedSpan>, i: int, p: int) -> bool {
    &&& 0 <= i < spans.len()
    &&& spans[i].range.start <= p < spans[i].range.end
    &&& !(spans[i].origin matches SpanOrigin::Literal { repeated: false, .. })
}

proof fn lemma_reasons(
    spans: Seq<RenderedSpan>,
    n: int,
    start: int,
    end: int,
    template: Option<Seq<char>>,
)
    requires
        0 <= n <= spans.len(),
    ensures
        forall|i: int|
            0 <= i < n && guards(#[trigger] spans[i], start, end) ==> reasons(
                spans,
                n,
                start,
                end,
                template,
            ).contains(reason_of(spans[i].origin, template)),
        reasons(spans, n, start, end, template).len() > 0 ==> exists|i: int|
            0 <= i < n && guards(#[trigger] spans[i], start, end),
    decreases n,
{
    if n > 0 {
        lemma_reasons(spans, n - 1, start, end, template);
        let front = reasons(spans, n - 1, start, end, template);
        let all = reasons(spans, n, start, end, template);
        assert forall|i: int|
            0 <= i < n && guards(#[trigger] spans[i], start, end) implies all.contains(
            reason_of(spans[i].origin, template),
        ) by {
            let reason = reason_of(spans[i].origin, template);
            if i < n - 1 {
                assert(front.contains(reason));
                let k = front.index_of(reason);
                assert(all[k] == reason);
            } else if !front.contains(reason) {
                assert(all[front.len() as int] == reason);
            }
        }
        if front.len() == 0 && all.len() > 0 {
            assert(guards(spans[n - 1], start, end));
        }
    }
}

/// A line, which is never empty, is marked exactly where one of its bytes cannot be written back,
/// and the reasons that are told hold that of every such byte.
pub proof fn law_computed_lines_are_marked(
    lines: Seq<Seq<char>>,
    spans: Seq<RenderedSpan>,
    template: Option<Seq<char>>,
    k: int,
)
    requires
        0 <= k < lines.len(),
        bytes_up_to(lines, k) < bytes_up_to(lines, k + 1),
    ensures
        ({
            let (start, end) = (bytes_up_to(lines, k), bytes_up_to(lines, k + 1));
            let told = reasons(spans, spans.len() as int, start, end, template);
            &&& protection(lines, spans, template).len() == lines.len()
            &&& protection(lines, spans, template)[k] is Some <==> exists|i: int, p: int|
                start <= p < end && #[trigger] computed_at(spans, i, p)
            &&& forall|i: int, p: int|
                start <= p < end && #[trigger] computed_at(spans, i, p) ==> told.contains(
                    reason_of(spans[i].origin, template),
                )
            &&& protection(lines, spans, template)[k] is Some ==> protection(
                lines,
                spans,
                template,
            )[k] == Some("generated by template:\n"@ + join_texts(told, "\n"@))
        }),
{
    let (start, end) = (bytes_up_to(lines, k), bytes_up_to(lines, k + 1));
    let told = reasons(spans, spans.len() as int, start, end, template);
    lemma_reasons(spans, spans.len() as int, start, end, template);
    assert forall|i: int, p: int|
        start <= p < end && #[trigger] computed_at(spans, i, p) implies told.contains(
        reason_of(spans[i].origin, template),
    ) by {
        assert(guards(spans[i], start, end));
    }
    if told.len() > 0 {
        let i = choose|i: int| 0 <= i < spans.len() && guards(#[trigger] spans[i], start, end);
        let p = if spans[i].range.start < start {
            start
        } else {
            spans[i].range.start as int
        };
        assert(computed_at(spans, i, p));
    }
    if exists|i: int, p: int| start <= p < end && #[trigger] computed_at(spans, i, p) {
        let (i, p) = choose|i: int, p: int| start <= p < end && #[trigger] computed_at(spans, i, p);
        assert(told.contains(reason_of(spans[i].origin, template)));
    }
}

/// The line of a template that is told is the one that the byte stands in.
pub proof fn law_told_lines_hold_the_byte(lines: Seq<Seq<char>>, k: int, pos: int, from: int)
    requires
        0 <= from <= k < lines.len(),
        bytes_up_to(lines, k) <= pos < bytes_up_to(lines, k + 1),
        forall|i: int|
            0 <= i < lines.len() - 1 ==> (#[trigger] lines[i]).len() > 0 && lines[i].last() == '\n',
    ensures
        line_holding(lines, pos, from) == lines[k],
    decreases k - from,
{
    if from < k {
        lemma_bytes_up_to(lines, from + 1, k);
        law_told_lines_hold_the_byte(lines, k, pos, from + 1);
    }
}

/// The first line of a region in a pane is where the region begins in that text.
pub proof fn law_regions_start_where_they_begin(
    regs: Seq<MergeRegion>,
    ends: (int, int, int),
    side: PaneSide,
    k: int,
)
    requires
        regions_tile(regs, (0, 0, 0), ends),
        0 <= k < regs.len(),
    ensures
        lines_before(regs, side, k) == stretch(regs[k], side).start,
        lines_before(regs, side, k + 1) == stretch(regs[k], side).end,
{
    lemma_starts(regs, (0, 0, 0), ends, side, k);
    lemma_lines_before(regs, (0, 0, 0), ends, side, k);
}

proof fn lemma_starts(
    regs: Seq<MergeRegion>,
    at: (int, int, int),
    ends: (int, int, int),
    side: PaneSide,
    k: int,
)
    requires
        regions_tile(regs, at, ends),
        0 <= k < regs.len(),
    ensures
        k == 0 ==> stretch(regs[k], side).start == side_place(at, side),
        k > 0 ==> stretch(regs[k], side).start == stretch(regs[k - 1], side).end,
    decreases k,
{
    if k > 0 {
        let r = regs[0];
        let rest = regs.drop_first();
        let next = (r.base.end as int, r.ours.end as int, r.theirs.end as int);
        lemma_starts(rest, next, ends, side, k - 1);
        assert(rest[k - 1] == regs[k]);
        if k > 1 {
            assert(rest[k - 2] == regs[k - 1]);
        }
    }
}

proof fn lemma_lines_before(
    regs: Seq<MergeRegion>,
    at: (int, int, int),
    ends: (int, int, int),
    side: PaneSide,
    k: int,
)
    requires
        regions_tile(regs, at, ends),
        side_place(at, side) == 0,
        0 <= k < regs.len(),
    ensures
        lines_before(regs, side, k) == stretch(regs[k], side).start,
        lines_before(regs, side, k + 1) == stretch(regs[k], side).end,
    decreases k,
{
    lemma_starts(regs, at, ends, side, k);
    if k > 0 {
        lemma_lines_before(regs, at, ends, side, k - 1);
    }
}

/// A choice that was made by its button is told as that button; one that was written has none.
pub proof fn law_choices_are_told_by_their_kind(c: Choice, kind: ChoiceKind)
    ensures
        match choice_of_kind(kind_of_choice(c)) {
            Some(same) => same == c,
            None => c is Edited,
        },
        choice_of_kind(kind) matches Some(made) ==> kind_of_choice(made) == kind,
        choice_of_kind(kind) is None ==> kind is Edited,
{
}

/// The blocks on the screen are just those that meet it, from top to bottom.
pub proof fn law_blocks_on_the_screen_are_shown(
    g: Seq<(u128, u128)>,
    lo: i128,
    hi: i128,
    n: int,
    k: usize,
)
    requires
        0 <= n <= g.len() <= usize::MAX,
    ensures
        met(g, lo, hi, n).contains(k) <==> k < n && lo <= g[k as int].0 + g[k as int].1
            && g[k as int].0 <= hi,
        forall|i: int| 0 <= i < met(g, lo, hi, n).len() ==> #[trigger] met(g, lo, hi, n)[i] < n,
        crate::merge_state::ascending(met(g, lo, hi, n)),
    decreases n,
{
    if n > 0 {
        law_blocks_on_the_screen_are_shown(g, lo, hi, n - 1, k);
        let front = met(g, lo, hi, n - 1);
        let x = (n - 1) as usize;
        let all = front.push(x);
        assert(all[front.len() as int] == x);
        if front.contains(k) {
            assert(all[front.index_of(k)] == k);
        }
        if all.contains(k) && k != x {
            assert(front[all.index_of(k)] == k);
        }
    }
}

// ---------------------------------------------------------------------------
// Choices that are made and taken back

/// The choices that were made.
pub open spec fn choices_in(v: MergeView) -> Map<usize, Choice> {
    v.loaded->Some_0.state.resolution@
}

/// The region in focus.
pub open spec fn focus_in(v: MergeView) -> Option<usize> {
    v.loaded->Some_0.state.cursor
}

/// A choice stands for its region and for no other, and is no longer looked at again. Taken back,
/// it leaves the choices, the focus and what can be taken back as they were; made again, it
/// leaves all of them as they were with it. After a new choice nothing can be made again.
pub proof fn law_choices_can_be_taken_back_and_made_again(
    a: MergeView,
    b: MergeView,
    c: MergeView,
    d: MergeView,
    region: usize,
    choice: Choice,
    other: usize,
)
    requires
        a.loaded is Some,
        chose(a, region, choice, b),
        took_back(b, c),
        made_again(c, d),
    ensures
        choices_in(b).contains_key(region) && choices_in(b)[region] == choice,
        other != region ==> crate::merge::choice_for(choices_in(b), other as int)
            == crate::merge::choice_for(choices_in(a), other as int),
        !b.revisiting@.contains(region),
        b.redo@.len() == 0,
        choices_in(c) == choices_in(a),
        focus_in(c) == focus_in(a),
        c.undo@ == a.undo@,
        c.redo@.len() == 1,
        choices_in(d) == choices_in(b),
        focus_in(d) == focus_in(b),
        d.undo@ == b.undo@,
        d.redo@.len() == 0,
        same_but_choices(d.loaded->Some_0, a.loaded->Some_0),
{
    let l = a.loaded->Some_0;
    law_undo_takes_back_a_choice(
        l.state.regs(),
        l.state.resolution@,
        l.state.cursor,
        region,
        choice,
    );
    assert(b.undo@.drop_last() =~= a.undo@);
    assert(c.redo@.drop_last() =~= b.redo@);
    assert(c.undo@.push(b.undo@.last()) =~= b.undo@);
}

/// The focus moves to the next conflict without a choice while there is one, and then to the next
/// change; it is lost only where nothing has changed.
pub proof fn law_the_focus_finds_what_is_open(a: MergeView, r: Option<usize>, b: MergeView)
    requires
        a.loaded is Some,
        moved_on(a, r, b),
        a.loaded->Some_0.state.regs().len() <= usize::MAX,
    ensures
        ({
            let regs = a.loaded->Some_0.state.regs();
            let open = exists|k: int|
                0 <= k < regs.len() && (#[trigger] regs[k]).kind == RegionKind::Conflict
                    && !choices_in(a).contains_key(k as usize);
            match r {
                Some(x) => {
                    &&& x < regs.len()
                    &&& open ==> regs[x as int].kind == RegionKind::Conflict && !choices_in(
                        a,
                    ).contains_key(x)
                    &&& !open ==> regs[x as int].kind != RegionKind::Unchanged
                },
                None => forall|k: int|
                    0 <= k < regs.len() ==> (#[trigger] regs[k]).kind == RegionKind::Unchanged,
            }
        }),
        choices_in(b) == choices_in(a),
        focus_in(b) == r,
{
    let state = a.loaded->Some_0.state;
    let regs = state.regs();
    let n = regs.len() as int;
    let list = changed(regs, n);
    let open = state.open_conflicts();
    law_next_goes_round(list, state.cursor);
    law_next_goes_round(open, state.cursor);
    law_decided_means_no_conflict_is_open(regs, state.resolution@);
    match r {
        Some(x) => {
            law_lists_hold_just_their_regions(regs, state.resolution@, x);
        },
        None => {
            assert forall|k: int| 0 <= k < n implies (#[trigger] regs[k]).kind
                == RegionKind::Unchanged by {
                law_lists_hold_just_their_regions(regs, state.resolution@, k as usize);
            }
        },
    }
}

/// A text is written exactly where one is open, no save is under way, the daemon is there and
/// every conflict has a choice; and it is the text that the choices make.
pub proof fn law_saves_wait_for_every_decision(
    a: MergeView,
    ready: bool,
    r: SaveStep,
    b: MergeView,
)
    requires
        began_save(a, ready, r, b),
        a.loaded matches Some(l) ==> l.state.regs().len() <= usize::MAX,
    ensures
        r is Write <==> !a.saving && ready && (a.loaded matches Some(l) && forall|k: int|
            0 <= k < l.state.regs().len() && (#[trigger] l.state.regs()[k]).kind
                == RegionKind::Conflict ==> l.state.resolution@.contains_key(k as usize)),
        r matches SaveStep::Write(text) ==> b.saving && a.loaded->Some_0.state.doc.assembled(
            choices_in(a),
        ) == Ok::<Seq<char>, usize>(text@),
        r is Nothing ==> b == a,
        !(r is Write) ==> b.saving == a.saving,
        b.loaded == a.loaded,
{
    if let Some(l) = a.loaded {
        law_decided_means_no_conflict_is_open(l.state.regs(), l.state.resolution@);
    }
}

/// A key makes a choice for the region in focus, and that choice; there is none without a focus,
/// none of a base where there is none, and none that has to be written.
pub proof fn law_keys_choose_for_the_focus(a: MergeView, kind: ChoiceKind, b: MergeView, x: usize)
    requires
        a.loaded is Some,
        picked(a, kind, b),
    ensures
        focus_in(a) is None || kind is Edited ==> b == a,
        kind is Base && a.loaded->Some_0.state.degraded_base ==> b == a,
        focus_in(a) == Some(x) && (kind is Ours || kind is Theirs || kind is Both || (kind is Base
            && !a.loaded->Some_0.state.degraded_base)) ==> choices_in(b).contains_key(x)
            && kind_of_choice(choices_in(b)[x]) == kind,
{
}

} // verus!
