//! Anchoring the literal text of a template in its rendered output: which rendered bytes are
//! the template's own, and which only its actions can have written.

use std::ops::Range;
use vstd::prelude::*;
use vstd::string::*;

use crate::template::lexer::{literals_apart, nested, ActionClass, Segment, SegmentKind};
use crate::text::{bytes_eq, find_bytes, find_from, find_ws, first_word, first_word_spec};
use crate::text::{lemma_find_from, occurs, occurs_at, skip_ws};

verus! {

/// Where a stretch of rendered text comes from: from the literal bytes `src` of the template
/// (`repeated` where they may stand for several stretches), from one action, or unknown.
#[derive(Debug, PartialEq, Eq)]
pub enum SpanOrigin {
    Literal { segment: usize, src: Range<usize>, repeated: bool },
    Action { segment: usize },
    Unmapped,
}

#[derive(Debug)]
pub struct RenderedSpan {
    pub range: Range<usize>,
    pub origin: SpanOrigin,
}

#[derive(Debug)]
pub struct SpanMap {
    pub spans: Vec<RenderedSpan>,
}

/// A literal segment without the white space that its neighbours trim.
#[derive(Debug)]
pub struct EffLit {
    pub segment: usize,
    pub src: Range<usize>,
    pub depth: u32,
    pub in_range_block: bool,
}

impl Clone for EffLit {
    fn clone(&self) -> (r: Self)
        ensures
            r == *self,
    {
        EffLit {
            segment: self.segment,
            src: self.src.start..self.src.end,
            depth: self.depth,
            in_range_block: self.in_range_block,
        }
    }
}

impl SpanMap {
    /// The first span that holds the byte.
    pub fn span_at(&self, byte: usize) -> (r: Option<&RenderedSpan>)
        ensures
            match r {
                Some(s) => exists|k: int|
                    0 <= k < self.spans@.len() && s == #[trigger] self.spans@[k] && holds(*s, byte)
                        && forall|j: int| 0 <= j < k ==> !holds(#[trigger] self.spans@[j], byte),
                None => forall|k: int|
                    0 <= k < self.spans@.len() ==> !holds(#[trigger] self.spans@[k], byte),
            },
    {
        let mut i: usize = 0;
        while i < self.spans.len()
            invariant
                i <= self.spans@.len(),
                forall|k: int| 0 <= k < i ==> !holds(#[trigger] self.spans@[k], byte),
            decreases self.spans@.len() - i,
        {
            let s = &self.spans[i];
            if s.range.start <= byte && byte < s.range.end {
                assert(*s == self.spans@[i as int]);
                return Some(s);
            }
            i = i + 1;
        }
        None
    }
}

/// The span holds the byte.
pub open spec fn holds(s: RenderedSpan, byte: usize) -> bool {
    s.range.start <= byte < s.range.end
}

// ---------------------------------------------------------------------------
// Effective literals

/// ASCII white space: blank, tab, line feed, form feed, carriage return.
pub open spec fn ascii_ws(c: u8) -> bool {
    c == 0x20 || c == 0x09 || c == 0x0a || c == 0x0c || c == 0x0d
}

pub open spec fn trim_lead(b: Seq<u8>, s: int, e: int) -> int
    decreases e - s,
{
    if s < e && ascii_ws(b[s]) {
        trim_lead(b, s + 1, e)
    } else {
        s
    }
}

pub open spec fn trim_trail(b: Seq<u8>, s: int, e: int) -> int
    decreases e - s,
{
    if s < e && ascii_ws(b[e - 1]) {
        trim_trail(b, s, e - 1)
    } else {
        e
    }
}

/// The tag before segment `idx` trims what follows it.
pub open spec fn trims_lead(segs: Seq<Segment>, idx: int) -> bool
    decreases idx,
{
    if idx <= 0 {
        false
    } else {
        match segs[idx - 1].kind {
            SegmentKind::Literal => trims_lead(segs, idx - 1),
            SegmentKind::Action { trim_after, .. } => trim_after,
            SegmentKind::Comment { trim_after, .. } => trim_after,
        }
    }
}

/// The tag behind the segments before `idx` trims what precedes it.
pub open spec fn trims_trail(segs: Seq<Segment>, idx: int) -> bool
    decreases segs.len() - idx,
{
    if idx >= segs.len() {
        false
    } else {
        match segs[idx].kind {
            SegmentKind::Literal => trims_trail(segs, idx + 1),
            SegmentKind::Action { trim_before, .. } => trim_before,
            SegmentKind::Comment { trim_before, .. } => trim_before,
        }
    }
}

/// `s` without the `{{` pairs at its start.
pub open spec fn strip_braces_front(s: Seq<u8>) -> Seq<u8>
    decreases s.len(),
{
    if s.len() >= 2 && s[0] == 0x7b && s[1] == 0x7b {
        strip_braces_front(s.subrange(2, s.len() as int))
    } else {
        s
    }
}

/// `s` without the dashes at its start.
pub open spec fn strip_dashes_front(s: Seq<u8>) -> Seq<u8>
    decreases s.len(),
{
    if s.len() >= 1 && s[0] == 0x2d {
        strip_dashes_front(s.subrange(1, s.len() as int))
    } else {
        s
    }
}

/// `s` without the `}}` pairs at its end.
pub open spec fn strip_braces_back(s: Seq<u8>) -> Seq<u8>
    decreases s.len(),
{
    if s.len() >= 2 && s[s.len() - 1] == 0x7d && s[s.len() - 2] == 0x7d {
        strip_braces_back(s.subrange(0, s.len() - 2))
    } else {
        s
    }
}

/// `s` without the dashes at its end.
pub open spec fn strip_dashes_back(s: Seq<u8>) -> Seq<u8>
    decreases s.len(),
{
    if s.len() >= 1 && s[s.len() - 1] == 0x2d {
        strip_dashes_back(s.subrange(0, s.len() - 1))
    } else {
        s
    }
}

/// The action `text`, with its delimiters, opens a `range` block.
pub open spec fn names_range(text: Seq<u8>) -> bool {
    first_word_spec(
        strip_dashes_back(strip_braces_back(strip_dashes_front(strip_braces_front(text)))),
    ) == "range".spec_bytes()
}

pub open spec fn seg_text(t: Seq<u8>, s: Segment) -> Seq<u8> {
    t.subrange(s.src.start as int, s.src.end as int)
}

/// The control blocks that are open behind the first `n` segments, the outermost first: for
/// each, whether it is a `range`.
pub open spec fn open_blocks(t: Seq<u8>, segs: Seq<Segment>, n: int) -> Seq<bool>
    decreases n,
{
    if n <= 0 {
        seq![]
    } else {
        let open = open_blocks(t, segs, n - 1);
        match segs[n - 1].kind {
            SegmentKind::Action { class: ActionClass::ControlOpen, .. } => open.push(
                names_range(seg_text(t, segs[n - 1])),
            ),
            SegmentKind::Action { class: ActionClass::ControlClose, .. } => if open.len() > 0 {
                open.drop_last()
            } else {
                open
            },
            _ => open,
        }
    }
}

/// What is left of segment `idx` where it is literal and not all trimmed away.
pub open spec fn literal_at(t: Seq<u8>, segs: Seq<Segment>, idx: int) -> Option<EffLit> {
    match segs[idx].kind {
        SegmentKind::Literal => {
            let s = if trims_lead(segs, idx) {
                trim_lead(t, segs[idx].src.start as int, segs[idx].src.end as int)
            } else {
                segs[idx].src.start as int
            };
            let e = if trims_trail(segs, idx + 1) {
                trim_trail(t, s, segs[idx].src.end as int)
            } else {
                segs[idx].src.end as int
            };
            if s < e {
                Some(
                    EffLit {
                        segment: idx as usize,
                        src: Range { start: s as usize, end: e as usize },
                        depth: segs[idx].depth,
                        in_range_block: open_blocks(t, segs, idx).contains(true),
                    },
                )
            } else {
                None
            }
        },
        _ => None,
    }
}

/// The effective literals among the first `n` segments.
pub open spec fn effective(t: Seq<u8>, segs: Seq<Segment>, n: int) -> Seq<EffLit>
    decreases n,
{
    if n <= 0 {
        seq![]
    } else {
        match literal_at(t, segs, n - 1) {
            Some(l) => effective(t, segs, n - 1).push(l),
            None => effective(t, segs, n - 1),
        }
    }
}

/// Every segment is a stretch of the template.
pub open spec fn segments_fit(t: Seq<u8>, segs: Seq<Segment>) -> bool {
    forall|k: int|
        0 <= k < segs.len() ==> (#[trigger] segs[k]).src.start <= segs[k].src.end
            && segs[k].src.end <= t.len()
}

fn is_ascii_ws(c: u8) -> (r: bool)
    ensures
        r == ascii_ws(c),
{
    c == 0x20 || c == 0x09 || c == 0x0a || c == 0x0c || c == 0x0d
}

fn opens_range(text: &[u8]) -> (r: bool)
    ensures
        r == names_range(text@),
{
    let mut s: &[u8] = text;
    while s.len() >= 2 && s[0] == 0x7b && s[1] == 0x7b
        invariant
            strip_braces_front(text@) == strip_braces_front(s@),
        decreases s@.len(),
    {
        s = &s[2..s.len()];
    }
    let ghost s1 = s@;
    while s.len() >= 1 && s[0] == 0x2d
        invariant
            strip_dashes_front(s1) == strip_dashes_front(s@),
        decreases s@.len(),
    {
        s = &s[1..s.len()];
    }
    let ghost s2 = s@;
    while s.len() >= 2 && s[s.len() - 1] == 0x7d && s[s.len() - 2] == 0x7d
        invariant
            strip_braces_back(s2) == strip_braces_back(s@),
        decreases s@.len(),
    {
        s = &s[0..s.len() - 2];
    }
    let ghost s3 = s@;
    while s.len() >= 1 && s[s.len() - 1] == 0x2d
        invariant
            strip_dashes_back(s3) == strip_dashes_back(s@),
        decreases s@.len(),
    {
        s = &s[0..s.len() - 1];
    }
    bytes_eq(first_word(s), "range".as_bytes())
}

fn leading_trim(segs: &[Segment], idx: usize) -> (r: bool)
    requires
        idx <= segs@.len(),
    ensures
        r == trims_lead(segs@, idx as int),
{
    let mut i: usize = idx;
    while i > 0
        invariant
            i <= segs@.len(),
            trims_lead(segs@, idx as int) == trims_lead(segs@, i as int),
        decreases i,
    {
        match segs[i - 1].kind {
            SegmentKind::Literal => {},
            SegmentKind::Action { trim_after, .. } => {
                return trim_after;
            },
            SegmentKind::Comment { trim_after, .. } => {
                return trim_after;
            },
        }
        i = i - 1;
    }
    false
}

fn trailing_trim(segs: &[Segment], idx: usize) -> (r: bool)
    ensures
        r == trims_trail(segs@, idx as int),
{
    let mut i: usize = idx;
    while i < segs.len()
        invariant
            trims_trail(segs@, idx as int) == trims_trail(segs@, i as int),
        decreases segs@.len() - i,
    {
        match segs[i].kind {
            SegmentKind::Literal => {},
            SegmentKind::Action { trim_before, .. } => {
                return trim_before;
            },
            SegmentKind::Comment { trim_before, .. } => {
                return trim_before;
            },
        }
        i = i + 1;
    }
    false
}

fn has_true(v: &Vec<bool>) -> (r: bool)
    ensures
        r == v@.contains(true),
{
    let mut i: usize = 0;
    while i < v.len()
        invariant
            i <= v@.len(),
            forall|k: int| 0 <= k < i ==> !v@[k],
        decreases v@.len() - i,
    {
        if v[i] {
            assert(v@[i as int] == true);
            return true;
        }
        i = i + 1;
    }
    false
}

/// The literal that segment `idx` leaves, `in_range_block` being known.
fn trimmed_literal(t: &[u8], segs: &[Segment], idx: usize, in_range_block: bool) -> (r: Option<
    EffLit,
>)
    requires
        idx < segs@.len(),
        segments_fit(t@, segs@),
        segs@[idx as int].kind == SegmentKind::Literal,
        in_range_block == open_blocks(t@, segs@, idx as int).contains(true),
    ensures
        r == literal_at(t@, segs@, idx as int),
{
    let first: usize = segs[idx].src.start;
    let last: usize = segs[idx].src.end;
    let mut start: usize = first;
    let mut end: usize = last;
    if leading_trim(segs, idx) {
        while start < end && is_ascii_ws(t[start])
            invariant
                first <= start <= end <= t@.len(),
                end == last,
                trim_lead(t@, first as int, last as int) == trim_lead(t@, start as int, end as int),
            decreases end - start,
        {
            start = start + 1;
        }
    }
    if trailing_trim(segs, idx + 1) {
        while start < end && is_ascii_ws(t[end - 1])
            invariant
                start <= end <= last <= t@.len(),
                trim_trail(t@, start as int, last as int) == trim_trail(
                    t@,
                    start as int,
                    end as int,
                ),
            decreases end - start,
        {
            end = end - 1;
        }
    }
    if start < end {
        Some(EffLit { segment: idx, src: start..end, depth: segs[idx].depth, in_range_block })
    } else {
        None
    }
}

fn effective_literals(t: &[u8], segs: &[Segment]) -> (out: Vec<EffLit>)
    requires
        segments_fit(t@, segs@),
    ensures
        out@ == effective(t@, segs@, segs@.len() as int),
{
    let mut out: Vec<EffLit> = Vec::new();
    let mut open: Vec<bool> = Vec::new();
    let mut idx: usize = 0;
    while idx < segs.len()
        invariant
            segments_fit(t@, segs@),
            idx <= segs@.len(),
            out@ == effective(t@, segs@, idx as int),
            open@ == open_blocks(t@, segs@, idx as int),
        decreases segs@.len() - idx,
    {
        match segs[idx].kind {
            SegmentKind::Literal => {
                let in_range = has_true(&open);
                match trimmed_literal(t, segs, idx, in_range) {
                    Some(l) => {
                        out.push(l);
                    },
                    None => {},
                }
            },
            SegmentKind::Action { class, .. } => {
                match class {
                    ActionClass::ControlOpen => {
                        let text = &t[segs[idx].src.start..segs[idx].src.end];
                        open.push(opens_range(text));
                    },
                    ActionClass::ControlClose => {
                        let _ = open.pop();
                    },
                    _ => {},
                }
            },
            SegmentKind::Comment { .. } => {},
        }
        idx = idx + 1;
    }
    out
}

// ---------------------------------------------------------------------------
// What stands between two segments

/// The value actions and the control actions among `segs[s..e]`, and the last value action.
pub struct GapProfile {
    pub values: int,
    pub controls: int,
    pub last_value: int,
}

pub open spec fn profile(segs: Seq<Segment>, s: int, e: int) -> GapProfile
    decreases e - s,
{
    if s >= e {
        GapProfile { values: 0, controls: 0, last_value: 0 }
    } else {
        let p = profile(segs, s, e - 1);
        match segs[e - 1].kind {
            SegmentKind::Action { class: ActionClass::Value, .. } => GapProfile {
                values: p.values + 1,
                controls: p.controls,
                last_value: e - 1,
            },
            SegmentKind::Action { .. } => GapProfile {
                values: p.values,
                controls: p.controls + 1,
                last_value: p.last_value,
            },
            _ => p,
        }
    }
}

/// What wrote the text between two literals: the one value action that stands between them,
/// or else it is unknown.
pub open spec fn between(segs: Seq<Segment>, s: int, e: int) -> SpanOrigin {
    let p = profile(segs, s, e);
    if p.controls == 0 && p.values == 1 {
        SpanOrigin::Action { segment: p.last_value as usize }
    } else {
        SpanOrigin::Unmapped
    }
}

pub open spec fn seg_after(after: Option<usize>) -> int {
    match after {
        Some(i) => i + 1,
        None => 0,
    }
}

pub open spec fn seg_before(segs: Seq<Segment>, before: Option<usize>) -> int {
    match before {
        Some(i) => i as int,
        None => segs.len() as int,
    }
}

/// Counts the actions strictly between two segments: the value actions, the control actions,
/// and the value action itself where there is exactly one.
fn gap_profile(segs: &[Segment], start: usize, end: usize) -> (r: (usize, usize, Option<usize>))
    requires
        end <= segs@.len(),
    ensures
        r.0 == profile(segs@, start as int, end as int).values,
        r.1 == profile(segs@, start as int, end as int).controls,
        r.2 == (if r.0 == 1 {
            Some(profile(segs@, start as int, end as int).last_value as usize)
        } else {
            None
        }),
{
    let mut values: usize = 0;
    let mut controls: usize = 0;
    let mut last: usize = 0;
    let mut i: usize = start;
    while i < end
        invariant
            end <= segs@.len(),
            start <= i,
            start <= end ==> i <= end,
            start > end ==> i == start,
            values + controls <= i - start,
            values == profile(segs@, start as int, i as int).values,
            controls == profile(segs@, start as int, i as int).controls,
            last == profile(segs@, start as int, i as int).last_value,
        decreases end - i,
    {
        match segs[i].kind {
            SegmentKind::Action { class, .. } => {
                match class {
                    ActionClass::Value => {
                        values = values + 1;
                        last = i;
                    },
                    _ => {
                        controls = controls + 1;
                    },
                }
            },
            _ => {},
        }
        i = i + 1;
    }
    (
        values,
        controls,
        if values == 1 {
            Some(last)
        } else {
            None
        },
    )
}

fn origin_between(segs: &[Segment], start: usize, end: usize) -> (r: SpanOrigin)
    requires
        end <= segs@.len(),
    ensures
        r == between(segs@, start as int, end as int),
{
    let (_, controls, only) = gap_profile(segs, start, end);
    match only {
        Some(segment) => {
            if controls == 0 {
                SpanOrigin::Action { segment }
            } else {
                SpanOrigin::Unmapped
            }
        },
        None => SpanOrigin::Unmapped,
    }
}

// ---------------------------------------------------------------------------
// Matching inner literals in a gap

/// A literal found in a gap, at gap-relative positions.
#[derive(Debug)]
pub struct Match {
    pub start: usize,
    pub end: usize,
    pub lit: EffLit,
}

pub open spec fn needle(t: Seq<u8>, l: EffLit) -> Seq<u8> {
    t.subrange(l.src.start as int, l.src.end as int)
}

/// The literals inside control blocks among the segments `s..e`.
pub open spec fn inner_literals(lits: Seq<EffLit>, s: int, e: int) -> Seq<EffLit>
    decreases lits.len(),
{
    if lits.len() == 0 {
        seq![]
    } else {
        let front = inner_literals(lits.drop_last(), s, e);
        let l = lits.last();
        if l.depth > 0 && s <= l.segment < e {
            front.push(l)
        } else {
            front
        }
    }
}

/// One pass over the literals from the `k`-th on: each is looked for behind the one found
/// before it, and skipped where it does not occur. Gives what was found and where it ends.
pub open spec fn pass(t: Seq<u8>, inner: Seq<EffLit>, g: Seq<u8>, k: int, cur: int) -> (
    Seq<Match>,
    int,
)
    decreases inner.len() - k,
{
    if k < 0 || k >= inner.len() {
        (seq![], cur)
    } else {
        let n = needle(t, inner[k]);
        match find_from(g, n, cur) {
            Some(at) => {
                let rest = pass(t, inner, g, k + 1, at + n.len());
                (
                    seq![
                        Match {
                            start: at as usize,
                            end: (at + n.len()) as usize,
                            lit: inner[k],
                        },
                    ] + rest.0,
                    rest.1,
                )
            },
            None => pass(t, inner, g, k + 1, cur),
        }
    }
}

pub open spec fn any_in_range(inner: Seq<EffLit>) -> bool {
    exists|k: int| 0 <= k < inner.len() && (#[trigger] inner[k]).in_range_block
}

/// Passes over the literals, one after another, while they find something before the end of
/// the gap; one pass where no literal stands in a `range`. Gives what was found, and whether
/// a pass that was not the last brought it to more matches than there are literals.
pub open spec fn passes(
    t: Seq<u8>,
    inner: Seq<EffLit>,
    g: Seq<u8>,
    local: Seq<Match>,
    cur: int,
    again: bool,
) -> (Seq<Match>, bool)
    decreases g.len() - cur,
{
    let (found, next) = pass(t, inner, g, 0, cur);
    let all = local + found;
    if found.len() == 0 || next >= g.len() {
        (all, again)
    } else {
        let more = again || all.len() > inner.len();
        if next <= cur || !any_in_range(inner) {
            (all, more)
        } else {
            passes(t, inner, g, all, next, more)
        }
    }
}

/// The literals were matched more often than once over.
pub open spec fn is_repeated(inner: Seq<EffLit>, m: (Seq<Match>, bool)) -> bool {
    m.1 || (inner.len() > 0 && m.0.len() as int / inner.len() as int > 1)
}

pub open spec fn span(start: int, end: int, origin: SpanOrigin) -> RenderedSpan {
    RenderedSpan { range: Range { start: start as usize, end: end as usize }, origin }
}

pub open spec fn literal_span(start: int, end: int, l: EffLit, repeated: bool) -> RenderedSpan {
    span(start, end, SpanOrigin::Literal { segment: l.segment, src: l.src, repeated })
}

/// The spans of a gap from the `k`-th match on: `pos` is how far the gap is covered, `prev`
/// the segment that the text before it came from.
pub open spec fn matched_spans(
    segs: Seq<Segment>,
    local: Seq<Match>,
    k: int,
    pos: int,
    prev: Option<usize>,
    before: Option<usize>,
    gap: (int, int),
    repeated: bool,
) -> Seq<RenderedSpan>
    decreases local.len() - k,
{
    if k < 0 || k >= local.len() {
        if pos < gap.1 - gap.0 {
            seq![
                span(
                    gap.0 + pos,
                    gap.1,
                    match (prev, before) {
                        (Some(p), Some(b)) => between(segs, p + 1, b as int),
                        _ => SpanOrigin::Unmapped,
                    },
                ),
            ]
        } else {
            seq![]
        }
    } else {
        let m = local[k];
        let hole = if m.start > pos {
            seq![
                span(
                    gap.0 + pos,
                    gap.0 + m.start,
                    match prev {
                        Some(p) => between(segs, p + 1, m.lit.segment as int),
                        None => SpanOrigin::Unmapped,
                    },
                ),
            ]
        } else {
            seq![]
        };
        hole.push(
            literal_span(
                gap.0 + m.start,
                gap.0 + m.end,
                m.lit,
                repeated || m.lit.in_range_block,
            ),
        ) + matched_spans(
            segs,
            local,
            k + 1,
            m.end as int,
            Some(m.lit.segment),
            before,
            gap,
            repeated,
        )
    }
}

/// The spans of the rendered text `gap`, which stands between the literals of the segments
/// `after` and `before`. Without control actions between them it is one span; else the
/// literals inside the control blocks are matched in it.
pub open spec fn gap_spans(
    t: Seq<u8>,
    segs: Seq<Segment>,
    lits: Seq<EffLit>,
    after: Option<usize>,
    before: Option<usize>,
    gap: (int, int),
    rendered: Seq<u8>,
) -> Seq<RenderedSpan> {
    let s = seg_after(after);
    let e = seg_before(segs, before);
    if profile(segs, s, e).controls == 0 {
        seq![span(gap.0, gap.1, between(segs, s, e))]
    } else {
        let inner = inner_literals(lits, s, e);
        let m = passes(t, inner, rendered.subrange(gap.0, gap.1), seq![], 0, false);
        matched_spans(segs, m.0, 0, 0, after, before, gap, is_repeated(inner, m))
    }
}

/// The literal is a stretch of its segment, not empty, and knows whether it stands in a `range`.
pub open spec fn literal_fits(t: Seq<u8>, segs: Seq<Segment>, l: EffLit) -> bool {
    &&& l.segment < segs.len()
    &&& segs[l.segment as int].kind == SegmentKind::Literal
    &&& segs[l.segment as int].src.start <= l.src.start < l.src.end <= segs[l.segment as int].src.end
    &&& l.src.end <= t.len()
    &&& l.src.end == segs[l.segment as int].src.end || ascii_ws(t[l.src.end as int])
    &&& l.depth == segs[l.segment as int].depth
    &&& l.in_range_block == open_blocks(t, segs, l.segment as int).contains(true)
}

/// All the literals fit the template.
pub open spec fn literals_fit(t: Seq<u8>, segs: Seq<Segment>, lits: Seq<EffLit>) -> bool {
    forall|k: int| 0 <= k < lits.len() ==> literal_fits(t, segs, #[trigger] lits[k])
}

proof fn lemma_trim_bounds(b: Seq<u8>, s: int, e: int)
    requires
        s <= e,
    ensures
        s <= trim_lead(b, s, e) <= e,
        s <= trim_trail(b, s, e) <= e,
        trim_trail(b, s, e) == e || ascii_ws(b[trim_trail(b, s, e)]),
    decreases e - s,
{
    if s < e {
        lemma_trim_bounds(b, s + 1, e);
        lemma_trim_bounds(b, s, e - 1);
    }
}

proof fn lemma_effective_fits(t: Seq<u8>, segs: Seq<Segment>, n: int)
    requires
        segments_fit(t, segs),
        0 <= n <= segs.len() <= usize::MAX,
        t.len() <= usize::MAX,
    ensures
        literals_fit(t, segs, effective(t, segs, n)),
        forall|k: int| 0 <= k < effective(t, segs, n).len() ==> (#[trigger] effective(t, segs, n)[k]).segment < n,
    decreases n,
{
    if n > 0 {
        lemma_effective_fits(t, segs, n - 1);
        let seg = segs[n - 1];
        lemma_trim_bounds(t, seg.src.start as int, seg.src.end as int);
        let s = if trims_lead(segs, n - 1) {
            trim_lead(t, seg.src.start as int, seg.src.end as int)
        } else {
            seg.src.start as int
        };
        lemma_trim_bounds(t, s, seg.src.end as int);
    }
}

fn inner_of(lits: &Vec<EffLit>, start: usize, end: usize) -> (out: Vec<EffLit>)
    ensures
        out@ == inner_literals(lits@, start as int, end as int),
{
    let mut out: Vec<EffLit> = Vec::new();
    let mut i: usize = 0;
    while i < lits.len()
        invariant
            i <= lits@.len(),
            out@ == inner_literals(lits@.take(i as int), start as int, end as int),
        decreases lits@.len() - i,
    {
        let l = &lits[i];
        proof {
            assert(lits@.take(i + 1).drop_last() =~= lits@.take(i as int));
        }
        if l.depth > 0 && l.segment >= start && l.segment < end {
            out.push(l.clone());
        }
        i = i + 1;
    }
    assert(lits@.take(i as int) =~= lits@);
    out
}

proof fn lemma_inner_fits(t: Seq<u8>, segs: Seq<Segment>, lits: Seq<EffLit>, s: int, e: int)
    requires
        literals_fit(t, segs, lits),
    ensures
        literals_fit(t, segs, inner_literals(lits, s, e)),
    decreases lits.len(),
{
    if lits.len() > 0 {
        assert forall|k: int| 0 <= k < lits.drop_last().len() implies literal_fits(
            t,
            segs,
            #[trigger] lits.drop_last()[k],
        ) by {
            assert(lits.drop_last()[k] == lits[k]);
        }
        lemma_inner_fits(t, segs, lits.drop_last(), s, e);
        assert(lits.last() == lits[lits.len() - 1]);
    }
}

/// One pass: appends what it finds to `local`, and gives where the last match ends.
fn match_pass(
    t: &[u8],
    inner: &Vec<EffLit>,
    g: &[u8],
    cur: usize,
    local: &mut Vec<Match>,
    Ghost(segs): Ghost<Seq<Segment>>,
) -> (next: usize)
    requires
        literals_fit(t@, segs, inner@),
        cur <= g@.len(),
    ensures
        final(local)@ == old(local)@ + pass(t@, inner@, g@, 0, cur as int).0,
        next == pass(t@, inner@, g@, 0, cur as int).1,
        cur <= next <= g@.len(),
        final(local)@.len() > old(local)@.len() ==> next > cur,
{
    let len: usize = g.len();
    let mut pos: usize = cur;
    let mut k: usize = 0;
    assert(local@ + pass(t@, inner@, g@, 0, cur as int).0 =~= old(local)@ + pass(
        t@,
        inner@,
        g@,
        0,
        cur as int,
    ).0);
    while k < inner.len()
        invariant
            literals_fit(t@, segs, inner@),
            len == g@.len(),
            cur <= pos <= len,
            k <= inner@.len(),
            local@.len() >= old(local)@.len(),
            local@.len() > old(local)@.len() ==> pos > cur,
            local@ + pass(t@, inner@, g@, k as int, pos as int).0 == old(local)@ + pass(
                t@,
                inner@,
                g@,
                0,
                cur as int,
            ).0,
            pass(t@, inner@, g@, k as int, pos as int).1 == pass(t@, inner@, g@, 0, cur as int).1,
        decreases inner@.len() - k,
    {
        let l = &inner[k];
        let n = &t[l.src.start..l.src.end];
        proof {
            assert(n@ == needle(t@, inner@[k as int]));
            lemma_find_from(g@, n@, pos as int);
        }
        match find_bytes(g, n, pos) {
            Some(at) => {
                let end: usize = at + n.len();
                let ghost before = local@;
                local.push(Match { start: at, end, lit: l.clone() });
                proof {
                    let rest = pass(t@, inner@, g@, k + 1, end as int);
                    assert(before + (seq![local@.last()] + rest.0) =~= local@ + rest.0);
                }
                pos = end;
            },
            None => {},
        }
        k = k + 1;
    }
    assert(local@ + Seq::<Match>::empty() =~= local@);
    pos
}

fn some_in_range(inner: &Vec<EffLit>) -> (r: bool)
    ensures
        r == any_in_range(inner@),
{
    let mut i: usize = 0;
    while i < inner.len()
        invariant
            i <= inner@.len(),
            forall|k: int| 0 <= k < i ==> !(#[trigger] inner@[k]).in_range_block,
        decreases inner@.len() - i,
    {
        if inner[i].in_range_block {
            assert(inner@[i as int].in_range_block);
            return true;
        }
        i = i + 1;
    }
    false
}

/// All passes over the gap `g`.
fn match_passes(
    t: &[u8],
    inner: &Vec<EffLit>,
    g: &[u8],
    Ghost(segs): Ghost<Seq<Segment>>,
) -> (r: (Vec<Match>, bool))
    requires
        literals_fit(t@, segs, inner@),
    ensures
        (r.0@, r.1) == passes(t@, inner@, g@, seq![], 0, false),
{
    let len: usize = g.len();
    let mut local: Vec<Match> = Vec::new();
    let mut cur: usize = 0;
    let mut again = false;
    let repeats = some_in_range(inner);
    loop
        invariant
            literals_fit(t@, segs, inner@),
            len == g@.len(),
            cur <= len,
            repeats == any_in_range(inner@),
            passes(t@, inner@, g@, local@, cur as int, again) == passes(
                t@,
                inner@,
                g@,
                seq![],
                0,
                false,
            ),
        decreases len - cur,
    {
        let had: usize = local.len();
        let next: usize = match_pass(t, inner, g, cur, &mut local, Ghost(segs));
        if local.len() == had || next >= len {
            return (local, again);
        }
        if local.len() > inner.len() {
            again = true;
        }
        if !repeats {
            return (local, again);
        }
        cur = next;
    }
}

/// Emits the spans of a gap whose inner literals are matched.
fn emit_matches(
    segs: &[Segment],
    local: &Vec<Match>,
    after: Option<usize>,
    before: Option<usize>,
    start: usize,
    end: usize,
    repeated: bool,
    spans: &mut Vec<RenderedSpan>,
)
    requires
        start <= end,
        after matches Some(a) ==> a < segs@.len(),
        before matches Some(b) ==> b <= segs@.len(),
        forall|k: int|
            0 <= k < local@.len() ==> (#[trigger] local@[k]).start <= local@[k].end
                && local@[k].end <= end - start && local@[k].lit.segment < segs@.len(),
    ensures
        final(spans)@ == old(spans)@ + matched_spans(
            segs@,
            local@,
            0,
            0,
            after,
            before,
            (start as int, end as int),
            repeated,
        ),
{
    let slen: usize = segs.len();
    let mut k: usize = 0;
    let mut pos: usize = 0;
    let mut prev: Option<usize> = after;
    while k < local.len()
        invariant
            slen == segs@.len(),
            start <= end,
            before matches Some(b) ==> b <= segs@.len(),
            prev matches Some(p) ==> p < segs@.len(),
            forall|j: int|
                0 <= j < local@.len() ==> (#[trigger] local@[j]).start <= local@[j].end
                    && local@[j].end <= end - start && local@[j].lit.segment < segs@.len(),
            k <= local@.len(),
            pos <= end - start,
            spans@ + matched_spans(
                segs@,
                local@,
                k as int,
                pos as int,
                prev,
                before,
                (start as int, end as int),
                repeated,
            ) == old(spans)@ + matched_spans(
                segs@,
                local@,
                0,
                0,
                after,
                before,
                (start as int, end as int),
                repeated,
            ),
        decreases local@.len() - k,
    {
        let m = &local[k];
        let ghost had = spans@;
        let ghost rest = matched_spans(
            segs@,
            local@,
            k + 1,
            m.end as int,
            Some(m.lit.segment),
            before,
            (start as int, end as int),
            repeated,
        );
        if m.start > pos {
            let origin = match prev {
                Some(p) => origin_between(segs, p + 1, m.lit.segment),
                None => SpanOrigin::Unmapped,
            };
            spans.push(RenderedSpan { range: start + pos..start + m.start, origin });
        }
        let ghost hole = spans@.skip(had.len() as int);
        assert(spans@ =~= had + hole);
        spans.push(
            RenderedSpan {
                range: start + m.start..start + m.end,
                origin: SpanOrigin::Literal {
                    segment: m.lit.segment,
                    src: m.lit.src.start..m.lit.src.end,
                    repeated: repeated || m.lit.in_range_block,
                },
            },
        );
        proof {
            let lit = spans@.last();
            assert(lit == literal_span(
                start + m.start,
                start + m.end,
                m.lit,
                repeated || m.lit.in_range_block,
            ));
            assert(had + (hole.push(lit) + rest) =~= spans@ + rest);
            if m.start > pos {
                assert(hole =~= seq![
                    span(
                        start + pos,
                        start + m.start,
                        match prev {
                            Some(p) => between(segs@, p + 1, m.lit.segment as int),
                            None => SpanOrigin::Unmapped,
                        },
                    ),
                ]);
            } else {
                assert(hole =~= seq![]);
            }
        }
        pos = m.end;
        prev = Some(m.lit.segment);
        k = k + 1;
    }
    let ghost had = spans@;
    if pos < end - start {
        let origin = match (prev, before) {
            (Some(p), Some(b)) => origin_between(segs, p + 1, b),
            _ => SpanOrigin::Unmapped,
        };
        spans.push(RenderedSpan { range: start + pos..end, origin });
        assert(spans@ =~= had + seq![spans@.last()]);
    } else {
        assert(spans@ =~= had + seq![]);
    }
}

/// What a pass finds lies in the gap, in order.
proof fn lemma_pass_in_gap(
    t: Seq<u8>,
    segs: Seq<Segment>,
    inner: Seq<EffLit>,
    g: Seq<u8>,
    k: int,
    cur: int,
)
    requires
        literals_fit(t, segs, inner),
        0 <= cur <= g.len() <= usize::MAX,
        0 <= k,
    ensures
        matches_in(t, inner, g, pass(t, inner, g, k, cur).0, cur, pass(t, inner, g, k, cur).1),
    decreases inner.len() - k,
{
    if k < inner.len() {
        let n = needle(t, inner[k]);
        lemma_find_from(g, n, cur);
        match find_from(g, n, cur) {
            Some(at) => {
                lemma_pass_in_gap(t, segs, inner, g, k + 1, at + n.len());
                let rest = pass(t, inner, g, k + 1, at + n.len());
                let all = pass(t, inner, g, k, cur).0;
                assert(all.drop_first() =~= rest.0);
                assert(inner.contains(all[0].lit));
            },
            None => {
                lemma_pass_in_gap(t, segs, inner, g, k + 1, cur);
            },
        }
    }
}

/// Matches in the gap `g` from `cur` to `end`, in order, each one of the literals and equal
/// to the text it is matched with.
pub open spec fn matches_in(
    t: Seq<u8>,
    inner: Seq<EffLit>,
    g: Seq<u8>,
    ms: Seq<Match>,
    cur: int,
    end: int,
) -> bool
    decreases ms.len(),
{
    if ms.len() == 0 {
        cur <= end <= g.len()
    } else {
        &&& cur <= ms[0].start <= ms[0].end <= g.len()
        &&& inner.contains(ms[0].lit)
        &&& g.subrange(ms[0].start as int, ms[0].end as int) == needle(t, ms[0].lit)
        &&& matches_in(t, inner, g, ms.drop_first(), ms[0].end as int, end)
    }
}

proof fn lemma_matches_concat(
    t: Seq<u8>,
    inner: Seq<EffLit>,
    g: Seq<u8>,
    a: Seq<Match>,
    b: Seq<Match>,
    s: int,
    m: int,
    e: int,
)
    requires
        matches_in(t, inner, g, a, s, m),
        matches_in(t, inner, g, b, m, e),
    ensures
        matches_in(t, inner, g, a + b, s, e),
    decreases a.len(),
{
    if a.len() == 0 {
        assert(a + b =~= b);
        lemma_matches_start(t, inner, g, b, s, m, e);
    } else {
        assert((a + b).drop_first() =~= a.drop_first() + b);
        lemma_matches_concat(t, inner, g, a.drop_first(), b, a[0].end as int, m, e);
    }
}

proof fn lemma_matches_start(
    t: Seq<u8>,
    inner: Seq<EffLit>,
    g: Seq<u8>,
    b: Seq<Match>,
    s: int,
    m: int,
    e: int,
)
    requires
        s <= m,
        matches_in(t, inner, g, b, m, e),
    ensures
        matches_in(t, inner, g, b, s, e),
{
}

proof fn lemma_matches_index(
    t: Seq<u8>,
    inner: Seq<EffLit>,
    g: Seq<u8>,
    ms: Seq<Match>,
    cur: int,
    end: int,
    k: int,
)
    requires
        matches_in(t, inner, g, ms, cur, end),
        0 <= k < ms.len(),
    ensures
        cur <= ms[k].start <= ms[k].end <= g.len(),
        inner.contains(ms[k].lit),
        g.subrange(ms[k].start as int, ms[k].end as int) == needle(t, ms[k].lit),
    decreases k,
{
    if k > 0 {
        lemma_matches_index(t, inner, g, ms.drop_first(), ms[0].end as int, end, k - 1);
    }
}

/// What all passes find lies in the gap, in order.
proof fn lemma_passes_in_gap(
    t: Seq<u8>,
    segs: Seq<Segment>,
    inner: Seq<EffLit>,
    g: Seq<u8>,
    local: Seq<Match>,
    cur: int,
    again: bool,
)
    requires
        literals_fit(t, segs, inner),
        0 <= cur <= g.len() <= usize::MAX,
        matches_in(t, inner, g, local, 0, cur),
    ensures
        exists|end: int|
            #[trigger] matches_in(
                t,
                inner,
                g,
                passes(t, inner, g, local, cur, again).0,
                0,
                end,
            ),
    decreases g.len() - cur,
{
    lemma_pass_in_gap(t, segs, inner, g, 0, cur);
    let (found, next) = pass(t, inner, g, 0, cur);
    lemma_matches_concat(t, inner, g, local, found, 0, cur, next);
    let all = local + found;
    assert(matches_in(t, inner, g, all, 0, next));
    if found.len() == 0 || next >= g.len() {
        assert(passes(t, inner, g, local, cur, again).0 == all);
    } else {
        let more = again || all.len() > inner.len();
        if next <= cur || !any_in_range(inner) {
            assert(passes(t, inner, g, local, cur, again).0 == all);
        } else {
            lemma_matches_end(t, inner, g, all, 0, next);
            lemma_passes_in_gap(t, segs, inner, g, all, next, more);
        }
    }
}

proof fn lemma_matches_end(
    t: Seq<u8>,
    inner: Seq<EffLit>,
    g: Seq<u8>,
    ms: Seq<Match>,
    cur: int,
    end: int,
)
    requires
        matches_in(t, inner, g, ms, cur, end),
    ensures
        cur <= end <= g.len(),
    decreases ms.len(),
{
    if ms.len() > 0 {
        lemma_matches_end(t, inner, g, ms.drop_first(), ms[0].end as int, end);
    }
}

/// Attributes one gap between two anchored literals, or between one and an end of the text.
fn fill_gap(
    t: &[u8],
    segs: &[Segment],
    lits: &Vec<EffLit>,
    after: Option<usize>,
    before: Option<usize>,
    start: usize,
    end: usize,
    rendered: &[u8],
    spans: &mut Vec<RenderedSpan>,
)
    requires
        literals_fit(t@, segs@, lits@),
        after matches Some(a) ==> a < segs@.len(),
        before matches Some(b) ==> b <= segs@.len(),
        start <= end <= rendered@.len(),
    ensures
        final(spans)@ == old(spans)@ + gap_spans(
            t@,
            segs@,
            lits@,
            after,
            before,
            (start as int, end as int),
            rendered@,
        ),
{
    let slen: usize = segs.len();
    let first: usize = match after {
        Some(a) => a + 1,
        None => 0,
    };
    let last: usize = match before {
        Some(b) => b,
        None => slen,
    };
    let (_, controls, _) = gap_profile(segs, first, last);
    if controls == 0 {
        let ghost had = spans@;
        let origin = origin_between(segs, first, last);
        spans.push(RenderedSpan { range: start..end, origin });
        assert(spans@ =~= had + seq![spans@.last()]);
        return;
    }
    let inner = inner_of(lits, first, last);
    proof {
        lemma_inner_fits(t@, segs@, lits@, first as int, last as int);
    }
    let g = &rendered[start..end];
    let glen: usize = g.len();
    let (local, again) = match_passes(t, &inner, g, Ghost(segs@));
    let repeated = again || (inner.len() > 0 && local.len() / inner.len() > 1);
    proof {
        lemma_passes_in_gap(t@, segs@, inner@, g@, seq![], 0, false);
        let e = choose|e: int| #[trigger] matches_in(t@, inner@, g@, local@, 0, e);
        assert forall|k: int| 0 <= k < local@.len() implies (#[trigger] local@[k]).start
            <= local@[k].end && local@[k].end <= end - start && local@[k].lit.segment
            < segs@.len() by {
            lemma_matches_index(t@, inner@, g@, local@, 0, e, k);
            let j = choose|j: int| 0 <= j < inner@.len() && inner@[j] == local@[k].lit;
            assert(literal_fits(t@, segs@, inner@[j]));
        }
    }
    emit_matches(segs, &local, after, before, start, end, repeated, spans);
}

// ---------------------------------------------------------------------------
// Anchoring the outer literals

/// The literals outside all control blocks.
pub open spec fn outer_literals(lits: Seq<EffLit>) -> Seq<EffLit>
    decreases lits.len(),
{
    if lits.len() == 0 {
        seq![]
    } else {
        let front = outer_literals(lits.drop_last());
        if lits.last().depth == 0 {
            front.push(lits.last())
        } else {
            front
        }
    }
}

pub open spec fn starts_literal(segs: Seq<Segment>) -> bool {
    segs.len() > 0 && segs[0].kind == SegmentKind::Literal
}

pub open spec fn ends_literal(segs: Seq<Segment>) -> bool {
    segs.len() > 0 && segs.last().kind == SegmentKind::Literal
}

/// Where the `k`-th outer literal stands, the ones before it reaching up to `cursor`. A
/// literal that starts the template must start the output, one that ends it must end the
/// output; any other is anchored at its first occurrence.
pub open spec fn place_of(
    t: Seq<u8>,
    segs: Seq<Segment>,
    outer: Seq<EffLit>,
    rendered: Seq<u8>,
    k: int,
    cursor: int,
) -> Option<int> {
    let n = needle(t, outer[k]);
    if k == 0 && starts_literal(segs) && outer[k].segment == 0 {
        if occurs_at(rendered, n, 0) {
            Some(0)
        } else {
            None
        }
    } else if k == outer.len() - 1 && ends_literal(segs) && outer[k].segment == segs.len() - 1 {
        let s = rendered.len() - n.len();
        if s >= cursor && occurs_at(rendered, n, s) {
            Some(s)
        } else {
            None
        }
    } else {
        find_from(rendered, n, cursor)
    }
}

/// The places of the outer literals from the `k`-th on, up to the first that has none.
pub open spec fn places(
    t: Seq<u8>,
    segs: Seq<Segment>,
    outer: Seq<EffLit>,
    rendered: Seq<u8>,
    k: int,
    cursor: int,
) -> Seq<int>
    decreases outer.len() - k,
{
    if k < 0 || k >= outer.len() {
        seq![]
    } else {
        match place_of(t, segs, outer, rendered, k, cursor) {
            Some(at) => seq![at] + places(
                t,
                segs,
                outer,
                rendered,
                k + 1,
                at + needle(t, outer[k]).len(),
            ),
            None => seq![],
        }
    }
}

pub open spec fn segment_before(outer: Seq<EffLit>, i: int) -> Option<usize> {
    if i <= 0 {
        None
    } else {
        Some(outer[i - 1].segment)
    }
}

/// The spans from the `i`-th anchored literal on, the output being covered up to `pos`.
/// Where a literal could not be anchored, all that is left of the output is unknown.
pub open spec fn anchored_spans(
    t: Seq<u8>,
    segs: Seq<Segment>,
    lits: Seq<EffLit>,
    ats: Seq<int>,
    rendered: Seq<u8>,
    i: int,
    pos: int,
) -> Seq<RenderedSpan>
    decreases ats.len() - i,
{
    let outer = outer_literals(lits);
    if i < 0 || i >= ats.len() {
        if ats.len() < outer.len() {
            seq![span(pos, rendered.len() as int, SpanOrigin::Unmapped)]
        } else if pos < rendered.len() {
            gap_spans(
                t,
                segs,
                lits,
                segment_before(outer, i),
                None,
                (pos, rendered.len() as int),
                rendered,
            )
        } else {
            seq![]
        }
    } else {
        let l = outer[i];
        let end = ats[i] + needle(t, l).len();
        let gap = if ats[i] > pos {
            gap_spans(
                t,
                segs,
                lits,
                segment_before(outer, i),
                Some(l.segment),
                (pos, ats[i]),
                rendered,
            )
        } else {
            seq![]
        };
        gap.push(literal_span(ats[i], end, l, false)) + anchored_spans(
            t,
            segs,
            lits,
            ats,
            rendered,
            i + 1,
            end,
        )
    }
}

/// The spans of the rendered text.
pub open spec fn spans_of(t: Seq<u8>, segs: Seq<Segment>, rendered: Seq<u8>) -> Seq<RenderedSpan> {
    let lits = effective(t, segs, segs.len() as int);
    let ats = places(t, segs, outer_literals(lits), rendered, 0, 0);
    anchored_spans(t, segs, lits, ats, rendered, 0, 0)
}

fn outer_of(lits: &Vec<EffLit>) -> (out: Vec<EffLit>)
    ensures
        out@ == outer_literals(lits@),
{
    let mut out: Vec<EffLit> = Vec::new();
    let mut i: usize = 0;
    while i < lits.len()
        invariant
            i <= lits@.len(),
            out@ == outer_literals(lits@.take(i as int)),
        decreases lits@.len() - i,
    {
        proof {
            assert(lits@.take(i + 1).drop_last() =~= lits@.take(i as int));
        }
        if lits[i].depth == 0 {
            out.push(lits[i].clone());
        }
        i = i + 1;
    }
    assert(lits@.take(i as int) =~= lits@);
    out
}

proof fn lemma_outer_fits(t: Seq<u8>, segs: Seq<Segment>, lits: Seq<EffLit>)
    requires
        literals_fit(t, segs, lits),
    ensures
        literals_fit(t, segs, outer_literals(lits)),
    decreases lits.len(),
{
    if lits.len() > 0 {
        let front = lits.drop_last();
        assert forall|k: int| 0 <= k < front.len() implies literal_fits(
            t,
            segs,
            #[trigger] front[k],
        ) by {
            assert(front[k] == lits[k]);
        }
        lemma_outer_fits(t, segs, front);
        assert(lits.last() == lits[lits.len() - 1]);
    }
}

fn is_literal(kind: &SegmentKind) -> (r: bool)
    ensures
        r == (*kind == SegmentKind::Literal),
{
    match kind {
        SegmentKind::Literal => true,
        _ => false,
    }
}

proof fn lemma_place(
    t: Seq<u8>,
    segs: Seq<Segment>,
    outer: Seq<EffLit>,
    rendered: Seq<u8>,
    k: int,
    cursor: int,
)
    requires
        literals_fit(t, segs, outer),
        0 <= k < outer.len(),
        0 <= cursor,
        k == 0 ==> cursor == 0,
    ensures
        place_of(t, segs, outer, rendered, k, cursor) matches Some(at) ==> cursor <= at
            && occurs_at(rendered, needle(t, outer[k]), at),
{
    lemma_find_from(rendered, needle(t, outer[k]), cursor);
}

/// Finds the places of the outer literals, up to the first that has none.
fn place_literals(t: &[u8], segs: &[Segment], outer: &Vec<EffLit>, rendered: &[u8]) -> (out: Vec<
    usize,
>)
    requires
        literals_fit(t@, segs@, outer@),
    ensures
        out@.map_values(|p: usize| p as int) == places(t@, segs@, outer@, rendered@, 0, 0),
        out@.len() <= outer@.len(),
{
    let rlen: usize = rendered.len();
    let slen: usize = segs.len();
    let starts = slen > 0 && is_literal(&segs[0].kind);
    let ends = slen > 0 && is_literal(&segs[slen - 1].kind);
    let mut out: Vec<usize> = Vec::new();
    let mut cursor: usize = 0;
    let mut k: usize = 0;
    proof {
        let all = places(t@, segs@, outer@, rendered@, 0, 0);
        assert(out@.map_values(|p: usize| p as int) + all =~= all);
    }
    while k < outer.len()
        invariant
            literals_fit(t@, segs@, outer@),
            rlen == rendered@.len(),
            slen == segs@.len(),
            starts == starts_literal(segs@),
            ends == ends_literal(segs@),
            k <= outer@.len(),
            out@.len() == k,
            cursor <= rlen,
            k == 0 ==> cursor == 0,
            out@.map_values(|p: usize| p as int) + places(
                t@,
                segs@,
                outer@,
                rendered@,
                k as int,
                cursor as int,
            ) == places(t@, segs@, outer@, rendered@, 0, 0),
        decreases outer@.len() - k,
    {
        let l = &outer[k];
        let n = &t[l.src.start..l.src.end];
        let nlen: usize = n.len();
        proof {
            assert(n@ == needle(t@, outer@[k as int]));
            lemma_place(t@, segs@, outer@, rendered@, k as int, cursor as int);
        }
        let at = if k == 0 && starts && l.segment == 0 {
            if occurs(rendered, n, 0) {
                Some(0usize)
            } else {
                None
            }
        } else if k == outer.len() - 1 && ends && l.segment == slen - 1 {
            if nlen <= rlen && rlen - nlen >= cursor && occurs(rendered, n, rlen - nlen) {
                Some(rlen - nlen)
            } else {
                None
            }
        } else {
            find_bytes(rendered, n, cursor)
        };
        match at {
            Some(p) => {
                let ghost had = out@;
                assert(place_of(t@, segs@, outer@, rendered@, k as int, cursor as int) == Some(
                    p as int,
                ));
                out.push(p);
                cursor = p + nlen;
                proof {
                    let rest = places(t@, segs@, outer@, rendered@, k + 1, cursor as int);
                    let f = |p: usize| p as int;
                    assert(out@.map_values(f) + rest =~= had.map_values(f) + (seq![p as int]
                        + rest));
                }
            },
            None => {
                assert(out@.map_values(|p: usize| p as int) + Seq::<int>::empty()
                    =~= out@.map_values(|p: usize| p as int));
                return out;
            },
        }
        k = k + 1;
    }
    assert(out@.map_values(|p: usize| p as int) + Seq::<int>::empty() =~= out@.map_values(
        |p: usize| p as int,
    ));
    out
}

/// The places in order: each literal stands at its place, behind the ones before it.
pub open spec fn placed(
    t: Seq<u8>,
    outer: Seq<EffLit>,
    rendered: Seq<u8>,
    ats: Seq<int>,
    i: int,
    pos: int,
) -> bool
    decreases ats.len() - i,
{
    if i < 0 || i >= ats.len() {
        0 <= pos <= rendered.len()
    } else {
        &&& 0 <= pos <= ats[i]
        &&& i < outer.len()
        &&& occurs_at(rendered, needle(t, outer[i]), ats[i])
        &&& placed(t, outer, rendered, ats, i + 1, ats[i] + needle(t, outer[i]).len())
    }
}

proof fn lemma_places_placed(
    t: Seq<u8>,
    segs: Seq<Segment>,
    outer: Seq<EffLit>,
    rendered: Seq<u8>,
    ats: Seq<int>,
    k: int,
    cursor: int,
)
    requires
        literals_fit(t, segs, outer),
        0 <= k <= ats.len(),
        0 <= cursor <= rendered.len(),
        k == 0 ==> cursor == 0,
        ats.skip(k) == places(t, segs, outer, rendered, k, cursor),
    ensures
        placed(t, outer, rendered, ats, k, cursor),
        ats.len() <= outer.len() || k >= outer.len(),
    decreases outer.len() - k,
{
    if k < outer.len() {
        lemma_place(t, segs, outer, rendered, k, cursor);
        match place_of(t, segs, outer, rendered, k, cursor) {
            Some(at) => {
                let rest = places(
                    t,
                    segs,
                    outer,
                    rendered,
                    k + 1,
                    at + needle(t, outer[k]).len(),
                );
                assert(ats.skip(k)[0] == at);
                assert(ats.skip(k + 1) =~= ats.skip(k).drop_first());
                assert(ats.skip(k).drop_first() =~= rest);
                lemma_places_placed(
                    t,
                    segs,
                    outer,
                    rendered,
                    ats,
                    k + 1,
                    at + needle(t, outer[k]).len(),
                );
            },
            None => {
                assert(ats.skip(k).len() == 0);
            },
        }
    } else {
        assert(ats.skip(k).len() == 0);
    }
}

/// Maps rendered output to the template that it was rendered from: which stretch comes from
/// which literal text, which from a single action, and which cannot be told. `segments` are
/// the template's.
pub fn anchor(template: &str, segments: &[Segment], rendered: &str) -> (r: SpanMap)
    requires
        segments_fit(template.spec_bytes(), segments@),
    ensures
        r.spans@ == spans_of(template.spec_bytes(), segments@, rendered.spec_bytes()),
{
    let t = template.as_bytes();
    let out = rendered.as_bytes();
    let tlen: usize = t.len();
    let rlen: usize = out.len();
    let slen: usize = segments.len();
    let lits = effective_literals(t, segments);
    let outer = outer_of(&lits);
    proof {
        lemma_effective_fits(t@, segments@, segments@.len() as int);
        lemma_outer_fits(t@, segments@, lits@);
    }
    let ats = place_literals(t, segments, &outer, out);
    let ghost places_of = ats@.map_values(|p: usize| p as int);
    proof {
        assert(places_of.skip(0) =~= places_of);
        lemma_places_placed(t@, segments@, outer@, out@, places_of, 0, 0);
    }
    let mut spans: Vec<RenderedSpan> = Vec::new();
    let mut pos: usize = 0;
    let mut i: usize = 0;
    let ghost whole = anchored_spans(t@, segments@, lits@, places_of, out@, 0, 0);
    assert(spans@ + whole =~= whole);
    while i < ats.len()
        invariant
            tlen == t@.len(),
            rlen == out@.len(),
            slen == segments@.len(),
            literals_fit(t@, segments@, lits@),
            literals_fit(t@, segments@, outer@),
            outer@ == outer_literals(lits@),
            places_of == ats@.map_values(|p: usize| p as int),
            i <= ats@.len() <= outer@.len(),
            placed(t@, outer@, out@, places_of, i as int, pos as int),
            spans@ + anchored_spans(
                t@,
                segments@,
                lits@,
                places_of,
                out@,
                i as int,
                pos as int,
            ) == whole,
        decreases ats@.len() - i,
    {
        let l = &outer[i];
        let at: usize = ats[i];
        assert(places_of[i as int] == at);
        let nlen: usize = l.src.end - l.src.start;
        let ghost n = needle(t@, outer@[i as int]);
        let ghost had = spans@;
        let ghost rest = anchored_spans(
            t@,
            segments@,
            lits@,
            places_of,
            out@,
            i + 1,
            at + nlen,
        );
        if at > pos {
            let prev = if i == 0 {
                None
            } else {
                Some(outer[i - 1].segment)
            };
            fill_gap(t, segments, &lits, prev, Some(l.segment), pos, at, out, &mut spans);
        }
        let ghost gap = spans@.skip(had.len() as int);
        assert(spans@ =~= had + gap);
        spans.push(
            RenderedSpan {
                range: at..at + nlen,
                origin: SpanOrigin::Literal {
                    segment: l.segment,
                    src: l.src.start..l.src.end,
                    repeated: false,
                },
            },
        );
        proof {
            let lit = spans@.last();
            if at > pos {
                assert(gap =~= gap_spans(
                    t@,
                    segments@,
                    lits@,
                    segment_before(outer@, i as int),
                    Some(l.segment),
                    (pos as int, at as int),
                    out@,
                ));
            } else {
                assert(gap =~= seq![]);
            }
            assert(had + (gap.push(lit) + rest) =~= spans@ + rest);
        }
        pos = at + nlen;
        i = i + 1;
    }
    let ghost had = spans@;
    if ats.len() < outer.len() {
        spans.push(RenderedSpan { range: pos..rlen, origin: SpanOrigin::Unmapped });
        assert(spans@ =~= had + seq![spans@.last()]);
    } else if pos < rlen {
        let prev = if i == 0 {
            None
        } else {
            Some(outer[i - 1].segment)
        };
        fill_gap(t, segments, &lits, prev, None, pos, rlen, out, &mut spans);
    } else {
        assert(spans@ =~= had + seq![]);
    }
    SpanMap { spans }
}

// ---------------------------------------------------------------------------
// Laws

/// The spans follow each other without gap or overlap from `s` to `e`.
pub open spec fn spans_tile(spans: Seq<RenderedSpan>, s: int, e: int) -> bool
    decreases spans.len(),
{
    if spans.len() == 0 {
        s == e
    } else {
        &&& spans[0].range.start == s
        &&& s <= spans[0].range.end
        &&& spans_tile(spans.drop_first(), spans[0].range.end as int, e)
    }
}

/// What a span says of its stretch of the output holds: a literal stretch equals the template
/// bytes it names, which are literal text of that segment, and outside every `range` block
/// unless marked as repeated; an action stretch names a value action.
pub open spec fn faithful(t: Seq<u8>, segs: Seq<Segment>, r: Seq<u8>, sp: RenderedSpan) -> bool {
    &&& sp.range.start <= sp.range.end <= r.len()
    &&& match sp.origin {
        SpanOrigin::Literal { segment, src, repeated } => {
            &&& segment < segs.len()
            &&& segs[segment as int].kind == SegmentKind::Literal
            &&& segs[segment as int].src.start <= src.start < src.end
                <= segs[segment as int].src.end
            &&& src.end <= t.len()
            &&& src.end == segs[segment as int].src.end || ascii_ws(t[src.end as int])
            &&& r.subrange(sp.range.start as int, sp.range.end as int) == t.subrange(
                src.start as int,
                src.end as int,
            )
            &&& !repeated ==> segs[segment as int].depth == 0 || !open_blocks(
                t,
                segs,
                segment as int,
            ).contains(true)
        },
        SpanOrigin::Action { segment } => segment < segs.len()
            && segs[segment as int].kind matches SegmentKind::Action {
            class: ActionClass::Value,
            ..
        },
        SpanOrigin::Unmapped => true,
    }
}

pub open spec fn all_faithful(
    t: Seq<u8>,
    segs: Seq<Segment>,
    r: Seq<u8>,
    spans: Seq<RenderedSpan>,
) -> bool {
    forall|k: int| 0 <= k < spans.len() ==> faithful(t, segs, r, #[trigger] spans[k])
}

proof fn lemma_spans_concat(a: Seq<RenderedSpan>, b: Seq<RenderedSpan>, s: int, m: int, e: int)
    requires
        spans_tile(a, s, m),
        spans_tile(b, m, e),
    ensures
        spans_tile(a + b, s, e),
    decreases a.len(),
{
    if a.len() == 0 {
        assert(a + b =~= b);
    } else {
        assert((a + b).drop_first() =~= a.drop_first() + b);
        lemma_spans_concat(a.drop_first(), b, a[0].range.end as int, m, e);
    }
}

proof fn lemma_one_span(x: RenderedSpan)
    requires
        x.range.start <= x.range.end,
    ensures
        spans_tile(seq![x], x.range.start as int, x.range.end as int),
{
    assert(seq![x].drop_first() =~= seq![]);
    reveal_with_fuel(spans_tile, 2);
}

proof fn lemma_profile_value(segs: Seq<Segment>, s: int, e: int)
    requires
        0 <= s,
        e <= segs.len(),
    ensures
        profile(segs, s, e).values >= 0,
        profile(segs, s, e).values > 0 ==> {
            let v = profile(segs, s, e).last_value;
            &&& s <= v < e
            &&& segs[v].kind matches SegmentKind::Action { class: ActionClass::Value, .. }
        },
    decreases e - s,
{
    if s < e {
        lemma_profile_value(segs, s, e - 1);
    }
}

proof fn lemma_between_faithful(
    t: Seq<u8>,
    segs: Seq<Segment>,
    r: Seq<u8>,
    s: int,
    e: int,
    from: int,
    to: int,
)
    requires
        0 <= s,
        e <= segs.len() <= usize::MAX,
        0 <= from <= to <= r.len() <= usize::MAX,
    ensures
        faithful(t, segs, r, span(from, to, between(segs, s, e))),
{
    lemma_profile_value(segs, s, e);
}

proof fn lemma_matched_law(
    t: Seq<u8>,
    segs: Seq<Segment>,
    inner: Seq<EffLit>,
    rendered: Seq<u8>,
    local: Seq<Match>,
    k: int,
    pos: int,
    end: int,
    prev: Option<usize>,
    before: Option<usize>,
    gap: (int, int),
    repeated: bool,
)
    requires
        literals_fit(t, segs, inner),
        0 <= gap.0 <= gap.1 <= rendered.len() <= usize::MAX,
        segs.len() <= usize::MAX,
        prev matches Some(p) ==> p < segs.len(),
        before matches Some(b) ==> b <= segs.len(),
        0 <= k <= local.len(),
        0 <= pos <= gap.1 - gap.0,
        matches_in(t, inner, rendered.subrange(gap.0, gap.1), local.skip(k), pos, end),
    ensures
        spans_tile(
            matched_spans(segs, local, k, pos, prev, before, gap, repeated),
            gap.0 + pos,
            gap.1,
        ),
        all_faithful(
            t,
            segs,
            rendered,
            matched_spans(segs, local, k, pos, prev, before, gap, repeated),
        ),
    decreases local.len() - k,
{
    let g = rendered.subrange(gap.0, gap.1);
    if k >= local.len() {
        if pos < gap.1 - gap.0 {
            if let (Some(p), Some(b)) = (prev, before) {
                lemma_between_faithful(t, segs, rendered, p + 1, b as int, gap.0 + pos, gap.1);
            }
            let origin = match (prev, before) {
                (Some(p), Some(b)) => between(segs, p + 1, b as int),
                _ => SpanOrigin::Unmapped,
            };
            lemma_one_span(span(gap.0 + pos, gap.1, origin));
        }
    } else {
        let m = local[k];
        assert(local.skip(k)[0] == m);
        assert(local.skip(k).drop_first() =~= local.skip(k + 1));
        assert(matches_in(t, inner, g, local.skip(k + 1), m.end as int, end));
        let j = choose|j: int| 0 <= j < inner.len() && inner[j] == m.lit;
        assert(literal_fits(t, segs, inner[j]));
        lemma_matched_law(
            t,
            segs,
            inner,
            rendered,
            local,
            k + 1,
            m.end as int,
            end,
            Some(m.lit.segment),
            before,
            gap,
            repeated,
        );
        let rest = matched_spans(
            segs,
            local,
            k + 1,
            m.end as int,
            Some(m.lit.segment),
            before,
            gap,
            repeated,
        );
        let lit = literal_span(
            gap.0 + m.start,
            gap.0 + m.end,
            m.lit,
            repeated || m.lit.in_range_block,
        );
        assert(rendered.subrange(gap.0 + m.start, gap.0 + m.end) =~= g.subrange(
            m.start as int,
            m.end as int,
        ));
        assert(faithful(t, segs, rendered, lit));
        lemma_one_span(lit);
        lemma_spans_concat(seq![lit], rest, gap.0 + m.start, gap.0 + m.end, gap.1);
        let tail = seq![lit] + rest;
        if m.start > pos {
            let origin = match prev {
                Some(p) => between(segs, p + 1, m.lit.segment as int),
                None => SpanOrigin::Unmapped,
            };
            if let Some(p) = prev {
                lemma_between_faithful(
                    t,
                    segs,
                    rendered,
                    p + 1,
                    m.lit.segment as int,
                    gap.0 + pos,
                    gap.0 + m.start,
                );
            }
            let hole = span(gap.0 + pos, gap.0 + m.start, origin);
            lemma_one_span(hole);
            lemma_spans_concat(seq![hole], tail, gap.0 + pos, gap.0 + m.start, gap.1);
            assert(seq![hole] + tail =~= seq![hole].push(lit) + rest);
        } else {
            assert(tail =~= Seq::<RenderedSpan>::empty().push(lit) + rest);
        }
    }
}

proof fn lemma_gap_law(
    t: Seq<u8>,
    segs: Seq<Segment>,
    lits: Seq<EffLit>,
    after: Option<usize>,
    before: Option<usize>,
    gap: (int, int),
    rendered: Seq<u8>,
)
    requires
        literals_fit(t, segs, lits),
        segs.len() <= usize::MAX,
        after matches Some(a) ==> a < segs.len(),
        before matches Some(b) ==> b <= segs.len(),
        0 <= gap.0 <= gap.1 <= rendered.len() <= usize::MAX,
    ensures
        spans_tile(gap_spans(t, segs, lits, after, before, gap, rendered), gap.0, gap.1),
        all_faithful(
            t,
            segs,
            rendered,
            gap_spans(t, segs, lits, after, before, gap, rendered),
        ),
{
    let s = seg_after(after);
    let e = seg_before(segs, before);
    if profile(segs, s, e).controls == 0 {
        lemma_between_faithful(t, segs, rendered, s, e, gap.0, gap.1);
        lemma_one_span(span(gap.0, gap.1, between(segs, s, e)));
    } else {
        let inner = inner_literals(lits, s, e);
        let g = rendered.subrange(gap.0, gap.1);
        lemma_inner_fits(t, segs, lits, s, e);
        lemma_passes_in_gap(t, segs, inner, g, seq![], 0, false);
        let m = passes(t, inner, g, seq![], 0, false);
        let end = choose|end: int| #[trigger] matches_in(t, inner, g, m.0, 0, end);
        assert(m.0.skip(0) =~= m.0);
        lemma_matched_law(
            t,
            segs,
            inner,
            rendered,
            m.0,
            0,
            0,
            end,
            after,
            before,
            gap,
            is_repeated(inner, m),
        );
    }
}

proof fn lemma_anchored_law(
    t: Seq<u8>,
    segs: Seq<Segment>,
    lits: Seq<EffLit>,
    ats: Seq<int>,
    rendered: Seq<u8>,
    i: int,
    pos: int,
)
    requires
        literals_fit(t, segs, lits),
        literals_fit(t, segs, outer_literals(lits)),
        segs.len() <= usize::MAX,
        rendered.len() <= usize::MAX,
        0 <= i <= ats.len() <= outer_literals(lits).len(),
        placed(t, outer_literals(lits), rendered, ats, i, pos),
    ensures
        spans_tile(
            anchored_spans(t, segs, lits, ats, rendered, i, pos),
            pos,
            rendered.len() as int,
        ),
        all_faithful(t, segs, rendered, anchored_spans(t, segs, lits, ats, rendered, i, pos)),
    decreases ats.len() - i,
{
    let outer = outer_literals(lits);
    if i > 0 {
        assert(literal_fits(t, segs, outer[i - 1]));
    }
    if i >= ats.len() {
        if ats.len() < outer.len() {
            lemma_one_span(span(pos, rendered.len() as int, SpanOrigin::Unmapped));
        } else if pos < rendered.len() {
            lemma_gap_law(
                t,
                segs,
                lits,
                segment_before(outer, i),
                None,
                (pos, rendered.len() as int),
                rendered,
            );
        }
    } else {
        let l = outer[i];
        assert(literal_fits(t, segs, l));
        let end = ats[i] + needle(t, l).len();
        lemma_outer_depth(lits, i);
        lemma_anchored_law(t, segs, lits, ats, rendered, i + 1, end);
        let rest = anchored_spans(t, segs, lits, ats, rendered, i + 1, end);
        let lit = literal_span(ats[i], end, l, false);
        assert(faithful(t, segs, rendered, lit));
        lemma_one_span(lit);
        lemma_spans_concat(seq![lit], rest, ats[i], end, rendered.len() as int);
        let tail = seq![lit] + rest;
        if ats[i] > pos {
            lemma_gap_law(
                t,
                segs,
                lits,
                segment_before(outer, i),
                Some(l.segment),
                (pos, ats[i]),
                rendered,
            );
            let gap = gap_spans(
                t,
                segs,
                lits,
                segment_before(outer, i),
                Some(l.segment),
                (pos, ats[i]),
                rendered,
            );
            lemma_spans_concat(gap, tail, pos, ats[i], rendered.len() as int);
            assert(gap + tail =~= gap.push(lit) + rest);
        } else {
            assert(tail =~= Seq::<RenderedSpan>::empty().push(lit) + rest);
        }
    }
}

proof fn lemma_outer_depth(lits: Seq<EffLit>, i: int)
    requires
        0 <= i < outer_literals(lits).len(),
    ensures
        outer_literals(lits)[i].depth == 0,
    decreases lits.len(),
{
    if lits.len() > 0 {
        let front = outer_literals(lits.drop_last());
        if i < front.len() {
            lemma_outer_depth(lits.drop_last(), i);
        }
    }
}

/// The spans, put end to end, are the rendered output, and what each of them says holds: in
/// particular a literal stretch is byte for byte the template text that it names.
pub proof fn law_spans_tile_the_output(t: Seq<u8>, segs: Seq<Segment>, rendered: Seq<u8>)
    requires
        segments_fit(t, segs),
        t.len() <= usize::MAX,
        segs.len() <= usize::MAX,
        rendered.len() <= usize::MAX,
    ensures
        spans_tile(spans_of(t, segs, rendered), 0, rendered.len() as int),
        all_faithful(t, segs, rendered, spans_of(t, segs, rendered)),
{
    let lits = effective(t, segs, segs.len() as int);
    let outer = outer_literals(lits);
    lemma_effective_fits(t, segs, segs.len() as int);
    lemma_outer_fits(t, segs, lits);
    let ats = places(t, segs, outer, rendered, 0, 0);
    assert(ats.skip(0) =~= ats);
    lemma_places_placed(t, segs, outer, rendered, ats, 0, 0);
    lemma_anchored_law(t, segs, lits, ats, rendered, 0, 0);
}

proof fn lemma_open_is_depth(t: Seq<u8>, segs: Seq<Segment>, n: int)
    requires
        nested(segs, 0),
        0 <= n <= segs.len(),
    ensures
        nested(segs.skip(n), open_blocks(t, segs, n).len() as int),
    decreases n,
{
    if n == 0 {
        assert(segs.skip(0) =~= segs);
    } else {
        lemma_open_is_depth(t, segs, n - 1);
        assert(segs.skip(n - 1)[0] == segs[n - 1]);
        assert(segs.skip(n - 1).drop_first() =~= segs.skip(n));
    }
}

/// No stretch of output from inside a `range` block is free to edit: where a span names such
/// a literal, it is marked as repeated.
pub proof fn law_range_literals_are_repeated(
    t: Seq<u8>,
    segs: Seq<Segment>,
    rendered: Seq<u8>,
    k: int,
)
    requires
        segments_fit(t, segs),
        nested(segs, 0),
        t.len() <= usize::MAX,
        segs.len() <= usize::MAX,
        rendered.len() <= usize::MAX,
        0 <= k < spans_of(t, segs, rendered).len(),
    ensures
        spans_of(t, segs, rendered)[k].origin matches SpanOrigin::Literal {
            segment,
            repeated,
            ..
        } ==> (open_blocks(t, segs, segment as int).contains(true) ==> repeated),
{
    law_spans_tile_the_output(t, segs, rendered);
    let sp = spans_of(t, segs, rendered)[k];
    assert(faithful(t, segs, rendered, sp));
    if let SpanOrigin::Literal { segment, .. } = sp.origin {
        lemma_open_is_depth(t, segs, segment as int);
        assert(segs.skip(segment as int)[0] == segs[segment as int]);
    }
}

/// The literal spans name later and later segments, all of them behind `last` and up to `upto`.
pub open spec fn segments_ascend(spans: Seq<RenderedSpan>, last: int, upto: int) -> bool
    decreases spans.len(),
{
    if spans.len() == 0 {
        last <= upto
    } else {
        match spans[0].origin {
            SpanOrigin::Literal { segment, .. } => last < segment && segments_ascend(
                spans.drop_first(),
                segment as int,
                upto,
            ),
            _ => segments_ascend(spans.drop_first(), last, upto),
        }
    }
}

proof fn lemma_ascend_concat(
    a: Seq<RenderedSpan>,
    b: Seq<RenderedSpan>,
    last: int,
    mid: int,
    upto: int,
)
    requires
        segments_ascend(a, last, mid),
        segments_ascend(b, mid, upto),
    ensures
        segments_ascend(a + b, last, upto),
    decreases a.len(),
{
    if a.len() == 0 {
        assert(a + b =~= b);
        lemma_ascend_weaken(b, last, mid, upto);
    } else {
        assert((a + b).drop_first() =~= a.drop_first() + b);
        match a[0].origin {
            SpanOrigin::Literal { segment, .. } => {
                lemma_ascend_concat(a.drop_first(), b, segment as int, mid, upto);
            },
            _ => {
                lemma_ascend_concat(a.drop_first(), b, last, mid, upto);
            },
        }
    }
}

proof fn lemma_ascend_weaken(b: Seq<RenderedSpan>, last: int, mid: int, upto: int)
    requires
        last <= mid,
        segments_ascend(b, mid, upto),
    ensures
        segments_ascend(b, last, upto),
    decreases b.len(),
{
    if b.len() > 0 {
        match b[0].origin {
            SpanOrigin::Literal { .. } => {},
            _ => {
                lemma_ascend_weaken(b.drop_first(), last, mid, upto);
            },
        }
    }
}

proof fn lemma_ascend_one(x: RenderedSpan, last: int, upto: int)
    requires
        last <= upto,
        x.origin matches SpanOrigin::Literal { segment, .. } ==> last < segment <= upto,
    ensures
        segments_ascend(seq![x], last, upto),
{
    assert(seq![x].drop_first() =~= seq![]);
    reveal_with_fuel(segments_ascend, 2);
}

/// The literals stand in the order of their segments, behind `last` and before `end`.
pub open spec fn literals_ascend(lits: Seq<EffLit>, last: int, end: int) -> bool {
    &&& forall|k: int| 0 <= k < lits.len() ==> last < (#[trigger] lits[k]).segment < end
    &&& forall|j: int, k: int|
        #![trigger lits[j], lits[k]]
        0 <= j < k < lits.len() ==> lits[j].segment < lits[k].segment
}

proof fn lemma_effective_ascends(t: Seq<u8>, segs: Seq<Segment>, n: int)
    requires
        0 <= n <= segs.len() <= usize::MAX,
    ensures
        literals_ascend(effective(t, segs, n), -1, n),
    decreases n,
{
    if n > 0 {
        lemma_effective_ascends(t, segs, n - 1);
    }
}

proof fn lemma_filters_ascend(lits: Seq<EffLit>, last: int, end: int, s: int, e: int)
    requires
        literals_ascend(lits, last, end),
    ensures
        literals_ascend(outer_literals(lits), last, end),
        literals_ascend(inner_literals(lits, s, e), s - 1, e),
        literals_ascend(inner_literals(lits, s, e), last, end),
        forall|l: EffLit| outer_literals(lits).contains(l) ==> lits.contains(l),
        forall|l: EffLit| inner_literals(lits, s, e).contains(l) ==> lits.contains(l),
    decreases lits.len(),
{
    if lits.len() > 0 {
        let front = lits.drop_last();
        let l = lits.last();
        assert(l == lits[lits.len() - 1]);
        assert forall|k: int| 0 <= k < front.len() implies last < (#[trigger] front[k]).segment
            < l.segment by {
            assert(front[k] == lits[k]);
        }
        assert forall|j: int, k: int|
            #![trigger front[j], front[k]]
            0 <= j < k < front.len() implies front[j].segment < front[k].segment by {
            assert(front[j] == lits[j]);
            assert(front[k] == lits[k]);
        }
        lemma_filters_ascend(front, last, l.segment as int, s, e);
        assert forall|x: EffLit| front.contains(x) implies lits.contains(x) by {
            let k = choose|k: int| 0 <= k < front.len() && front[k] == x;
            assert(lits[k] == x);
        }
        let (fo, fi) = (outer_literals(front), inner_literals(front, s, e));
        let (o, i) = (outer_literals(lits), inner_literals(lits, s, e));
        assert forall|x: EffLit| o.contains(x) implies lits.contains(x) by {
            let k = choose|k: int| 0 <= k < o.len() && o[k] == x;
            if k < fo.len() {
                assert(fo[k] == x);
                assert(fo.contains(x));
            }
        }
        assert forall|x: EffLit| i.contains(x) implies lits.contains(x) by {
            let k = choose|k: int| 0 <= k < i.len() && i[k] == x;
            if k < fi.len() {
                assert(fi[k] == x);
                assert(fi.contains(x));
            }
        }
    }
}

/// The matches of one pass name later and later segments.
pub open spec fn matches_ascend(ms: Seq<Match>, last: int, end: int) -> bool
    decreases ms.len(),
{
    if ms.len() == 0 {
        true
    } else {
        last < ms[0].lit.segment < end && matches_ascend(
            ms.drop_first(),
            ms[0].lit.segment as int,
            end,
        )
    }
}

proof fn lemma_matches_weaken(ms: Seq<Match>, last: int, mid: int, end: int)
    requires
        last <= mid,
        matches_ascend(ms, mid, end),
    ensures
        matches_ascend(ms, last, end),
{
}

proof fn lemma_pass_ascends(
    t: Seq<u8>,
    inner: Seq<EffLit>,
    g: Seq<u8>,
    k: int,
    cur: int,
    last: int,
    end: int,
)
    requires
        0 <= k,
        literals_ascend(inner, last, end),
    ensures
        matches_ascend(
            pass(t, inner, g, k, cur).0,
            if 0 < k <= inner.len() {
                inner[k - 1].segment as int
            } else {
                last
            },
            end,
        ) || k > inner.len(),
    decreases inner.len() - k,
{
    if k < inner.len() {
        let n = needle(t, inner[k]);
        let from = if 0 < k {
            inner[k - 1].segment as int
        } else {
            last
        };
        match find_from(g, n, cur) {
            Some(at) => {
                lemma_pass_ascends(t, inner, g, k + 1, at + n.len(), last, end);
                let rest = pass(t, inner, g, k + 1, at + n.len());
                let all = pass(t, inner, g, k, cur).0;
                assert(all.drop_first() =~= rest.0);
            },
            None => {
                lemma_pass_ascends(t, inner, g, k + 1, cur, last, end);
                lemma_matches_weaken(
                    pass(t, inner, g, k + 1, cur).0,
                    from,
                    inner[k].segment as int,
                    end,
                );
            },
        }
    }
}

proof fn lemma_matched_ascend(
    segs: Seq<Segment>,
    local: Seq<Match>,
    k: int,
    pos: int,
    prev: Option<usize>,
    before: Option<usize>,
    gap: (int, int),
    repeated: bool,
    last: int,
    end: int,
)
    requires
        0 <= k <= local.len(),
        last < end,
        matches_ascend(local.skip(k), last, end),
    ensures
        segments_ascend(
            matched_spans(segs, local, k, pos, prev, before, gap, repeated),
            last,
            end - 1,
        ),
    decreases local.len() - k,
{
    if k >= local.len() {
        if pos < gap.1 - gap.0 {
            let x = matched_spans(segs, local, k, pos, prev, before, gap, repeated)[0];
            lemma_between_is_no_literal(segs, prev, before);
            lemma_ascend_one(x, last, end - 1);
            assert(matched_spans(segs, local, k, pos, prev, before, gap, repeated) =~= seq![x]);
        }
    } else {
        let m = local[k];
        assert(local.skip(k)[0] == m);
        assert(local.skip(k).drop_first() =~= local.skip(k + 1));
        lemma_matched_ascend(
            segs,
            local,
            k + 1,
            m.end as int,
            Some(m.lit.segment),
            before,
            gap,
            repeated,
            m.lit.segment as int,
            end,
        );
        let rest = matched_spans(
            segs,
            local,
            k + 1,
            m.end as int,
            Some(m.lit.segment),
            before,
            gap,
            repeated,
        );
        let lit = literal_span(
            gap.0 + m.start,
            gap.0 + m.end,
            m.lit,
            repeated || m.lit.in_range_block,
        );
        lemma_ascend_one(lit, last, m.lit.segment as int);
        lemma_ascend_concat(seq![lit], rest, last, m.lit.segment as int, end - 1);
        let tail = seq![lit] + rest;
        if m.start > pos {
            let origin = match prev {
                Some(p) => between(segs, p + 1, m.lit.segment as int),
                None => SpanOrigin::Unmapped,
            };
            let hole = span(gap.0 + pos, gap.0 + m.start, origin);
            lemma_ascend_one(hole, last, last);
            lemma_ascend_concat(seq![hole], tail, last, last, end - 1);
            assert(seq![hole] + tail =~= seq![hole].push(lit) + rest);
        } else {
            assert(tail =~= Seq::<RenderedSpan>::empty().push(lit) + rest);
        }
    }
}

proof fn lemma_between_is_no_literal(
    segs: Seq<Segment>,
    prev: Option<usize>,
    before: Option<usize>,
)
    ensures
        !((match (prev, before) {
            (Some(p), Some(b)) => between(segs, p + 1, b as int),
            _ => SpanOrigin::Unmapped,
        }) is Literal),
{
}

proof fn lemma_gap_ascends(
    t: Seq<u8>,
    segs: Seq<Segment>,
    lits: Seq<EffLit>,
    after: Option<usize>,
    before: Option<usize>,
    gap: (int, int),
    rendered: Seq<u8>,
)
    requires
        literals_ascend(lits, -1, segs.len() as int),
        !any_in_range(lits),
        seg_after(after) - 1 < seg_before(segs, before),
    ensures
        segments_ascend(
            gap_spans(t, segs, lits, after, before, gap, rendered),
            seg_after(after) - 1,
            seg_before(segs, before) - 1,
        ),
{
    let s = seg_after(after);
    let e = seg_before(segs, before);
    if profile(segs, s, e).controls == 0 {
        lemma_ascend_one(span(gap.0, gap.1, between(segs, s, e)), s - 1, e - 1);
    } else {
        let inner = inner_literals(lits, s, e);
        let g = rendered.subrange(gap.0, gap.1);
        lemma_filters_ascend(lits, -1, segs.len() as int, s, e);
        assert(!any_in_range(inner)) by {
            if any_in_range(inner) {
                let k = choose|k: int| 0 <= k < inner.len() && (#[trigger] inner[k]).in_range_block;
                assert(inner.contains(inner[k]));
                assert(lits.contains(inner[k]));
                let j = choose|j: int| 0 <= j < lits.len() && lits[j] == inner[k];
                assert(lits[j].in_range_block);
            }
        }
        let m = passes(t, inner, g, seq![], 0, false);
        lemma_pass_ascends(t, inner, g, 0, 0, s - 1, e);
        assert(m.0 =~= pass(t, inner, g, 0, 0).0);
        assert(m.0.skip(0) =~= m.0);
        lemma_matched_ascend(
            segs,
            m.0,
            0,
            0,
            after,
            before,
            gap,
            is_repeated(inner, m),
            s - 1,
            e,
        );
    }
}

proof fn lemma_anchored_ascends(
    t: Seq<u8>,
    segs: Seq<Segment>,
    lits: Seq<EffLit>,
    ats: Seq<int>,
    rendered: Seq<u8>,
    i: int,
    pos: int,
)
    requires
        literals_ascend(lits, -1, segs.len() as int),
        literals_ascend(outer_literals(lits), -1, segs.len() as int),
        !any_in_range(lits),
        0 <= i <= ats.len() <= outer_literals(lits).len(),
    ensures
        segments_ascend(
            anchored_spans(t, segs, lits, ats, rendered, i, pos),
            seg_after(segment_before(outer_literals(lits), i)) - 1,
            segs.len() - 1,
        ),
    decreases ats.len() - i,
{
    let outer = outer_literals(lits);
    let prev = segment_before(outer, i);
    let last = seg_after(prev) - 1;
    let all = anchored_spans(t, segs, lits, ats, rendered, i, pos);
    if i >= ats.len() {
        if ats.len() < outer.len() {
            lemma_ascend_one(
                span(pos, rendered.len() as int, SpanOrigin::Unmapped),
                last,
                segs.len() - 1,
            );
        } else if pos < rendered.len() {
            lemma_gap_ascends(
                t,
                segs,
                lits,
                prev,
                None,
                (pos, rendered.len() as int),
                rendered,
            );
        }
    } else {
        let l = outer[i];
        let end = ats[i] + needle(t, l).len();
        lemma_anchored_ascends(t, segs, lits, ats, rendered, i + 1, end);
        let rest = anchored_spans(t, segs, lits, ats, rendered, i + 1, end);
        let lit = literal_span(ats[i], end, l, false);
        assert(last < l.segment);
        lemma_ascend_one(lit, l.segment - 1, l.segment as int);
        lemma_ascend_concat(seq![lit], rest, l.segment - 1, l.segment as int, segs.len() - 1);
        let tail = seq![lit] + rest;
        if ats[i] > pos {
            lemma_gap_ascends(t, segs, lits, prev, Some(l.segment), (pos, ats[i]), rendered);
            let gap = gap_spans(
                t,
                segs,
                lits,
                prev,
                Some(l.segment),
                (pos, ats[i]),
                rendered,
            );
            lemma_ascend_concat(gap, tail, last, l.segment - 1, segs.len() - 1);
            assert(gap + tail =~= all);
        } else {
            lemma_ascend_weaken(tail, last, l.segment - 1, segs.len() - 1);
            assert(tail =~= all);
        }
    }
}

/// In a template without `range` blocks, the literal stretches of the output stand in the
/// order of the template, and none of the template's literals stands for two of them.
pub proof fn law_literals_keep_their_order(t: Seq<u8>, segs: Seq<Segment>, rendered: Seq<u8>)
    requires
        segments_fit(t, segs),
        t.len() <= usize::MAX,
        segs.len() <= usize::MAX,
        rendered.len() <= usize::MAX,
        !any_in_range(effective(t, segs, segs.len() as int)),
    ensures
        segments_ascend(spans_of(t, segs, rendered), -1, segs.len() - 1),
{
    let lits = effective(t, segs, segs.len() as int);
    let outer = outer_literals(lits);
    lemma_effective_ascends(t, segs, segs.len() as int);
    lemma_filters_ascend(lits, -1, segs.len() as int, 0, 0);
    lemma_effective_fits(t, segs, segs.len() as int);
    lemma_outer_fits(t, segs, lits);
    let ats = places(t, segs, outer, rendered, 0, 0);
    assert(ats.skip(0) =~= ats);
    lemma_places_placed(t, segs, outer, rendered, ats, 0, 0);
    lemma_anchored_ascends(t, segs, lits, ats, rendered, 0, 0);
}

// ---------------------------------------------------------------------------
// Literals that are free to edit

/// The span is literal text that stands in the output only once.
pub open spec fn editable(sp: RenderedSpan) -> bool {
    sp.origin is Literal && !sp.origin->repeated
}

/// No literal of the template stands for two of the spans that are free to edit.
pub open spec fn unique_literals(spans: Seq<RenderedSpan>) -> bool {
    forall|j: int, k: int|
        #![trigger spans[j], spans[k]]
        0 <= j < k < spans.len() && editable(spans[j]) && editable(spans[k])
            ==> spans[j].origin->Literal_segment != spans[k].origin->Literal_segment
}

/// The spans that are free to edit name later and later segments, all of them behind `last` and
/// up to `upto`.
spec fn free_ascend(spans: Seq<RenderedSpan>, last: int, upto: int) -> bool {
    &&& last <= upto
    &&& forall|k: int|
        0 <= k < spans.len() && editable(#[trigger] spans[k]) ==> last
            < spans[k].origin->Literal_segment <= upto
    &&& forall|j: int, k: int|
        #![trigger spans[j], spans[k]]
        0 <= j < k < spans.len() && editable(spans[j]) && editable(spans[k])
            ==> spans[j].origin->Literal_segment < spans[k].origin->Literal_segment
}

proof fn lemma_free_concat(
    a: Seq<RenderedSpan>,
    b: Seq<RenderedSpan>,
    last: int,
    mid: int,
    upto: int,
)
    requires
        free_ascend(a, last, mid),
        free_ascend(b, mid, upto),
    ensures
        free_ascend(a + b, last, upto),
{
    let all = a + b;
    assert forall|k: int| 0 <= k < all.len() && editable(#[trigger] all[k]) implies last
        < all[k].origin->Literal_segment <= upto by {
        if k < a.len() {
            assert(all[k] == a[k]);
        } else {
            assert(all[k] == b[k - a.len()]);
        }
    }
    assert forall|j: int, k: int|
        #![trigger all[j], all[k]]
        0 <= j < k < all.len() && editable(all[j]) && editable(
            all[k],
        ) implies all[j].origin->Literal_segment < all[k].origin->Literal_segment by {
        if k < a.len() {
            assert(all[j] == a[j] && all[k] == a[k]);
        } else if j < a.len() {
            assert(all[j] == a[j] && all[k] == b[k - a.len()]);
        } else {
            assert(all[j] == b[j - a.len()] && all[k] == b[k - a.len()]);
        }
    }
}

proof fn lemma_unique_parts(a: Seq<RenderedSpan>, b: Seq<RenderedSpan>)
    requires
        unique_literals(a + b),
    ensures
        unique_literals(a),
        unique_literals(b),
{
    let all = a + b;
    assert forall|j: int, k: int|
        #![trigger a[j], a[k]]
        0 <= j < k < a.len() && editable(a[j]) && editable(
            a[k],
        ) implies a[j].origin->Literal_segment != a[k].origin->Literal_segment by {
        assert(all[j] == a[j] && all[k] == a[k]);
    }
    assert forall|j: int, k: int|
        #![trigger b[j], b[k]]
        0 <= j < k < b.len() && editable(b[j]) && editable(
            b[k],
        ) implies b[j].origin->Literal_segment != b[k].origin->Literal_segment by {
        assert(all[a.len() + j] == b[j] && all[a.len() + k] == b[k]);
    }
}

/// What occurs behind the end of a pass was found by the pass.
proof fn lemma_pass_finds(
    t: Seq<u8>,
    segs: Seq<Segment>,
    inner: Seq<EffLit>,
    g: Seq<u8>,
    k: int,
    cur: int,
    j: int,
    at: int,
) -> (i: int)
    requires
        literals_fit(t, segs, inner),
        0 <= cur <= g.len() <= usize::MAX,
        0 <= k <= j < inner.len(),
        pass(t, inner, g, k, cur).1 <= at,
        occurs_at(g, needle(t, inner[j]), at),
    ensures
        0 <= i < pass(t, inner, g, k, cur).0.len(),
        pass(t, inner, g, k, cur).0[i].lit == inner[j],
    decreases inner.len() - k,
{
    let n = needle(t, inner[k]);
    let all = pass(t, inner, g, k, cur);
    lemma_find_from(g, n, cur);
    lemma_pass_in_gap(t, segs, inner, g, k, cur);
    lemma_matches_end(t, inner, g, all.0, cur, all.1);
    match find_from(g, n, cur) {
        Some(p) => {
            let rest = pass(t, inner, g, k + 1, p + n.len());
            if k == j {
                0
            } else {
                let i = lemma_pass_finds(t, segs, inner, g, k + 1, p + n.len(), j, at);
                assert(all.0[i + 1] == rest.0[i]);
                i + 1
            }
        },
        None => {
            if k == j {
                assert(false);
            }
            lemma_pass_finds(t, segs, inner, g, k + 1, cur, j, at)
        },
    }
}

/// What the passes add occurs behind where they start.
proof fn lemma_passes_add(
    t: Seq<u8>,
    segs: Seq<Segment>,
    inner: Seq<EffLit>,
    g: Seq<u8>,
    local: Seq<Match>,
    cur: int,
    again: bool,
)
    requires
        literals_fit(t, segs, inner),
        0 <= cur <= g.len() <= usize::MAX,
    ensures
        ({
            let all = passes(t, inner, g, local, cur, again).0;
            &&& local.len() <= all.len()
            &&& all.take(local.len() as int) == local
            &&& forall|i: int|
                local.len() <= i < all.len() ==> inner.contains((#[trigger] all[i]).lit)
                    && cur <= all[i].start && occurs_at(
                    g,
                    needle(t, all[i].lit),
                    all[i].start as int,
                )
        }),
    decreases g.len() - cur,
{
    let (found, next) = pass(t, inner, g, 0, cur);
    let both = local + found;
    let all = passes(t, inner, g, local, cur, again).0;
    lemma_pass_in_gap(t, segs, inner, g, 0, cur);
    lemma_matches_end(t, inner, g, found, cur, next);
    assert forall|i: int| local.len() <= i < both.len() implies inner.contains(
        (#[trigger] both[i]).lit,
    ) && cur <= both[i].start && occurs_at(
        g,
        needle(t, both[i].lit),
        both[i].start as int,
    ) by {
        let k = i - local.len();
        assert(both[i] == found[k]);
        lemma_matches_index(t, inner, g, found, cur, next, k);
        let m = found[k];
        assert(g.subrange(m.start as int, m.end as int).len() == needle(t, m.lit).len());
    }
    if !(found.len() == 0 || next >= g.len()) && next > cur && any_in_range(inner) {
        let more = again || both.len() > inner.len();
        lemma_passes_add(t, segs, inner, g, both, next, more);
        assert(all.take(local.len() as int) =~= all.take(both.len() as int).take(
            local.len() as int,
        ));
        assert forall|i: int| local.len() <= i < all.len() implies inner.contains(
            (#[trigger] all[i]).lit,
        ) && cur <= all[i].start && occurs_at(
            g,
            needle(t, all[i].lit),
            all[i].start as int,
        ) by {
            if i < both.len() {
                assert(all.take(both.len() as int)[i] == both[i]);
            }
        }
    }
    assert(both.take(local.len() as int) =~= local);
}

/// The spans of two matches, in their order.
proof fn lemma_spans_of_matches(
    segs: Seq<Segment>,
    local: Seq<Match>,
    k: int,
    pos: int,
    prev: Option<usize>,
    before: Option<usize>,
    gap: (int, int),
    repeated: bool,
    i: int,
    j: int,
) -> (r: (int, int))
    requires
        0 <= k <= i <= j < local.len(),
    ensures
        ({
            let spans = matched_spans(segs, local, k, pos, prev, before, gap, repeated);
            &&& 0 <= r.0 <= r.1 < spans.len()
            &&& i < j ==> r.0 < r.1
            &&& spans[r.0] == literal_span(
                gap.0 + local[i].start,
                gap.0 + local[i].end,
                local[i].lit,
                repeated || local[i].lit.in_range_block,
            )
            &&& spans[r.1] == literal_span(
                gap.0 + local[j].start,
                gap.0 + local[j].end,
                local[j].lit,
                repeated || local[j].lit.in_range_block,
            )
        }),
    decreases local.len() - k,
{
    let m = local[k];
    let spans = matched_spans(segs, local, k, pos, prev, before, gap, repeated);
    let rest = matched_spans(
        segs,
        local,
        k + 1,
        m.end as int,
        Some(m.lit.segment),
        before,
        gap,
        repeated,
    );
    let n = spans.len() - rest.len();
    assert forall|x: int| 0 <= x < rest.len() implies spans[n + x] == #[trigger] rest[x] by {}
    if j == k {
        (n - 1, n - 1)
    } else {
        let from = if i == k {
            j
        } else {
            i
        };
        let (p, q) = lemma_spans_of_matches(
            segs,
            local,
            k + 1,
            m.end as int,
            Some(m.lit.segment),
            before,
            gap,
            repeated,
            from,
            j,
        );
        assert(spans[n + p] == rest[p] && spans[n + q] == rest[q]);
        if i == k {
            (n - 1, n + q)
        } else {
            (n + p, n + q)
        }
    }
}

/// The matches outside `range` blocks from the `k`-th on name later and later segments.
spec fn free_matches_ascend(local: Seq<Match>, k: int, last: int, end: int) -> bool {
    &&& forall|i: int|
        k <= i < local.len() && !(#[trigger] local[i]).lit.in_range_block ==> last
            < local[i].lit.segment < end
    &&& forall|i: int, j: int|
        #![trigger local[i], local[j]]
        k <= i < j < local.len() && !local[i].lit.in_range_block && !local[j].lit.in_range_block
            ==> local[i].lit.segment < local[j].lit.segment
}

proof fn lemma_free_one(x: RenderedSpan, last: int, upto: int)
    requires
        last <= upto,
        editable(x) ==> last < x.origin->Literal_segment <= upto,
    ensures
        free_ascend(seq![x], last, upto),
{
}

proof fn lemma_matched_free(
    segs: Seq<Segment>,
    local: Seq<Match>,
    k: int,
    pos: int,
    prev: Option<usize>,
    before: Option<usize>,
    gap: (int, int),
    repeated: bool,
    last: int,
    end: int,
)
    requires
        0 <= k <= local.len(),
        last < end,
        repeated || free_matches_ascend(local, k, last, end),
    ensures
        free_ascend(
            matched_spans(segs, local, k, pos, prev, before, gap, repeated),
            last,
            end - 1,
        ),
    decreases local.len() - k,
{
    let spans = matched_spans(segs, local, k, pos, prev, before, gap, repeated);
    if k >= local.len() {
        if pos < gap.1 - gap.0 {
            lemma_between_is_no_literal(segs, prev, before);
            lemma_free_one(spans[0], last, end - 1);
            assert(spans =~= seq![spans[0]]);
        }
    } else {
        let m = local[k];
        let held = repeated || m.lit.in_range_block;
        let next = if held {
            last
        } else {
            m.lit.segment as int
        };
        if !repeated && !held {
            assert forall|i: int|
                k + 1 <= i < local.len() && !(#[trigger] local[i]).lit.in_range_block implies next
                < local[i].lit.segment < end by {
                assert(local[k].lit.segment < local[i].lit.segment);
            }
        }
        lemma_matched_free(
            segs,
            local,
            k + 1,
            m.end as int,
            Some(m.lit.segment),
            before,
            gap,
            repeated,
            next,
            end,
        );
        let rest = matched_spans(
            segs,
            local,
            k + 1,
            m.end as int,
            Some(m.lit.segment),
            before,
            gap,
            repeated,
        );
        let lit = literal_span(gap.0 + m.start, gap.0 + m.end, m.lit, held);
        lemma_free_one(lit, last, next);
        lemma_free_concat(seq![lit], rest, last, next, end - 1);
        let tail = seq![lit] + rest;
        if m.start > pos {
            let origin = match prev {
                Some(p) => between(segs, p + 1, m.lit.segment as int),
                None => SpanOrigin::Unmapped,
            };
            let hole = span(gap.0 + pos, gap.0 + m.start, origin);
            lemma_free_one(hole, last, last);
            lemma_free_concat(seq![hole], tail, last, last, end - 1);
            assert(seq![hole] + tail =~= spans);
        } else {
            assert(tail =~= spans);
        }
    }
}

proof fn lemma_matches_ascend_order(ms: Seq<Match>, last: int, end: int, i: int, j: int)
    requires
        matches_ascend(ms, last, end),
        0 <= i <= j < ms.len(),
    ensures
        last < ms[i].lit.segment < end,
        last < ms[j].lit.segment < end,
        i < j ==> ms[i].lit.segment < ms[j].lit.segment,
    decreases ms.len(),
{
    let rest = ms.drop_first();
    if j > 0 {
        assert(rest[j - 1] == ms[j]);
        if i > 0 {
            assert(rest[i - 1] == ms[i]);
            lemma_matches_ascend_order(rest, ms[0].lit.segment as int, end, i - 1, j - 1);
        } else {
            lemma_matches_ascend_order(rest, ms[0].lit.segment as int, end, j - 1, j - 1);
        }
    }
}

/// Only a pass over literals of a `range` block is made again, and a literal outside of one that
/// a later pass finds was found by the first.
proof fn lemma_gap_free(
    t: Seq<u8>,
    segs: Seq<Segment>,
    lits: Seq<EffLit>,
    after: Option<usize>,
    before: Option<usize>,
    gap: (int, int),
    rendered: Seq<u8>,
)
    requires
        literals_ascend(lits, -1, segs.len() as int),
        literals_fit(t, segs, lits),
        0 <= gap.0 <= gap.1 <= rendered.len() <= usize::MAX,
        seg_after(after) - 1 < seg_before(segs, before),
        unique_literals(gap_spans(t, segs, lits, after, before, gap, rendered)),
    ensures
        free_ascend(
            gap_spans(t, segs, lits, after, before, gap, rendered),
            seg_after(after) - 1,
            seg_before(segs, before) - 1,
        ),
{
    let s = seg_after(after);
    let e = seg_before(segs, before);
    let spans = gap_spans(t, segs, lits, after, before, gap, rendered);
    if profile(segs, s, e).controls == 0 {
        lemma_free_one(span(gap.0, gap.1, between(segs, s, e)), s - 1, e - 1);
    } else {
        let inner = inner_literals(lits, s, e);
        let g = rendered.subrange(gap.0, gap.1);
        lemma_filters_ascend(lits, -1, segs.len() as int, s, e);
        lemma_inner_fits(t, segs, lits, s, e);
        let m = passes(t, inner, g, seq![], 0, false);
        let local = m.0;
        let repeated = is_repeated(inner, m);
        let (found, next) = pass(t, inner, g, 0, 0);
        lemma_pass_in_gap(t, segs, inner, g, 0, 0);
        lemma_matches_end(t, inner, g, found, 0, next);
        lemma_pass_ascends(t, inner, g, 0, 0, s - 1, e);
        let first = Seq::<Match>::empty() + found;
        assert(first =~= found);
        if !(found.len() == 0 || next >= g.len()) && next > 0 && any_in_range(inner) {
            lemma_passes_add(t, segs, inner, g, first, next, first.len() > inner.len());
        }
        assert(found.len() <= local.len());
        assert(local.take(found.len() as int) =~= found);
        if !repeated {
            assert forall|i: int| found.len() <= i < local.len() implies (
            #[trigger] local[i]).lit.in_range_block by {
                if !local[i].lit.in_range_block {
                    let x = choose|x: int| 0 <= x < inner.len() && inner[x] == local[i].lit;
                    let p = lemma_pass_finds(t, segs, inner, g, 0, 0, x, local[i].start as int);
                    assert(local.take(found.len() as int)[p] == local[p]);
                    let r = lemma_spans_of_matches(
                        segs,
                        local,
                        0,
                        0,
                        after,
                        before,
                        gap,
                        repeated,
                        p,
                        i,
                    );
                    assert(editable(spans[r.0]) && editable(spans[r.1]));
                    assert(false);
                }
            }
            assert forall|i: int|
                0 <= i < local.len() && !(#[trigger] local[i]).lit.in_range_block implies s - 1
                < local[i].lit.segment < e by {
                assert(local.take(found.len() as int)[i] == local[i]);
                lemma_matches_ascend_order(found, s - 1, e, i, i);
            }
            assert forall|i: int, j: int|
                #![trigger local[i], local[j]]
                0 <= i < j < local.len() && !local[i].lit.in_range_block
                    && !local[j].lit.in_range_block implies local[i].lit.segment
                < local[j].lit.segment by {
                assert(local.take(found.len() as int)[i] == local[i]);
                assert(local.take(found.len() as int)[j] == local[j]);
                lemma_matches_ascend_order(found, s - 1, e, i, j);
            }
        }
        lemma_matched_free(segs, local, 0, 0, after, before, gap, repeated, s - 1, e);
    }
}

proof fn lemma_anchored_free(
    t: Seq<u8>,
    segs: Seq<Segment>,
    lits: Seq<EffLit>,
    ats: Seq<int>,
    rendered: Seq<u8>,
    i: int,
    pos: int,
)
    requires
        literals_ascend(lits, -1, segs.len() as int),
        literals_ascend(outer_literals(lits), -1, segs.len() as int),
        literals_fit(t, segs, lits),
        rendered.len() <= usize::MAX,
        0 <= i <= ats.len() <= outer_literals(lits).len(),
        placed(t, outer_literals(lits), rendered, ats, i, pos),
        unique_literals(anchored_spans(t, segs, lits, ats, rendered, i, pos)),
    ensures
        free_ascend(
            anchored_spans(t, segs, lits, ats, rendered, i, pos),
            seg_after(segment_before(outer_literals(lits), i)) - 1,
            segs.len() - 1,
        ),
    decreases ats.len() - i,
{
    let outer = outer_literals(lits);
    let prev = segment_before(outer, i);
    let last = seg_after(prev) - 1;
    let all = anchored_spans(t, segs, lits, ats, rendered, i, pos);
    if i >= ats.len() {
        if ats.len() < outer.len() {
            lemma_free_one(
                span(pos, rendered.len() as int, SpanOrigin::Unmapped),
                last,
                segs.len() - 1,
            );
        } else if pos < rendered.len() {
            lemma_gap_free(t, segs, lits, prev, None, (pos, rendered.len() as int), rendered);
        }
    } else {
        let l = outer[i];
        let end = ats[i] + needle(t, l).len();
        let rest = anchored_spans(t, segs, lits, ats, rendered, i + 1, end);
        let lit = literal_span(ats[i], end, l, false);
        let tail = seq![lit] + rest;
        assert(last < l.segment);
        if ats[i] > pos {
            let gap = gap_spans(
                t,
                segs,
                lits,
                prev,
                Some(l.segment),
                (pos, ats[i]),
                rendered,
            );
            assert(gap + tail =~= all);
            lemma_unique_parts(gap, tail);
            lemma_unique_parts(seq![lit], rest);
            lemma_anchored_free(t, segs, lits, ats, rendered, i + 1, end);
            lemma_free_one(lit, l.segment - 1, l.segment as int);
            lemma_free_concat(seq![lit], rest, l.segment - 1, l.segment as int, segs.len() - 1);
            lemma_gap_free(t, segs, lits, prev, Some(l.segment), (pos, ats[i]), rendered);
            lemma_free_concat(gap, tail, last, l.segment - 1, segs.len() - 1);
        } else {
            assert(tail =~= all);
            lemma_unique_parts(seq![lit], rest);
            lemma_anchored_free(t, segs, lits, ats, rendered, i + 1, end);
            lemma_free_one(lit, last, l.segment as int);
            lemma_free_concat(seq![lit], rest, last, l.segment as int, segs.len() - 1);
        }
    }
}

/// Where no literal of the template stands for two stretches of the output that are free to
/// edit, these stretches stand in the order of the template.
pub proof fn law_free_literals_keep_their_order(
    t: Seq<u8>,
    segs: Seq<Segment>,
    rendered: Seq<u8>,
    j: int,
    k: int,
)
    requires
        segments_fit(t, segs),
        t.len() <= usize::MAX,
        segs.len() <= usize::MAX,
        rendered.len() <= usize::MAX,
        unique_literals(spans_of(t, segs, rendered)),
        0 <= j < k < spans_of(t, segs, rendered).len(),
        editable(spans_of(t, segs, rendered)[j]),
        editable(spans_of(t, segs, rendered)[k]),
    ensures
        spans_of(t, segs, rendered)[j].origin->Literal_segment < spans_of(
            t,
            segs,
            rendered,
        )[k].origin->Literal_segment,
{
    let lits = effective(t, segs, segs.len() as int);
    let outer = outer_literals(lits);
    lemma_effective_ascends(t, segs, segs.len() as int);
    lemma_filters_ascend(lits, -1, segs.len() as int, 0, 0);
    lemma_effective_fits(t, segs, segs.len() as int);
    lemma_outer_fits(t, segs, lits);
    let ats = places(t, segs, outer, rendered, 0, 0);
    assert(ats.skip(0) =~= ats);
    lemma_places_placed(t, segs, outer, rendered, ats, 0, 0);
    lemma_anchored_free(t, segs, lits, ats, rendered, 0, 0);
}

/// In a template without `range` blocks no literal stands for two stretches of the output.
pub proof fn law_literals_are_unique_without_ranges(
    t: Seq<u8>,
    segs: Seq<Segment>,
    rendered: Seq<u8>,
)
    requires
        segments_fit(t, segs),
        t.len() <= usize::MAX,
        segs.len() <= usize::MAX,
        rendered.len() <= usize::MAX,
        !any_in_range(effective(t, segs, segs.len() as int)),
    ensures
        unique_literals(spans_of(t, segs, rendered)),
{
    let spans = spans_of(t, segs, rendered);
    law_literals_keep_their_order(t, segs, rendered);
    assert forall|j: int, k: int|
        #![trigger spans[j], spans[k]]
        0 <= j < k < spans.len() && editable(spans[j]) && editable(
            spans[k],
        ) implies spans[j].origin->Literal_segment != spans[k].origin->Literal_segment by {
        lemma_ascend_order(spans, -1, segs.len() - 1, j, k);
    }
}

/// The later of two literal spans names the later segment.
pub proof fn lemma_ascend_order(spans: Seq<RenderedSpan>, last: int, upto: int, j: int, k: int)
    requires
        segments_ascend(spans, last, upto),
        0 <= j <= k < spans.len(),
        spans[j].origin is Literal,
        spans[k].origin is Literal,
    ensures
        last < spans[j].origin->Literal_segment,
        last < spans[k].origin->Literal_segment,
        j < k ==> spans[j].origin->Literal_segment < spans[k].origin->Literal_segment,
    decreases spans.len(),
{
    let rest = spans.drop_first();
    if k > 0 {
        assert(rest[k - 1] == spans[k]);
        let next = if spans[0].origin is Literal {
            spans[0].origin->Literal_segment as int
        } else {
            last
        };
        if j > 0 {
            assert(rest[j - 1] == spans[j]);
            lemma_ascend_order(rest, next, upto, j - 1, k - 1);
        } else {
            lemma_ascend_order(rest, next, upto, k - 1, k - 1);
        }
    }
}

/// In a tiling, an earlier span ends before a later one starts.
pub proof fn lemma_spans_order(spans: Seq<RenderedSpan>, s: int, e: int, j: int, k: int)
    requires
        spans_tile(spans, s, e),
        0 <= j <= k < spans.len(),
    ensures
        s <= spans[j].range.start <= spans[j].range.end <= e,
        s <= spans[k].range.start <= spans[k].range.end <= e,
        j < k ==> spans[j].range.end <= spans[k].range.start,
        s <= e,
    decreases spans.len(),
{
    let rest = spans.drop_first();
    reveal_with_fuel(spans_tile, 2);
    if rest.len() > 0 {
        if k > 0 {
            assert(rest[k - 1] == spans[k]);
            if j > 0 {
                assert(rest[j - 1] == spans[j]);
                lemma_spans_order(rest, spans[0].range.end as int, e, j - 1, k - 1);
            } else {
                lemma_spans_order(rest, spans[0].range.end as int, e, k - 1, k - 1);
            }
        } else {
            lemma_spans_order(rest, spans[0].range.end as int, e, 0, 0);
        }
    }
}

// ---------------------------------------------------------------------------
// What rendering leaves of a template is found again

/// White space that a trim marker takes away: blank, tab, line feed, form feed, carriage return.
pub open spec fn can_be_trimmed(c: u8) -> bool {
    c == 0x20 || c == 0x09 || c == 0x0a || c == 0x0c || c == 0x0d
}

/// Rendering leaves the bytes `cut` of literal segment `k`: all of them but the white space that
/// a `-}}` right before it and a `{{-` right behind it take away, be they of an action or of a
/// comment.
pub open spec fn leaves(t: Seq<u8>, segs: Seq<Segment>, k: int, cut: (int, int)) -> bool {
    let (from, to) = (segs[k].src.start as int, segs[k].src.end as int);
    let lead = k > 0 && match segs[k - 1].kind {
        SegmentKind::Action { trim_after, .. } => trim_after,
        SegmentKind::Comment { trim_after, .. } => trim_after,
        SegmentKind::Literal => false,
    };
    let trail = k + 1 < segs.len() && match segs[k + 1].kind {
        SegmentKind::Action { trim_before, .. } => trim_before,
        SegmentKind::Comment { trim_before, .. } => trim_before,
        SegmentKind::Literal => false,
    };
    &&& from <= cut.0 <= cut.1 <= to
    &&& if lead {
        &&& forall|p: int| from <= p < cut.0 ==> can_be_trimmed(#[trigger] t[p])
        &&& cut.0 < to ==> !can_be_trimmed(t[cut.0])
    } else {
        cut.0 == from
    }
    &&& if trail {
        &&& forall|p: int| cut.1 <= p < to ==> can_be_trimmed(#[trigger] t[p])
        &&& cut.0 < cut.1 ==> !can_be_trimmed(t[cut.1 - 1])
    } else {
        cut.1 == to
    }
}

/// Something is left of literal segment `k`.
pub open spec fn stays(segs: Seq<Segment>, cuts: Seq<(int, int)>, k: int) -> bool {
    0 <= k < segs.len() && segs[k].kind == SegmentKind::Literal && cuts[k].0 < cuts[k].1
}

/// Segment `k` renders to the bytes from `at[k]` up to `at[k + 1]`: a literal to what is left of
/// it, a comment to nothing, a value action to anything.
pub open spec fn renders_at(
    t: Seq<u8>,
    segs: Seq<Segment>,
    rendered: Seq<u8>,
    cuts: Seq<(int, int)>,
    at: Seq<int>,
    k: int,
) -> bool {
    &&& segs[k].depth == 0
    &&& 0 <= at[k] <= at[k + 1] <= rendered.len()
    &&& match segs[k].kind {
        SegmentKind::Literal => leaves(t, segs, k, cuts[k]) && rendered.subrange(at[k], at[k + 1])
            == t.subrange(cuts[k].0, cuts[k].1),
        SegmentKind::Action { class, .. } => class == ActionClass::Value,
        SegmentKind::Comment { .. } => at[k + 1] == at[k],
    }
}

/// A template without control blocks renders so, segment by segment.
pub open spec fn rendering(
    t: Seq<u8>,
    segs: Seq<Segment>,
    rendered: Seq<u8>,
    cuts: Seq<(int, int)>,
    at: Seq<int>,
) -> bool {
    &&& cuts.len() == segs.len()
    &&& at.len() == segs.len() + 1
    &&& at[0] == 0
    &&& at[segs.len() as int] == rendered.len()
    &&& forall|k: int|
        0 <= k < segs.len() ==> #[trigger] renders_at(t, segs, rendered, cuts, at, k)
}

/// No literal stands in the output before its place, behind the literals before it; only the one
/// that ends the template may.
pub open spec fn no_earlier_occurrence(
    t: Seq<u8>,
    segs: Seq<Segment>,
    rendered: Seq<u8>,
    cuts: Seq<(int, int)>,
    at: Seq<int>,
) -> bool {
    forall|k: int, q: int|
        #![trigger stays(segs, cuts, k), occurs_at(rendered, t.subrange(cuts[k].0, cuts[k].1), q)]
        stays(segs, cuts, k) && k < segs.len() - 1 && 0 <= q < at[k] && (forall|j: int|
            0 <= j < k && #[trigger] stays(segs, cuts, j) ==> at[j + 1] <= q) ==> !occurs_at(
            rendered,
            t.subrange(cuts[k].0, cuts[k].1),
            q,
        )
}

/// The span from `at[k]` to `at[k + 1]` is the text of literal segment `k`, free to edit.
pub open spec fn is_text_of(
    sp: RenderedSpan,
    cuts: Seq<(int, int)>,
    at: Seq<int>,
    k: int,
) -> bool {
    &&& sp.range.start == at[k]
    &&& sp.range.end == at[k + 1]
    &&& sp.origin matches SpanOrigin::Literal { segment, src, repeated }
    &&& segment == k
    &&& src.start == cuts[k].0
    &&& src.end == cuts[k].1
    &&& !repeated
}

proof fn lemma_trim_is(b: Seq<u8>, s: int, e: int, c: int)
    requires
        s <= c <= e,
        forall|p: int| s <= p < c ==> can_be_trimmed(#[trigger] b[p]),
        c < e ==> !can_be_trimmed(b[c]),
    ensures
        trim_lead(b, s, e) == c,
    decreases c - s,
{
    if s < c {
        assert(can_be_trimmed(b[s]));
        lemma_trim_is(b, s + 1, e, c);
    }
}

proof fn lemma_trim_back_is(b: Seq<u8>, s: int, e: int, c: int)
    requires
        s <= c <= e,
        forall|p: int| c <= p < e ==> can_be_trimmed(#[trigger] b[p]),
        s < c ==> !can_be_trimmed(b[c - 1]),
    ensures
        trim_trail(b, s, e) == c,
    decreases e - c,
{
    if c < e {
        assert(can_be_trimmed(b[e - 1]));
        lemma_trim_back_is(b, s, e - 1, c);
    }
}

/// The effective literal of a segment is what rendering leaves of it.
proof fn lemma_literal_left(t: Seq<u8>, segs: Seq<Segment>, k: int, cut: (int, int))
    requires
        segments_fit(t, segs),
        literals_apart(segs),
        t.len() <= usize::MAX,
        segs.len() <= usize::MAX,
        0 <= k < segs.len(),
        segs[k].kind == SegmentKind::Literal,
        leaves(t, segs, k, cut),
    ensures
        cut.0 >= cut.1 ==> literal_at(t, segs, k) is None,
        cut.0 < cut.1 ==> (literal_at(t, segs, k) matches Some(l) && l.segment == k && l.src.start
            == cut.0 && l.src.end == cut.1 && l.depth == segs[k].depth),
{
    let (from, to) = (segs[k].src.start as int, segs[k].src.end as int);
    if k > 0 {
        assert(segs[k - 1].kind != SegmentKind::Literal);
    }
    if k + 1 < segs.len() {
        assert(segs[k + 1].kind != SegmentKind::Literal);
    }
    if trims_lead(segs, k) {
        lemma_trim_is(t, from, to, cut.0);
    }
    if trims_trail(segs, k + 1) {
        lemma_trim_back_is(t, cut.0, to, cut.1);
    }
}

/// The literal segments among the first `n` of which something is left.
spec fn left_over(segs: Seq<Segment>, cuts: Seq<(int, int)>, n: int) -> Seq<int>
    decreases n,
{
    if n <= 0 {
        seq![]
    } else if stays(segs, cuts, n - 1) {
        left_over(segs, cuts, n - 1).push(n - 1)
    } else {
        left_over(segs, cuts, n - 1)
    }
}

proof fn lemma_left_over(segs: Seq<Segment>, cuts: Seq<(int, int)>, n: int)
    requires
        0 <= n <= segs.len(),
    ensures
        forall|i: int|
            0 <= i < left_over(segs, cuts, n).len() ==> {
                &&& 0 <= #[trigger] left_over(segs, cuts, n)[i] < n
                &&& stays(segs, cuts, left_over(segs, cuts, n)[i])
            },
        forall|i: int, j: int|
            #![trigger left_over(segs, cuts, n)[i], left_over(segs, cuts, n)[j]]
            0 <= i < j < left_over(segs, cuts, n).len() ==> left_over(segs, cuts, n)[i]
                < left_over(segs, cuts, n)[j],
        forall|k: int|
            0 <= k < n && #[trigger] stays(segs, cuts, k) ==> left_over(segs, cuts, n).contains(k),
    decreases n,
{
    if n > 0 {
        lemma_left_over(segs, cuts, n - 1);
        let front = left_over(segs, cuts, n - 1);
        let all = left_over(segs, cuts, n);
        assert forall|k: int| 0 <= k < n && #[trigger] stays(segs, cuts, k) implies all.contains(
            k,
        ) by {
            if k < n - 1 {
                let i = choose|i: int| 0 <= i < front.len() && front[i] == k;
                assert(all[i] == k);
            } else {
                assert(all[all.len() - 1] == k);
            }
        }
    }
}

/// The literals are those of which something is left, each with what is.
spec fn literals_are(
    lits: Seq<EffLit>,
    shown: Seq<int>,
    cuts: Seq<(int, int)>,
) -> bool {
    &&& lits.len() == shown.len()
    &&& forall|i: int|
        0 <= i < lits.len() ==> {
            let l = #[trigger] lits[i];
            &&& l.segment == shown[i]
            &&& l.src.start == cuts[shown[i]].0
            &&& l.src.end == cuts[shown[i]].1
            &&& l.depth == 0
        }
}

proof fn lemma_effective_left(
    t: Seq<u8>,
    segs: Seq<Segment>,
    rendered: Seq<u8>,
    cuts: Seq<(int, int)>,
    at: Seq<int>,
    n: int,
)
    requires
        segments_fit(t, segs),
        literals_apart(segs),
        t.len() <= usize::MAX,
        segs.len() <= usize::MAX,
        rendering(t, segs, rendered, cuts, at),
        0 <= n <= segs.len(),
    ensures
        literals_are(effective(t, segs, n), left_over(segs, cuts, n), cuts),
    decreases n,
{
    if n > 0 {
        lemma_effective_left(t, segs, rendered, cuts, at, n - 1);
        let k = n - 1;
        assert(renders_at(t, segs, rendered, cuts, at, k));
        if segs[k].kind == SegmentKind::Literal {
            lemma_literal_left(t, segs, k, cuts[k]);
        }
    }
}

proof fn lemma_all_outer(lits: Seq<EffLit>)
    requires
        forall|i: int| 0 <= i < lits.len() ==> (#[trigger] lits[i]).depth == 0,
    ensures
        outer_literals(lits) == lits,
    decreases lits.len(),
{
    if lits.len() > 0 {
        let front = lits.drop_last();
        assert forall|i: int| 0 <= i < front.len() implies (#[trigger] front[i]).depth == 0 by {
            assert(front[i] == lits[i]);
        }
        lemma_all_outer(front);
        assert(lits.last() == lits[lits.len() - 1]);
        assert(front.push(lits.last()) =~= lits);
    } else {
        assert(outer_literals(lits) =~= lits);
    }
}

proof fn lemma_at_ascends(
    t: Seq<u8>,
    segs: Seq<Segment>,
    rendered: Seq<u8>,
    cuts: Seq<(int, int)>,
    at: Seq<int>,
    j: int,
    k: int,
)
    requires
        rendering(t, segs, rendered, cuts, at),
        0 <= j <= k <= segs.len(),
    ensures
        at[j] <= at[k],
    decreases k - j,
{
    if j < k {
        lemma_at_ascends(t, segs, rendered, cuts, at, j, k - 1);
        assert(renders_at(t, segs, rendered, cuts, at, k - 1));
    }
}

/// How far the output is covered before the `i`-th literal.
spec fn covered(segs: Seq<Segment>, cuts: Seq<(int, int)>, at: Seq<int>, i: int) -> int {
    if i <= 0 {
        0
    } else {
        at[left_over(segs, cuts, segs.len() as int)[i - 1] + 1]
    }
}

/// A literal is placed where it was rendered.
#[verifier::spinoff_prover]
#[verifier::rlimit(20)]
proof fn lemma_place_is(
    t: Seq<u8>,
    segs: Seq<Segment>,
    rendered: Seq<u8>,
    cuts: Seq<(int, int)>,
    at: Seq<int>,
    lits: Seq<EffLit>,
    i: int,
)
    requires
        segments_fit(t, segs),
        rendering(t, segs, rendered, cuts, at),
        no_earlier_occurrence(t, segs, rendered, cuts, at),
        literals_are(lits, left_over(segs, cuts, segs.len() as int), cuts),
        0 <= i < lits.len(),
    ensures
        ({
            let k = left_over(segs, cuts, segs.len() as int)[i];
            let cursor = covered(segs, cuts, at, i);
            &&& place_of(t, segs, lits, rendered, i, cursor) == Some(at[k])
            &&& at[k] + needle(t, lits[i]).len() == at[k + 1]
        }),
{
    let n = segs.len() as int;
    let shown = left_over(segs, cuts, n);
    let cursor = covered(segs, cuts, at, i);
    lemma_left_over(segs, cuts, n);
    let k = shown[i];
    let l = lits[i];
    assert(stays(segs, cuts, k));
    assert(renders_at(t, segs, rendered, cuts, at, k));
    assert(leaves(t, segs, k, cuts[k]));
    let text = t.subrange(cuts[k].0, cuts[k].1);
    assert(needle(t, l) == text);
    assert(rendered.subrange(at[k], at[k + 1]).len() == text.len());
    assert(at[k] + text.len() == at[k + 1]);
    assert(occurs_at(rendered, text, at[k]));
    if i > 0 {
        assert(shown[i - 1] < shown[i]);
        assert(renders_at(t, segs, rendered, cuts, at, shown[i - 1]));
        lemma_at_ascends(t, segs, rendered, cuts, at, shown[i - 1] + 1, k);
    }
    if i == 0 && starts_literal(segs) && l.segment == 0 {
    } else if i == lits.len() - 1 && ends_literal(segs) && l.segment == n - 1 {
    } else {
        assert(k < n - 1) by {
            if k == n - 1 {
                if i < lits.len() - 1 {
                    assert(shown[i] < shown[i + 1]);
                }
            }
        }
        assert forall|q: int| cursor <= q < at[k] implies !occurs_at(rendered, text, q) by {
            assert forall|j: int| 0 <= j < k && #[trigger] stays(segs, cuts, j) implies at[j + 1]
                <= q by {
                let m = choose|m: int| 0 <= m < shown.len() && shown[m] == j;
                if m > i {
                    assert(shown[i] < shown[m]);
                }
                if m < i - 1 {
                    assert(shown[m] < shown[i - 1]);
                }
                lemma_at_ascends(t, segs, rendered, cuts, at, j + 1, shown[i - 1] + 1);
            }
        }
        lemma_find_from(rendered, text, cursor);
    }
}

/// Every literal is placed where it was rendered.
proof fn lemma_places_are(
    t: Seq<u8>,
    segs: Seq<Segment>,
    rendered: Seq<u8>,
    cuts: Seq<(int, int)>,
    at: Seq<int>,
    lits: Seq<EffLit>,
    i: int,
)
    requires
        segments_fit(t, segs),
        rendering(t, segs, rendered, cuts, at),
        no_earlier_occurrence(t, segs, rendered, cuts, at),
        literals_are(lits, left_over(segs, cuts, segs.len() as int), cuts),
        0 <= i <= lits.len(),
    ensures
        ({
            let shown = left_over(segs, cuts, segs.len() as int);
            let ats = places(t, segs, lits, rendered, i, covered(segs, cuts, at, i));
            &&& ats.len() == lits.len() - i
            &&& forall|j: int| i <= j < lits.len() ==> #[trigger] ats[j - i] == at[shown[j]]
        }),
    decreases lits.len() - i,
{
    if i < lits.len() {
        let shown = left_over(segs, cuts, segs.len() as int);
        let cursor = covered(segs, cuts, at, i);
        lemma_place_is(t, segs, rendered, cuts, at, lits, i);
        lemma_places_are(t, segs, rendered, cuts, at, lits, i + 1);
        let next = covered(segs, cuts, at, i + 1);
        assert(next == at[shown[i] + 1]);
        let ats = places(t, segs, lits, rendered, i, cursor);
        let rest = places(t, segs, lits, rendered, i + 1, next);
        assert(ats =~= seq![at[shown[i]]] + rest);
        assert forall|j: int| i <= j < lits.len() implies #[trigger] ats[j - i]
            == at[shown[j]] by {
            if j > i {
                assert(ats[j - i] == rest[j - (i + 1)]);
            }
        }
    }
}

proof fn lemma_no_controls(segs: Seq<Segment>, s: int, e: int)
    requires
        0 <= s,
        e <= segs.len(),
        forall|k: int|
            0 <= k < segs.len() ==> ((#[trigger] segs[k]).kind matches SegmentKind::Action {
                class,
                ..
            } ==> class == ActionClass::Value),
    ensures
        profile(segs, s, e).controls == 0,
    decreases e - s,
{
    if s < e {
        lemma_no_controls(segs, s, e - 1);
        assert(segs[e - 1].kind matches SegmentKind::Action { class, .. } ==> class
            == ActionClass::Value);
    }
}

/// The map has the text of literal segment `k` at its place.
pub open spec fn has_text(
    spans: Seq<RenderedSpan>,
    cuts: Seq<(int, int)>,
    at: Seq<int>,
    k: int,
) -> bool {
    exists|x: int| 0 <= x < spans.len() && is_text_of(#[trigger] spans[x], cuts, at, k)
}

/// The map tells that what stands from `at[k]` to `at[k + 1]` is of action `k`.
pub open spec fn has_action(spans: Seq<RenderedSpan>, at: Seq<int>, k: int) -> bool {
    exists|x: int|
        0 <= x < spans.len() && (#[trigger] spans[x]).range.start == at[k] && spans[x].range.end
            == at[k + 1] && spans[x].origin == (SpanOrigin::Action { segment: k as usize })
}

/// The literals are placed where they were rendered.
#[verifier::opaque]
spec fn placed_as_rendered(
    t: Seq<u8>,
    segs: Seq<Segment>,
    rendered: Seq<u8>,
    cuts: Seq<(int, int)>,
    at: Seq<int>,
    lits: Seq<EffLit>,
    ats: Seq<int>,
) -> bool {
    let shown = left_over(segs, cuts, segs.len() as int);
    &&& segments_fit(t, segs)
    &&& segs.len() <= usize::MAX
    &&& rendered.len() <= usize::MAX
    &&& rendering(t, segs, rendered, cuts, at)
    &&& literals_are(lits, shown, cuts)
    &&& outer_literals(lits) == lits
    &&& ats.len() == lits.len()
    &&& forall|j: int| 0 <= j < lits.len() ==> #[trigger] ats[j] == at[shown[j]]
}

/// The spans from the `i`-th literal on: what stands before it, the literal, and the rest.
#[verifier::spinoff_prover]
proof fn lemma_span_step(
    t: Seq<u8>,
    segs: Seq<Segment>,
    rendered: Seq<u8>,
    cuts: Seq<(int, int)>,
    at: Seq<int>,
    lits: Seq<EffLit>,
    ats: Seq<int>,
    i: int,
) -> (head: Seq<RenderedSpan>)
    requires
        placed_as_rendered(t, segs, rendered, cuts, at, lits, ats),
        0 <= i <= lits.len(),
    ensures
        ({
            let shown = left_over(segs, cuts, segs.len() as int);
            let pos = covered(segs, cuts, at, i);
            let s = if i == 0 {
                0
            } else {
                shown[i - 1] + 1
            };
            let spans = anchored_spans(t, segs, lits, ats, rendered, i, pos);
            if i == lits.len() {
                spans == head && if pos < rendered.len() {
                    head == seq![
                        span(pos, rendered.len() as int, between(segs, s, segs.len() as int)),
                    ]
                } else {
                    head == Seq::<RenderedSpan>::empty()
                }
            } else {
                let k = shown[i];
                let next = covered(segs, cuts, at, i + 1);
                &&& 0 <= k < segs.len()
                &&& pos <= at[k] <= at[k + 1]
                &&& next == at[k + 1]
                &&& head.len() > 0
                &&& is_text_of(head.last(), cuts, at, k)
                &&& head.drop_last() == if pos < at[k] {
                    seq![span(pos, at[k], between(segs, s, k))]
                } else {
                    seq![]
                }
                &&& spans == head + anchored_spans(t, segs, lits, ats, rendered, i + 1, next)
            }
        }),
{
    reveal(placed_as_rendered);
    let n = segs.len() as int;
    let shown = left_over(segs, cuts, n);
    lemma_left_over(segs, cuts, n);
    let pos = covered(segs, cuts, at, i);
    assert forall|k: int| 0 <= k < segs.len() implies ((#[trigger] segs[k]).kind matches
        SegmentKind::Action { class, .. } ==> class == ActionClass::Value) by {
        assert(renders_at(t, segs, rendered, cuts, at, k));
    }
    let after = segment_before(lits, i);
    let s = seg_after(after);
    if i > 0 {
        assert(lits[i - 1].segment == shown[i - 1]);
        assert(stays(segs, cuts, shown[i - 1]));
    }
    let spans = anchored_spans(t, segs, lits, ats, rendered, i, pos);
    if i == lits.len() {
        lemma_no_controls(segs, s, n);
        spans
    } else {
        let k = shown[i];
        let l = lits[i];
        assert(stays(segs, cuts, k));
        assert(renders_at(t, segs, rendered, cuts, at, k));
        assert(leaves(t, segs, k, cuts[k]));
        assert(rendered.subrange(at[k], at[k + 1]).len() == t.subrange(
            cuts[k].0,
            cuts[k].1,
        ).len());
        assert(ats[i] == at[k]);
        let end = ats[i] + needle(t, l).len();
        assert(end == at[k + 1]);
        let own = literal_span(ats[i], end, l, false);
        if i > 0 {
            assert(shown[i - 1] < shown[i]);
            lemma_at_ascends(t, segs, rendered, cuts, at, shown[i - 1] + 1, k);
        }
        lemma_no_controls(segs, s, k);
        let gap = if ats[i] > pos {
            gap_spans(t, segs, lits, after, Some(l.segment), (pos, ats[i]), rendered)
        } else {
            seq![]
        };
        let head = gap.push(own);
        assert(head.drop_last() =~= gap);
        head
    }
}

proof fn lemma_texts_are(
    t: Seq<u8>,
    segs: Seq<Segment>,
    rendered: Seq<u8>,
    cuts: Seq<(int, int)>,
    at: Seq<int>,
    lits: Seq<EffLit>,
    ats: Seq<int>,
    i: int,
    j: int,
)
    requires
        placed_as_rendered(t, segs, rendered, cuts, at, lits, ats),
        0 <= i <= j < lits.len(),
    ensures
        has_text(
            anchored_spans(t, segs, lits, ats, rendered, i, covered(segs, cuts, at, i)),
            cuts,
            at,
            left_over(segs, cuts, segs.len() as int)[j],
        ),
    decreases j - i,
{
    let head = lemma_span_step(t, segs, rendered, cuts, at, lits, ats, i);
    let spans = anchored_spans(t, segs, lits, ats, rendered, i, covered(segs, cuts, at, i));
    let k = left_over(segs, cuts, segs.len() as int)[j];
    if j == i {
        assert(spans[head.len() - 1] == head.last());
    } else {
        lemma_texts_are(t, segs, rendered, cuts, at, lits, ats, i + 1, j);
        let rest = anchored_spans(
            t,
            segs,
            lits,
            ats,
            rendered,
            i + 1,
            covered(segs, cuts, at, i + 1),
        );
        let x = choose|x: int| 0 <= x < rest.len() && is_text_of(#[trigger] rest[x], cuts, at, k);
        assert(spans[head.len() + x] == rest[x]);
    }
}

proof fn lemma_only_texts(
    t: Seq<u8>,
    segs: Seq<Segment>,
    rendered: Seq<u8>,
    cuts: Seq<(int, int)>,
    at: Seq<int>,
    lits: Seq<EffLit>,
    ats: Seq<int>,
    i: int,
    x: int,
) -> (j: int)
    requires
        placed_as_rendered(t, segs, rendered, cuts, at, lits, ats),
        0 <= i <= lits.len(),
        ({
            let spans = anchored_spans(
                t,
                segs,
                lits,
                ats,
                rendered,
                i,
                covered(segs, cuts, at, i),
            );
            0 <= x < spans.len() && spans[x].origin is Literal
        }),
    ensures
        0 <= j < lits.len(),
        is_text_of(
            anchored_spans(t, segs, lits, ats, rendered, i, covered(segs, cuts, at, i))[x],
            cuts,
            at,
            left_over(segs, cuts, segs.len() as int)[j],
        ),
    decreases lits.len() - i,
{
    let head = lemma_span_step(t, segs, rendered, cuts, at, lits, ats, i);
    let spans = anchored_spans(t, segs, lits, ats, rendered, i, covered(segs, cuts, at, i));
    if i == lits.len() {
        assert(x == 0);
        assert(!(spans[0].origin is Literal));
        i
    } else if x < head.len() {
        assert(spans[x] == head[x]);
        if x < head.len() - 1 {
            assert(head.drop_last()[x] == head[x]);
            assert(x == 0);
            assert(!(head.drop_last()[0].origin is Literal));
        }
        i
    } else {
        let rest = anchored_spans(
            t,
            segs,
            lits,
            ats,
            rendered,
            i + 1,
            covered(segs, cuts, at, i + 1),
        );
        assert(spans[x] == rest[x - head.len()]);
        lemma_only_texts(t, segs, rendered, cuts, at, lits, ats, i + 1, x - head.len())
    }
}

#[verifier::spinoff_prover]
proof fn lemma_actions_are(
    t: Seq<u8>,
    segs: Seq<Segment>,
    rendered: Seq<u8>,
    cuts: Seq<(int, int)>,
    at: Seq<int>,
    lits: Seq<EffLit>,
    ats: Seq<int>,
    i: int,
    k: int,
)
    requires
        placed_as_rendered(t, segs, rendered, cuts, at, lits, ats),
        0 <= i <= lits.len(),
        alone(segs, cuts, at, k),
        covered(segs, cuts, at, i) <= at[k],
    ensures
        has_action(
            anchored_spans(t, segs, lits, ats, rendered, i, covered(segs, cuts, at, i)),
            at,
            k,
        ),
    decreases lits.len() - i,
{
    reveal(placed_as_rendered);
    let n = segs.len() as int;
    let shown = left_over(segs, cuts, n);
    let pos = covered(segs, cuts, at, i);
    let head = lemma_span_step(t, segs, rendered, cuts, at, lits, ats, i);
    let spans = anchored_spans(t, segs, lits, ats, rendered, i, pos);
    let s = if i == 0 {
        0
    } else {
        shown[i - 1] + 1
    };
    assert(renders_at(t, segs, rendered, cuts, at, k));
    if i == lits.len() {
        lemma_alone_behind(t, segs, rendered, cuts, at, i, pos, k);
        lemma_one_value(segs, s, n, k);
        assert(spans[0] == span(pos, rendered.len() as int, between(segs, s, n)));
    } else {
        let k0 = shown[i];
        let next = covered(segs, cuts, at, i + 1);
        let rest = anchored_spans(t, segs, lits, ats, rendered, i + 1, next);
        if next <= at[k] {
            lemma_actions_are(t, segs, rendered, cuts, at, lits, ats, i + 1, k);
            let x = choose|x: int|
                0 <= x < rest.len() && (#[trigger] rest[x]).range.start == at[k]
                    && rest[x].range.end == at[k + 1] && rest[x].origin == (SpanOrigin::Action {
                    segment: k as usize,
                });
            assert(spans[head.len() + x] == rest[x]);
        } else {
            lemma_left_over(segs, cuts, n);
            assert(stays(segs, cuts, k0));
            assert(k < k0) by {
                if k > k0 {
                    lemma_at_ascends(t, segs, rendered, cuts, at, k0 + 1, k);
                }
            }
            lemma_alone_between(t, segs, rendered, cuts, at, i, pos, k);
            lemma_one_value(segs, s, k0, k);
            assert(head.drop_last()[0] == head[0]);
            assert(spans[0] == head[0]);
        }
    }
}

/// Value action `k` wrote something, and stands between two literals of which something is left,
/// or at an end of the template.
pub open spec fn alone(segs: Seq<Segment>, cuts: Seq<(int, int)>, at: Seq<int>, k: int) -> bool {
    &&& 0 <= k < segs.len()
    &&& segs[k].kind matches SegmentKind::Action { class: ActionClass::Value, .. }
    &&& at[k] < at[k + 1]
    &&& k == 0 || stays(segs, cuts, k - 1)
    &&& k == segs.len() - 1 || stays(segs, cuts, k + 1)
}

proof fn lemma_one_value(segs: Seq<Segment>, s: int, e: int, k: int)
    requires
        s == k,
        e == k + 1,
        0 <= k < segs.len() <= usize::MAX,
        segs[k].kind matches SegmentKind::Action { class: ActionClass::Value, .. },
    ensures
        between(segs, s, e) == (SpanOrigin::Action { segment: k as usize }),
{
    reveal_with_fuel(profile, 3);
}

/// An action that stands alone behind the last literal ends the template.
proof fn lemma_alone_behind(
    t: Seq<u8>,
    segs: Seq<Segment>,
    rendered: Seq<u8>,
    cuts: Seq<(int, int)>,
    at: Seq<int>,
    i: int,
    pos: int,
    k: int,
)
    requires
        rendering(t, segs, rendered, cuts, at),
        i == left_over(segs, cuts, segs.len() as int).len(),
        pos == if i == 0 {
            0
        } else {
            at[left_over(segs, cuts, segs.len() as int)[i - 1] + 1]
        },
        alone(segs, cuts, at, k),
        pos <= at[k],
    ensures
        k == segs.len() - 1,
        at[k] == pos,
        k == if i == 0 {
            0
        } else {
            left_over(segs, cuts, segs.len() as int)[i - 1] + 1
        },
{
    let n = segs.len() as int;
    let shown = left_over(segs, cuts, n);
    lemma_left_over(segs, cuts, n);
    assert(renders_at(t, segs, rendered, cuts, at, k));
    if k != n - 1 {
        let m = choose|m: int| 0 <= m < shown.len() && shown[m] == k + 1;
        if m < i - 1 {
            assert(shown[m] < shown[i - 1]);
        }
        lemma_at_ascends(t, segs, rendered, cuts, at, k + 1, shown[i - 1] + 1);
    }
    if k > 0 {
        let m = choose|m: int| 0 <= m < shown.len() && shown[m] == k - 1;
        if m < i - 1 {
            assert(shown[m] < shown[i - 1]);
        }
    } else if i > 0 {
        lemma_at_ascends(t, segs, rendered, cuts, at, 1, shown[i - 1] + 1);
        assert(shown[i - 1] != 0);
    }
}

/// An action that stands alone before the `i`-th literal fills the gap before it.
proof fn lemma_alone_between(
    t: Seq<u8>,
    segs: Seq<Segment>,
    rendered: Seq<u8>,
    cuts: Seq<(int, int)>,
    at: Seq<int>,
    i: int,
    pos: int,
    k: int,
)
    requires
        rendering(t, segs, rendered, cuts, at),
        0 <= i < left_over(segs, cuts, segs.len() as int).len(),
        pos == if i == 0 {
            0
        } else {
            at[left_over(segs, cuts, segs.len() as int)[i - 1] + 1]
        },
        alone(segs, cuts, at, k),
        pos <= at[k],
        k < left_over(segs, cuts, segs.len() as int)[i],
    ensures
        k + 1 == left_over(segs, cuts, segs.len() as int)[i],
        at[k] == pos,
        k == if i == 0 {
            0
        } else {
            left_over(segs, cuts, segs.len() as int)[i - 1] + 1
        },
{
    let n = segs.len() as int;
    let shown = left_over(segs, cuts, n);
    lemma_left_over(segs, cuts, n);
    assert(renders_at(t, segs, rendered, cuts, at, k));
    assert(stays(segs, cuts, shown[i]));
    if i > 0 {
        assert(shown[i - 1] < shown[i]);
        assert(stays(segs, cuts, shown[i - 1]));
        assert(k > shown[i - 1]) by {
            if k < shown[i - 1] {
                lemma_at_ascends(t, segs, rendered, cuts, at, k + 1, shown[i - 1]);
                assert(renders_at(t, segs, rendered, cuts, at, shown[i - 1]));
            }
        }
    }
    let m = choose|m: int| 0 <= m < shown.len() && shown[m] == k + 1;
    if m < i {
        if m < i - 1 {
            assert(shown[m] < shown[i - 1]);
        }
    } else if m > i {
        assert(shown[i] < shown[m]);
    }
    if k > 0 {
        let p = choose|p: int| 0 <= p < shown.len() && shown[p] == k - 1;
        if p >= i {
            if p > i {
                assert(shown[i] < shown[p]);
            }
        } else if p < i - 1 {
            assert(shown[p] < shown[i - 1]);
        }
    }
}

/// What rendering leaves of a template is found again. Where a template without control blocks
/// renders to its literals, each without the white space that the markers next to it take away,
/// and to anything for each action, and no literal stands in the output before its place, the
/// map has each literal at its place, free to edit, and no other literal; and what an action
/// alone between two of them wrote is told to be of that action.
pub proof fn law_rendered_literals_are_found_again(
    t: Seq<u8>,
    segs: Seq<Segment>,
    rendered: Seq<u8>,
    cuts: Seq<(int, int)>,
    at: Seq<int>,
)
    requires
        segments_fit(t, segs),
        literals_apart(segs),
        t.len() <= usize::MAX,
        segs.len() <= usize::MAX,
        rendered.len() <= usize::MAX,
        rendering(t, segs, rendered, cuts, at),
        no_earlier_occurrence(t, segs, rendered, cuts, at),
    ensures
        forall|k: int| #[trigger]
            stays(segs, cuts, k) ==> has_text(spans_of(t, segs, rendered), cuts, at, k),
        forall|x: int|
            0 <= x < spans_of(t, segs, rendered).len() && (#[trigger] spans_of(
                t,
                segs,
                rendered,
            )[x]).origin is Literal ==> exists|k: int| #[trigger]
                stays(segs, cuts, k) && is_text_of(
                    spans_of(t, segs, rendered)[x],
                    cuts,
                    at,
                    k,
                ),
        forall|k: int| #[trigger]
            alone(segs, cuts, at, k) ==> has_action(spans_of(t, segs, rendered), at, k),
{
    let n = segs.len() as int;
    let shown = left_over(segs, cuts, n);
    let lits = effective(t, segs, n);
    lemma_left_over(segs, cuts, n);
    lemma_effective_left(t, segs, rendered, cuts, at, n);
    lemma_all_outer(lits);
    lemma_places_are(t, segs, rendered, cuts, at, lits, 0);
    let ats = places(t, segs, lits, rendered, 0, 0);
    let spans = spans_of(t, segs, rendered);
    reveal(placed_as_rendered);
    assert forall|j: int| 0 <= j < lits.len() implies #[trigger] ats[j] == at[shown[j]] by {
        assert(ats[j - 0] == at[shown[j]]);
    }
    assert(placed_as_rendered(t, segs, rendered, cuts, at, lits, ats));
    assert forall|k: int| #[trigger] stays(segs, cuts, k) implies has_text(
        spans,
        cuts,
        at,
        k,
    ) by {
        let j = choose|j: int| 0 <= j < shown.len() && shown[j] == k;
        lemma_texts_are(t, segs, rendered, cuts, at, lits, ats, 0, j);
    }
    assert forall|x: int|
        0 <= x < spans.len() && (#[trigger] spans[x]).origin is Literal implies exists|k: int|
        #[trigger] stays(segs, cuts, k) && is_text_of(spans[x], cuts, at, k) by {
        let j = lemma_only_texts(t, segs, rendered, cuts, at, lits, ats, 0, x);
        assert(stays(segs, cuts, shown[j]));
    }
    assert forall|k: int| #[trigger] alone(segs, cuts, at, k) implies has_action(
        spans,
        at,
        k,
    ) by {
        assert(renders_at(t, segs, rendered, cuts, at, k));
        lemma_actions_are(t, segs, rendered, cuts, at, lits, ats, 0, k);
    }
}

/// Without actions there is nothing between the literals.
proof fn lemma_no_room(
    t: Seq<u8>,
    segs: Seq<Segment>,
    rendered: Seq<u8>,
    cuts: Seq<(int, int)>,
    at: Seq<int>,
    k: int,
    q: int,
)
    requires
        segments_fit(t, segs),
        rendering(t, segs, rendered, cuts, at),
        forall|i: int| 0 <= i < segs.len() ==> !((#[trigger] segs[i]).kind is Action),
        0 <= k <= segs.len(),
        0 <= q < at[k],
    ensures
        exists|j: int| 0 <= j < k && #[trigger] stays(segs, cuts, j) && at[j] <= q < at[j + 1],
    decreases k,
{
    if k > 0 {
        assert(renders_at(t, segs, rendered, cuts, at, k - 1));
        assert(!(segs[k - 1].kind is Action));
        if q >= at[k - 1] {
            assert(segs[k - 1].kind == SegmentKind::Literal);
            assert(leaves(t, segs, k - 1, cuts[k - 1]));
            assert(rendered.subrange(at[k - 1], at[k]).len() == t.subrange(
                cuts[k - 1].0,
                cuts[k - 1].1,
            ).len());
            assert(stays(segs, cuts, k - 1));
        } else {
            lemma_no_room(t, segs, rendered, cuts, at, k - 1, q);
        }
    }
}

/// The byte lies in a literal that is free to edit.
pub open spec fn free_at(spans: Seq<RenderedSpan>, byte: usize) -> bool {
    exists|x: int|
        0 <= x < spans.len() && holds(#[trigger] spans[x], byte) && (
        spans[x].origin matches SpanOrigin::Literal { repeated, .. } && !repeated)
}

/// Comments hide nothing: where a template of literals and comments alone renders to its
/// literals, each without the white space that the comments next to it take away, every byte of
/// the output belongs to a literal and is free to edit, and none is unknown.
pub proof fn law_comments_protect_nothing(
    t: Seq<u8>,
    segs: Seq<Segment>,
    rendered: Seq<u8>,
    cuts: Seq<(int, int)>,
    at: Seq<int>,
)
    requires
        segments_fit(t, segs),
        literals_apart(segs),
        t.len() <= usize::MAX,
        segs.len() <= usize::MAX,
        rendered.len() <= usize::MAX,
        rendering(t, segs, rendered, cuts, at),
        forall|k: int| 0 <= k < segs.len() ==> !((#[trigger] segs[k]).kind is Action),
    ensures
        forall|byte: usize|
            byte < rendered.len() ==> #[trigger] free_at(spans_of(t, segs, rendered), byte),
        forall|x: int|
            0 <= x < spans_of(t, segs, rendered).len() && (#[trigger] spans_of(
                t,
                segs,
                rendered,
            )[x]).range.start < spans_of(t, segs, rendered)[x].range.end ==> spans_of(
                t,
                segs,
                rendered,
            )[x].origin is Literal,
{
    let n = segs.len() as int;
    let spans = spans_of(t, segs, rendered);
    assert(no_earlier_occurrence(t, segs, rendered, cuts, at)) by {
        assert forall|k: int, q: int|
            #![trigger stays(segs, cuts, k), occurs_at(rendered, t.subrange(cuts[k].0, cuts[k].1), q)]
            stays(segs, cuts, k) && k < segs.len() - 1 && 0 <= q < at[k] && (forall|j: int|
                0 <= j < k && #[trigger] stays(segs, cuts, j) ==> at[j + 1] <= q) implies !occurs_at(
            rendered,
            t.subrange(cuts[k].0, cuts[k].1),
            q,
        ) by {
            lemma_no_room(t, segs, rendered, cuts, at, k, q);
        }
    }
    law_rendered_literals_are_found_again(t, segs, rendered, cuts, at);
    assert forall|byte: usize| byte < rendered.len() implies #[trigger] free_at(spans, byte) by {
        lemma_no_room(t, segs, rendered, cuts, at, n, byte as int);
        let j = choose|j: int|
            0 <= j < n && #[trigger] stays(segs, cuts, j) && at[j] <= byte < at[j + 1];
        let x = choose|x: int|
            0 <= x < spans.len() && is_text_of(#[trigger] spans[x], cuts, at, j);
        assert(holds(spans[x], byte));
    }
    law_spans_tile_the_output(t, segs, rendered);
    assert forall|x: int|
        0 <= x < spans.len() && (#[trigger] spans[x]).range.start
            < spans[x].range.end implies spans[x].origin is Literal by {
        lemma_spans_order(spans, 0, rendered.len() as int, x, x);
        let byte = spans[x].range.start;
        assert(free_at(spans, byte));
        let y = choose|y: int|
            0 <= y < spans.len() && holds(#[trigger] spans[y], byte) && (
            spans[y].origin matches SpanOrigin::Literal { repeated, .. } && !repeated);
        if x < y {
            lemma_spans_order(spans, 0, rendered.len() as int, x, y);
        } else if y < x {
            lemma_spans_order(spans, 0, rendered.len() as int, y, x);
        }
    }
}

// ---------------------------------------------------------------------------
// Blocks

/// Blanks, a word, and a blank behind it.
pub open spec fn starts_with_word(s: Seq<u8>, blanks: nat, word: Seq<u8>) -> bool {
    &&& blanks + word.len() < s.len()
    &&& forall|k: int| 0 <= k < blanks ==> #[trigger] s[k] == 0x20
    &&& s.subrange(blanks as int, (blanks + word.len()) as int) == word
    &&& s[(blanks + word.len()) as int] == 0x20
}

/// A word of small letters.
pub open spec fn is_small_word(word: Seq<u8>) -> bool {
    &&& word.len() > 0
    &&& forall|k: int| 0 <= k < word.len() ==> 0x61 <= #[trigger] word[k] <= 0x7a
}

proof fn lemma_braces_back(s: Seq<u8>, m: int)
    requires
        0 < m <= s.len(),
        s[m - 1] != 0x7d,
    ensures
        m <= strip_braces_back(s).len() <= s.len(),
        strip_braces_back(s) == s.take(strip_braces_back(s).len() as int),
    decreases s.len(),
{
    if s.len() >= 2 && s[s.len() - 1] == 0x7d && s[s.len() - 2] == 0x7d {
        let t = s.subrange(0, s.len() - 2);
        lemma_braces_back(t, m);
        assert(t.take(strip_braces_back(t).len() as int) =~= s.take(
            strip_braces_back(t).len() as int,
        ));
    } else {
        assert(s.take(s.len() as int) =~= s);
    }
}

proof fn lemma_dashes_back(s: Seq<u8>, m: int)
    requires
        0 < m <= s.len(),
        s[m - 1] != 0x2d,
    ensures
        m <= strip_dashes_back(s).len() <= s.len(),
        strip_dashes_back(s) == s.take(strip_dashes_back(s).len() as int),
    decreases s.len(),
{
    if s.len() >= 1 && s[s.len() - 1] == 0x2d {
        let t = s.subrange(0, s.len() - 1);
        lemma_dashes_back(t, m);
        assert(t.take(strip_dashes_back(t).len() as int) =~= s.take(
            strip_dashes_back(t).len() as int,
        ));
    } else {
        assert(s.take(s.len() as int) =~= s);
    }
}

proof fn lemma_word_found(s: Seq<u8>, blanks: nat, word: Seq<u8>)
    requires
        is_small_word(word),
        starts_with_word(s, blanks, word),
    ensures
        first_word_spec(s) == word,
{
    let n = blanks as int;
    assert forall|k: int| n <= k < n + word.len() implies 0x61 <= #[trigger] s[k] <= 0x7a by {
        assert(s.subrange(n, n + word.len())[k - n] == word[k - n]);
    }
    lemma_blanks_skipped(s, 0, n);
    lemma_letters_passed(s, n, n + word.len());
}

proof fn lemma_blanks_skipped(s: Seq<u8>, i: int, n: int)
    requires
        0 <= i <= n < s.len(),
        forall|k: int| 0 <= k < n ==> #[trigger] s[k] == 0x20,
        0x61 <= s[n] <= 0x7a,
    ensures
        skip_ws(s, i) == n,
    decreases n - i,
{
    if i < n {
        lemma_blanks_skipped(s, i + 1, n);
    }
}

proof fn lemma_letters_passed(s: Seq<u8>, i: int, e: int)
    requires
        0 <= i <= e < s.len(),
        forall|k: int| i <= k < e ==> 0x61 <= #[trigger] s[k] <= 0x7a,
        s[e] == 0x20,
    ensures
        find_ws(s, i) == e,
    decreases e - i,
{
    if i < e {
        lemma_letters_passed(s, i + 1, e);
    }
}

/// An action opens a `range` block where its first word is `range`, with a dash in front of it or
/// without, and whatever stands behind.
pub proof fn law_range_blocks_are_known_by_their_word(
    dashed: bool,
    blanks: nat,
    word: Seq<u8>,
    text: Seq<u8>,
)
    requires
        is_small_word(word),
        text.len() >= 4,
        text[0] == 0x7b && text[1] == 0x7b,
        text[text.len() - 2] == 0x7d && text[text.len() - 1] == 0x7d,
        dashed ==> text[2] == 0x2d,
        starts_with_word(
            text.skip(if dashed {
                3
            } else {
                2
            }),
            blanks,
            word,
        ),
    ensures
        names_range(text) <==> word == "range".spec_bytes(),
{
    let from = if dashed {
        3
    } else {
        2int
    };
    let body = text.skip(from);
    let m = (blanks + word.len()) as int;
    assert(body[blanks as int] == word[0]) by {
        assert(body.subrange(blanks as int, m)[0] == word[0]);
    }
    assert(body[0] == 0x20 || body[0] == word[0]);
    let s1 = text.subrange(2, text.len() as int);
    assert(strip_braces_front(text) == strip_braces_front(s1));
    assert(strip_braces_front(s1) == s1);
    if dashed {
        assert(s1.subrange(1, s1.len() as int) =~= body);
        assert(strip_dashes_front(s1) == strip_dashes_front(body));
    } else {
        assert(s1 =~= body);
    }
    assert(strip_dashes_front(body) == body);
    lemma_braces_back(body, m + 1);
    let s3 = strip_braces_back(body);
    lemma_dashes_back(s3, m + 1);
    let s4 = strip_dashes_back(s3);
    assert(s4 =~= body.take(s4.len() as int));
    assert(s4.subrange(blanks as int, m) =~= word);
    lemma_word_found(s4, blanks, word);
}

/// How many blocks are open behind the segments from `i` to `n`, beyond those that were before.
pub open spec fn balance(segs: Seq<Segment>, i: int, n: int) -> int
    decreases n - i,
{
    if n <= i {
        0
    } else {
        balance(segs, i, n - 1) + match segs[n - 1].kind {
            SegmentKind::Action { class: ActionClass::ControlOpen, .. } => 1int,
            SegmentKind::Action { class: ActionClass::ControlClose, .. } => -1int,
            _ => 0int,
        }
    }
}

/// The segment opens a block that is not closed before the `n`-th.
pub open spec fn still_open(segs: Seq<Segment>, i: int, n: int) -> bool {
    &&& 0 <= i < n
    &&& segs[i].kind matches SegmentKind::Action { class: ActionClass::ControlOpen, .. }
    &&& forall|m: int| i < m <= n ==> #[trigger] balance(segs, i + 1, m) >= 0
}

proof fn lemma_stays_open(t: Seq<u8>, segs: Seq<Segment>, i: int, n: int)
    requires
        n <= segs.len(),
        still_open(segs, i, n),
    ensures
        ({
            let p = open_blocks(t, segs, i).len();
            &&& open_blocks(t, segs, n).len() == p + 1 + balance(segs, i + 1, n)
            &&& open_blocks(t, segs, n)[p as int] == names_range(seg_text(t, segs[i]))
        }),
    decreases n,
{
    if n > i + 1 {
        assert forall|m: int| i < m <= n - 1 implies #[trigger] balance(segs, i + 1, m) >= 0 by {}
        lemma_stays_open(t, segs, i, n - 1);
        assert(balance(segs, i + 1, n) >= 0);
    }
}

proof fn lemma_opened_by(t: Seq<u8>, segs: Seq<Segment>, n: int, p: int) -> (i: int)
    requires
        0 <= n <= segs.len(),
        0 <= p < open_blocks(t, segs, n).len(),
    ensures
        still_open(segs, i, n),
        open_blocks(t, segs, i).len() == p,
    decreases n,
{
    let open = open_blocks(t, segs, n - 1);
    if p < open.len() {
        let i = lemma_opened_by(t, segs, n - 1, p);
        lemma_stays_open(t, segs, i, n - 1);
        assert forall|m: int| i < m <= n implies #[trigger] balance(segs, i + 1, m) >= 0 by {
            if m < n {
                assert(balance(segs, i + 1, m) >= 0);
            }
        }
        i
    } else {
        assert forall|m: int| n - 1 < m <= n implies #[trigger] balance(segs, n, m) >= 0 by {}
        n - 1
    }
}

/// What stands in a `range` block, at whatever depth, is taken for repeated text: a block is
/// around it exactly where it was opened before and not closed since.
pub proof fn law_blocks_reach_to_their_end(t: Seq<u8>, segs: Seq<Segment>, n: int)
    requires
        0 <= n <= segs.len(),
    ensures
        open_blocks(t, segs, n).contains(true) <==> exists|i: int| #[trigger]
            still_open(segs, i, n) && names_range(seg_text(t, segs[i])),
{
    let open = open_blocks(t, segs, n);
    if open.contains(true) {
        let p = open.index_of(true);
        let i = lemma_opened_by(t, segs, n, p);
        lemma_stays_open(t, segs, i, n);
    }
    if exists|i: int| #[trigger] still_open(segs, i, n) && names_range(seg_text(t, segs[i])) {
        let i = choose|i: int| #[trigger]
            still_open(segs, i, n) && names_range(seg_text(t, segs[i]));
        lemma_stays_open(t, segs, i, n);
        assert(open[open_blocks(t, segs, i).len() as int]);
    }
}

/// The literal was found in the output, and not more than once.
pub open spec fn is_found(spans: Seq<RenderedSpan>, l: EffLit) -> bool {
    exists|x: int| 0 <= x < spans.len() && names_literal(#[trigger] spans[x], l)
}

/// The stretch shows the literal, which occurs once.
pub open spec fn names_literal(sp: RenderedSpan, l: EffLit) -> bool {
    sp.origin == (SpanOrigin::Literal { segment: l.segment, src: l.src, repeated: false })
}

/// The text from `p` on stands behind all earlier literals that are shown.
pub open spec fn behind_earlier(spans: Seq<RenderedSpan>, l: EffLit, p: int) -> bool {
    forall|x: int|
        0 <= x < spans.len() && ((#[trigger] spans[x]).origin matches SpanOrigin::Literal {
            segment,
            ..
        } && segment < l.segment) ==> spans[x].range.end <= p
}

/// The same of matches.
spec fn behind_matches(ms: Seq<Match>, l: EffLit, p: int) -> bool {
    forall|x: int|
        0 <= x < ms.len() && (#[trigger] ms[x]).lit.segment < l.segment ==> ms[x].end <= p
}

/// The literal is among the matches.
spec fn is_matched(ms: Seq<Match>, l: EffLit) -> bool {
    exists|x: int| 0 <= x < ms.len() && (#[trigger] ms[x]).lit == l
}

proof fn lemma_pass_misses_nothing(
    t: Seq<u8>,
    inner: Seq<EffLit>,
    g: Seq<u8>,
    k: int,
    cur: int,
    j: int,
)
    requires
        0 <= k <= inner.len(),
        0 <= cur <= g.len() <= usize::MAX,
        k <= j < inner.len() || j == -1,
        forall|a: int, b: int|
            #![trigger inner[a], inner[b]]
            0 <= a < b < inner.len() ==> inner[a].segment < inner[b].segment,
    ensures
        ({
            let found = pass(t, inner, g, k, cur).0;
            &&& found.len() <= inner.len() - k
            &&& forall|x: int| 0 <= x < found.len() ==> (#[trigger] found[x]).end <= g.len()
            &&& j >= 0 && !is_matched(found, inner[j]) ==> forall|p: int|
                cur <= p && behind_matches(found, inner[j], p) ==> !#[trigger] occurs_at(
                    g,
                    needle(t, inner[j]),
                    p,
                )
        }),
    decreases inner.len() - k,
{
    if k < inner.len() {
        let n = needle(t, inner[k]);
        let found = pass(t, inner, g, k, cur).0;
        lemma_find_from(g, n, cur);
        match find_from(g, n, cur) {
            Some(at) => {
                let rest = pass(t, inner, g, k + 1, at + n.len()).0;
                assert(found[0].lit == inner[k] && found[0].end == at + n.len());
                assert forall|x: int| 0 <= x < rest.len() implies found[x + 1] == #[trigger] rest[x] by {}
                if j > k {
                    lemma_pass_misses_nothing(t, inner, g, k + 1, at + n.len(), j);
                    if !is_matched(found, inner[j]) {
                        assert(!is_matched(rest, inner[j])) by {
                            if is_matched(rest, inner[j]) {
                                let x = choose|x: int|
                                    0 <= x < rest.len() && (#[trigger] rest[x]).lit == inner[j];
                                assert(found[x + 1].lit == inner[j]);
                            }
                        }
                        assert forall|p: int|
                            cur <= p && behind_matches(found, inner[j], p) implies !#[trigger] occurs_at(
                            g,
                            needle(t, inner[j]),
                            p,
                        ) by {
                            assert(found[0].end <= p);
                            assert(behind_matches(rest, inner[j], p)) by {
                                assert forall|x: int|
                                    0 <= x < rest.len() && (#[trigger] rest[x]).lit.segment
                                        < inner[j].segment implies rest[x].end <= p by {
                                    assert(found[x + 1] == rest[x]);
                                }
                            }
                        }
                    }
                } else {
                    lemma_pass_misses_nothing(t, inner, g, k + 1, at + n.len(), -1);
                }
                assert forall|x: int| 0 <= x < found.len() implies (#[trigger] found[x]).end
                    <= g.len() by {
                    if x > 0 {
                        assert(found[x] == rest[x - 1]);
                    }
                }
            },
            None => {
                lemma_pass_misses_nothing(
                    t,
                    inner,
                    g,
                    k + 1,
                    cur,
                    if j > k {
                        j
                    } else {
                        -1
                    },
                );
            },
        }
    }
}

proof fn lemma_matches_are_shown(
    segs: Seq<Segment>,
    local: Seq<Match>,
    k: int,
    pos: int,
    prev: Option<usize>,
    before: Option<usize>,
    gap: (int, int),
    repeated: bool,
    x: int,
)
    requires
        0 <= k <= x < local.len(),
    ensures
        matched_spans(segs, local, k, pos, prev, before, gap, repeated).contains(
            literal_span(
                gap.0 + local[x].start,
                gap.0 + local[x].end,
                local[x].lit,
                repeated || local[x].lit.in_range_block,
            ),
        ),
    decreases local.len() - k,
{
    let all = matched_spans(segs, local, k, pos, prev, before, gap, repeated);
    let m = local[k];
    let rest = matched_spans(
        segs,
        local,
        k + 1,
        m.end as int,
        Some(m.lit.segment),
        before,
        gap,
        repeated,
    );
    let own = literal_span(
        gap.0 + m.start,
        gap.0 + m.end,
        m.lit,
        repeated || m.lit.in_range_block,
    );
    let front = (all.len() - rest.len()) as int;
    assert(all[front - 1] == own);
    if x > k {
        lemma_matches_are_shown(
            segs,
            local,
            k + 1,
            m.end as int,
            Some(m.lit.segment),
            before,
            gap,
            repeated,
            x,
        );
        let want = literal_span(
            gap.0 + local[x].start,
            gap.0 + local[x].end,
            local[x].lit,
            repeated || local[x].lit.in_range_block,
        );
        let y = rest.index_of(want);
        assert(all[front + y] == want);
    }
}

/// Text in a block that may be left out, and in none that is repeated, is found where it is in
/// the output: between two literals of the outside it is only missing where it does not stand
/// behind those that come before it.
pub proof fn law_optional_literals_are_found(
    t: Seq<u8>,
    segs: Seq<Segment>,
    lits: Seq<EffLit>,
    after: Option<usize>,
    before: Option<usize>,
    gap: (int, int),
    rendered: Seq<u8>,
    l: EffLit,
    p: int,
)
    requires
        literals_ascend(lits, -1, segs.len() as int),
        forall|k: int| 0 <= k < lits.len() ==> !(#[trigger] lits[k]).in_range_block,
        0 <= gap.0 <= gap.1 <= rendered.len() <= usize::MAX,
        profile(segs, seg_after(after), seg_before(segs, before)).controls > 0,
        inner_literals(lits, seg_after(after), seg_before(segs, before)).contains(l),
        gap.0 <= p && p + needle(t, l).len() <= gap.1,
        occurs_at(rendered, needle(t, l), p),
    ensures
        ({
            let spans = gap_spans(t, segs, lits, after, before, gap, rendered);
            is_found(spans, l) || !behind_earlier(spans, l, p)
        }),
{
    let (s, e) = (seg_after(after), seg_before(segs, before));
    let inner = inner_literals(lits, s, e);
    let g = rendered.subrange(gap.0, gap.1);
    lemma_filters_ascend(lits, -1, segs.len() as int, s, e);
    assert forall|k: int| 0 <= k < inner.len() implies !(#[trigger] inner[k]).in_range_block by {
        assert(inner.contains(inner[k]));
        assert(lits.contains(inner[k]));
        let i = lits.index_of(inner[k]);
        assert(!lits[i].in_range_block);
    }
    assert(!any_in_range(inner));
    let j = inner.index_of(l);
    let found = pass(t, inner, g, 0, 0).0;
    lemma_pass_misses_nothing(t, inner, g, 0, 0, j);
    let m = passes(t, inner, g, seq![], 0, false);
    assert(seq![] + found =~= found);
    assert(m.0 == found && !m.1);
    assert(!is_repeated(inner, m)) by {
        assert(found.len() as int / inner.len() as int <= 1) by (nonlinear_arith)
            requires
                found.len() <= inner.len(),
                inner.len() > 0,
        ;
    }
    let spans = gap_spans(t, segs, lits, after, before, gap, rendered);
    assert(spans == matched_spans(segs, found, 0, 0, after, before, gap, false));
    assert forall|x: int| 0 <= x < found.len() implies spans.contains(
        literal_span(
            gap.0 + (#[trigger] found[x]).start,
            gap.0 + found[x].end,
            found[x].lit,
            found[x].lit.in_range_block,
        ),
    ) by {
        lemma_matches_are_shown(segs, found, 0, 0, after, before, gap, false, x);
    }
    if is_matched(found, l) {
        let x = choose|x: int| 0 <= x < found.len() && (#[trigger] found[x]).lit == l;
        assert(!inner[j].in_range_block);
        let y = spans.index_of(
            literal_span(gap.0 + found[x].start, gap.0 + found[x].end, l, false),
        );
        assert(names_literal(spans[y], l));
    } else if behind_earlier(spans, l, p) {
        assert forall|x: int|
            0 <= x < found.len() && (#[trigger] found[x]).lit.segment < l.segment implies found[x].end
            <= p - gap.0 by {
            let want = literal_span(
                gap.0 + found[x].start,
                gap.0 + found[x].end,
                found[x].lit,
                found[x].lit.in_range_block,
            );
            let y = spans.index_of(want);
            assert(spans[y] == want);
        }
        assert(behind_matches(found, l, p - gap.0));
        assert(g.subrange(p - gap.0, p - gap.0 + needle(t, l).len()) =~= rendered.subrange(
            p,
            p + needle(t, l).len(),
        ));
        assert(occurs_at(g, needle(t, l), p - gap.0));
    }
}

} // verus!
