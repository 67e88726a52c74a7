//! Carrying edits of rendered text back into the template it was rendered from.

use std::ops::Range;
use vstd::prelude::*;
use vstd::string::*;
use vstd::utf8::*;

use crate::merge::{diff_tokens, displaced, edit_script, histogram_hunks, hunk_fits, kept};
use crate::merge::{kept_from, kept_to, law_lines_rejoin, lemma_lines_not_empty, lines_of};
use crate::merge::{split_lines, views, Hunk, SliceTokens};
use crate::template::anchor::{RenderedSpan, SpanMap, SpanOrigin};
use crate::template::anchor::{anchored_spans, editable, effective, faithful, literal_at, needle};
use crate::template::anchor::{law_free_literals_keep_their_order, law_spans_tile_the_output};
use crate::template::anchor::{lemma_spans_order, outer_literals, places, segments_fit, spans_of};
use crate::template::anchor::{spans_tile, unique_literals};
use crate::template::lexer::{is_segment_of, law_plain_text_is_one_literal, lemma_tiles_order};
use crate::template::lexer::{law_segments_tile_the_template, lexed, literal_upto, opens_at};
use crate::template::lexer::{LexError, Segment};
use crate::text::{decimal, decimal_text, lemma_encode_concat, lemma_encode_injective, utf8_string};

verus! {

/// Why an edit was refused; the range is that of the edit in the rendered text.
#[derive(Debug)]
pub enum WriteBackError {
    ProtectedSpanTouched { rendered_range: Range<usize> },
    RepeatedLiteral { rendered_range: Range<usize> },
    EditOutsideLiteral { rendered_range: Range<usize> },
}

impl WriteBackError {
    pub open spec fn message_spec(self) -> Seq<char> {
        let (r, what) = match self {
            WriteBackError::ProtectedSpanTouched { rendered_range } => (
                rendered_range,
                " touches a protected template span"@,
            ),
            WriteBackError::RepeatedLiteral { rendered_range } => (
                rendered_range,
                " touches a repeated (range-block) literal"@,
            ),
            WriteBackError::EditOutsideLiteral { rendered_range } => (
                rendered_range,
                " cannot be placed in a literal span"@,
            ),
        };
        "edit at rendered bytes "@ + decimal(r.start as nat) + ".."@ + decimal(r.end as nat) + what
    }

    /// The error in words.
    pub fn message(&self) -> (r: String)
        ensures
            r@ == self.message_spec(),
    {
        let (start, end, what): (usize, usize, &str) = match self {
            WriteBackError::ProtectedSpanTouched { rendered_range } => (
                rendered_range.start,
                rendered_range.end,
                " touches a protected template span",
            ),
            WriteBackError::RepeatedLiteral { rendered_range } => (
                rendered_range.start,
                rendered_range.end,
                " touches a repeated (range-block) literal",
            ),
            WriteBackError::EditOutsideLiteral { rendered_range } => (
                rendered_range.start,
                rendered_range.end,
                " cannot be placed in a literal span",
            ),
        };
        let mut s = "edit at rendered bytes ".to_owned();
        s.append(decimal_text(start as u64).as_str());
        s.append("..");
        s.append(decimal_text(end as u64).as_str());
        s.append(what);
        s
    }
}

/// An edit of the rendered text: the bytes `rendered` become `replacement`.
#[derive(Debug)]
pub struct ByteHunk {
    pub rendered: Range<usize>,
    pub replacement: String,
}

// ---------------------------------------------------------------------------
// Edits of the rendered text

/// Where the `n`-th line starts, in bytes.
pub open spec fn line_start(lines: Seq<Seq<char>>, n: int) -> int
    decreases n,
{
    if n <= 0 {
        0
    } else {
        line_start(lines, n - 1) + encode_utf8(lines[n - 1]).len()
    }
}

/// An edit as the model has it.
pub struct Edit {
    pub start: int,
    pub end: int,
    pub text: Seq<char>,
}

pub open spec fn edit_of(h: ByteHunk) -> Edit {
    Edit { start: h.rendered.start as int, end: h.rendered.end as int, text: h.replacement@ }
}

pub open spec fn edits_of(hs: Seq<ByteHunk>) -> Seq<Edit> {
    hs.map_values(|h: ByteHunk| edit_of(h))
}

/// The hunk of lines as an edit of bytes.
pub open spec fn line_edit(before: Seq<Seq<char>>, after: Seq<Seq<char>>, h: Hunk) -> Edit {
    Edit {
        start: line_start(before, h.before.start as int),
        end: line_start(before, h.before.end as int),
        text: after.subrange(h.after.start as int, h.after.end as int).flatten(),
    }
}

pub open spec fn line_edits(before: Seq<Seq<char>>, after: Seq<Seq<char>>, hs: Seq<Hunk>) -> Seq<
    Edit,
> {
    hs.map_values(|h: Hunk| line_edit(before, after, h))
}

proof fn lemma_line_start_monotone(lines: Seq<Seq<char>>, m: int, n: int)
    requires
        0 <= m <= n,
    ensures
        0 <= line_start(lines, m) <= line_start(lines, n),
    decreases n,
{
    if m < n {
        lemma_line_start_monotone(lines, m, n - 1);
    } else if m > 0 {
        lemma_line_start_monotone(lines, m - 1, n - 1);
    }
}

proof fn lemma_line_start_is_length(lines: Seq<Seq<char>>, n: int)
    requires
        0 <= n <= lines.len(),
    ensures
        line_start(lines, n) == encode_utf8(lines.take(n).flatten()).len(),
    decreases n,
{
    if n == 0 {
        assert(lines.take(0) =~= seq![]);
        assert(lines.take(0).flatten() =~= seq![]);
    } else {
        lemma_line_start_is_length(lines, n - 1);
        assert(lines.take(n) =~= lines.take(n - 1).push(lines[n - 1]));
        lines.take(n - 1).lemma_flatten_push(lines[n - 1]);
        lemma_encode_concat(lines.take(n - 1).flatten(), lines[n - 1]);
    }
}

/// Where the lines start, and where the last ends.
fn line_starts(lines: &Vec<&str>, Ghost(text): Ghost<Seq<char>>) -> (r: Vec<usize>)
    requires
        views(lines@) == lines_of(text),
        encode_utf8(text).len() <= usize::MAX,
    ensures
        r@.len() == lines@.len() + 1,
        forall|k: int|
            0 <= k <= lines@.len() ==> #[trigger] r@[k] == line_start(views(lines@), k),
{
    let ghost v = views(lines@);
    let mut r: Vec<usize> = Vec::new();
    let mut pos: usize = 0;
    let mut i: usize = 0;
    proof {
        law_lines_rejoin(text);
        assert(v.take(v.len() as int) =~= v);
        lemma_line_start_is_length(v, v.len() as int);
    }
    while i < lines.len()
        invariant
            v == views(lines@),
            v.len() == lines@.len(),
            i <= lines@.len(),
            r@.len() == i,
            pos == line_start(v, i as int),
            line_start(v, v.len() as int) <= usize::MAX,
            forall|k: int| 0 <= k < i ==> #[trigger] r@[k] == line_start(v, k),
        decreases lines@.len() - i,
    {
        r.push(pos);
        proof {
            assert(v[i as int] == lines@[i as int]@);
            lemma_line_start_monotone(v, i + 1, v.len() as int);
        }
        let b = lines[i].as_bytes();
        pos = pos + b.len();
        i = i + 1;
    }
    r.push(pos);
    r
}

/// The lines `lines[from..to]`, put end to end.
fn join(lines: &Vec<&str>, from: usize, to: usize) -> (out: String)
    requires
        from <= to <= lines@.len(),
    ensures
        out@ == views(lines@).subrange(from as int, to as int).flatten(),
{
    let ghost all = views(lines@);
    let mut out = String::new();
    let mut i: usize = from;
    assert(all.subrange(from as int, from as int) =~= seq![]);
    while i < to
        invariant
            all == views(lines@),
            from <= i <= to <= lines@.len(),
            out@ == all.subrange(from as int, i as int).flatten(),
        decreases to - i,
    {
        out.append(lines[i]);
        proof {
            let cur = all.subrange(from as int, i as int);
            assert(all.subrange(from as int, i + 1) =~= cur.push(all[i as int]));
            cur.lemma_flatten_push(all[i as int]);
        }
        i = i + 1;
    }
    out
}

/// The hunks of lines as edits of bytes.
fn byte_hunks(
    before: &Vec<&str>,
    after: &Vec<&str>,
    hunks: &Vec<Hunk>,
    Ghost(text): Ghost<Seq<char>>,
) -> (r: Vec<ByteHunk>)
    requires
        views(before@) == lines_of(text),
        encode_utf8(text).len() <= usize::MAX,
        edit_script(views(before@), views(after@), hunks@),
    ensures
        edits_of(r@) == line_edits(views(before@), views(after@), hunks@),
{
    let starts = line_starts(before, Ghost(text));
    let ghost b = views(before@);
    let ghost a = views(after@);
    let mut r: Vec<ByteHunk> = Vec::new();
    let mut i: usize = 0;
    while i < hunks.len()
        invariant
            b == views(before@),
            a == views(after@),
            edit_script(b, a, hunks@),
            starts@.len() == before@.len() + 1,
            forall|k: int| 0 <= k <= before@.len() ==> #[trigger] starts@[k] == line_start(b, k),
            i <= hunks@.len(),
            r@.len() == i,
            forall|k: int|
                0 <= k < i ==> edit_of(#[trigger] r@[k]) == line_edit(b, a, hunks@[k]),
        decreases hunks@.len() - i,
    {
        let h = &hunks[i];
        assert(hunk_fits(b.len() as int, a.len() as int, hunks@, i as int));
        let from: usize = starts[h.before.start as usize];
        let to: usize = starts[h.before.end as usize];
        let replacement = join(after, h.after.start as usize, h.after.end as usize);
        r.push(ByteHunk { rendered: from..to, replacement });
        i = i + 1;
    }
    assert(edits_of(r@) =~= line_edits(b, a, hunks@));
    r
}

// ---------------------------------------------------------------------------
// Placing an edit in the template

/// The edit changes bytes of the span.
pub open spec fn overlaps(sp: RenderedSpan, e: Edit) -> bool {
    sp.range.start < e.end && e.start < sp.range.end
}

/// The edit inserts in the span or at one of its ends.
pub open spec fn inserts_in(sp: RenderedSpan, e: Edit) -> bool {
    e.start >= e.end && sp.range.start <= e.start <= sp.range.end && sp.range.start < sp.range.end
}

pub open spec fn range_of(e: Edit) -> Range<usize> {
    Range { start: e.start as usize, end: e.end as usize }
}

/// The literal span that owns the edit, among the spans from the `k`-th on, `owner` being the
/// one found before. An edit of repeated or protected text is refused, and so is one that
/// changes bytes of a second literal.
pub open spec fn find_owner(
    spans: Seq<RenderedSpan>,
    e: Edit,
    k: int,
    owner: Option<int>,
) -> Result<Option<int>, WriteBackError>
    decreases spans.len() - k,
{
    if k < 0 || k >= spans.len() {
        Ok(owner)
    } else if !overlaps(spans[k], e) && !inserts_in(spans[k], e) {
        find_owner(spans, e, k + 1, owner)
    } else {
        match spans[k].origin {
            SpanOrigin::Literal { repeated, .. } => if repeated {
                Err(WriteBackError::RepeatedLiteral { rendered_range: range_of(e) })
            } else if owner is Some && overlaps(spans[k], e) {
                Err(WriteBackError::EditOutsideLiteral { rendered_range: range_of(e) })
            } else {
                find_owner(
                    spans,
                    e,
                    k + 1,
                    if owner is Some {
                        owner
                    } else {
                        Some(k)
                    },
                )
            },
            _ => if overlaps(spans[k], e) {
                Err(WriteBackError::ProtectedSpanTouched { rendered_range: range_of(e) })
            } else {
                find_owner(spans, e, k + 1, owner)
            },
        }
    }
}

/// The edit of the template that an edit of the rendered text stands for.
pub open spec fn placed_edit(spans: Seq<RenderedSpan>, e: Edit) -> Result<Edit, WriteBackError> {
    match find_owner(spans, e, 0, None) {
        Err(err) => Err(err),
        Ok(None) => Err(WriteBackError::EditOutsideLiteral { rendered_range: range_of(e) }),
        Ok(Some(k)) => if e.start < spans[k].range.start || e.end > spans[k].range.end {
            Err(WriteBackError::ProtectedSpanTouched { rendered_range: range_of(e) })
        } else {
            let src = spans[k].origin->src;
            Ok(
                Edit {
                    start: src.start + (e.start - spans[k].range.start),
                    end: src.start + (e.end - spans[k].range.start),
                    text: e.text,
                },
            )
        },
    }
}

/// All edits placed, in order; or the first refusal.
pub open spec fn placed_edits(spans: Seq<RenderedSpan>, es: Seq<Edit>, n: int) -> Result<
    Seq<Edit>,
    WriteBackError,
>
    decreases n,
{
    if n <= 0 {
        Ok(seq![])
    } else {
        match placed_edits(spans, es, n - 1) {
            Err(err) => Err(err),
            Ok(front) => match placed_edit(spans, es[n - 1]) {
                Err(err) => Err(err),
                Ok(e) => Ok(front.push(e)),
            },
        }
    }
}

proof fn lemma_owner(spans: Seq<RenderedSpan>, e: Edit, k: int, owner: Option<int>)
    requires
        0 <= k,
        owner matches Some(o) ==> 0 <= o < spans.len() && editable(spans[o]),
    ensures
        find_owner(spans, e, k, owner) matches Ok(Some(o)) ==> 0 <= o < spans.len() && editable(
            spans[o],
        ),
    decreases spans.len() - k,
{
    if k < spans.len() {
        lemma_owner(spans, e, k + 1, owner);
        if editable(spans[k]) && owner is None {
            lemma_owner(spans, e, k + 1, Some(k));
        }
    }
}

/// The literal bytes that a span names can be addressed.
pub open spec fn addressable(spans: Seq<RenderedSpan>) -> bool {
    forall|k: int|
        0 <= k < spans.len() && (#[trigger] spans[k]).origin is Literal ==> spans[k].range.start
            <= spans[k].range.end && spans[k].origin->src.start + (spans[k].range.end
            - spans[k].range.start) <= usize::MAX
}

/// Finds the literal span that owns the edit of `rendered[start..end]`.
fn owner_of(spans: &Vec<RenderedSpan>, start: usize, end: usize, Ghost(e): Ghost<Edit>) -> (r:
    Result<Option<usize>, WriteBackError>)
    requires
        e.start == start,
        e.end == end,
    ensures
        match r {
            Ok(Some(k)) => find_owner(spans@, e, 0, None) == Ok::<Option<int>, WriteBackError>(
                Some(k as int),
            ),
            Ok(None) => find_owner(spans@, e, 0, None) == Ok::<Option<int>, WriteBackError>(None),
            Err(err) => find_owner(spans@, e, 0, None) == Err::<Option<int>, WriteBackError>(err),
        },
{
    let mut owner: Option<usize> = None;
    let mut k: usize = 0;
    while k < spans.len()
        invariant
            e.start == start,
            e.end == end,
            k <= spans@.len(),
            find_owner(spans@, e, 0, None) == find_owner(
                spans@,
                e,
                k as int,
                match owner {
                    Some(o) => Some(o as int),
                    None => None,
                },
            ),
        decreases spans@.len() - k,
    {
        let sp = &spans[k];
        let over = sp.range.start < end && start < sp.range.end;
        let inserts = start >= end && sp.range.start <= start && start <= sp.range.end
            && sp.range.start < sp.range.end;
        if over || inserts {
            match &sp.origin {
                SpanOrigin::Literal { repeated, .. } => {
                    if *repeated {
                        return Err(WriteBackError::RepeatedLiteral { rendered_range: start..end });
                    }
                    if owner.is_some() {
                        if over {
                            return Err(
                                WriteBackError::EditOutsideLiteral { rendered_range: start..end },
                            );
                        }
                    } else {
                        owner = Some(k);
                    }
                },
                _ => {
                    if over {
                        return Err(
                            WriteBackError::ProtectedSpanTouched { rendered_range: start..end },
                        );
                    }
                },
            }
        }
        k = k + 1;
    }
    Ok(owner)
}

/// Where in the template an edit of `rendered[start..end]` belongs.
fn place(spans: &Vec<RenderedSpan>, start: usize, end: usize, Ghost(e): Ghost<Edit>) -> (r: Result<
    (usize, usize),
    WriteBackError,
>)
    requires
        addressable(spans@),
        e.start == start,
        e.end == end,
        start <= end,
    ensures
        match r {
            Ok((a, b)) => placed_edit(spans@, e) == Ok::<Edit, WriteBackError>(
                Edit { start: a as int, end: b as int, text: e.text },
            ) && a <= b,
            Err(err) => placed_edit(spans@, e) == Err::<Edit, WriteBackError>(err),
        },
{
    proof {
        lemma_owner(spans@, e, 0, None);
    }
    match owner_of(spans, start, end, Ghost(e)) {
        Err(err) => Err(err),
        Ok(None) => Err(WriteBackError::EditOutsideLiteral { rendered_range: start..end }),
        Ok(Some(k)) => {
            let sp = &spans[k];
            if start < sp.range.start || end > sp.range.end {
                return Err(WriteBackError::ProtectedSpanTouched { rendered_range: start..end });
            }
            match &sp.origin {
                SpanOrigin::Literal { src, .. } => {
                    Ok((src.start + (start - sp.range.start), src.start + (end - sp.range.start)))
                },
                _ => {
                    assert(false);
                    Err(WriteBackError::EditOutsideLiteral { rendered_range: start..end })
                },
            }
        },
    }
}

// ---------------------------------------------------------------------------
// Editing the template

/// The edits, ordered by where they start; of two that start at the same byte the earlier
/// stays first.
pub open spec fn insert_edit(sorted: Seq<(Edit, int)>, e: (Edit, int)) -> Seq<(Edit, int)>
    decreases sorted.len(),
{
    if sorted.len() == 0 || sorted.last().0.start <= e.0.start {
        sorted.push(e)
    } else {
        insert_edit(sorted.drop_last(), e).push(sorted.last())
    }
}

/// The first `n` edits, ordered, each with the index of the edit that it was placed for.
pub open spec fn ordered(es: Seq<Edit>, n: int) -> Seq<(Edit, int)>
    decreases n,
{
    if n <= 0 {
        seq![]
    } else {
        insert_edit(ordered(es, n - 1), (es[n - 1], n - 1))
    }
}

/// A character may start at byte `i`, or the text ends there.
pub open spec fn may_cut(t: Seq<u8>, i: int) -> bool {
    i == t.len() || (0 <= i < t.len() && !is_continuation_byte(t[i]))
}

pub open spec fn can_replace(t: Seq<u8>, e: Edit) -> bool {
    0 <= e.start <= e.end <= t.len() && may_cut(t, e.start) && may_cut(t, e.end)
}

pub open spec fn replaced(t: Seq<u8>, e: Edit) -> Seq<u8> {
    t.subrange(0, e.start) + encode_utf8(e.text) + t.subrange(e.end, t.len() as int)
}

/// The first `n` edits made, the last of them first; or the edit that cannot be made.
pub open spec fn rewritten(t: Seq<u8>, es: Seq<(Edit, int)>, n: int) -> Result<Seq<u8>, int>
    decreases n,
{
    if n <= 0 {
        Ok(t)
    } else if can_replace(t, es[n - 1].0) {
        rewritten(replaced(t, es[n - 1].0), es, n - 1)
    } else {
        Err(es[n - 1].1)
    }
}

/// The template with the edits of its rendered text carried back, or the reason why not. Edits
/// whose places in the template meet, so that one leaves no place for the other, belong to no
/// literal either.
pub open spec fn written_back(t: Seq<u8>, spans: Seq<RenderedSpan>, es: Seq<Edit>) -> Result<
    Seq<u8>,
    WriteBackError,
> {
    match placed_edits(spans, es, es.len() as int) {
        Err(err) => Err(err),
        Ok(placed) => match rewritten(t, ordered(placed, placed.len() as int), placed.len() as int) {
            Ok(out) => Ok(out),
            Err(k) => Err(WriteBackError::EditOutsideLiteral { rendered_range: range_of(es[k]) }),
        },
    }
}

/// An edit of the template, and the index of the edit that it was placed for.
struct Placed {
    start: usize,
    end: usize,
    index: usize,
}

spec fn placed_view(p: Placed, hs: Seq<ByteHunk>) -> (Edit, int) {
    (
        Edit {
            start: p.start as int,
            end: p.end as int,
            text: hs[p.index as int].replacement@,
        },
        p.index as int,
    )
}

spec fn placed_views(ps: Seq<Placed>, hs: Seq<ByteHunk>) -> Seq<(Edit, int)> {
    ps.map_values(|p: Placed| placed_view(p, hs))
}

proof fn lemma_insert_edit(
    all: Seq<(Edit, int)>,
    k: int,
    e: (Edit, int),
)
    requires
        0 <= k <= all.len(),
        forall|j: int| k <= j < all.len() ==> e.0.start < (#[trigger] all[j]).0.start,
        k == 0 || all[k - 1].0.start <= e.0.start,
    ensures
        insert_edit(all, e) == all.insert(k, e),
    decreases all.len(),
{
    if k == all.len() {
        assert(all.insert(k, e) =~= all.push(e));
    } else {
        assert(e.0.start < all[all.len() - 1].0.start);
        let front = all.drop_last();
        assert forall|j: int| k <= j < front.len() implies e.0.start < (#[trigger] front[j]).0.start by {
            assert(front[j] == all[j]);
        }
        lemma_insert_edit(front, k, e);
        assert(all.insert(k, e) =~= front.insert(k, e).push(all.last()));
    }
}

/// Puts the edit where it belongs among the ordered ones.
fn insert_placed(sorted: &mut Vec<Placed>, p: Placed, Ghost(hs): Ghost<Seq<ByteHunk>>)
    ensures
        placed_views(final(sorted)@, hs) == insert_edit(
            placed_views(old(sorted)@, hs),
            placed_view(p, hs),
        ),
        final(sorted)@.len() == old(sorted)@.len() + 1,
        forall|k: int|
            0 <= k < final(sorted)@.len() ==> #[trigger] final(sorted)@[k] == p || old(
                sorted,
            )@.contains(final(sorted)@[k]),
{
    let mut k: usize = sorted.len();
    let ghost all = placed_views(sorted@, hs);
    while k > 0 && p.start < sorted[k - 1].start
        invariant
            k <= sorted@.len(),
            sorted@ == old(sorted)@,
            all == placed_views(sorted@, hs),
            forall|j: int| k <= j < all.len() ==> p.start < (#[trigger] all[j]).0.start,
        decreases k,
    {
        assert(all[k - 1] == placed_view(sorted@[k - 1], hs));
        k = k - 1;
    }
    proof {
        if k > 0 {
            assert(all[k - 1] == placed_view(sorted@[k - 1], hs));
        }
        lemma_insert_edit(all, k as int, placed_view(p, hs));
    }
    sorted.insert(k, p);
    proof {
        assert(placed_views(sorted@, hs) =~= all.insert(k as int, placed_view(p, hs)));
        assert forall|j: int| 0 <= j < sorted@.len() implies #[trigger] sorted@[j] == p || old(
            sorted,
        )@.contains(sorted@[j]) by {
            if j < k {
                assert(old(sorted)@[j] == sorted@[j]);
            } else if j > k {
                assert(old(sorted)@[j - 1] == sorted@[j]);
            }
        }
    }
}

fn can_cut(t: &Vec<u8>, i: usize) -> (r: bool)
    requires
        i <= t@.len(),
    ensures
        r == may_cut(t@, i as int),
{
    i == t.len() || !(0x80 <= t[i] && t[i] <= 0xbf)
}

proof fn lemma_replaced_valid(t: Seq<u8>, e: Edit)
    requires
        valid_utf8(t),
        can_replace(t, e),
    ensures
        valid_utf8(replaced(t, e)),
{
    is_char_boundary_start_end_of_seq(t);
    if e.start < t.len() {
        is_char_boundary_iff_not_is_continuation_byte(t, e.start);
    }
    if e.end < t.len() {
        is_char_boundary_iff_not_is_continuation_byte(t, e.end);
    }
    valid_utf8_split(t, e.start);
    valid_utf8_split(t, e.end);
    encode_utf8_valid_utf8(e.text);
    valid_utf8_concat(t.subrange(0, e.start), encode_utf8(e.text));
    valid_utf8_concat(
        t.subrange(0, e.start) + encode_utf8(e.text),
        t.subrange(e.end, t.len() as int),
    );
}

fn push_bytes(out: &mut Vec<u8>, b: &[u8], from: usize, to: usize)
    requires
        from <= to <= b@.len(),
    ensures
        final(out)@ == old(out)@ + b@.subrange(from as int, to as int),
{
    let mut i: usize = from;
    assert(out@ =~= old(out)@ + b@.subrange(from as int, from as int));
    while i < to
        invariant
            from <= i <= to <= b@.len(),
            out@ == old(out)@ + b@.subrange(from as int, i as int),
        decreases to - i,
    {
        out.push(b[i]);
        i = i + 1;
        assert(out@ =~= old(out)@ + b@.subrange(from as int, i as int));
    }
}

/// Replaces the bytes `start..end` by `text`.
fn replace(t: &Vec<u8>, start: usize, end: usize, text: &str) -> (out: Vec<u8>)
    requires
        can_replace(t@, Edit { start: start as int, end: end as int, text: text@ }),
        valid_utf8(t@),
    ensures
        out@ == replaced(t@, Edit { start: start as int, end: end as int, text: text@ }),
        valid_utf8(out@),
{
    proof {
        lemma_replaced_valid(t@, Edit { start: start as int, end: end as int, text: text@ });
    }
    let b = text.as_bytes();
    let mut out: Vec<u8> = Vec::new();
    push_bytes(&mut out, t.as_slice(), 0, start);
    push_bytes(&mut out, b, 0, b.len());
    push_bytes(&mut out, t.as_slice(), end, t.len());
    proof {
        assert(b@.subrange(0, b@.len() as int) =~= b@);
        assert(out@ =~= replaced(
            t@,
            Edit { start: start as int, end: end as int, text: text@ },
        ));
    }
    out
}

/// Carries known edits of the rendered text back into the template.
pub fn write_back_hunks(template: &str, map: &SpanMap, hunks: &Vec<ByteHunk>) -> (r: Result<
    String,
    WriteBackError,
>)
    requires
        addressable(map.spans@),
        forall|k: int|
            0 <= k < hunks@.len() ==> (#[trigger] hunks@[k]).rendered.start
                <= hunks@[k].rendered.end,
    ensures
        match r {
            Ok(out) => written_back(template.spec_bytes(), map.spans@, edits_of(hunks@)) == Ok::<
                Seq<u8>,
                WriteBackError,
            >(encode_utf8(out@)),
            Err(e) => written_back(template.spec_bytes(), map.spans@, edits_of(hunks@)) == Err::<
                Seq<u8>,
                WriteBackError,
            >(e),
        },
{
    let ghost es = edits_of(hunks@);
    let ghost spans = map.spans@;
    let mut sorted: Vec<Placed> = Vec::new();
    let ghost mut placed: Seq<Edit> = seq![];
    let mut i: usize = 0;
    assert(placed_views(sorted@, hunks@) =~= seq![]);
    while i < hunks.len()
        invariant
            es == edits_of(hunks@),
            spans == map.spans@,
            addressable(spans),
            forall|k: int|
                0 <= k < hunks@.len() ==> (#[trigger] hunks@[k]).rendered.start
                    <= hunks@[k].rendered.end,
            i <= hunks@.len(),
            placed_edits(spans, es, i as int) == Ok::<Seq<Edit>, WriteBackError>(placed),
            placed.len() == i,
            placed_views(sorted@, hunks@) == ordered(placed, i as int),
            sorted@.len() == i,
            forall|k: int| 0 <= k < sorted@.len() ==> (#[trigger] sorted@[k]).index < hunks@.len(),
        decreases hunks@.len() - i,
    {
        let h = &hunks[i];
        assert(es[i as int] == edit_of(hunks@[i as int]));
        match place(&map.spans, h.rendered.start, h.rendered.end, Ghost(es[i as int])) {
            Err(err) => {
                proof {
                    lemma_placed_error(spans, es, i as int, es.len() as int);
                }
                return Err(err);
            },
            Ok((start, end)) => {
                let p = Placed { start, end, index: i };
                let ghost e = placed_view(p, hunks@).0;
                let ghost had = sorted@;
                insert_placed(&mut sorted, p, Ghost(hunks@));
                proof {
                    let before = placed;
                    placed = placed.push(e);
                    lemma_ordered_prefix(before, placed, i as int);
                    assert(placed[i as int] == e);
                    assert forall|k: int| 0 <= k < sorted@.len() implies (#[trigger] sorted@[k]).index
                        < hunks@.len() by {
                        if sorted@[k] != p {
                            let j = choose|j: int| 0 <= j < had.len() && had[j] == sorted@[k];
                            assert(had[j].index < hunks@.len());
                        }
                    }
                }
            },
        }
        i = i + 1;
    }
    assert(es.len() == hunks@.len());
    let ghost all = ordered(placed, placed.len() as int);
    let mut out: Vec<u8> = template.as_bytes_vec();
    let mut n: usize = sorted.len();
    proof {
        encode_utf8_valid_utf8(template@);
    }
    while n > 0
        invariant
            es == edits_of(hunks@),
            n <= sorted@.len(),
            sorted@.len() == hunks@.len() == placed.len(),
            placed_views(sorted@, hunks@) == all,
            forall|k: int| 0 <= k < sorted@.len() ==> (#[trigger] sorted@[k]).index < hunks@.len(),
            valid_utf8(out@),
            rewritten(template.spec_bytes(), all, placed.len() as int) == rewritten(
                out@,
                all,
                n as int,
            ),
            placed_edits(map.spans@, es, es.len() as int) == Ok::<Seq<Edit>, WriteBackError>(
                placed,
            ),
            all == ordered(placed, placed.len() as int),
        decreases n,
    {
        let p = &sorted[n - 1];
        assert(all[n - 1] == placed_view(sorted@[n - 1], hunks@));
        let h = &hunks[p.index];
        if p.start <= p.end && p.end <= out.len() && can_cut(&out, p.start) && can_cut(
            &out,
            p.end,
        ) {
            out = replace(&out, p.start, p.end, h.replacement.as_str());
        } else {
            assert(es[p.index as int] == edit_of(hunks@[p.index as int]));
            return Err(
                WriteBackError::EditOutsideLiteral {
                    rendered_range: h.rendered.start..h.rendered.end,
                },
            );
        }
        n = n - 1;
    }
    match utf8_string(out) {
        Some(s) => Ok(s),
        None => {
            assert(false);
            Err(WriteBackError::EditOutsideLiteral { rendered_range: 0..0 })
        },
    }
}

proof fn lemma_placed_error(spans: Seq<RenderedSpan>, es: Seq<Edit>, i: int, n: int)
    requires
        0 <= i < n,
        placed_edits(spans, es, i) is Ok,
        placed_edit(spans, es[i]) is Err,
    ensures
        placed_edits(spans, es, n) == Err::<Seq<Edit>, WriteBackError>(
            placed_edit(spans, es[i])->Err_0,
        ),
    decreases n - i,
{
    if n > i + 1 {
        lemma_placed_error(spans, es, i, n - 1);
    }
}

proof fn lemma_ordered_prefix(a: Seq<Edit>, b: Seq<Edit>, n: int)
    requires
        0 <= n <= a.len(),
        n <= b.len(),
        forall|k: int| 0 <= k < n ==> a[k] == b[k],
    ensures
        ordered(a, n) == ordered(b, n),
    decreases n,
{
    if n > 0 {
        lemma_ordered_prefix(a, b, n - 1);
    }
}

/// Carries the changes from `rendered` to `resolved` back into the template that `rendered`
/// came from. `map` says where its bytes come from. An edit must stay inside one literal that
/// is not repeated; otherwise nothing is written, and the error says which edit is in the way.
pub fn write_back(template: &str, map: &SpanMap, rendered: &str, resolved: &str) -> (r: Result<
    String,
    WriteBackError,
>)
    requires
        addressable(map.spans@),
        lines_of(rendered@).len() + lines_of(resolved@).len() < 0x7fff_ffff,
    ensures
        ({
            let (a, b) = (lines_of(rendered@), lines_of(resolved@));
            let out = written_back(
                template.spec_bytes(),
                map.spans@,
                line_edits(a, b, histogram_hunks(a, b)),
            );
            &&& edit_script(a, b, histogram_hunks(a, b))
            &&& match r {
                Ok(s) => out == Ok::<Seq<u8>, WriteBackError>(encode_utf8(s@)),
                Err(e) => out == Err::<Seq<u8>, WriteBackError>(e),
            }
        }),
        rendered@ == resolved@ ==> (r matches Ok(s) && s@ == template@),
{
    let before = split_lines(rendered);
    let after = split_lines(resolved);
    let rlen: usize = rendered.as_bytes().len();
    proof {
        assert(views(before@).len() == before@.len());
        assert(views(after@).len() == after@.len());
    }
    let hunks = diff_tokens(SliceTokens(before.as_slice()), SliceTokens(after.as_slice()));
    let edits = byte_hunks(&before, &after, &hunks, Ghost(rendered@));
    proof {
        let (a, b) = (views(before@), views(after@));
        assert forall|k: int| 0 <= k < edits@.len() implies (#[trigger] edits@[k]).rendered.start
            <= edits@[k].rendered.end by {
            assert(edits_of(edits@)[k] == line_edits(a, b, hunks@)[k]);
            assert(hunk_fits(a.len() as int, b.len() as int, hunks@, k));
            lemma_line_start_monotone(a, hunks@[k].before.start as int, hunks@[k].before.end as int);
        }
    }
    let r = write_back_hunks(template, map, &edits);
    proof {
        if rendered@ == resolved@ {
            assert(edits_of(edits@).len() == 0);
            if let Ok(s) = &r {
                lemma_encode_injective(s@, template@);
            }
        }
    }
    r
}

// ---------------------------------------------------------------------------
// Laws

/// Edits that can be made, none of them overlapping another, in order.
pub open spec fn in_order(t: Seq<u8>, es: Seq<Edit>) -> bool {
    &&& forall|k: int| 0 <= k < es.len() ==> can_replace(t, #[trigger] es[k])
    &&& forall|j: int, k: int|
        #![trigger es[j], es[k]]
        0 <= j < k < es.len() ==> es[j].end <= es[k].start
}

/// The text up to `p`, the first `n` edits made: between the edits it is as it was.
pub open spec fn edited_upto(t: Seq<u8>, es: Seq<Edit>, n: int, p: int) -> Seq<u8>
    decreases n,
{
    if n <= 0 {
        t.subrange(0, p)
    } else {
        edited_upto(t, es, n - 1, es[n - 1].start) + encode_utf8(es[n - 1].text) + t.subrange(
            es[n - 1].end,
            p,
        )
    }
}

/// The text with the edits made.
pub open spec fn edited(t: Seq<u8>, es: Seq<Edit>) -> Seq<u8> {
    edited_upto(t, es, es.len() as int, t.len() as int)
}

/// No continuation byte at the start.
pub open spec fn starts_clean(b: Seq<u8>) -> bool {
    b.len() == 0 || !is_continuation_byte(b[0])
}

proof fn lemma_encoding_starts_clean(s: Seq<char>)
    ensures
        starts_clean(encode_utf8(s)),
{
    if s.len() > 0 {
        encode_utf8_first_scalar(s);
    }
}

proof fn lemma_ordered_in_order(t: Seq<u8>, es: Seq<Edit>, n: int)
    requires
        in_order(t, es),
        0 <= n <= es.len(),
    ensures
        ordered(es, n).len() == n,
        forall|k: int| 0 <= k < n ==> #[trigger] ordered(es, n)[k] == (es[k], k),
    decreases n,
{
    if n > 0 {
        lemma_ordered_in_order(t, es, n - 1);
        if n > 1 {
            assert(ordered(es, n - 1)[n - 2] == (es[n - 2], n - 2));
            assert(can_replace(t, es[n - 2]));
            assert(es[n - 2].end <= es[n - 1].start);
        }
    }
}

proof fn lemma_rewrite(
    t: Seq<u8>,
    es: Seq<Edit>,
    all: Seq<(Edit, int)>,
    n: int,
    p: int,
    suffix: Seq<u8>,
)
    requires
        in_order(t, es),
        0 <= n <= es.len(),
        n <= all.len(),
        forall|k: int| 0 <= k < n ==> #[trigger] all[k] == (es[k], k),
        0 <= p <= t.len(),
        n > 0 ==> es[n - 1].end <= p,
        starts_clean(suffix),
    ensures
        rewritten(t.subrange(0, p) + suffix, all, n) == Ok::<Seq<u8>, int>(
            edited_upto(t, es, n, p) + suffix,
        ),
    decreases n,
{
    if n > 0 {
        let e = es[n - 1];
        assert(all[n - 1] == (es[n - 1], n - 1));
        assert(can_replace(t, es[n - 1]));
        let cur = t.subrange(0, p) + suffix;
        let enc = encode_utf8(e.text);
        let rest = enc + t.subrange(e.end, p) + suffix;
        lemma_encoding_starts_clean(e.text);
        assert(can_replace(cur, e)) by {
            if e.start < p {
                assert(cur[e.start] == t[e.start]);
            }
            if e.end < p {
                assert(cur[e.end] == t[e.end]);
            }
        }
        assert(replaced(cur, e) =~= t.subrange(0, e.start) + rest);
        assert(starts_clean(rest)) by {
            if enc.len() > 0 {
                assert(rest[0] == enc[0]);
            } else if e.end < p {
                assert(rest[0] == t[e.end]);
            } else if suffix.len() > 0 {
                assert(rest[0] == suffix[0]);
            }
        }
        if n > 1 {
            assert(es[n - 2].end <= es[n - 1].start);
        }
        lemma_rewrite(t, es, all, n - 1, e.start, rest);
        assert(edited_upto(t, es, n - 1, e.start) + rest =~= edited_upto(t, es, n, p) + suffix);
    }
}

/// Edits of the template that do not meet are all made, and nothing else changes.
pub proof fn law_edits_apart_are_all_made(t: Seq<u8>, es: Seq<Edit>)
    requires
        in_order(t, es),
    ensures
        rewritten(t, ordered(es, es.len() as int), es.len() as int) == Ok::<Seq<u8>, int>(
            edited(t, es),
        ),
{
    lemma_ordered_in_order(t, es, es.len() as int);
    if es.len() > 0 {
        assert(can_replace(t, es[es.len() - 1]));
    }
    lemma_rewrite(t, es, ordered(es, es.len() as int), es.len() as int, t.len() as int, seq![]);
    assert(t.subrange(0, t.len() as int) + Seq::<u8>::empty() =~= t);
    assert(edited(t, es) + Seq::<u8>::empty() =~= edited(t, es));
}

/// A map that tells the truth: the spans cover the rendered text, a literal span equals the
/// template text it names, and editable literals stand in the order of the template.
pub open spec fn sound_map(t: Seq<u8>, r: Seq<u8>, spans: Seq<RenderedSpan>) -> bool {
    &&& spans_tile(spans, 0, r.len() as int)
    &&& forall|k: int|
        0 <= k < spans.len() && (#[trigger] spans[k]).origin is Literal ==> {
            let src = spans[k].origin->src;
            &&& src.start <= src.end <= t.len()
            &&& src.end - src.start == spans[k].range.end - spans[k].range.start
            &&& may_cut(t, src.end as int)
            &&& r.subrange(spans[k].range.start as int, spans[k].range.end as int) == t.subrange(
                src.start as int,
                src.end as int,
            )
        }
    &&& forall|j: int, k: int|
        #![trigger spans[j], spans[k]]
        0 <= j < k < spans.len() && editable(spans[j]) && editable(spans[k])
            ==> spans[j].origin->src.end <= spans[k].origin->src.start
}

/// Edits of the rendered text, apart from each other and in order.
pub open spec fn apart(r: Seq<u8>, es: Seq<Edit>) -> bool {
    &&& forall|k: int| 0 <= k < es.len() ==> can_replace(r, #[trigger] es[k])
    &&& forall|j: int, k: int|
        #![trigger es[j], es[k]]
        0 <= j < k < es.len() ==> es[j].end < es[k].start
}

/// The placed edit puts the same text in place of the same text.
pub open spec fn same_edit(t: Seq<u8>, r: Seq<u8>, placed: Edit, e: Edit) -> bool {
    &&& placed.text == e.text
    &&& t.subrange(placed.start, placed.end) == r.subrange(e.start, e.end)
}

proof fn lemma_placed_one(t: Seq<u8>, r: Seq<u8>, spans: Seq<RenderedSpan>, e: Edit)
    requires
        sound_map(t, r, spans),
        can_replace(r, e),
    ensures
        placed_edit(spans, e) matches Ok(p) ==> can_replace(t, p) && same_edit(t, r, p, e),
{
    lemma_owner(spans, e, 0, None);
    if let Ok(Some(k)) = find_owner(spans, e, 0, None) {
        let sp = spans[k];
        if sp.range.start <= e.start && e.end <= sp.range.end {
            let src = sp.origin->src;
            lemma_spans_order(spans, 0, r.len() as int, k, k);
            let p = placed_edit(spans, e)->Ok_0;
            let rt = r.subrange(sp.range.start as int, sp.range.end as int);
            let tt = t.subrange(src.start as int, src.end as int);
            assert(rt == tt);
            let d = src.start - sp.range.start;
            assert forall|x: int| sp.range.start <= x < sp.range.end implies r[x] == t[x + d] by {
                assert(rt[x - sp.range.start] == tt[x - sp.range.start]);
            }
            assert(t.subrange(p.start, p.end) =~= r.subrange(e.start, e.end));
        }
    }
}

proof fn lemma_placed_all(t: Seq<u8>, r: Seq<u8>, spans: Seq<RenderedSpan>, es: Seq<Edit>, n: int)
    requires
        sound_map(t, r, spans),
        apart(r, es),
        0 <= n <= es.len(),
    ensures
        placed_edits(spans, es, n) matches Ok(ps) ==> {
            &&& ps.len() == n
            &&& in_order(t, ps)
            &&& forall|k: int| 0 <= k < n ==> same_edit(t, r, #[trigger] ps[k], es[k])
            &&& forall|k: int|
                0 <= k < n ==> placed_edit(spans, es[k]) == Ok::<Edit, WriteBackError>(
                    #[trigger] ps[k],
                )
        },
    decreases n,
{
    if n > 0 {
        lemma_placed_all(t, r, spans, es, n - 1);
        assert(can_replace(r, es[n - 1]));
        lemma_placed_one(t, r, spans, es[n - 1]);
        if let Ok(ps) = placed_edits(spans, es, n) {
            let front = placed_edits(spans, es, n - 1)->Ok_0;
            let p = placed_edit(spans, es[n - 1])->Ok_0;
            assert(ps == front.push(p));
            assert forall|j: int| 0 <= j < n - 1 implies front[j].end <= p.start by {
                assert(can_replace(r, es[j]));
                assert(es[j].end < es[n - 1].start);
                assert(placed_edit(spans, es[j]) == Ok::<Edit, WriteBackError>(front[j]));
                lemma_placed_order(t, r, spans, es[j], es[n - 1]);
            }
        }
    }
}

proof fn lemma_placed_order(t: Seq<u8>, r: Seq<u8>, spans: Seq<RenderedSpan>, a: Edit, b: Edit)
    requires
        sound_map(t, r, spans),
        can_replace(r, a),
        can_replace(r, b),
        a.end < b.start,
        placed_edit(spans, a) is Ok,
        placed_edit(spans, b) is Ok,
    ensures
        (placed_edit(spans, a)->Ok_0).end <= (placed_edit(spans, b)->Ok_0).start,
{
    lemma_owner(spans, a, 0, None);
    lemma_owner(spans, b, 0, None);
    let i = (find_owner(spans, a, 0, None)->Ok_0)->Some_0;
    let j = (find_owner(spans, b, 0, None)->Ok_0)->Some_0;
    if i < j {
        lemma_spans_order(spans, 0, r.len() as int, i, j);
    } else if j < i {
        lemma_spans_order(spans, 0, r.len() as int, j, i);
    } else {
        lemma_spans_order(spans, 0, r.len() as int, i, i);
    }
}

/// With a map that tells the truth, edits that are not refused are all carried over: each
/// replaces in the template the text that it replaced in the output, inside one literal, and
/// the rest of the template stays as it was.
pub proof fn law_write_back_edits_only_literals(
    t: Seq<u8>,
    r: Seq<u8>,
    spans: Seq<RenderedSpan>,
    es: Seq<Edit>,
)
    requires
        sound_map(t, r, spans),
        apart(r, es),
    ensures
        placed_edits(spans, es, es.len() as int) matches Ok(ps) ==> {
            &&& written_back(t, spans, es) == Ok::<Seq<u8>, WriteBackError>(edited(t, ps))
            &&& in_order(t, ps)
            &&& ps.len() == es.len()
            &&& forall|k: int| 0 <= k < ps.len() ==> same_edit(t, r, #[trigger] ps[k], es[k])
        },
{
    lemma_placed_all(t, r, spans, es, es.len() as int);
    if let Ok(ps) = placed_edits(spans, es, es.len() as int) {
        law_edits_apart_are_all_made(t, ps);
    }
}

/// The map that anchoring gives tells the truth, wherever no literal of the template stands for
/// two stretches of the output that are free to edit; without `range` blocks none ever does.
pub proof fn law_anchored_map_is_sound(template: Seq<char>, segs: Seq<Segment>, rendered: Seq<char>)
    requires
        lexed(encode_utf8(template)) == Ok::<Seq<Segment>, LexError>(segs),
        encode_utf8(template).len() < 0x4_0000_0000,
        encode_utf8(template).len() <= usize::MAX,
        encode_utf8(rendered).len() <= usize::MAX,
        segs.len() <= usize::MAX,
        unique_literals(spans_of(encode_utf8(template), segs, encode_utf8(rendered))),
    ensures
        sound_map(
            encode_utf8(template),
            encode_utf8(rendered),
            spans_of(encode_utf8(template), segs, encode_utf8(rendered)),
        ),
        addressable(spans_of(encode_utf8(template), segs, encode_utf8(rendered))),
{
    let t = encode_utf8(template);
    let r = encode_utf8(rendered);
    let spans = spans_of(t, segs, r);
    law_segments_tile_the_template(template);
    encode_utf8_valid_utf8(template);
    assert(segments_fit(t, segs)) by {
        assert forall|k: int| 0 <= k < segs.len() implies (#[trigger] segs[k]).src.start
            <= segs[k].src.end && segs[k].src.end <= t.len() by {
            assert(is_segment_of(t, segs[k]));
        }
    }
    law_spans_tile_the_output(t, segs, r);
    assert forall|k: int| 0 <= k < spans.len() && (#[trigger] spans[k]).origin is Literal implies {
        let src = spans[k].origin->src;
        &&& src.start <= src.end <= t.len()
        &&& src.end - src.start == spans[k].range.end - spans[k].range.start
        &&& may_cut(t, src.end as int)
        &&& r.subrange(spans[k].range.start as int, spans[k].range.end as int) == t.subrange(
            src.start as int,
            src.end as int,
        )
    } by {
        assert(faithful(t, segs, r, spans[k]));
        let src = spans[k].origin->src;
        let seg = segs[spans[k].origin->Literal_segment as int];
        assert(is_segment_of(t, seg));
        assert(r.subrange(spans[k].range.start as int, spans[k].range.end as int).len()
            == t.subrange(src.start as int, src.end as int).len());
        if src.end < t.len() {
            is_char_boundary_iff_not_is_continuation_byte(t, src.end as int);
        }
    }
    assert forall|j: int, k: int|
        #![trigger spans[j], spans[k]]
        0 <= j < k < spans.len() && editable(spans[j]) && editable(
            spans[k],
        ) implies spans[j].origin->src.end <= spans[k].origin->src.start by {
        assert(faithful(t, segs, r, spans[j]));
        assert(faithful(t, segs, r, spans[k]));
        law_free_literals_keep_their_order(t, segs, r, j, k);
        lemma_tiles_order(
            segs,
            0,
            t.len() as int,
            spans[j].origin->Literal_segment as int,
            spans[k].origin->Literal_segment as int,
        );
    }
}

/// The map that anchoring gives names places of the template.
pub proof fn law_anchored_maps_are_addressable(t: Seq<u8>, segs: Seq<Segment>, rendered: Seq<u8>)
    requires
        segments_fit(t, segs),
        t.len() <= usize::MAX,
        segs.len() <= usize::MAX,
        rendered.len() <= usize::MAX,
    ensures
        addressable(spans_of(t, segs, rendered)),
{
    law_spans_tile_the_output(t, segs, rendered);
    let spans = spans_of(t, segs, rendered);
    assert forall|k: int|
        0 <= k < spans.len() && (#[trigger] spans[k]).origin is Literal implies spans[k].range.start
        <= spans[k].range.end && spans[k].origin->src.start + (spans[k].range.end
        - spans[k].range.start) <= usize::MAX by {
        assert(faithful(t, segs, rendered, spans[k]));
        let src = spans[k].origin->src;
        assert(rendered.subrange(spans[k].range.start as int, spans[k].range.end as int).len()
            == t.subrange(src.start as int, src.end as int).len());
    }
}

proof fn lemma_line_start_cuts(s: Seq<char>, n: int)
    requires
        0 <= n <= lines_of(s).len(),
    ensures
        0 <= line_start(lines_of(s), n) <= encode_utf8(s).len(),
        may_cut(encode_utf8(s), line_start(lines_of(s), n)),
{
    let ls = lines_of(s);
    law_lines_rejoin(s);
    lemma_line_start_is_length(ls, n);
    assert(ls.take(n) + ls.skip(n) =~= ls);
    vstd::seq_lib::lemma_flatten_concat(ls.take(n), ls.skip(n));
    lemma_encode_concat(ls.take(n).flatten(), ls.skip(n).flatten());
    lemma_encoding_starts_clean(ls.skip(n).flatten());
}

proof fn lemma_line_start_grows(s: Seq<char>, m: int, n: int)
    requires
        0 <= m < n <= lines_of(s).len(),
    ensures
        line_start(lines_of(s), m) < line_start(lines_of(s), n),
{
    let ls = lines_of(s);
    lemma_line_start_monotone(ls, m, n - 1);
    lemma_lines_not_empty(s, n - 1);
    encode_utf8_first_scalar(ls[n - 1]);
}

/// The edits that turn one text into another, line by line, stand apart.
pub proof fn law_line_edits_stand_apart(before: Seq<char>, after: Seq<char>, hs: Seq<Hunk>)
    requires
        edit_script(lines_of(before), lines_of(after), hs),
    ensures
        apart(encode_utf8(before), line_edits(lines_of(before), lines_of(after), hs)),
{
    let (a, b) = (lines_of(before), lines_of(after));
    let es = line_edits(a, b, hs);
    let r = encode_utf8(before);
    assert forall|k: int| 0 <= k < es.len() implies can_replace(r, #[trigger] es[k]) by {
        assert(hunk_fits(a.len() as int, b.len() as int, hs, k));
        lemma_line_start_cuts(before, hs[k].before.start as int);
        lemma_line_start_cuts(before, hs[k].before.end as int);
        lemma_line_start_monotone(a, hs[k].before.start as int, hs[k].before.end as int);
    }
    assert forall|j: int, k: int|
        #![trigger es[j], es[k]]
        0 <= j < k < es.len() implies es[j].end < es[k].start by {
        assert(hunk_fits(a.len() as int, b.len() as int, hs, k));
        assert(hs[j].before.end < hs[k].before.start);
        lemma_line_start_grows(before, hs[j].before.end as int, hs[k].before.start as int);
    }
}

proof fn lemma_line_bytes(s: Seq<char>, m: int, n: int)
    requires
        0 <= m <= n <= lines_of(s).len(),
    ensures
        0 <= line_start(lines_of(s), m) <= line_start(lines_of(s), n) <= encode_utf8(s).len(),
        encode_utf8(s).subrange(line_start(lines_of(s), m), line_start(lines_of(s), n))
            == encode_utf8(lines_of(s).subrange(m, n).flatten()),
        line_start(lines_of(s), lines_of(s).len() as int) == encode_utf8(s).len(),
{
    let ls = lines_of(s);
    let (front, mid, back) = (ls.take(m), ls.subrange(m, n), ls.skip(n));
    law_lines_rejoin(s);
    lemma_line_start_is_length(ls, m);
    lemma_line_start_is_length(ls, n);
    lemma_line_start_is_length(ls, ls.len() as int);
    assert(ls.take(ls.len() as int) =~= ls);
    assert(ls.take(n) =~= front + mid);
    assert(ls =~= ls.take(n) + back);
    vstd::seq_lib::lemma_flatten_concat(front, mid);
    vstd::seq_lib::lemma_flatten_concat(ls.take(n), back);
    lemma_encode_concat(front.flatten(), mid.flatten());
    lemma_encode_concat(ls.take(n).flatten(), back.flatten());
    assert(encode_utf8(s).subrange(line_start(ls, m), line_start(ls, n)) =~= encode_utf8(
        mid.flatten(),
    ));
}

/// Up to a line that is kept, the edited text is the other text up to that line.
proof fn lemma_edited_upto_line(before: Seq<char>, after: Seq<char>, hs: Seq<Hunk>, n: int, q: int)
    requires
        edit_script(lines_of(before), lines_of(after), hs),
        0 <= n <= hs.len(),
        kept_from(hs, n) <= q <= kept_to(lines_of(before).len() as int, hs, n),
    ensures
        0 <= q + displaced(hs, n) <= lines_of(after).len(),
        edited_upto(
            encode_utf8(before),
            line_edits(lines_of(before), lines_of(after), hs),
            n,
            line_start(lines_of(before), q),
        ) == encode_utf8(lines_of(after).take(q + displaced(hs, n)).flatten()),
    decreases n,
{
    let (a, b) = (lines_of(before), lines_of(after));
    let r = encode_utf8(before);
    let es = line_edits(a, b, hs);
    if n < hs.len() {
        assert(hunk_fits(a.len() as int, b.len() as int, hs, n));
    }
    if n == 0 {
        assert forall|p: int| 0 <= p < q implies a[p] == b[p] by {
            assert(kept(a.len() as int, hs, 0, p));
        }
        assert(a.subrange(0, q) =~= b.take(q));
        lemma_line_bytes(before, 0, q);
    } else {
        let h = hs[n - 1];
        let (x, y) = (h.after.start as int, h.after.end as int);
        assert(hunk_fits(a.len() as int, b.len() as int, hs, n - 1));
        assert(es[n - 1] == line_edit(a, b, h));
        if n > 1 {
            assert(hs[n - 2].before.end < hs[n - 1].before.start);
        }
        lemma_edited_upto_line(before, after, hs, n - 1, h.before.start as int);
        lemma_line_bytes(before, h.before.end as int, q);
        let d = displaced(hs, n);
        assert forall|p: int| h.before.end <= p < q implies a[p] == b[p + d] by {
            assert(kept(a.len() as int, hs, n, p));
        }
        let (front, mid, back) = (b.take(x), b.subrange(x, y), b.subrange(y, q + d));
        assert(a.subrange(h.before.end as int, q) =~= back);
        assert(b.take(q + d) =~= front + mid + back);
        vstd::seq_lib::lemma_flatten_concat(front, mid);
        vstd::seq_lib::lemma_flatten_concat(front + mid, back);
        lemma_encode_concat(front.flatten(), mid.flatten());
        lemma_encode_concat((front + mid).flatten(), back.flatten());
    }
}

/// The edits that turn one text into another, line by line, do so: made in the one, they give
/// the other, byte for byte.
pub proof fn law_line_edits_give_the_other_text(before: Seq<char>, after: Seq<char>, hs: Seq<Hunk>)
    requires
        edit_script(lines_of(before), lines_of(after), hs),
    ensures
        edited(
            encode_utf8(before),
            line_edits(lines_of(before), lines_of(after), hs),
        ) == encode_utf8(after),
{
    let (a, b) = (lines_of(before), lines_of(after));
    let n = hs.len() as int;
    if n > 0 {
        assert(hunk_fits(a.len() as int, b.len() as int, hs, n - 1));
    }
    lemma_edited_upto_line(before, after, hs, n, a.len() as int);
    lemma_line_bytes(before, 0, a.len() as int);
    assert(b.take(b.len() as int) =~= b);
    law_lines_rejoin(after);
}

/// The whole template is one literal that stands in the output as it is.
proof fn lemma_plain_spans(t: Seq<u8>)
    requires
        0 < t.len() <= usize::MAX,
        forall|p: int| !#[trigger] opens_at(t, p),
    ensures
        lexed(t) matches Ok(segs) && spans_of(t, segs, t) == seq![
            RenderedSpan {
                range: Range { start: 0usize, end: t.len() as usize },
                origin: SpanOrigin::Literal {
                    segment: 0,
                    src: Range { start: 0usize, end: t.len() as usize },
                    repeated: false,
                },
            },
        ],
{
    law_plain_text_is_one_literal(t);
    let segs = literal_upto(0, t.len() as int, 0);
    assert(segs.len() == 1);
    reveal_with_fuel(effective, 2);
    reveal_with_fuel(outer_literals, 2);
    reveal_with_fuel(places, 2);
    reveal_with_fuel(anchored_spans, 2);
    let lits = effective(t, segs, 1);
    let l = literal_at(t, segs, 0)->Some_0;
    assert(lits =~= seq![l]);
    assert(lits.drop_last() =~= seq![]);
    let outer = outer_literals(lits);
    assert(outer =~= seq![l]);
    assert(needle(t, l) =~= t);
    assert(t.subrange(0, t.len() as int) =~= t);
    let ats = places(t, segs, outer, t, 0, 0);
    assert(ats =~= seq![0int]);
    assert(spans_of(t, segs, t) =~= seq![
        RenderedSpan {
            range: Range { start: 0usize, end: t.len() as usize },
            origin: SpanOrigin::Literal {
                segment: 0,
                src: Range { start: 0usize, end: t.len() as usize },
                repeated: false,
            },
        },
    ]);
}

proof fn lemma_placed_as_they_are(spans: Seq<RenderedSpan>, r: Seq<u8>, es: Seq<Edit>, n: int)
    requires
        spans.len() == 1,
        spans[0].range.start == 0,
        spans[0].range.end == r.len(),
        r.len() > 0,
        editable(spans[0]),
        spans[0].origin->src.start == 0,
        apart(r, es),
        0 <= n <= es.len(),
    ensures
        placed_edits(spans, es, n) == Ok::<Seq<Edit>, WriteBackError>(es.take(n)),
    decreases n,
{
    if n == 0 {
        assert(es.take(0) =~= seq![]);
    } else {
        lemma_placed_as_they_are(spans, r, es, n - 1);
        let e = es[n - 1];
        assert(can_replace(r, es[n - 1]));
        reveal_with_fuel(find_owner, 2);
        assert(find_owner(spans, e, 0, None) == Ok::<Option<int>, WriteBackError>(Some(0int)));
        assert(placed_edit(spans, e) == Ok::<Edit, WriteBackError>(e));
        assert(es.take(n) =~= es.take(n - 1).push(e));
    }
}

/// A template without actions takes every edit: its output is itself, and carrying the way from
/// it to any other text back gives that text, byte for byte.
pub proof fn law_plain_templates_become_the_edited_text(
    template: Seq<char>,
    resolved: Seq<char>,
    hs: Seq<Hunk>,
)
    requires
        template.len() > 0,
        encode_utf8(template).len() <= usize::MAX,
        forall|p: int| !#[trigger] opens_at(encode_utf8(template), p),
        edit_script(lines_of(template), lines_of(resolved), hs),
    ensures
        ({
            let t = encode_utf8(template);
            lexed(t) matches Ok(segs) && written_back(
                t,
                spans_of(t, segs, t),
                line_edits(lines_of(template), lines_of(resolved), hs),
            ) == Ok::<Seq<u8>, WriteBackError>(encode_utf8(resolved))
        }),
{
    let t = encode_utf8(template);
    encode_utf8_first_scalar(template);
    lemma_plain_spans(t);
    let spans = spans_of(t, lexed(t)->Ok_0, t);
    let es = line_edits(lines_of(template), lines_of(resolved), hs);
    law_line_edits_stand_apart(template, resolved, hs);
    lemma_placed_as_they_are(spans, t, es, es.len() as int);
    assert(es.take(es.len() as int) =~= es);
    assert forall|j: int, k: int|
        #![trigger es[j], es[k]]
        0 <= j < k < es.len() implies es[j].end <= es[k].start by {}
    law_edits_apart_are_all_made(t, es);
    law_line_edits_give_the_other_text(template, resolved, hs);
}

/// The edit lies inside a stretch that a literal of its own is free to take.
pub open spec fn inside_free_literal(sp: RenderedSpan, e: Edit) -> bool {
    &&& sp.origin matches SpanOrigin::Literal { repeated, .. } && !repeated
    &&& sp.range.start < sp.range.end
    &&& sp.range.start <= e.start
    &&& e.end <= sp.range.end
}

/// An insertion lies in a literal that is repeated, or at one of its ends.
pub open spec fn touches_repeated(sp: RenderedSpan, e: Edit) -> bool {
    &&& sp.origin matches SpanOrigin::Literal { repeated, .. } && repeated
    &&& sp.range.start < sp.range.end
    &&& sp.range.start <= e.start <= sp.range.end
}

/// The edit of the template that stands for an edit inside the stretch: as far behind the start
/// of the literal as the other is behind the start of the stretch.
pub open spec fn carried(sp: RenderedSpan, e: Edit) -> Edit {
    Edit {
        start: sp.origin->src.start + (e.start - sp.range.start),
        end: sp.origin->src.start + (e.end - sp.range.start),
        text: e.text,
    }
}

/// Where nothing refuses, the first literal that the edit is in or at owns it.
proof fn lemma_owner_found(spans: Seq<RenderedSpan>, e: Edit, k: int, j: int)
    requires
        0 <= k <= j < spans.len(),
        editable(spans[j]),
        overlaps(spans[j], e) || inserts_in(spans[j], e),
        forall|i: int|
            k <= i < j ==> !overlaps(#[trigger] spans[i], e) && !(editable(spans[i]) && inserts_in(
                spans[i],
                e,
            )),
        forall|i: int|
            j < i < spans.len() ==> !overlaps(#[trigger] spans[i], e),
        forall|i: int|
            k <= i < spans.len() ==> !((#[trigger] spans[i]).origin is Literal
                && spans[i].origin->repeated && inserts_in(spans[i], e)),
    ensures
        find_owner(spans, e, k, None) == Ok::<Option<int>, WriteBackError>(Some(j)),
    decreases j - k,
{
    if k == j {
        lemma_owner_stays(spans, e, j + 1, j);
    } else {
        assert(!overlaps(spans[k], e));
        assert(!((spans[k]).origin is Literal && spans[k].origin->repeated && inserts_in(
            spans[k],
            e,
        )));
        lemma_owner_found(spans, e, k + 1, j);
    }
}

proof fn lemma_owner_stays(spans: Seq<RenderedSpan>, e: Edit, k: int, j: int)
    requires
        0 <= k,
        forall|i: int| k <= i < spans.len() ==> !overlaps(#[trigger] spans[i], e),
        forall|i: int|
            k <= i < spans.len() ==> !((#[trigger] spans[i]).origin is Literal
                && spans[i].origin->repeated && inserts_in(spans[i], e)),
    ensures
        find_owner(spans, e, k, Some(j)) == Ok::<Option<int>, WriteBackError>(Some(j)),
    decreases spans.len() - k,
{
    if k < spans.len() {
        assert(!overlaps(spans[k], e));
        assert(!((spans[k]).origin is Literal && spans[k].origin->repeated && inserts_in(
            spans[k],
            e,
        )));
        lemma_owner_stays(spans, e, k + 1, j);
    }
}

/// A span that owns an edit meets it, and no repeated literal does.
proof fn lemma_owner_meets(spans: Seq<RenderedSpan>, e: Edit, k: int, owner: Option<int>)
    requires
        0 <= k,
        owner matches Some(o) ==> 0 <= o < spans.len() && (overlaps(spans[o], e) || inserts_in(
            spans[o],
            e,
        )),
    ensures
        find_owner(spans, e, k, owner) matches Ok(found) ==> {
            &&& found matches Some(o) ==> 0 <= o < spans.len() && (overlaps(spans[o], e)
                || inserts_in(spans[o], e))
            &&& forall|i: int|
                k <= i < spans.len() && (#[trigger] spans[i]).origin is Literal
                    && spans[i].origin->repeated ==> !inserts_in(spans[i], e) && !overlaps(
                    spans[i],
                    e,
                )
        },
    decreases spans.len() - k,
{
    if k < spans.len() {
        lemma_owner_meets(spans, e, k + 1, owner);
        if overlaps(spans[k], e) || inserts_in(spans[k], e) {
            lemma_owner_meets(spans, e, k + 1, Some(k));
        }
    }
}

/// An edit that changes or removes text is carried over exactly when all of that text lies
/// inside one literal that stands for no other stretch; it lands in that literal, as far in as
/// it was. Whatever touches a value, a repeated literal or a second literal is refused.
pub proof fn law_edits_of_free_literals_are_carried_over(
    spans: Seq<RenderedSpan>,
    len: int,
    e: Edit,
)
    requires
        spans_tile(spans, 0, len),
        0 <= e.start < e.end <= len,
    ensures
        placed_edit(spans, e) is Ok <==> exists|k: int|
            0 <= k < spans.len() && inside_free_literal(#[trigger] spans[k], e),
        forall|k: int|
            0 <= k < spans.len() && inside_free_literal(#[trigger] spans[k], e) ==> placed_edit(
                spans,
                e,
            ) == Ok::<Edit, WriteBackError>(carried(spans[k], e)),
{
    assert forall|k: int|
        0 <= k < spans.len() && inside_free_literal(#[trigger] spans[k], e) implies placed_edit(
        spans,
        e,
    ) == Ok::<Edit, WriteBackError>(carried(spans[k], e)) by {
        assert forall|i: int| 0 <= i < spans.len() && i != k implies !overlaps(
            #[trigger] spans[i],
            e,
        ) by {
            if i < k {
                lemma_spans_order(spans, 0, len, i, k);
            } else {
                lemma_spans_order(spans, 0, len, k, i);
            }
        }
        lemma_owner_found(spans, e, 0, k);
    }
    if placed_edit(spans, e) is Ok {
        lemma_owner(spans, e, 0, None);
        lemma_owner_meets(spans, e, 0, None);
        let k = (find_owner(spans, e, 0, None)->Ok_0)->Some_0;
        lemma_spans_order(spans, 0, len, k, k);
        assert(inside_free_literal(spans[k], e));
    }
}

/// An insertion is carried over exactly when a literal that stands for no other stretch holds
/// its place or ends there, and no repeated literal does; it lands in the first such literal.
pub proof fn law_insertions_go_to_the_first_free_literal(
    spans: Seq<RenderedSpan>,
    len: int,
    e: Edit,
)
    requires
        spans_tile(spans, 0, len),
        0 <= e.start == e.end <= len,
    ensures
        placed_edit(spans, e) is Ok <==> {
            &&& exists|k: int| 0 <= k < spans.len() && inside_free_literal(#[trigger] spans[k], e)
            &&& forall|k: int| 0 <= k < spans.len() ==> !touches_repeated(#[trigger] spans[k], e)
        },
        forall|k: int|
            0 <= k < spans.len() && inside_free_literal(#[trigger] spans[k], e) && (forall|j: int|
                0 <= j < k ==> !inside_free_literal(#[trigger] spans[j], e)) && (forall|j: int|
                0 <= j < spans.len() ==> !touches_repeated(#[trigger] spans[j], e))
                ==> placed_edit(spans, e) == Ok::<Edit, WriteBackError>(carried(spans[k], e)),
{
    assert forall|i: int| 0 <= i < spans.len() && overlaps(#[trigger] spans[i], e) implies {
        spans[i].range.start < e.start < spans[i].range.end
    } by {}
    assert forall|k: int|
        0 <= k < spans.len() && inside_free_literal(#[trigger] spans[k], e) && (forall|j: int|
            0 <= j < k ==> !inside_free_literal(#[trigger] spans[j], e)) && (forall|j: int|
            0 <= j < spans.len() ==> !touches_repeated(#[trigger] spans[j], e)) implies placed_edit(
        spans,
        e,
    ) == Ok::<Edit, WriteBackError>(carried(spans[k], e)) by {
        assert forall|i: int| 0 <= i < spans.len() && i != k implies !overlaps(
            #[trigger] spans[i],
            e,
        ) by {
            if i < k {
                lemma_spans_order(spans, 0, len, i, k);
            } else {
                lemma_spans_order(spans, 0, len, k, i);
            }
        }
        assert forall|i: int| 0 <= i < k implies !(editable(#[trigger] spans[i]) && inserts_in(
            spans[i],
            e,
        )) by {
            assert(!inside_free_literal(spans[i], e));
        }
        assert forall|i: int| 0 <= i < spans.len() implies !((#[trigger] spans[i]).origin is Literal
            && spans[i].origin->repeated && inserts_in(spans[i], e)) by {
            assert(!touches_repeated(spans[i], e));
        }
        lemma_owner_found(spans, e, 0, k);
    }
    if placed_edit(spans, e) is Ok {
        lemma_owner(spans, e, 0, None);
        lemma_owner_meets(spans, e, 0, None);
        let k = (find_owner(spans, e, 0, None)->Ok_0)->Some_0;
        lemma_spans_order(spans, 0, len, k, k);
        assert(inside_free_literal(spans[k], e));
        assert forall|j: int| 0 <= j < spans.len() implies !touches_repeated(
            #[trigger] spans[j],
            e,
        ) by {
            assert(spans[j].origin is Literal && spans[j].origin->repeated ==> !inserts_in(
                spans[j],
                e,
            ));
        }
    } else if exists|k: int| 0 <= k < spans.len() && inside_free_literal(#[trigger] spans[k], e) {
        if forall|j: int| 0 <= j < spans.len() ==> !touches_repeated(#[trigger] spans[j], e) {
            let k = choose|k: int|
                0 <= k < spans.len() && inside_free_literal(#[trigger] spans[k], e);
            let f = lemma_first_inside(spans, e, k);
            assert(inside_free_literal(spans[f], e));
        }
    }
}

proof fn lemma_first_inside(spans: Seq<RenderedSpan>, e: Edit, k: int) -> (f: int)
    requires
        0 <= k < spans.len(),
        inside_free_literal(spans[k], e),
    ensures
        0 <= f <= k,
        inside_free_literal(spans[f], e),
        forall|j: int| 0 <= j < f ==> !inside_free_literal(#[trigger] spans[j], e),
    decreases k,
{
    if exists|j: int| 0 <= j < k && inside_free_literal(#[trigger] spans[j], e) {
        let j = choose|j: int| 0 <= j < k && inside_free_literal(#[trigger] spans[j], e);
        lemma_first_inside(spans, e, j)
    } else {
        k
    }
}

proof fn lemma_placed_each(spans: Seq<RenderedSpan>, es: Seq<Edit>, n: int)
    requires
        0 <= n <= es.len(),
    ensures
        match placed_edits(spans, es, n) {
            Ok(ps) => ps.len() == n && forall|k: int|
                0 <= k < n ==> placed_edit(spans, es[k]) == Ok::<Edit, WriteBackError>(
                    #[trigger] ps[k],
                ),
            Err(err) => exists|k: int|
                0 <= k < n && placed_edit(spans, #[trigger] es[k]) == Err::<Edit, WriteBackError>(
                    err,
                ) && forall|j: int| 0 <= j < k ==> placed_edit(spans, #[trigger] es[j]) is Ok,
        },
    decreases n,
{
    if n > 0 {
        lemma_placed_each(spans, es, n - 1);
        match placed_edits(spans, es, n - 1) {
            Ok(front) => {
                assert forall|j: int| 0 <= j < n - 1 implies placed_edit(
                    spans,
                    #[trigger] es[j],
                ) is Ok by {
                    assert(placed_edit(spans, es[j]) == Ok::<Edit, WriteBackError>(front[j]));
                }
                if let Err(err) = placed_edit(spans, es[n - 1]) {
                    assert(placed_edit(spans, es[n - 1]) == Err::<Edit, WriteBackError>(err));
                }
            },
            Err(err) => {
                let k = choose|k: int|
                    0 <= k < n - 1 && placed_edit(spans, #[trigger] es[k]) == Err::<
                        Edit,
                        WriteBackError,
                    >(err) && forall|j: int|
                        0 <= j < k ==> placed_edit(spans, #[trigger] es[j]) is Ok;
                assert(placed_edit(spans, es[k]) == Err::<Edit, WriteBackError>(err));
            },
        }
    }
}

/// All or nothing is written: with a map that tells the truth, edits that stand apart are written
/// back exactly when each of them can be carried over, and the error is that of the first that
/// cannot.
pub proof fn law_one_refused_edit_refuses_them_all(
    t: Seq<u8>,
    r: Seq<u8>,
    spans: Seq<RenderedSpan>,
    es: Seq<Edit>,
)
    requires
        sound_map(t, r, spans),
        apart(r, es),
    ensures
        match written_back(t, spans, es) {
            Ok(_) => forall|k: int|
                0 <= k < es.len() ==> placed_edit(spans, #[trigger] es[k]) is Ok,
            Err(err) => exists|k: int|
                0 <= k < es.len() && placed_edit(spans, #[trigger] es[k]) == Err::<
                    Edit,
                    WriteBackError,
                >(err) && forall|j: int| 0 <= j < k ==> placed_edit(spans, #[trigger] es[j]) is Ok,
        },
{
    lemma_placed_each(spans, es, es.len() as int);
    law_write_back_edits_only_literals(t, r, spans, es);
    if let Ok(ps) = placed_edits(spans, es, es.len() as int) {
        assert forall|k: int| 0 <= k < es.len() implies placed_edit(spans, #[trigger] es[k]) is Ok by {
            assert(placed_edit(spans, es[k]) == Ok::<Edit, WriteBackError>(ps[k]));
        }
    }
}

} // verus!
