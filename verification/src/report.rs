//! What the command-line tools print: the result of a scan, and the rendered text of a template
//! with its computed parts marked.

use vstd::prelude::*;
use vstd::utf8::*;

use crate::chezmoi::EvalFailure;
use crate::drift::DriftClass;
use crate::merge::{bare_lines, lines};
use crate::scanner::{FileDrift, ScanReport};
use crate::template::anchor::{spans_tile, RenderedSpan, SpanMap, SpanOrigin};
use crate::text::{chars_of, decimal, decimal_text, strings, utf8_string};

verus! {

// ---------------------------------------------------------------------------
// A scan

/// The branch of the remote that a source repository follows.
pub fn remote_ref(branch: Option<&str>) -> (r: String)
    ensures
        r@ == "origin/"@ + (match branch {
            Some(b) => b@,
            None => "main"@,
        }),
{
    let mut s = "origin/".to_owned();
    match branch {
        Some(b) => s.append(b),
        None => s.append("main"),
    }
    s
}

/// The name of a class.
pub open spec fn class_name(c: DriftClass) -> Seq<char> {
    match c {
        DriftClass::InSync => "InSync"@,
        DriftClass::DestinationDrift => "DestinationDrift"@,
        DriftClass::SourceAhead => "SourceAhead"@,
        DriftClass::RemoteAhead => "RemoteAhead"@,
        DriftClass::LocalSourceDiverged => "LocalSourceDiverged"@,
        DriftClass::Conflict => "Conflict"@,
        DriftClass::EvalFailed => "EvalFailed"@,
    }
}

fn name_of_class(c: DriftClass) -> (r: &'static str)
    ensures
        r@ == class_name(c),
{
    match c {
        DriftClass::InSync => "InSync",
        DriftClass::DestinationDrift => "DestinationDrift",
        DriftClass::SourceAhead => "SourceAhead",
        DriftClass::RemoteAhead => "RemoteAhead",
        DriftClass::LocalSourceDiverged => "LocalSourceDiverged",
        DriftClass::Conflict => "Conflict",
        DriftClass::EvalFailed => "EvalFailed",
    }
}

/// A text, filled up with spaces to a width.
pub open spec fn filled(s: Seq<char>, width: nat) -> Seq<char> {
    s + Seq::new(
        (if s.len() < width {
            width - s.len()
        } else {
            0
        }) as nat,
        |k: int| ' ',
    )
}

fn fill(text: &str, width: usize) -> (r: String)
    ensures
        r@ == filled(text@, width as nat),
{
    let mut n: usize = chars_of(text).len();
    let start: usize = n;
    let mut s = text.to_owned();
    while n < width
        invariant
            start == text@.len(),
            start <= n,
            n <= width || n == start,
            s@ == text@ + Seq::new((n - start) as nat, |k: int| ' '),
        decreases width - n,
    {
        s.append(" ");
        proof {
            reveal_strlit(" ");
            assert(text@ + Seq::new((n + 1 - start) as nat, |k: int| ' ') =~= (text@ + Seq::new(
                (n - start) as nat,
                |k: int| ' ',
            )) + " "@);
        }
        n = n + 1;
    }
    assert(s@ =~= filled(text@, width as nat));
    s
}

/// A file that has drifted, in a line.
pub fn drift_line(d: &FileDrift) -> (r: String)
    ensures
        r@ == filled(class_name(d.class), 22) + " "@ + d.target@,
{
    let mut s = fill(name_of_class(d.class), 22);
    s.append(" ");
    s.append(d.target.as_str());
    s
}

/// The numbers of a scan, in a line.
pub fn summary_line(report: &ScanReport) -> (r: String)
    ensures
        r@ == "-- "@ + decimal(report.drifted@.len()) + " drifted, "@ + decimal(
            report.in_sync_count as nat,
        ) + " in sync"@,
{
    let mut s = "-- ".to_owned();
    s.append(decimal_text(report.drifted.len() as u64).as_str());
    s.append(" drifted, ");
    s.append(decimal_text(report.in_sync_count as u64).as_str());
    s.append(" in sync");
    s
}

/// The numbers of a scan, as a JSON object.
pub fn json_line(report: &ScanReport) -> (r: String)
    ensures
        r@ == "{\"drifted\":"@ + decimal(report.drifted@.len()) + ",\"in_sync\":"@ + decimal(
            report.in_sync_count as nat,
        ) + ",\"degraded\":"@ + (if report.degraded is Some {
            "true"@
        } else {
            "false"@
        }) + "}"@,
{
    let mut s = "{\"drifted\":".to_owned();
    s.append(decimal_text(report.drifted.len() as u64).as_str());
    s.append(",\"in_sync\":");
    s.append(decimal_text(report.in_sync_count as u64).as_str());
    s.append(",\"degraded\":");
    if report.degraded.is_some() {
        s.append("true");
    } else {
        s.append("false");
    }
    s.append("}");
    s
}

/// The first line of a text.
pub open spec fn first_line(text: Seq<char>) -> Seq<char> {
    let ls = bare_lines(text);
    if ls.len() == 0 {
        seq![]
    } else {
        ls[0]
    }
}

/// Why a scan is not complete, in a line.
pub fn degraded_line(f: &EvalFailure) -> (r: String)
    ensures
        r@ == "degraded scan: "@ + f.hint@ + " — "@ + first_line(f.raw_stderr@),
{
    let ls = lines(f.raw_stderr.as_str());
    let ghost all = strings(ls@);
    let mut s = "degraded scan: ".to_owned();
    s.append(f.hint.as_str());
    s.append(" — ");
    assert(all.len() == ls@.len());
    if ls.len() > 0 {
        assert(all[0] == ls@[0]@);
        s.append(ls[0].as_str());
    } else {
        assert(s@ + Seq::<char>::empty() =~= s@);
    }
    s
}

// ---------------------------------------------------------------------------
// Spans

/// A rendered stretch with a mark: R for a literal that occurs more than once, A for what an
/// action made, U for what is not anchored. A literal that can be edited has none.
pub open spec fn marked(origin: SpanOrigin, text: Seq<char>) -> Seq<char> {
    match origin {
        SpanOrigin::Literal { repeated, .. } => if repeated {
            "⟦R:"@ + text + "⟧"@
        } else {
            text
        },
        SpanOrigin::Action { .. } => "⟦A:"@ + text + "⟧"@,
        SpanOrigin::Unmapped => "⟦U:"@ + text + "⟧"@,
    }
}

/// The stretch is text.
pub open spec fn is_text(rendered: Seq<u8>, span: RenderedSpan) -> bool {
    &&& span.range.start <= span.range.end <= rendered.len()
    &&& valid_utf8(rendered.subrange(span.range.start as int, span.range.end as int))
}

/// The rendered text of the first `n` stretches, with marks.
pub open spec fn marked_text(rendered: Seq<u8>, spans: Seq<RenderedSpan>, n: int) -> Seq<char>
    decreases n,
{
    if n <= 0 {
        seq![]
    } else {
        let r = spans[n - 1].range;
        marked_text(rendered, spans, n - 1) + marked(
            spans[n - 1].origin,
            decode_utf8(rendered.subrange(r.start as int, r.end as int)),
        )
    }
}

fn push_marked(out: &mut String, origin: &SpanOrigin, text: &str)
    ensures
        final(out)@ == old(out)@ + marked(*origin, text@),
{
    let ghost had = out@;
    let mark = match origin {
        SpanOrigin::Literal { repeated, .. } => if *repeated {
            "⟦R:"
        } else {
            out.append(text);
            return;
        },
        SpanOrigin::Action { .. } => "⟦A:",
        SpanOrigin::Unmapped => "⟦U:",
    };
    out.append(mark);
    out.append(text);
    out.append("⟧");
    assert(out@ =~= had + marked(*origin, text@));
}

/// A rendered text with the parts marked that cannot be edited. None where a stretch of the map
/// does not lie in the text.
pub fn mark_spans(rendered: &str, map: &SpanMap) -> (r: Option<String>)
    ensures
        match r {
            Some(s) => {
                &&& forall|k: int|
                    0 <= k < map.spans@.len() ==> is_text(
                        encode_utf8(rendered@),
                        #[trigger] map.spans@[k],
                    )
                &&& s@ == marked_text(
                    encode_utf8(rendered@),
                    map.spans@,
                    map.spans@.len() as int,
                )
            },
            None => exists|k: int|
                0 <= k < map.spans@.len() && !is_text(
                    encode_utf8(rendered@),
                    #[trigger] map.spans@[k],
                ),
        },
{
    let b = rendered.as_bytes();
    let ghost bytes = encode_utf8(rendered@);
    let mut out = String::new();
    let mut i: usize = 0;
    assert(out@ =~= seq![]);
    while i < map.spans.len()
        invariant
            b@ == bytes,
            bytes == encode_utf8(rendered@),
            i <= map.spans@.len(),
            forall|k: int| 0 <= k < i ==> is_text(bytes, #[trigger] map.spans@[k]),
            out@ == marked_text(bytes, map.spans@, i as int),
        decreases map.spans@.len() - i,
    {
        let span = &map.spans[i];
        if span.range.start > span.range.end || span.range.end > b.len() {
            assert(!is_text(bytes, map.spans@[i as int]));
            return None;
        }
        let part = vstd::slice::slice_subrange(b, span.range.start, span.range.end);
        match utf8_string(vstd::slice::slice_to_vec(part)) {
            Some(text) => {
                proof {
                    encode_utf8_decode_utf8(text@);
                }
                push_marked(&mut out, &span.origin, text.as_str());
            },
            None => {
                assert(!is_text(bytes, map.spans@[i as int]));
                return None;
            },
        }
        i = i + 1;
    }
    Some(out)
}

/// A literal that can be edited.
pub open spec fn is_editable(origin: SpanOrigin) -> bool {
    origin matches SpanOrigin::Literal { repeated, .. } && !repeated
}

/// How many bytes the first `n` stretches have: all of them, or those that can be edited.
pub open spec fn bytes_in(spans: Seq<RenderedSpan>, n: int, editable: bool) -> int
    decreases n,
{
    if n <= 0 {
        0
    } else {
        let s = spans[n - 1];
        let len = if s.range.start < s.range.end {
            s.range.end - s.range.start
        } else {
            0
        };
        bytes_in(spans, n - 1, editable) + (if editable && !is_editable(s.origin) {
            0
        } else {
            len
        })
    }
}

/// How many bytes of a rendered text can be edited, and how many there are.
pub fn coverage(map: &SpanMap) -> (r: (u128, u128))
    ensures
        r.0 == bytes_in(map.spans@, map.spans@.len() as int, true),
        r.1 == bytes_in(map.spans@, map.spans@.len() as int, false),
        r.0 <= r.1,
{
    let mut editable: u128 = 0;
    let mut total: u128 = 0;
    let mut i: usize = 0;
    while i < map.spans.len()
        invariant
            i <= map.spans@.len(),
            editable == bytes_in(map.spans@, i as int, true),
            total == bytes_in(map.spans@, i as int, false),
            editable <= total <= i * usize::MAX,
        decreases map.spans@.len() - i,
    {
        let span = &map.spans[i];
        let len: usize = if span.range.start < span.range.end {
            span.range.end - span.range.start
        } else {
            0
        };
        assert(i * usize::MAX + usize::MAX == (i + 1) * usize::MAX) by (nonlinear_arith);
        assert((i + 1) * usize::MAX <= u128::MAX) by (nonlinear_arith)
            requires
                i < usize::MAX,
        ;
        total = total + len as u128;
        match &span.origin {
            SpanOrigin::Literal { repeated, .. } => {
                if !*repeated {
                    editable = editable + len as u128;
                }
            },
            _ => {},
        }
        i = i + 1;
    }
    (editable, total)
}

// ---------------------------------------------------------------------------
// What is marked and counted

/// A stretch is shown as it is exactly where it can be edited; all others are in brackets, whose
/// letter says why.
pub proof fn law_only_editable_text_is_unmarked(origin: SpanOrigin, text: Seq<char>)
    ensures
        marked(origin, text) == text <==> is_editable(origin),
        !is_editable(origin) ==> marked(origin, text).len() == text.len() + 4 && marked(
            origin,
            text,
        )[1] == (match origin {
            SpanOrigin::Literal { .. } => 'R',
            SpanOrigin::Action { .. } => 'A',
            SpanOrigin::Unmapped => 'U',
        }),
{
    reveal_strlit("⟦R:");
    reveal_strlit("⟦A:");
    reveal_strlit("⟦U:");
    reveal_strlit("⟧");
}

proof fn lemma_first_bytes(spans: Seq<RenderedSpan>, n: int)
    requires
        0 < n <= spans.len(),
    ensures
        bytes_in(spans, n, false) == bytes_in(spans, 1, false) + bytes_in(
            spans.drop_first(),
            n - 1,
            false,
        ),
    decreases n,
{
    if n > 1 {
        lemma_first_bytes(spans, n - 1);
        assert(spans.drop_first()[n - 2] == spans[n - 1]);
    } else {
        assert(bytes_in(spans.drop_first(), 0, false) == 0);
    }
}

/// All bytes of the output are counted, each once, where the stretches follow each other from its
/// beginning to its end.
pub proof fn law_every_byte_is_counted(spans: Seq<RenderedSpan>, s: int, e: int)
    requires
        spans_tile(spans, s, e),
    ensures
        bytes_in(spans, spans.len() as int, false) == e - s,
    decreases spans.len(),
{
    if spans.len() > 0 {
        let rest = spans.drop_first();
        law_every_byte_is_counted(rest, spans[0].range.end as int, e);
        lemma_first_bytes(spans, spans.len() as int);
        assert(bytes_in(spans, 0, false) == 0);
        assert(bytes_in(spans, 1, false) == spans[0].range.end - spans[0].range.start);
    }
}

/// What counts as editable is just the bytes of the stretches that can be edited: none where all
/// is computed, and all where nothing is.
pub proof fn law_editable_bytes_are_those_of_free_literals(spans: Seq<RenderedSpan>, n: int)
    requires
        0 <= n <= spans.len(),
    ensures
        ({
            let free = spans.take(n).filter(|s: RenderedSpan| is_editable(s.origin));
            bytes_in(spans, n, true) == bytes_in(free, free.len() as int, false)
        }),
        0 <= bytes_in(spans, n, true) <= bytes_in(spans, n, false),
    decreases n,
{
    reveal(Seq::filter);
    if n > 0 {
        law_editable_bytes_are_those_of_free_literals(spans, n - 1);
        let p = |s: RenderedSpan| is_editable(s.origin);
        let before = spans.take(n - 1).filter(p);
        assert(spans.take(n).drop_last() =~= spans.take(n - 1));
        assert(spans.take(n).last() == spans[n - 1]);
        if is_editable(spans[n - 1].origin) {
            lemma_bytes_front(before, spans[n - 1], before.len() as int);
        }
    } else {
        assert(spans.take(0) =~= seq![]);
    }
}

proof fn lemma_bytes_front(spans: Seq<RenderedSpan>, x: RenderedSpan, n: int)
    requires
        0 <= n <= spans.len(),
    ensures
        bytes_in(spans.push(x), n, false) == bytes_in(spans, n, false),
    decreases n,
{
    if n > 0 {
        lemma_bytes_front(spans, x, n - 1);
    }
}

/// A column is as wide as it is to be, or as its text: nothing is cut off, and only blanks are
/// added, behind it.
pub proof fn law_columns_are_filled(s: Seq<char>, width: nat)
    ensures
        s.is_prefix_of(filled(s, width)),
        filled(s, width).len() == if s.len() < width {
            width
        } else {
            s.len()
        },
        forall|k: int| s.len() <= k < filled(s, width).len() ==> #[trigger] filled(s, width)[k] == ' ',
{
}

} // verus!
