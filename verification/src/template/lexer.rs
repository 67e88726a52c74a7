//! Splitting a template into literal text, actions and comments.

use std::ops::Range;
use vstd::prelude::*;
use vstd::string::*;
use vstd::utf8::*;

use crate::text::{bytes_eq, decimal, decimal_text, find_bytes, first_word, occurs};
use crate::text::{find_from, first_word_spec, occurs_at, skip_whitespace, skip_ws};
use crate::text::{lemma_ascii_boundaries, lemma_find_from, lemma_skip_ws_bounds};

verus! {

/// What an action does to the nesting of control blocks.
#[derive(Debug, Clone, Copy, PartialEq, Eq, Structural)]
pub enum ActionClass {
    Value,
    ControlOpen,
    ControlElse,
    ControlClose,
}

#[derive(Debug, Clone, Copy, PartialEq, Eq, Structural)]
pub enum SegmentKind {
    Literal,
    Action { class: ActionClass, trim_before: bool, trim_after: bool },
    Comment { trim_before: bool, trim_after: bool },
}

/// A piece of the template: the bytes `src`, inside `depth` open control blocks.
#[derive(Debug)]
pub struct Segment {
    pub kind: SegmentKind,
    pub src: Range<usize>,
    pub depth: u32,
}

impl Clone for Segment {
    fn clone(&self) -> (r: Self)
        ensures
            r == *self,
    {
        Segment { kind: self.kind, src: self.src.start..self.src.end, depth: self.depth }
    }
}

#[derive(Debug)]
pub enum LexError {
    UnclosedAction { pos: usize },
    UnbalancedEnd { pos: usize },
}

impl LexError {
    pub open spec fn message_spec(self) -> Seq<char> {
        match self {
            LexError::UnclosedAction { pos } => "unclosed template action starting at byte "@
                + decimal(pos as nat),
            LexError::UnbalancedEnd { pos } => "unbalanced {{ end }} at byte "@ + decimal(
                pos as nat,
            ),
        }
    }

    /// The error in words.
    pub fn message(&self) -> (r: String)
        ensures
            r@ == self.message_spec(),
    {
        match self {
            LexError::UnclosedAction { pos } => {
                let mut s = "unclosed template action starting at byte ".to_owned();
                s.append(decimal_text(*pos as u64).as_str());
                s
            },
            LexError::UnbalancedEnd { pos } => {
                let mut s = "unbalanced {{ end }} at byte ".to_owned();
                s.append(decimal_text(*pos as u64).as_str());
                s
            },
        }
    }
}

// ---------------------------------------------------------------------------
// What a template's actions are

/// The class that the first word of an action's body gives it.
pub open spec fn class_of(body: Seq<u8>) -> ActionClass {
    let w = first_word_spec(body);
    if w == "if".spec_bytes() || w == "range".spec_bytes() || w == "with".spec_bytes() || w
        == "block".spec_bytes() || w == "define".spec_bytes() {
        ActionClass::ControlOpen
    } else if w == "else".spec_bytes() {
        ActionClass::ControlElse
    } else if w == "end".spec_bytes() {
        ActionClass::ControlClose
    } else {
        ActionClass::Value
    }
}

/// Where a scan for the end of an action stands: outside strings, or in one of the two kinds.
pub enum Quoting {
    Outside,
    Double,
    Raw,
}

/// The first `}}` at or after `i` that stands in no string. In a double-quoted string a
/// backslash hides the byte behind it; a backquoted string has no escapes.
pub open spec fn close_from(b: Seq<u8>, i: int, q: Quoting) -> Option<int>
    decreases b.len() + 1 - i,
{
    if i < 0 || i >= b.len() {
        None
    } else {
        match q {
            Quoting::Outside => if b[i] == 0x22 {
                close_from(b, i + 1, Quoting::Double)
            } else if b[i] == 0x60 {
                close_from(b, i + 1, Quoting::Raw)
            } else if b[i] == 0x7d && i + 1 < b.len() && b[i + 1] == 0x7d {
                Some(i)
            } else {
                close_from(b, i + 1, Quoting::Outside)
            },
            Quoting::Double => if b[i] == 0x5c {
                close_from(b, i + 2, Quoting::Double)
            } else if b[i] == 0x22 {
                close_from(b, i + 1, Quoting::Outside)
            } else {
                close_from(b, i + 1, Quoting::Double)
            },
            Quoting::Raw => if b[i] == 0x60 {
                close_from(b, i + 1, Quoting::Outside)
            } else {
                close_from(b, i + 1, Quoting::Raw)
            },
        }
    }
}

/// The closing `}}` at `i` is written ` -}}`.
pub open spec fn trims_after(b: Seq<u8>, i: int) -> bool {
    i >= 2 && b[i - 1] == 0x2d && b[i - 2] == 0x20
}

/// The first byte at or after `i` that is no blank.
pub open spec fn skip_blanks(b: Seq<u8>, i: int) -> int
    decreases b.len() - i,
{
    if 0 <= i < b.len() && b[i] == 0x20 {
        skip_blanks(b, i + 1)
    } else {
        i
    }
}

/// `{{` stands at `i`.
pub open spec fn opens_at(b: Seq<u8>, i: int) -> bool {
    0 <= i && i + 1 < b.len() && b[i] == 0x7b && b[i + 1] == 0x7b
}

/// An action or comment: its body starts at `from`, its closing `}}` stands at `close`.
pub struct Tag {
    pub from: int,
    pub close: int,
    pub trim_before: bool,
    pub trim_after: bool,
    pub comment: bool,
}

/// The opening `{{` at `i` is written `{{- `.
pub open spec fn trims_before(b: Seq<u8>, i: int) -> bool {
    i + 3 < b.len() && b[i + 2] == 0x2d && b[i + 3] == 0x20
}

/// Where the body of the action that opens at `i` starts.
pub open spec fn body_start(b: Seq<u8>, i: int) -> int {
    if trims_before(b, i) {
        i + 3
    } else {
        i + 2
    }
}

/// What opens at `i`, if it is closed. A comment runs to its `*/`, whatever it holds; behind
/// that only blanks and one trim marker may stand before the `}}`.
pub open spec fn tag_at(b: Seq<u8>, i: int) -> Option<Tag> {
    let from = body_start(b, i);
    let text = skip_ws(b, from);
    if text + 1 < b.len() && b[text] == 0x2f && b[text + 1] == 0x2a {
        match find_from(b, "*/".spec_bytes(), text + 2) {
            None => None,
            Some(star) => {
                let k = skip_blanks(b, star + 2);
                let trim = k < b.len() && b[k] == 0x2d;
                let close = if trim {
                    k + 1
                } else {
                    k
                };
                if occurs_at(b, "}}".spec_bytes(), close) {
                    Some(
                        Tag {
                            from,
                            close,
                            trim_before: trims_before(b, i),
                            trim_after: trim,
                            comment: true,
                        },
                    )
                } else {
                    None
                }
            },
        }
    } else {
        match close_from(b, from, Quoting::Outside) {
            None => None,
            Some(close) => Some(
                Tag {
                    from,
                    close,
                    trim_before: trims_before(b, i),
                    trim_after: trims_after(b, close),
                    comment: false,
                },
            ),
        }
    }
}

proof fn lemma_close_from(b: Seq<u8>, i: int, q: Quoting)
    requires
        0 <= i,
    ensures
        close_from(b, i, q) matches Some(c) ==> i <= c && c + 1 < b.len() && b[c] == 0x7d && b[c
            + 1] == 0x7d,
    decreases b.len() + 1 - i,
{
    if i < b.len() {
        lemma_close_from(b, i + 1, Quoting::Outside);
        lemma_close_from(b, i + 1, Quoting::Double);
        lemma_close_from(b, i + 1, Quoting::Raw);
        lemma_close_from(b, i + 2, Quoting::Double);
    }
}

proof fn lemma_skip_blanks(b: Seq<u8>, i: int)
    requires
        0 <= i <= b.len(),
    ensures
        i <= skip_blanks(b, i) <= b.len(),
    decreases b.len() - i,
{
    if i < b.len() && b[i] == 0x20 {
        lemma_skip_blanks(b, i + 1);
    }
}

proof fn lemma_two_bytes()
    ensures
        "*/".spec_bytes() == seq![0x2au8, 0x2fu8],
        "}}".spec_bytes() == seq![0x7du8, 0x7du8],
{
    reveal_strlit("*/");
    reveal_strlit("}}");
    is_ascii_chars_encode_utf8("*/"@);
    is_ascii_chars_encode_utf8("}}"@);
    assert("*/".spec_bytes() =~= seq![0x2au8, 0x2fu8]);
    assert("}}".spec_bytes() =~= seq![0x7du8, 0x7du8]);
}

/// Where a tag's parts stand: its body inside the text, before a closing `}}`.
pub proof fn lemma_tag_bounds(b: Seq<u8>, i: int)
    requires
        opens_at(b, i),
    ensures
        tag_at(b, i) matches Some(t) ==> {
            &&& i + 2 <= t.from <= t.close
            &&& t.from == body_start(b, i)
            &&& t.close + 2 <= b.len()
            &&& b[t.close] == 0x7d
            &&& b[t.close + 1] == 0x7d
        },
{
    let from = body_start(b, i);
    lemma_skip_ws_bounds(b, from);
    let text = skip_ws(b, from);
    lemma_close_from(b, from, Quoting::Outside);
    lemma_two_bytes();
    if text + 1 < b.len() {
        lemma_find_from(b, "*/".spec_bytes(), text + 2);
        if let Some(star) = find_from(b, "*/".spec_bytes(), text + 2) {
            lemma_skip_blanks(b, star + 2);
            let k = skip_blanks(b, star + 2);
            let close = if k < b.len() && b[k] == 0x2d {
                k + 1
            } else {
                k
            };
            if occurs_at(b, "}}".spec_bytes(), close) {
                assert(b.subrange(close, close + 2)[0] == 0x7d);
                assert(b.subrange(close, close + 2)[1] == 0x7d);
            }
        }
    }
}

// ---------------------------------------------------------------------------
// What a template's segments are

pub open spec fn literal_seg(start: int, end: int, depth: int) -> Segment {
    Segment {
        kind: SegmentKind::Literal,
        src: Range { start: start as usize, end: end as usize },
        depth: depth as u32,
    }
}

pub open spec fn tag_seg(t: Tag, class: ActionClass, start: int, depth: int) -> Segment {
    Segment {
        kind: if t.comment {
            SegmentKind::Comment { trim_before: t.trim_before, trim_after: t.trim_after }
        } else {
            SegmentKind::Action { class, trim_before: t.trim_before, trim_after: t.trim_after }
        },
        src: Range { start: start as usize, end: (t.close + 2) as usize },
        depth: depth as u32,
    }
}

/// `head` before what `tail` holds, where it holds anything.
pub open spec fn before(head: Seq<Segment>, tail: Result<Seq<Segment>, LexError>) -> Result<
    Seq<Segment>,
    LexError,
> {
    match tail {
        Ok(s) => Ok(head + s),
        Err(e) => Err(e),
    }
}

/// The literal text from `start` up to `end`: one segment, or none where it is empty.
pub open spec fn literal_upto(start: int, end: int, depth: int) -> Seq<Segment> {
    if start < end {
        seq![literal_seg(start, end, depth)]
    } else {
        seq![]
    }
}

/// The class of a tag; a comment has none, and leaves the nesting as a value does.
pub open spec fn tag_class(b: Seq<u8>, t: Tag) -> ActionClass {
    if t.comment {
        ActionClass::Value
    } else {
        class_of(b.subrange(t.from, t.close))
    }
}

/// The segments of the template from `i` on, where literal text is open since `lit` and
/// `depth` control blocks are open. An opening action carries the depth outside it, and so
/// does the `end` that closes it.
pub open spec fn lex_from(b: Seq<u8>, lit: int, i: int, depth: int) -> Result<
    Seq<Segment>,
    LexError,
>
    decreases b.len() - i,
{
    if i < 0 || i >= b.len() {
        Ok(literal_upto(lit, b.len() as int, depth))
    } else if !opens_at(b, i) {
        lex_from(b, lit, i + 1, depth)
    } else {
        proof {
            lemma_tag_bounds(b, i);
        }
        match tag_at(b, i) {
            None => Err(LexError::UnclosedAction { pos: i as usize }),
            Some(t) => {
                let class = tag_class(b, t);
                let end = t.close + 2;
                if class == ActionClass::ControlClose && depth == 0 {
                    Err(LexError::UnbalancedEnd { pos: i as usize })
                } else {
                    let own = if class == ActionClass::ControlClose {
                        depth - 1
                    } else {
                        depth
                    };
                    let next = if class == ActionClass::ControlOpen {
                        depth + 1
                    } else {
                        own
                    };
                    before(
                        literal_upto(lit, i, depth).push(tag_seg(t, class, i, own)),
                        lex_from(b, end, end, next),
                    )
                }
            },
        }
    }
}

/// The segments of a template.
pub open spec fn lexed(b: Seq<u8>) -> Result<Seq<Segment>, LexError> {
    lex_from(b, 0, 0, 0)
}

// ---------------------------------------------------------------------------
// The lexer

fn classify(body: &[u8]) -> (r: ActionClass)
    ensures
        r == class_of(body@),
{
    let first = first_word(body);
    if bytes_eq(first, "if".as_bytes()) || bytes_eq(first, "range".as_bytes()) || bytes_eq(
        first,
        "with".as_bytes(),
    ) || bytes_eq(first, "block".as_bytes()) || bytes_eq(first, "define".as_bytes()) {
        ActionClass::ControlOpen
    } else if bytes_eq(first, "else".as_bytes()) {
        ActionClass::ControlElse
    } else if bytes_eq(first, "end".as_bytes()) {
        ActionClass::ControlClose
    } else {
        ActionClass::Value
    }
}

/// The closing `}}` of an action whose body starts at `from`, and whether it is written ` -}}`.
fn find_close(b: &[u8], from: usize) -> (r: Option<(usize, bool)>)
    ensures
        match r {
            Some((close, trim)) => close_from(b@, from as int, Quoting::Outside) == Some(
                close as int,
            ) && trim == trims_after(b@, close as int),
            None => close_from(b@, from as int, Quoting::Outside) is None,
        },
{
    let mut i: usize = from;
    let mut q: Quoting = Quoting::Outside;
    while i < b.len()
        invariant
            close_from(b@, from as int, Quoting::Outside) == close_from(b@, i as int, q),
        decreases b@.len() - i,
    {
        let c: u8 = b[i];
        match q {
            Quoting::Outside => {
                if c == 0x22 {
                    q = Quoting::Double;
                } else if c == 0x60 {
                    q = Quoting::Raw;
                } else if c == 0x7d && b.len() - i > 1 && b[i + 1] == 0x7d {
                    let trim = i >= 2 && b[i - 1] == 0x2d && b[i - 2] == 0x20;
                    return Some((i, trim));
                }
            },
            Quoting::Double => {
                if c == 0x5c {
                    if b.len() - i < 2 {
                        assert(close_from(b@, i as int + 2, Quoting::Double) is None);
                        return None;
                    }
                    i = i + 1;
                } else if c == 0x22 {
                    q = Quoting::Outside;
                }
            },
            Quoting::Raw => {
                if c == 0x60 {
                    q = Quoting::Outside;
                }
            },
        }
        i = i + 1;
    }
    None
}

/// The closing `}}` of a comment whose `/*` stands at `text`, and whether a trim marker
/// stands before it.
fn find_comment_close(b: &[u8], text: usize) -> (r: Option<(usize, bool)>)
    requires
        text + 2 <= b@.len(),
    ensures
        r == (match find_from(b@, "*/".spec_bytes(), text + 2) {
            None => None,
            Some(star) => {
                let k = skip_blanks(b@, star + 2);
                let trim = k < b@.len() && b@[k] == 0x2d;
                let close = if trim {
                    k + 1
                } else {
                    k
                };
                if occurs_at(b@, "}}".spec_bytes(), close) {
                    Some((close as usize, trim))
                } else {
                    None
                }
            },
        }),
{
    let len: usize = b.len();
    proof {
        lemma_two_bytes();
        lemma_find_from(b@, "*/".spec_bytes(), text + 2);
    }
    match find_bytes(b, "*/".as_bytes(), text + 2) {
        None => None,
        Some(star) => {
            let mut k: usize = star + 2;
            while k < b.len() && b[k] == 0x20
                invariant
                    star + 2 <= k <= b@.len(),
                    skip_blanks(b@, star + 2) == skip_blanks(b@, k as int),
                decreases b@.len() - k,
            {
                k = k + 1;
            }
            let trim = k < b.len() && b[k] == 0x2d;
            if trim {
                k = k + 1;
            }
            if occurs(b, "}}".as_bytes(), k) {
                Some((k, trim))
            } else {
                None
            }
        },
    }
}

/// What opens at `i`: where its body starts and where it is closed, whether it trims before
/// and after, and whether it is a comment.
fn read_tag(b: &[u8], i: usize) -> (r: Option<(usize, usize, bool, bool, bool)>)
    requires
        opens_at(b@, i as int),
    ensures
        match r {
            None => tag_at(b@, i as int) is None,
            Some((from, close, trim_before, trim_after, comment)) => tag_at(b@, i as int) == Some(
                Tag { from: from as int, close: close as int, trim_before, trim_after, comment },
            ),
        },
{
    let len: usize = b.len();
    proof {
        lemma_tag_bounds(b@, i as int);
        lemma_skip_ws_bounds(b@, body_start(b@, i as int));
    }
    let trim_before = len - i > 3 && b[i + 2] == 0x2d && b[i + 3] == 0x20;
    let from: usize = if trim_before {
        i + 3
    } else {
        i + 2
    };
    let text: usize = skip_whitespace(b, from);
    if len - text > 1 && b[text] == 0x2f && b[text + 1] == 0x2a {
        match find_comment_close(b, text) {
            None => None,
            Some((close, trim_after)) => {
                Some((from, close, trim_before, trim_after, true))
            },
        }
    } else {
        match find_close(b, from) {
            None => None,
            Some((close, trim_after)) => {
                Some((from, close, trim_before, trim_after, false))
            },
        }
    }
}

proof fn lemma_before(acc: Seq<Segment>, head: Seq<Segment>, tail: Result<Seq<Segment>, LexError>)
    ensures
        before(acc, before(head, tail)) == before(acc + head, tail),
{
    if let Ok(s) = tail {
        assert(acc + (head + s) =~= (acc + head) + s);
    }
}

/// Splits a template into its segments, or says where it is malformed: an action or comment
/// that is never closed, or an `end` that closes nothing. A control block may stay open.
pub fn lex(src: &str) -> (r: Result<Vec<Segment>, LexError>)
    requires
        src.spec_bytes().len() < 0x4_0000_0000,
    ensures
        match r {
            Ok(segs) => lexed(src.spec_bytes()) == Ok::<Seq<Segment>, LexError>(segs@),
            Err(e) => lexed(src.spec_bytes()) == Err::<Seq<Segment>, LexError>(e),
        },
{
    let b = src.as_bytes();
    let len: usize = b.len();
    let mut segs: Vec<Segment> = Vec::new();
    let mut depth: u32 = 0;
    let mut lit: usize = 0;
    let mut i: usize = 0;
    proof {
        let tail = lex_from(b@, 0, 0, 0);
        if let Ok(s) = tail {
            assert(Seq::<Segment>::empty() + s =~= s);
        }
    }
    while i < len
        invariant
            b@ == src.spec_bytes(),
            len == b@.len(),
            len < 0x4_0000_0000,
            lit <= i <= len,
            4 * depth <= lit,
            lexed(b@) == before(segs@, lex_from(b@, lit as int, i as int, depth as int)),
        decreases len - i,
    {
        if !(len - i > 1 && b[i] == 0x7b && b[i + 1] == 0x7b) {
            i = i + 1;
            continue;
        }
        proof {
            lemma_tag_bounds(b@, i as int);
        }
        let (from, close, trim_before, trim_after, comment) = match read_tag(b, i) {
            None => {
                return Err(LexError::UnclosedAction { pos: i });
            },
            Some(t) => t,
        };
        let class = if comment {
            ActionClass::Value
        } else {
            classify(&b[from..close])
        };
        if class == ActionClass::ControlClose && depth == 0 {
            return Err(LexError::UnbalancedEnd { pos: i });
        }
        let ghost old_segs = segs@;
        let ghost head = literal_upto(lit as int, i as int, depth as int);
        if lit < i {
            segs.push(Segment { kind: SegmentKind::Literal, src: lit..i, depth });
        }
        if class == ActionClass::ControlClose {
            depth = depth - 1;
        }
        let kind = if comment {
            SegmentKind::Comment { trim_before, trim_after }
        } else {
            SegmentKind::Action { class, trim_before, trim_after }
        };
        let end: usize = close + 2;
        segs.push(Segment { kind, src: i..end, depth });
        proof {
            let seg = segs@.last();
            assert(segs@ =~= old_segs + head.push(seg));
        }
        if class == ActionClass::ControlOpen {
            depth = depth + 1;
        }
        proof {
            lemma_before(
                old_segs,
                head.push(segs@.last()),
                lex_from(b@, end as int, end as int, depth as int),
            );
        }
        i = end;
        lit = end;
    }
    let ghost old_segs = segs@;
    if lit < len {
        segs.push(Segment { kind: SegmentKind::Literal, src: lit..len, depth });
    }
    assert(segs@ =~= old_segs + literal_upto(lit as int, len as int, depth as int));
    Ok(segs)
}

// ---------------------------------------------------------------------------
// Laws

/// The segments follow each other without gap or overlap from `start` to `end`, none empty.
pub open spec fn tiles(segs: Seq<Segment>, start: int, end: int) -> bool
    decreases segs.len(),
{
    if segs.len() == 0 {
        start == end
    } else {
        &&& segs[0].src.start == start
        &&& start < segs[0].src.end
        &&& tiles(segs.drop_first(), segs[0].src.end as int, end)
    }
}

/// Every segment carries the number of control blocks open at it, `depth` being open at the
/// first; an opening action and its `end` count as outside the block they delimit.
pub open spec fn nested(segs: Seq<Segment>, depth: int) -> bool
    decreases segs.len(),
{
    if segs.len() == 0 {
        true
    } else {
        match segs[0].kind {
            SegmentKind::Action { class: ActionClass::ControlOpen, .. } => segs[0].depth == depth
                && nested(segs.drop_first(), depth + 1),
            SegmentKind::Action { class: ActionClass::ControlClose, .. } => segs[0].depth == depth
                - 1 && nested(segs.drop_first(), depth - 1),
            _ => segs[0].depth == depth && nested(segs.drop_first(), depth),
        }
    }
}

/// A segment is what its kind says: no action opens in literal text, everything else is
/// delimited by `{{` and `}}`; and it cuts no character in two.
pub open spec fn is_segment_of(b: Seq<u8>, s: Segment) -> bool {
    &&& s.src.start <= s.src.end <= b.len()
    &&& is_char_boundary(b, s.src.start as int)
    &&& is_char_boundary(b, s.src.end as int)
    &&& match s.kind {
        SegmentKind::Literal => forall|p: int|
            s.src.start <= p < s.src.end ==> !#[trigger] opens_at(b, p),
        _ => opens_at(b, s.src.start as int) && s.src.start + 4 <= s.src.end && b[s.src.end - 2]
            == 0x7d && b[s.src.end - 1] == 0x7d,
    }
}

/// All of `segs` are segments of `b`.
pub open spec fn are_segments_of(b: Seq<u8>, segs: Seq<Segment>) -> bool {
    forall|k: int| 0 <= k < segs.len() ==> is_segment_of(b, #[trigger] segs[k])
}

proof fn lemma_lex_shape(b: Seq<u8>, lit: int, i: int, depth: int)
    requires
        valid_utf8(b),
        b.len() < 0x4_0000_0000,
        b.len() <= usize::MAX,
        0 <= lit <= i <= b.len(),
        is_char_boundary(b, lit),
        forall|p: int| lit <= p < i ==> !#[trigger] opens_at(b, p),
        0 <= 4 * depth <= lit,
    ensures
        lex_from(b, lit, i, depth) matches Ok(segs) ==> {
            &&& tiles(segs, lit, b.len() as int)
            &&& nested(segs, depth)
            &&& are_segments_of(b, segs)
        },
    decreases b.len() - i,
{
    if i >= b.len() {
        is_char_boundary_start_end_of_seq(b);
        if lit < b.len() {
            let segs = literal_upto(lit, b.len() as int, depth);
            assert(segs.drop_first() =~= seq![]);
            reveal_with_fuel(tiles, 2);
            reveal_with_fuel(nested, 2);
            assert(is_segment_of(b, segs[0]));
        }
    } else if !opens_at(b, i) {
        lemma_lex_shape(b, lit, i + 1, depth);
    } else {
        lemma_tag_bounds(b, i);
        if let Some(t) = tag_at(b, i) {
            let class = tag_class(b, t);
            let end = t.close + 2;
            if class == ActionClass::ControlClose && depth == 0 {
            } else {
                let own = if class == ActionClass::ControlClose {
                    depth - 1
                } else {
                    depth
                };
                let next = if class == ActionClass::ControlOpen {
                    depth + 1
                } else {
                    own
                };
                lemma_ascii_boundaries(b, i);
                lemma_ascii_boundaries(b, end - 1);
                lemma_lex_shape(b, end, end, next);
                if let Ok(rest) = lex_from(b, end, end, next) {
                    let tag = tag_seg(t, class, i, own);
                    let tail = seq![tag] + rest;
                    assert(tail.drop_first() =~= rest);
                    assert(is_segment_of(b, tag));
                    assert(tiles(tail, i, b.len() as int));
                    assert(nested(tail, depth));
                    if lit < i {
                        let head = literal_seg(lit, i, depth);
                        let all = seq![head] + tail;
                        assert(all.drop_first() =~= tail);
                        assert(is_segment_of(b, head));
                        assert(all =~= literal_upto(lit, i, depth).push(tag) + rest);
                    } else {
                        assert(tail =~= literal_upto(lit, i, depth).push(tag) + rest);
                    }
                }
            }
        }
    }
}

/// No two literal segments follow each other.
pub open spec fn literals_apart(segs: Seq<Segment>) -> bool {
    forall|j: int, k: int|
        #![trigger segs[j], segs[k]]
        0 <= j && k == j + 1 && k < segs.len() ==> !(segs[j].kind == SegmentKind::Literal
            && segs[k].kind == SegmentKind::Literal)
}

proof fn lemma_literals_apart(b: Seq<u8>, lit: int, i: int, depth: int)
    requires
        0 <= i,
    ensures
        lex_from(b, lit, i, depth) matches Ok(segs) ==> literals_apart(segs),
    decreases b.len() - i,
{
    if i < b.len() && !opens_at(b, i) {
        lemma_literals_apart(b, lit, i + 1, depth);
    } else if i < b.len() {
        lemma_tag_bounds(b, i);
        if let Some(t) = tag_at(b, i) {
            let class = tag_class(b, t);
            let end = t.close + 2;
            let own = if class == ActionClass::ControlClose {
                depth - 1
            } else {
                depth
            };
            let next = if class == ActionClass::ControlOpen {
                depth + 1
            } else {
                own
            };
            lemma_literals_apart(b, end, end, next);
            if let Ok(segs) = lex_from(b, lit, i, depth) {
                let rest = lex_from(b, end, end, next)->Ok_0;
                let tag = tag_seg(t, class, i, own);
                let h = segs.len() - rest.len();
                assert(segs[h - 1] == tag);
                assert forall|j: int, k: int|
                    #![trigger segs[j], segs[k]]
                    0 <= j && k == j + 1 && k < segs.len() implies !(segs[j].kind
                    == SegmentKind::Literal && segs[k].kind == SegmentKind::Literal) by {
                    if j >= h {
                        assert(segs[j] == rest[j - h] && segs[k] == rest[k - h]);
                    }
                }
            }
        }
    }
}

/// The segments of a template, put end to end, are the template; each carries its nesting
/// depth, each is what its kind says, and no two literals follow each other.
pub proof fn law_segments_tile_the_template(src: Seq<char>)
    requires
        encode_utf8(src).len() < 0x4_0000_0000,
        encode_utf8(src).len() <= usize::MAX,
    ensures
        lexed(encode_utf8(src)) matches Ok(segs) ==> {
            &&& tiles(segs, 0, encode_utf8(src).len() as int)
            &&& nested(segs, 0)
            &&& are_segments_of(encode_utf8(src), segs)
            &&& literals_apart(segs)
        },
{
    encode_utf8_valid_utf8(src);
    lemma_literals_apart(encode_utf8(src), 0, 0, 0);
    lemma_lex_shape(encode_utf8(src), 0, 0, 0);
}

/// In a tiling, an earlier segment ends before a later one starts, and all stay inside.
pub proof fn lemma_tiles_order(segs: Seq<Segment>, start: int, end: int, j: int, k: int)
    requires
        tiles(segs, start, end),
        0 <= j <= k < segs.len(),
    ensures
        start <= segs[j].src.start < segs[j].src.end <= end,
        start <= segs[k].src.start < segs[k].src.end <= end,
        j < k ==> segs[j].src.end <= segs[k].src.start,
        start <= end,
    decreases segs.len(),
{
    let rest = segs.drop_first();
    reveal_with_fuel(tiles, 2);
    if rest.len() > 0 {
        if k > 0 {
            assert(rest[k - 1] == segs[k]);
            if j > 0 {
                assert(rest[j - 1] == segs[j]);
                lemma_tiles_order(rest, segs[0].src.end as int, end, j - 1, k - 1);
            } else {
                lemma_tiles_order(rest, segs[0].src.end as int, end, k - 1, k - 1);
            }
        } else {
            lemma_tiles_order(rest, segs[0].src.end as int, end, 0, 0);
        }
    }
}

proof fn lemma_plain_from(b: Seq<u8>, lit: int, i: int, depth: int)
    requires
        forall|p: int| !#[trigger] opens_at(b, p),
        0 <= i,
    ensures
        lex_from(b, lit, i, depth) == Ok::<Seq<Segment>, LexError>(
            literal_upto(lit, b.len() as int, depth),
        ),
    decreases b.len() - i,
{
    if i < b.len() {
        lemma_plain_from(b, lit, i + 1, depth);
    }
}

/// Text in which no `{{` stands is one literal segment.
pub proof fn law_plain_text_is_one_literal(b: Seq<u8>)
    requires
        forall|p: int| !#[trigger] opens_at(b, p),
    ensures
        lexed(b) == Ok::<Seq<Segment>, LexError>(literal_upto(0, b.len() as int, 0)),
{
    lemma_plain_from(b, 0, 0, 0);
}

proof fn lemma_error_from(b: Seq<u8>, lit: int, i: int, depth: int)
    requires
        0 <= i <= b.len() <= usize::MAX,
    ensures
        lex_from(b, lit, i, depth) matches Err(LexError::UnclosedAction { pos }) ==> opens_at(
            b,
            pos as int,
        ) && tag_at(b, pos as int) is None,
        lex_from(b, lit, i, depth) matches Err(LexError::UnbalancedEnd { pos }) ==> opens_at(
            b,
            pos as int,
        ) && tag_at(b, pos as int) is Some && tag_class(b, tag_at(b, pos as int).unwrap())
            == ActionClass::ControlClose,
    decreases b.len() - i,
{
    if i < b.len() {
        if !opens_at(b, i) {
            lemma_error_from(b, lit, i + 1, depth);
        } else {
            lemma_tag_bounds(b, i);
            if let Some(t) = tag_at(b, i) {
                let class = tag_class(b, t);
                let end = t.close + 2;
                let own = if class == ActionClass::ControlClose {
                    depth - 1
                } else {
                    depth
                };
                let next = if class == ActionClass::ControlOpen {
                    depth + 1
                } else {
                    own
                };
                lemma_error_from(b, end, end, next);
            }
        }
    }
}

/// An error points at the `{{` of what is wrong: one that is never closed, or an `end`.
pub proof fn law_errors_point_at_an_action(b: Seq<u8>)
    requires
        b.len() <= usize::MAX,
    ensures
        lexed(b) matches Err(LexError::UnclosedAction { pos }) ==> opens_at(b, pos as int)
            && tag_at(b, pos as int) is None,
        lexed(b) matches Err(LexError::UnbalancedEnd { pos }) ==> opens_at(b, pos as int)
            && tag_at(b, pos as int) is Some && tag_class(b, tag_at(b, pos as int).unwrap())
            == ActionClass::ControlClose,
{
    lemma_error_from(b, 0, 0, 0);
}

/// A segment that is no literal comes from the tag that opens at its start.
proof fn lemma_tags_of(b: Seq<u8>, lit: int, i: int, depth: int)
    requires
        0 <= i <= b.len() <= usize::MAX,
    ensures
        lex_from(b, lit, i, depth) matches Ok(segs) ==> forall|k: int|
            0 <= k < segs.len() && (#[trigger] segs[k]).kind != SegmentKind::Literal ==> {
                let start = segs[k].src.start as int;
                &&& opens_at(b, start)
                &&& tag_at(b, start) matches Some(t)
                &&& segs[k].src.end == t.close + 2
                &&& segs[k].kind == tag_seg(t, tag_class(b, t), start, 0).kind
            },
    decreases b.len() - i,
{
    if i < b.len() && !opens_at(b, i) {
        lemma_tags_of(b, lit, i + 1, depth);
    } else if i < b.len() {
        lemma_tag_bounds(b, i);
        if let Some(t) = tag_at(b, i) {
            let class = tag_class(b, t);
            let end = t.close + 2;
            let own = if class == ActionClass::ControlClose {
                depth - 1
            } else {
                depth
            };
            let next = if class == ActionClass::ControlOpen {
                depth + 1
            } else {
                own
            };
            lemma_tags_of(b, end, end, next);
            if let Ok(segs) = lex_from(b, lit, i, depth) {
                let rest = lex_from(b, end, end, next)->Ok_0;
                let h = segs.len() - rest.len();
                assert(segs[h - 1] == tag_seg(t, class, i, own));
                assert forall|k: int|
                    0 <= k < segs.len() && (#[trigger] segs[k]).kind
                        != SegmentKind::Literal implies ({
                    let start = segs[k].src.start as int;
                    &&& opens_at(b, start)
                    &&& tag_at(b, start) matches Some(t)
                    &&& segs[k].src.end == t.close + 2
                    &&& segs[k].kind == tag_seg(t, tag_class(b, t), start, 0).kind
                }) by {
                    if k >= h {
                        assert(segs[k] == rest[k - h]);
                    } else if k == h - 1 {
                    } else {
                        assert(segs[k] == literal_seg(lit, i, depth));
                    }
                }
            }
        }
    }
}

/// What a tag from `o` up to `e` is, told by its text: what its trim markers are, whether it is a
/// comment, and by its first word what it does to the nesting.
pub open spec fn told_by_text(b: Seq<u8>, s: Segment) -> bool {
    let (o, c) = (s.src.start as int, s.src.end - 2);
    let marked = o + 3 < b.len() && b[o + 2] == 0x2d && b[o + 3] == 0x20;
    let from = if marked {
        o + 3
    } else {
        o + 2
    };
    let text = skip_ws(b, from);
    let comment = text + 1 < b.len() && b[text] == 0x2f && b[text + 1] == 0x2a;
    let w = first_word_spec(b.subrange(from, c));
    match s.kind {
        SegmentKind::Literal => true,
        SegmentKind::Comment { trim_before, trim_after } => {
            &&& comment
            &&& trim_before == marked
            &&& trim_after == (b[c - 1] == 0x2d)
            &&& closes_comment(b, text + 2, c)
        },
        SegmentKind::Action { class, trim_before, trim_after } => {
            &&& !comment
            &&& trim_before == marked
            &&& trim_after == (b[c - 1] == 0x2d && b[c - 2] == 0x20)
            &&& class == ActionClass::ControlOpen <==> w == "if".spec_bytes() || w
                == "range".spec_bytes() || w == "with".spec_bytes() || w == "block".spec_bytes()
                || w == "define".spec_bytes()
            &&& class == ActionClass::ControlElse <==> w == "else".spec_bytes()
            &&& class == ActionClass::ControlClose <==> w == "end".spec_bytes()
        },
    }
}

/// The first `*/` from `from` on stands at `star`, and between it and the `}}` at `c` stand only
/// blanks and at most one dash, right before the `}}`.
pub open spec fn ends_comment(b: Seq<u8>, from: int, star: int, c: int) -> bool {
    &&& from <= star
    &&& star + 2 <= c
    &&& b[star] == 0x2a
    &&& b[star + 1] == 0x2f
    &&& forall|q: int| from <= q < star ==> !(#[trigger] b[q] == 0x2a && b[q + 1] == 0x2f)
    &&& forall|q: int| star + 2 <= q < c - 1 ==> #[trigger] b[q] == 0x20
    &&& star + 2 < c ==> b[c - 1] == 0x20 || b[c - 1] == 0x2d
}

/// The comment whose text starts at `from` is closed by the `}}` at `c`.
pub open spec fn closes_comment(b: Seq<u8>, from: int, c: int) -> bool {
    exists|star: int| #[trigger] ends_comment(b, from, star, c)
}

proof fn lemma_blanks(b: Seq<u8>, i: int)
    requires
        0 <= i <= b.len(),
    ensures
        i <= skip_blanks(b, i) <= b.len(),
        forall|q: int| i <= q < skip_blanks(b, i) ==> #[trigger] b[q] == 0x20,
    decreases b.len() - i,
{
    if i < b.len() && b[i] == 0x20 {
        lemma_blanks(b, i + 1);
    }
}

proof fn lemma_control_words()
    ensures
        "if".spec_bytes().len() == 2,
        "range".spec_bytes().len() == 5,
        "with".spec_bytes().len() == 4,
        "block".spec_bytes() != "else".spec_bytes(),
        "block".spec_bytes() != "end".spec_bytes(),
        "define".spec_bytes().len() == 6,
        "else".spec_bytes().len() == 4,
        "end".spec_bytes().len() == 3,
        "with".spec_bytes() != "else".spec_bytes(),
{
    reveal_strlit("if");
    reveal_strlit("range");
    reveal_strlit("with");
    reveal_strlit("block");
    reveal_strlit("define");
    reveal_strlit("else");
    reveal_strlit("end");
    is_ascii_chars_encode_utf8("if"@);
    is_ascii_chars_encode_utf8("range"@);
    is_ascii_chars_encode_utf8("with"@);
    is_ascii_chars_encode_utf8("block"@);
    is_ascii_chars_encode_utf8("define"@);
    is_ascii_chars_encode_utf8("else"@);
    is_ascii_chars_encode_utf8("end"@);
    assert("with".spec_bytes()[0] == 0x77);
    assert("else".spec_bytes()[0] == 0x65);
    assert("block".spec_bytes().len() == 5);
}

/// Every tag is what its text says. `{{- ` trims before it, and so does ` -}}` behind an action
/// and `-}}` behind a comment. What starts with `/*` is a comment, up to the first `*/` and a
/// `}}` right behind that, whatever it holds. Five words open a control block, one goes on in
/// it, one closes it, and every other action writes a value.
pub proof fn law_tags_are_what_their_text_says(b: Seq<u8>)
    requires
        b.len() <= usize::MAX,
    ensures
        lexed(b) matches Ok(segs) ==> forall|k: int|
            0 <= k < segs.len() ==> told_by_text(b, #[trigger] segs[k]),
{
    lemma_tags_of(b, 0, 0, 0);
    lemma_control_words();
    if let Ok(segs) = lexed(b) {
        assert forall|k: int| 0 <= k < segs.len() implies told_by_text(b, #[trigger] segs[k]) by {
            let s = segs[k];
            if s.kind != SegmentKind::Literal {
                let o = s.src.start as int;
                lemma_tag_bounds(b, o);
                let t = tag_at(b, o)->Some_0;
                let from = body_start(b, o);
                let text = skip_ws(b, from);
                lemma_skip_ws_bounds(b, from);
                lemma_two_bytes();
                if t.comment {
                    let mark = "*/".spec_bytes();
                    lemma_find_from(b, mark, text + 2);
                    let star = find_from(b, mark, text + 2)->Some_0;
                    assert(b.subrange(star, star + 2)[0] == 0x2a);
                    assert(b.subrange(star, star + 2)[1] == 0x2f);
                    lemma_blanks(b, star + 2);
                    assert forall|q: int| text + 2 <= q < star implies !(#[trigger] b[q] == 0x2a
                        && b[q + 1] == 0x2f) by {
                        if b[q] == 0x2a && b[q + 1] == 0x2f {
                            assert(b.subrange(q, q + 2) =~= mark);
                            assert(occurs_at(b, mark, q));
                        }
                    }
                    assert(ends_comment(b, text + 2, star, t.close));
                    assert(closes_comment(b, text + 2, t.close));
                    if !t.trim_after && t.close > star + 2 {
                        assert(b[t.close - 1] == 0x20);
                    }
                    assert(told_by_text(b, s));
                } else {
                    assert(s.kind is Action);
                    assert(s.kind->Action_trim_after == (b[t.close - 1] == 0x2d && b[t.close - 2]
                        == 0x20));
                    assert(told_by_text(b, s));
                }
            }
        }
    }
}

/// A piece of the body of an action: a byte that means nothing to its end, a string between
/// double quotes, or one between back quotes.
pub enum Piece {
    Plain(u8),
    Double(Seq<u8>),
    Raw(Seq<u8>),
}

/// What may stand between double quotes: a backslash hides the byte behind it, and no other
/// quote is there.
pub open spec fn quotable(s: Seq<u8>) -> bool
    decreases s.len(),
{
    if s.len() == 0 {
        true
    } else if s[0] == 0x5c {
        s.len() >= 2 && quotable(s.skip(2))
    } else {
        s[0] != 0x22 && quotable(s.skip(1))
    }
}

/// The piece is one.
pub open spec fn is_piece(p: Piece) -> bool {
    match p {
        Piece::Plain(c) => c != 0x22 && c != 0x60 && c != 0x7d,
        Piece::Double(s) => quotable(s),
        Piece::Raw(s) => !s.contains(0x60),
    }
}

pub open spec fn piece_bytes(p: Piece) -> Seq<u8> {
    match p {
        Piece::Plain(c) => seq![c],
        Piece::Double(s) => seq![0x22u8] + s + seq![0x22u8],
        Piece::Raw(s) => seq![0x60u8] + s + seq![0x60u8],
    }
}

/// The pieces from the `k`-th on stand in `b` from `i` to `end`.
pub open spec fn pieces_at(b: Seq<u8>, ps: Seq<Piece>, k: int, i: int, end: int) -> bool
    decreases ps.len() - k,
{
    if k < 0 || k >= ps.len() {
        i == end
    } else {
        let p = piece_bytes(ps[k]);
        &&& i + p.len() <= b.len()
        &&& b.subrange(i, i + p.len()) == p
        &&& pieces_at(b, ps, k + 1, i + p.len(), end)
    }
}

proof fn lemma_double_closes(b: Seq<u8>, i: int, s: Seq<u8>)
    requires
        quotable(s),
        0 <= i,
        i + s.len() < b.len(),
        b.subrange(i, i + s.len()) == s,
        b[i + s.len()] == 0x22,
    ensures
        close_from(b, i, Quoting::Double) == close_from(b, i + s.len() + 1, Quoting::Outside),
    decreases s.len(),
{
    if s.len() > 0 {
        assert(b.subrange(i, i + s.len())[0] == b[i]);
        let n: int = if s[0] == 0x5c {
            2
        } else {
            1
        };
        assert(b.subrange(i + n, i + s.len()) =~= s.skip(n)) by {
            assert(b.subrange(i + n, i + s.len()) =~= b.subrange(i, i + s.len()).skip(n));
        }
        lemma_double_closes(b, i + n, s.skip(n));
    }
}

proof fn lemma_raw_closes(b: Seq<u8>, i: int, s: Seq<u8>)
    requires
        !s.contains(0x60),
        0 <= i,
        i + s.len() < b.len(),
        b.subrange(i, i + s.len()) == s,
        b[i + s.len()] == 0x60,
    ensures
        close_from(b, i, Quoting::Raw) == close_from(b, i + s.len() + 1, Quoting::Outside),
    decreases s.len(),
{
    if s.len() > 0 {
        assert(b.subrange(i, i + s.len())[0] == b[i]);
        assert(s[0] != 0x60) by {
            assert(s.contains(s[0]));
        }
        assert(b.subrange(i + 1, i + s.len()) =~= s.skip(1)) by {
            assert(b.subrange(i + 1, i + s.len()) =~= b.subrange(i, i + s.len()).skip(1));
        }
        assert(!s.skip(1).contains(0x60)) by {
            assert forall|q: int| 0 <= q < s.skip(1).len() implies s.skip(1)[q] != 0x60 by {
                assert(s.contains(s[q + 1]));
            }
        }
        lemma_raw_closes(b, i + 1, s.skip(1));
    }
}

proof fn lemma_pieces_close(b: Seq<u8>, ps: Seq<Piece>, k: int, i: int, end: int)
    requires
        forall|j: int| 0 <= j < ps.len() ==> is_piece(#[trigger] ps[j]),
        0 <= k <= ps.len(),
        0 <= i,
        pieces_at(b, ps, k, i, end),
        0 <= end,
        end + 1 < b.len(),
        b[end] == 0x7d,
        b[end + 1] == 0x7d,
    ensures
        close_from(b, i, Quoting::Outside) == Some(end),
    decreases ps.len() - k,
{
    if k < ps.len() {
        let p = piece_bytes(ps[k]);
        assert(is_piece(ps[k]));
        lemma_pieces_close(b, ps, k + 1, i + p.len(), end);
        let here = b.subrange(i, i + p.len());
        assert(here[0] == b[i]);
        match ps[k] {
            Piece::Plain(c) => {},
            Piece::Double(s) => {
                assert(here[p.len() - 1] == b[i + p.len() - 1]);
                assert(b.subrange(i + 1, i + 1 + s.len()) =~= s) by {
                    assert(b.subrange(i + 1, i + 1 + s.len()) =~= here.subrange(
                        1,
                        1 + s.len() as int,
                    ));
                }
                lemma_double_closes(b, i + 1, s);
            },
            Piece::Raw(s) => {
                assert(here[p.len() - 1] == b[i + p.len() - 1]);
                assert(b.subrange(i + 1, i + 1 + s.len()) =~= s) by {
                    assert(b.subrange(i + 1, i + 1 + s.len()) =~= here.subrange(
                        1,
                        1 + s.len() as int,
                    ));
                }
                lemma_raw_closes(b, i + 1, s);
            },
        }
    }
}

/// Strings hide what would end an action: one whose body is made of plain bytes and of strings,
/// whatever they hold, ends at the `}}` behind them, and nowhere before.
pub proof fn law_strings_hide_the_end_of_an_action(b: Seq<u8>, o: int, ps: Seq<Piece>, end: int)
    requires
        opens_at(b, o),
        ({
            let marked = o + 3 < b.len() && b[o + 2] == 0x2d && b[o + 3] == 0x20;
            let from = if marked {
                o + 3
            } else {
                o + 2
            };
            let text = skip_ws(b, from);
            &&& pieces_at(b, ps, 0, from, end)
            &&& !(text + 1 < b.len() && b[text] == 0x2f && b[text + 1] == 0x2a)
        }),
        forall|j: int| 0 <= j < ps.len() ==> is_piece(#[trigger] ps[j]),
        0 <= end,
        end + 1 < b.len(),
        b[end] == 0x7d,
        b[end + 1] == 0x7d,
    ensures
        tag_at(b, o) matches Some(t) && t.close == end && !t.comment,
{
    lemma_pieces_close(b, ps, 0, body_start(b, o), end);
}

} // verus!
