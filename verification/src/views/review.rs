//! The review of drifted files: which need a decision, how a file differs, and what came of an
//! action.

use std::ops::Range;
use vstd::prelude::*;
use vstd::utf8::*;

use crate::chezmoi::{called, outcome, ChezmoiClient, ChezmoiError, Failure};
use crate::cmd::{optional, CommandRunner};
use crate::json::text_member;
use crate::merge::worddiff::{changed_words, word_diff};
use crate::merge::{
    all_truthful, assembled_from, conflicts, cut, lines_of, merge_sides, regions_of, regions_tile,
    split_lines, truthful, MergeDocument, MergeOptions, MergeRegion, RegionKind,
};
use crate::merge_inputs::{reads, MergeInputs};
use crate::merge_state::{base_of, comparable, lemma_undecided, MergeState};
use crate::model::{
    ago, class_label, class_words, glyph_of, is_known, kind_glyph, kind_label, kind_words,
    known_as, lemma_place, lemma_without, others_stay, place, time_ago, unique, wants_attention,
    without, State, SyncModel,
};
use crate::paths::{is_same_path, same_path};
use crate::proto::{drifts, Drift, DriftSummary, EventRow};
use crate::resolve::{display_name, shown_name, ResolveError, ResolveOutcome};
use crate::text::{
    chars_of, decimal, decimal_text, lossy, lossy_text, same, string_of, strings,
};
use crate::theme::Theme;

verus! {

// ---------------------------------------------------------------------------
// Groups

/// A group of drifted targets.
#[derive(Debug, Clone, Copy, PartialEq, Eq, Structural)]
pub enum Group {
    Conflict,
    NeedsYou,
    OneClick,
}

/// The group of a class.
pub open spec fn group_of(class: Seq<char>) -> Group {
    if class == "conflict"@ {
        Group::Conflict
    } else if wants_attention(class) {
        Group::NeedsYou
    } else {
        Group::OneClick
    }
}

fn group_for(class: &str) -> (r: Group)
    ensures
        r == group_of(class@),
{
    if same(class, "conflict") {
        Group::Conflict
    } else if same(class, "local_source_diverged") || same(class, "eval_failed") {
        Group::NeedsYou
    } else {
        Group::OneClick
    }
}

/// The targets of a group among the first `n`, in their order.
pub open spec fn members(d: Seq<Drift>, g: Group, n: int) -> Seq<Drift>
    decreases n,
{
    if n <= 0 {
        seq![]
    } else if group_of(d[n - 1].class) == g {
        members(d, g, n - 1).push(d[n - 1])
    } else {
        members(d, g, n - 1)
    }
}

/// The targets that need a decision, conflicts first.
pub open spec fn needing_you(d: Seq<Drift>) -> Seq<Drift> {
    members(d, Group::Conflict, d.len() as int) + members(d, Group::NeedsYou, d.len() as int)
}

/// The targets that can be resolved as they are.
pub open spec fn one_click(d: Seq<Drift>) -> Seq<Drift> {
    members(d, Group::OneClick, d.len() as int)
}

fn group_members(drifted: &Vec<DriftSummary>, g: Group) -> (r: Vec<DriftSummary>)
    ensures
        drifts(r@) == members(drifts(drifted@), g, drifted@.len() as int),
{
    let mut out: Vec<DriftSummary> = Vec::new();
    let mut i: usize = 0;
    assert(drifts(out@) =~= seq![]);
    while i < drifted.len()
        invariant
            i <= drifted@.len(),
            drifts(out@) == members(drifts(drifted@), g, i as int),
        decreases drifted@.len() - i,
    {
        let ghost had = drifts(out@);
        assert(drifts(drifted@)[i as int] == drifted@[i as int]@);
        if group_for(drifted[i].class.as_str()) == g {
            out.push(drifted[i].clone());
            assert(drifts(out@) =~= had.push(drifted@[i as int]@));
        }
        i = i + 1;
    }
    out
}

/// The drifted targets in two groups: those that need a decision, conflicts first, and the
/// others. In each they keep their order.
pub fn severity_groups(drifted: &Vec<DriftSummary>) -> (r: (Vec<DriftSummary>, Vec<DriftSummary>))
    ensures
        drifts(r.0@) == needing_you(drifts(drifted@)),
        drifts(r.1@) == one_click(drifts(drifted@)),
{
    let mut needs = group_members(drifted, Group::Conflict);
    let mut rest = group_members(drifted, Group::NeedsYou);
    let ghost (a, b) = (needs@, rest@);
    needs.append(&mut rest);
    assert(drifts(needs@) =~= drifts(a) + drifts(b));
    assert(drifts(drifted@).len() == drifted@.len());
    (needs, group_members(drifted, Group::OneClick))
}

proof fn lemma_members(d: Seq<Drift>, n: int)
    requires
        0 <= n <= d.len(),
    ensures
        d.take(n).to_multiset() =~= members(d, Group::Conflict, n).to_multiset().add(
            members(d, Group::NeedsYou, n).to_multiset(),
        ).add(members(d, Group::OneClick, n).to_multiset()),
    decreases n,
{
    broadcast use vstd::seq_lib::group_to_multiset_ensures;

    if n > 0 {
        lemma_members(d, n - 1);
        assert(d.take(n) =~= d.take(n - 1).push(d[n - 1]));
    } else {
        assert(d.take(0) =~= seq![]);
    }
}

/// Every drifted target is in one group, and in one only.
pub proof fn law_groups_hold_every_target_once(d: Seq<Drift>)
    ensures
        needing_you(d).to_multiset().add(one_click(d).to_multiset()) =~= d.to_multiset(),
        forall|k: int|
            0 <= k < needing_you(d).len() ==> wants_attention(#[trigger] needing_you(d)[k].class),
        forall|k: int|
            0 <= k < one_click(d).len() ==> !wants_attention(#[trigger] one_click(d)[k].class),
{
    let n = d.len() as int;
    lemma_members(d, n);
    assert(d.take(n) =~= d);
    vstd::seq_lib::lemma_multiset_commutative(
        members(d, Group::Conflict, n),
        members(d, Group::NeedsYou, n),
    );
    lemma_group(d, Group::Conflict, n);
    lemma_group(d, Group::NeedsYou, n);
    lemma_group(d, Group::OneClick, n);
    let c = members(d, Group::Conflict, n);
    assert forall|k: int| 0 <= k < needing_you(d).len() implies wants_attention(
        #[trigger] needing_you(d)[k].class,
    ) by {
        if k < c.len() {
            assert(needing_you(d)[k] == c[k]);
        } else {
            assert(needing_you(d)[k] == members(d, Group::NeedsYou, n)[k - c.len()]);
        }
    }
}

proof fn lemma_group(d: Seq<Drift>, g: Group, n: int)
    requires
        n <= d.len(),
    ensures
        forall|k: int|
            0 <= k < members(d, g, n).len() ==> group_of(#[trigger] members(d, g, n)[k].class) == g,
    decreases n,
{
    if n > 0 {
        lemma_group(d, g, n - 1);
    }
}

// ---------------------------------------------------------------------------
// Outcomes

/// The colour of a banner.
#[derive(Debug, Clone, Copy, PartialEq, Eq, Structural)]
pub enum BannerTint {
    Fine,
    Drift,
    Conflict,
}

/// What is told of an action.
#[derive(Debug)]
pub struct OutcomeBanner {
    pub text: String,
    pub tint: BannerTint,
    /// It can be undone.
    pub undoable: bool,
}

/// What is told of an action, as the model has it.
pub struct Banner {
    pub text: Seq<char>,
    pub tint: BannerTint,
    pub undoable: bool,
}

impl View for OutcomeBanner {
    type V = Banner;

    open spec fn view(&self) -> Banner {
        Banner { text: self.text@, tint: self.tint, undoable: self.undoable }
    }
}

/// The two resolutions that take one click.
#[derive(Debug, Clone, Copy, PartialEq, Eq, Structural)]
pub enum ResolveAction {
    KeepDisk,
    KeepSource,
}

impl ResolveAction {
    pub open spec fn label_words(self) -> Seq<char> {
        match self {
            ResolveAction::KeepDisk => "Keep disk"@,
            ResolveAction::KeepSource => "Keep source"@,
        }
    }

    pub open spec fn verb_words(self) -> Seq<char> {
        match self {
            ResolveAction::KeepDisk => "Kept disk version"@,
            ResolveAction::KeepSource => "Restored chezmoi's version"@,
        }
    }

    /// What a button says.
    pub fn label(self) -> (r: &'static str)
        ensures
            r@ == self.label_words(),
    {
        match self {
            ResolveAction::KeepDisk => "Keep disk",
            ResolveAction::KeepSource => "Keep source",
        }
    }

    /// What is said when it is done.
    pub fn verb(self) -> (r: &'static str)
        ensures
            r@ == self.verb_words(),
    {
        match self {
            ResolveAction::KeepDisk => "Kept disk version",
            ResolveAction::KeepSource => "Restored chezmoi's version",
        }
    }
}

/// What is told of a resolution that was made: with a note it is not all well. That it was
/// committed and pushed is said only where it was.
pub open spec fn done_banner(
    verb: Seq<char>,
    quiet: Seq<char>,
    committed: bool,
    pushed: bool,
    note: Option<Seq<char>>,
) -> Banner {
    match note {
        Some(n) => Banner { text: verb + " · "@ + n, tint: BannerTint::Drift, undoable: true },
        None => Banner {
            text: if committed && pushed {
                verb + " · committed & pushed"@
            } else {
                quiet
            },
            tint: BannerTint::Fine,
            undoable: true,
        },
    }
}

pub(crate) fn banner_done(
    verb: &str,
    quiet: &str,
    committed: bool,
    pushed: bool,
    note: &Option<String>,
) -> (r: OutcomeBanner)
    ensures
        r@ == done_banner(verb@, quiet@, committed, pushed, optional(*note)),
{
    match note {
        Some(n) => {
            let mut text = verb.to_owned();
            text.append(" · ");
            text.append(n.as_str());
            OutcomeBanner { text, tint: BannerTint::Drift, undoable: true }
        },
        None => {
            let text = if committed && pushed {
                let mut s = verb.to_owned();
                s.append(" · committed & pushed");
                s
            } else {
                quiet.to_owned()
            };
            OutcomeBanner { text, tint: BannerTint::Fine, undoable: true }
        },
    }
}

/// A banner about something that was not done.
pub open spec fn plain_banner(text: Seq<char>, tint: BannerTint) -> Banner {
    Banner { text, tint, undoable: false }
}

pub(crate) fn banner_plain(text: String, tint: BannerTint) -> (r: OutcomeBanner)
    ensures
        r@ == plain_banner(text@, tint),
{
    OutcomeBanner { text, tint, undoable: false }
}

pub(crate) fn banner_with(front: &str, back: &str, tint: BannerTint) -> (r: OutcomeBanner)
    ensures
        r@ == plain_banner(front@ + back@, tint),
{
    let mut text = front.to_owned();
    text.append(back);
    banner_plain(text, tint)
}

/// What is told of a merge of both sides that was made without asking.
pub open spec fn kept_both(result: Result<ResolveOutcome, ResolveError>) -> Banner {
    match result {
        Ok(ResolveOutcome::Done { session: _, committed, pushed, note }) => done_banner(
            "Kept both (merged)"@,
            "Kept both (merged)"@,
            committed,
            pushed,
            optional(note),
        ),
        Ok(ResolveOutcome::NeedsMergeEditor) => plain_banner(
            "Templated file · use the merge editor"@,
            BannerTint::Drift,
        ),
        Ok(ResolveOutcome::ProtectedSpan { detail }) => plain_banner(
            "This change touches a templated value · "@ + detail@,
            BannerTint::Drift,
        ),
        Err(e) => plain_banner("Keep both failed: "@ + e.message_spec(), BannerTint::Conflict),
    }
}

/// What is told of a merge of both sides that was made without asking.
pub fn keep_both_banner(result: &Result<ResolveOutcome, ResolveError>) -> (r: OutcomeBanner)
    ensures
        r@ == kept_both(*result),
{
    match result {
        Ok(ResolveOutcome::Done { session: _, committed, pushed, note }) => banner_done(
            "Kept both (merged)",
            "Kept both (merged)",
            *committed,
            *pushed,
            note,
        ),
        Ok(ResolveOutcome::NeedsMergeEditor) => banner_plain(
            "Templated file · use the merge editor".to_owned(),
            BannerTint::Drift,
        ),
        Ok(ResolveOutcome::ProtectedSpan { detail }) => banner_with(
            "This change touches a templated value · ",
            detail.as_str(),
            BannerTint::Drift,
        ),
        Err(e) => banner_with("Keep both failed: ", e.message().as_str(), BannerTint::Conflict),
    }
}

/// What is told of a resolution.
pub open spec fn told(action: ResolveAction, result: Result<ResolveOutcome, ResolveError>) -> Banner {
    match result {
        Ok(ResolveOutcome::Done { session: _, committed, pushed, note }) => done_banner(
            action.verb_words(),
            action.verb_words(),
            committed,
            pushed,
            optional(note),
        ),
        Ok(ResolveOutcome::NeedsMergeEditor) => plain_banner(
            "Templated file · use the merge editor"@,
            BannerTint::Drift,
        ),
        Ok(ResolveOutcome::ProtectedSpan { .. }) => plain_banner(
            "This change touches a templated value · open the merge editor"@,
            BannerTint::Drift,
        ),
        Err(e) => plain_banner(
            action.label_words() + " failed: "@ + e.message_spec(),
            BannerTint::Conflict,
        ),
    }
}

/// What is told of a resolution.
pub fn outcome_banner(action: ResolveAction, result: &Result<ResolveOutcome, ResolveError>) -> (r:
    OutcomeBanner)
    ensures
        r@ == told(action, *result),
{
    match result {
        Ok(ResolveOutcome::Done { session: _, committed, pushed, note }) => banner_done(
            action.verb(),
            action.verb(),
            *committed,
            *pushed,
            note,
        ),
        Ok(ResolveOutcome::NeedsMergeEditor) => banner_plain(
            "Templated file · use the merge editor".to_owned(),
            BannerTint::Drift,
        ),
        Ok(ResolveOutcome::ProtectedSpan { .. }) => banner_plain(
            "This change touches a templated value · open the merge editor".to_owned(),
            BannerTint::Drift,
        ),
        Err(e) => {
            let mut front = action.label().to_owned();
            front.append(" failed: ");
            banner_with(front.as_str(), e.message().as_str(), BannerTint::Conflict)
        },
    }
}

/// What is told of an undo. It cannot be undone itself.
pub open spec fn undo_told(result: Result<Option<i64>, ResolveError>) -> Banner {
    match result {
        Ok(Some(_)) => plain_banner("restored files from snapshots"@, BannerTint::Fine),
        Ok(None) => plain_banner("nothing to undo"@, BannerTint::Drift),
        Err(e) => plain_banner("undo failed: "@ + e.message_spec(), BannerTint::Conflict),
    }
}

/// What is told of an undo.
pub fn undo_banner(result: &Result<Option<i64>, ResolveError>) -> (r: OutcomeBanner)
    ensures
        r@ == undo_told(*result),
{
    match result {
        Ok(Some(_)) => banner_plain("restored files from snapshots".to_owned(), BannerTint::Fine),
        Ok(None) => banner_plain("nothing to undo".to_owned(), BannerTint::Drift),
        Err(e) => banner_with("undo failed: ", e.message().as_str(), BannerTint::Conflict),
    }
}

/// Only what was changed can be undone, and only what went well in full is shown as fine.
pub proof fn law_banners_are_honest(
    action: ResolveAction,
    result: Result<ResolveOutcome, ResolveError>,
)
    ensures
        told(action, result).undoable <==> result matches Ok(ResolveOutcome::Done { .. }),
        told(action, result).tint == BannerTint::Fine <==> (result matches Ok(
            ResolveOutcome::Done { note, .. },
        ) && note is None),
        told(action, result).tint == BannerTint::Conflict <==> result is Err,
{
}

// ---------------------------------------------------------------------------
// The preview

/// Which side of the difference a line belongs to.
#[derive(Debug, Clone, Copy, PartialEq, Eq, Structural)]
pub enum LineTint {
    /// Both sides have it.
    Context,
    /// The source would write it.
    Rendered,
    /// It is on disk.
    Destination,
}

/// A line of the preview.
#[derive(Debug)]
pub struct DiffLine {
    pub text: String,
    pub tint: LineTint,
    pub marker: &'static str,
    /// The bytes of the text in which it differs from its counterpart.
    pub highlights: Vec<Range<usize>>,
}

/// A line of the preview, as the model has it.
#[verifier::ext_equal]
pub struct Shown {
    pub text: Seq<char>,
    pub tint: LineTint,
    pub marker: Seq<char>,
    pub highlights: Seq<Range<usize>>,
}

impl View for DiffLine {
    type V = Shown;

    open spec fn view(&self) -> Shown {
        Shown {
            text: self.text@,
            tint: self.tint,
            marker: self.marker@,
            highlights: self.highlights@,
        }
    }
}

pub open spec fn shown_lines(v: Seq<DiffLine>) -> Seq<Shown> {
    v.map_values(|l: DiffLine| l@)
}

/// A line without its line feed.
pub open spec fn displayed(line: Seq<char>) -> Seq<char> {
    if line.len() > 0 && line.last() == '\n' {
        line.drop_last()
    } else {
        line
    }
}

/// A line without its line feed.
pub fn display_text(line: &str) -> (r: String)
    ensures
        r@ == displayed(line@),
{
    let v = chars_of(line);
    let mut n: usize = v.len();
    if n > 0 && v[n - 1] == '\n' {
        n = n - 1;
    }
    let s = string_of(v.as_slice(), 0, n);
    assert(s@ =~= displayed(line@));
    s
}

/// The bytes of the first `n` lines.
pub open spec fn bytes_up_to(lines: Seq<Seq<char>>, n: int) -> int
    decreases n,
{
    if n <= 0 {
        0
    } else {
        bytes_up_to(lines, n - 1) + encode_utf8(lines[n - 1]).len()
    }
}

/// The part of a range that lies in the text of a line that starts at `offset`.
pub open spec fn part_in_line(r: Range<usize>, offset: int, line: Seq<char>) -> (int, int) {
    let shown = encode_utf8(displayed(line)).len() as int;
    let start = if r.start >= offset {
        r.start - offset
    } else {
        0
    };
    let end = if r.end >= offset {
        r.end - offset
    } else {
        0
    };
    (
        start,
        if end < shown {
            end
        } else {
            shown
        },
    )
}

/// The parts of the first `n` ranges that lie in the text of a line; those that are not empty.
pub open spec fn parts_in_line(
    ranges: Seq<Range<usize>>,
    n: int,
    offset: int,
    line: Seq<char>,
) -> Seq<Range<usize>>
    decreases n,
{
    if n <= 0 {
        seq![]
    } else {
        let front = parts_in_line(ranges, n - 1, offset, line);
        let (start, end) = part_in_line(ranges[n - 1], offset, line);
        if start < end {
            front.push(Range { start: start as usize, end: end as usize })
        } else {
            front
        }
    }
}

/// Ranges of bytes over all lines, cut into ranges over the text of each.
pub open spec fn cut_to_lines(lines: Seq<Seq<char>>, ranges: Seq<Range<usize>>) -> Seq<
    Seq<Range<usize>>,
> {
    Seq::new(
        lines.len(),
        |k: int| parts_in_line(ranges, ranges.len() as int, bytes_up_to(lines, k), lines[k]),
    )
}

pub proof fn lemma_bytes_up_to(lines: Seq<Seq<char>>, m: int, n: int)
    requires
        0 <= m <= n,
    ensures
        0 <= bytes_up_to(lines, m) <= bytes_up_to(lines, n),
    decreases n,
{
    if m < n {
        lemma_bytes_up_to(lines, m, n - 1);
    } else if m > 0 {
        lemma_bytes_up_to(lines, m - 1, n - 1);
    }
}

proof fn lemma_displayed(line: Seq<char>)
    ensures
        encode_utf8(displayed(line)).len() <= encode_utf8(line).len(),
{
    if line.len() > 0 && line.last() == '\n' {
        assert(line =~= line.drop_last() + seq![line.last()]);
        crate::text::lemma_encode_concat(line.drop_last(), seq![line.last()]);
    }
}

pub open spec fn range_lists(v: Seq<Vec<Range<usize>>>) -> Seq<Seq<Range<usize>>> {
    v.map_values(|l: Vec<Range<usize>>| l@)
}

fn line_parts(line: &str, offset: usize, ranges: &Vec<Range<usize>>) -> (r: Vec<Range<usize>>)
    ensures
        r@ == parts_in_line(ranges@, ranges@.len() as int, offset as int, line@),
{
    let shown: usize = display_text(line).as_str().as_bytes().len();
    let mut out: Vec<Range<usize>> = Vec::new();
    let mut i: usize = 0;
    while i < ranges.len()
        invariant
            i <= ranges@.len(),
            shown == encode_utf8(displayed(line@)).len(),
            out@ == parts_in_line(ranges@, i as int, offset as int, line@),
        decreases ranges@.len() - i,
    {
        let start: usize = if ranges[i].start >= offset {
            ranges[i].start - offset
        } else {
            0
        };
        let end: usize = if ranges[i].end >= offset {
            ranges[i].end - offset
        } else {
            0
        };
        let end: usize = if end < shown {
            end
        } else {
            shown
        };
        if start < end {
            out.push(Range { start, end });
        }
        i = i + 1;
    }
    out
}

/// Ranges of bytes over all lines, cut into ranges over the text of each.
pub fn per_line_ranges(lines: &[String], ranges: &Vec<Range<usize>>) -> (r: Vec<Vec<Range<usize>>>)
    requires
        bytes_up_to(strings(lines@), lines@.len() as int) <= usize::MAX,
    ensures
        range_lists(r@) == cut_to_lines(strings(lines@), ranges@),
{
    let ghost all = strings(lines@);
    let mut out: Vec<Vec<Range<usize>>> = Vec::new();
    let mut offset: usize = 0;
    let mut i: usize = 0;
    while i < lines.len()
        invariant
            all == strings(lines@),
            i <= lines@.len(),
            out@.len() == i,
            offset == bytes_up_to(all, i as int),
            bytes_up_to(all, all.len() as int) <= usize::MAX,
            forall|k: int|
                0 <= k < i ==> #[trigger] out@[k]@ == parts_in_line(
                    ranges@,
                    ranges@.len() as int,
                    bytes_up_to(all, k),
                    all[k],
                ),
        decreases lines@.len() - i,
    {
        assert(all[i as int] == lines@[i as int]@);
        out.push(line_parts(lines[i].as_str(), offset, ranges));
        proof {
            lemma_bytes_up_to(all, i + 1, all.len() as int);
        }
        offset = offset + lines[i].as_str().as_bytes().len();
        i = i + 1;
    }
    assert(range_lists(out@) =~= cut_to_lines(all, ranges@));
    out
}

/// The parts lie in the text of their line, and none is empty.
pub proof fn law_highlights_lie_in_their_lines(
    lines: Seq<Seq<char>>,
    ranges: Seq<Range<usize>>,
    k: int,
    j: int,
)
    requires
        0 <= k < lines.len(),
        bytes_up_to(lines, lines.len() as int) <= usize::MAX,
        0 <= j < cut_to_lines(lines, ranges)[k].len(),
    ensures
        ({
            let p = cut_to_lines(lines, ranges)[k][j];
            p.start < p.end <= encode_utf8(displayed(lines[k])).len()
        }),
{
    lemma_displayed(lines[k]);
    lemma_bytes_up_to(lines, k, k + 1);
    lemma_bytes_up_to(lines, k + 1, lines.len() as int);
    lemma_parts_in_line(ranges, ranges.len() as int, bytes_up_to(lines, k), lines[k], j);
}

proof fn lemma_parts_in_line(
    ranges: Seq<Range<usize>>,
    n: int,
    offset: int,
    line: Seq<char>,
    j: int,
)
    requires
        0 <= offset <= usize::MAX,
        n <= ranges.len(),
        encode_utf8(displayed(line)).len() <= usize::MAX,
        0 <= j < parts_in_line(ranges, n, offset, line).len(),
    ensures
        ({
            let p = parts_in_line(ranges, n, offset, line)[j];
            p.start < p.end <= encode_utf8(displayed(line)).len()
        }),
    decreases n,
{
    if n > 0 {
        let front = parts_in_line(ranges, n - 1, offset, line);
        if j < front.len() {
            lemma_parts_in_line(ranges, n - 1, offset, line, j);
        }
    }
}

/// Sides of more bytes than this are not compared word by word.
pub const WORD_DIFF_CHEAP_BYTES: usize = 4096;

/// The changed words of the lines of a region, line by line. They are not looked for where one
/// side is empty, or large.
pub open spec fn highlights_of(rendered: Seq<Seq<char>>, destination: Seq<Seq<char>>) -> (
    Seq<Seq<Range<usize>>>,
    Seq<Seq<Range<usize>>>,
) {
    let (a, b) = (rendered.flatten(), destination.flatten());
    if rendered.len() == 0 || destination.len() == 0 || encode_utf8(a).len()
        > WORD_DIFF_CHEAP_BYTES || encode_utf8(b).len() > WORD_DIFF_CHEAP_BYTES {
        (
            Seq::new(rendered.len(), |k: int| seq![]),
            Seq::new(destination.len(), |k: int| seq![]),
        )
    } else {
        (
            cut_to_lines(rendered, changed_words(a, b).0),
            cut_to_lines(destination, changed_words(a, b).1),
        )
    }
}

fn concat(lines: &[String]) -> (r: String)
    ensures
        r@ == strings(lines@).flatten(),
{
    let ghost all = strings(lines@);
    let mut s = String::new();
    let mut i: usize = 0;
    assert(all.take(0).flatten() =~= seq![]);
    while i < lines.len()
        invariant
            all == strings(lines@),
            i <= lines@.len(),
            s@ == all.take(i as int).flatten(),
        decreases lines@.len() - i,
    {
        proof {
            assert(all.take(i + 1) =~= all.take(i as int).push(all[i as int]));
            all.take(i as int).lemma_flatten_push(all[i as int]);
        }
        s.append(lines[i].as_str());
        i = i + 1;
    }
    assert(all.take(i as int) =~= all);
    s
}

pub proof fn lemma_bytes_of_concat(lines: Seq<Seq<char>>, n: int)
    requires
        0 <= n <= lines.len(),
    ensures
        bytes_up_to(lines, n) == encode_utf8(lines.take(n).flatten()).len(),
    decreases n,
{
    if n > 0 {
        lemma_bytes_of_concat(lines, n - 1);
        assert(lines.take(n) =~= lines.take(n - 1).push(lines[n - 1]));
        lines.take(n - 1).lemma_flatten_push(lines[n - 1]);
        crate::text::lemma_encode_concat(lines.take(n - 1).flatten(), lines[n - 1]);
    } else {
        assert(lines.take(0).flatten() =~= seq![]);
        assert(encode_utf8(seq![]) =~= seq![]);
    }
}

fn no_ranges(n: usize) -> (r: Vec<Vec<Range<usize>>>)
    ensures
        range_lists(r@) == Seq::new(n as nat, |k: int| Seq::<Range<usize>>::empty()),
{
    let mut out: Vec<Vec<Range<usize>>> = Vec::new();
    let mut i: usize = 0;
    while i < n
        invariant
            i <= n,
            out@.len() == i,
            forall|k: int| 0 <= k < i ==> #[trigger] out@[k]@ == Seq::<Range<usize>>::empty(),
        decreases n - i,
    {
        out.push(Vec::new());
        i = i + 1;
    }
    assert(range_lists(out@) =~= Seq::new(n as nat, |k: int| Seq::<Range<usize>>::empty()));
    out
}

/// The changed words of the lines of a region, line by line.
pub fn region_highlights(rendered: &[String], destination: &[String]) -> (r: (
    Vec<Vec<Range<usize>>>,
    Vec<Vec<Range<usize>>>,
))
    ensures
        range_lists(r.0@) == highlights_of(strings(rendered@), strings(destination@)).0,
        range_lists(r.1@) == highlights_of(strings(rendered@), strings(destination@)).1,
{
    let ghost (ra, rb) = (strings(rendered@), strings(destination@));
    assert(ra.len() == rendered@.len());
    assert(rb.len() == destination@.len());
    if rendered.len() == 0 || destination.len() == 0 {
        return (no_ranges(rendered.len()), no_ranges(destination.len()));
    }
    let a = concat(rendered);
    let b = concat(destination);
    if a.as_str().as_bytes().len() > WORD_DIFF_CHEAP_BYTES || b.as_str().as_bytes().len()
        > WORD_DIFF_CHEAP_BYTES {
        return (no_ranges(rendered.len()), no_ranges(destination.len()));
    }
    let wd = word_diff(a.as_str(), b.as_str());
    proof {
        lemma_bytes_of_concat(ra, ra.len() as int);
        lemma_bytes_of_concat(rb, rb.len() as int);
        assert(ra.take(ra.len() as int) =~= ra);
        assert(rb.take(rb.len() as int) =~= rb);
    }
    (per_line_ranges(rendered, &wd.changed_a), per_line_ranges(destination, &wd.changed_b))
}

// ---------------------------------------------------------------------------
// The lines of the preview

/// A line that both sides have.
pub open spec fn context_line(line: Seq<char>) -> Shown {
    Shown { text: displayed(line), tint: LineTint::Context, marker: " "@, highlights: seq![] }
}

/// The lines that one side has, with their changed words.
pub open spec fn side_shown(
    lines: Seq<Seq<char>>,
    highlights: Seq<Seq<Range<usize>>>,
    tint: LineTint,
    marker: Seq<char>,
) -> Seq<Shown> {
    Seq::new(
        lines.len(),
        |k: int|
            Shown { text: displayed(lines[k]), tint, marker, highlights: highlights[k] },
    )
}

/// The lines of a region: what both have, or what the source would write and then what is on
/// disk.
pub open spec fn region_shown(
    base: Seq<Seq<char>>,
    ours: Seq<Seq<char>>,
    r: MergeRegion,
) -> Seq<Shown> {
    match r.kind {
        RegionKind::Unchanged | RegionKind::TheirsOnly => cut(base, r.base).map_values(
            |l: Seq<char>| context_line(l),
        ),
        RegionKind::BothSame => cut(ours, r.ours).map_values(|l: Seq<char>| context_line(l)),
        RegionKind::OursOnly | RegionKind::Conflict => {
            let (a, b) = (cut(base, r.base), cut(ours, r.ours));
            side_shown(a, highlights_of(a, b).0, LineTint::Rendered, "−"@) + side_shown(
                b,
                highlights_of(a, b).1,
                LineTint::Destination,
                "+"@,
            )
        },
    }
}

/// The lines of all regions.
pub open spec fn all_shown(
    base: Seq<Seq<char>>,
    ours: Seq<Seq<char>>,
    regs: Seq<MergeRegion>,
) -> Seq<Shown>
    decreases regs.len(),
{
    if regs.len() == 0 {
        seq![]
    } else {
        region_shown(base, ours, regs[0]) + all_shown(base, ours, regs.drop_first())
    }
}

fn push_context(out: &mut Vec<DiffLine>, lines: &[String])
    ensures
        shown_lines(final(out)@) == shown_lines(old(out)@) + strings(lines@).map_values(
            |l: Seq<char>| context_line(l),
        ),
{
    let ghost had = shown_lines(out@);
    let ghost new = strings(lines@).map_values(|l: Seq<char>| context_line(l));
    let mut i: usize = 0;
    assert(had + new.take(0) =~= had);
    while i < lines.len()
        invariant
            i <= lines@.len(),
            new == strings(lines@).map_values(|l: Seq<char>| context_line(l)),
            shown_lines(out@) == had + new.take(i as int),
        decreases lines@.len() - i,
    {
        let ghost before = out@;
        out.push(
            DiffLine {
                text: display_text(lines[i].as_str()),
                tint: LineTint::Context,
                marker: " ",
                highlights: Vec::new(),
            },
        );
        proof {
            assert(strings(lines@)[i as int] == lines@[i as int]@);
            assert(new[i as int] =~= out@.last()@);
            assert(shown_lines(out@) =~= shown_lines(before).push(out@.last()@));
            assert(had + new.take(i + 1) =~= (had + new.take(i as int)).push(new[i as int]));
        }
        i = i + 1;
    }
    assert(new.take(i as int) =~= new);
}

fn copy_ranges(v: &Vec<Range<usize>>) -> (r: Vec<Range<usize>>)
    ensures
        r@ == v@,
{
    let mut out: Vec<Range<usize>> = Vec::new();
    let mut i: usize = 0;
    while i < v.len()
        invariant
            i <= v@.len(),
            out@ == v@.take(i as int),
        decreases v@.len() - i,
    {
        out.push(Range { start: v[i].start, end: v[i].end });
        assert(v@.take(i + 1) =~= v@.take(i as int).push(v@[i as int]));
        i = i + 1;
    }
    assert(v@.take(i as int) =~= v@);
    out
}

fn push_side(
    out: &mut Vec<DiffLine>,
    lines: &[String],
    highlights: &Vec<Vec<Range<usize>>>,
    tint: LineTint,
    marker: &'static str,
)
    requires
        highlights@.len() == lines@.len(),
    ensures
        shown_lines(final(out)@) == shown_lines(old(out)@) + side_shown(
            strings(lines@),
            range_lists(highlights@),
            tint,
            marker@,
        ),
{
    let ghost had = shown_lines(out@);
    let ghost all = highlights@;
    let ghost new = side_shown(strings(lines@), range_lists(all), tint, marker@);
    let len: usize = lines.len();
    let mut i: usize = 0;
    assert(had + new.take(0) =~= had);
    while i < len
        invariant
            i <= len,
            len == lines@.len(),
            all.len() == len,
            all == highlights@,
            new == side_shown(strings(lines@), range_lists(all), tint, marker@),
            shown_lines(out@) == had + new.take(i as int),
        decreases len - i,
    {
        let ghost before = out@;
        out.push(
            DiffLine {
                text: display_text(lines[i].as_str()),
                tint,
                marker,
                highlights: copy_ranges(&highlights[i]),
            },
        );
        proof {
            assert(strings(lines@)[i as int] == lines@[i as int]@);
            assert(range_lists(all)[i as int] == all[i as int]@);
            assert(new[i as int] =~= out@.last()@);
            assert(shown_lines(out@) =~= shown_lines(before).push(out@.last()@));
            assert(had + new.take(i + 1) =~= (had + new.take(i as int)).push(new[i as int]));
        }
        i = i + 1;
    }
    assert(new.take(i as int) =~= new);
}

/// The lines of the preview of a document. Its base is what the source would write, its own
/// side what is on disk.
pub fn flatten_document(doc: &MergeDocument) -> (r: Vec<DiffLine>)
    requires
        doc.wf(),
    ensures
        shown_lines(r@) == all_shown(doc.base(), doc.ours(), doc.regions@),
{
    let ghost regs = doc.regions@;
    let mut out: Vec<DiffLine> = Vec::new();
    let mut i: usize = 0;
    assert(shown_lines(out@) =~= seq![]);
    assert(regs.skip(0) =~= regs);
    while i < doc.regions.len()
        invariant
            doc.wf(),
            regs == doc.regions@,
            i <= regs.len(),
            shown_lines(out@) + all_shown(doc.base(), doc.ours(), regs.skip(i as int))
                == all_shown(doc.base(), doc.ours(), regs),
        decreases regs.len() - i,
    {
        let ghost had = shown_lines(out@);
        let reg = &doc.regions[i];
        let base = vstd::slice::slice_subrange(doc.base_lines(), reg.base.start, reg.base.end);
        let ours = vstd::slice::slice_subrange(doc.ours_lines(), reg.ours.start, reg.ours.end);
        proof {
            assert(strings(base@) =~= cut(doc.base(), reg.base));
            assert(strings(ours@) =~= cut(doc.ours(), reg.ours));
        }
        match reg.kind {
            RegionKind::Unchanged | RegionKind::TheirsOnly => push_context(&mut out, base),
            RegionKind::BothSame => push_context(&mut out, ours),
            RegionKind::OursOnly | RegionKind::Conflict => {
                let (a, b) = region_highlights(base, ours);
                proof {
                    assert(range_lists(a@).len() == a@.len());
                    assert(range_lists(b@).len() == b@.len());
                    assert(strings(base@).len() == base@.len());
                    assert(strings(ours@).len() == ours@.len());
                }
                push_side(&mut out, base, &a, LineTint::Rendered, "−");
                push_side(&mut out, ours, &b, LineTint::Destination, "+");
            },
        }
        proof {
            let now = region_shown(doc.base(), doc.ours(), *reg);
            let rest = all_shown(doc.base(), doc.ours(), regs.skip(i + 1));
            assert(shown_lines(out@) =~= had + now);
            assert(regs.skip(i as int).drop_first() =~= regs.skip(i + 1));
            assert((had + now) + rest =~= had + (now + rest));
        }
        i = i + 1;
    }
    proof {
        assert(regs.skip(i as int) =~= seq![]);
        let rest = all_shown(doc.base(), doc.ours(), regs.skip(i as int));
        assert(shown_lines(out@) + rest =~= shown_lines(out@));
    }
    out
}

/// The texts of the lines that do not have the tint.
pub open spec fn texts_without(s: Seq<Shown>, tint: LineTint) -> Seq<Seq<char>>
    decreases s.len(),
{
    if s.len() == 0 {
        seq![]
    } else if s[0].tint == tint {
        texts_without(s.drop_first(), tint)
    } else {
        seq![s[0].text] + texts_without(s.drop_first(), tint)
    }
}

/// Lines without their line feeds.
pub open spec fn displayed_lines(lines: Seq<Seq<char>>) -> Seq<Seq<char>> {
    lines.map_values(|l: Seq<char>| displayed(l))
}

proof fn lemma_texts_without_concat(a: Seq<Shown>, b: Seq<Shown>, tint: LineTint)
    ensures
        texts_without(a + b, tint) == texts_without(a, tint) + texts_without(b, tint),
    decreases a.len(),
{
    if a.len() == 0 {
        assert(a + b =~= b);
        assert(texts_without(a, tint) + texts_without(b, tint) =~= texts_without(b, tint));
    } else {
        lemma_texts_without_concat(a.drop_first(), b, tint);
        assert((a + b).drop_first() =~= a.drop_first() + b);
        let rest = texts_without(a.drop_first(), tint);
        assert((seq![a[0].text] + rest) + texts_without(b, tint) =~= seq![a[0].text] + (rest
            + texts_without(b, tint)));
    }
}

/// All lines of one tint: none is left, or all are.
proof fn lemma_texts_of_one_tint(
    s: Seq<Shown>,
    lines: Seq<Seq<char>>,
    own: LineTint,
    tint: LineTint,
)
    requires
        s.len() == lines.len(),
        forall|k: int|
            0 <= k < s.len() ==> (#[trigger] s[k]).tint == own && s[k].text == displayed(lines[k]),
    ensures
        texts_without(s, tint) == (if own == tint {
            seq![]
        } else {
            displayed_lines(lines)
        }),
    decreases s.len(),
{
    if s.len() > 0 {
        let (rest, other) = (s.drop_first(), lines.drop_first());
        assert forall|k: int| 0 <= k < rest.len() implies (#[trigger] rest[k]).tint == own
            && rest[k].text == displayed(other[k]) by {
            assert(rest[k] == s[k + 1]);
        }
        lemma_texts_of_one_tint(rest, other, own, tint);
        if own != tint {
            assert(seq![s[0].text] + displayed_lines(other) =~= displayed_lines(lines));
        }
    } else {
        assert(displayed_lines(lines) =~= seq![]);
    }
}

/// The preview of a two-way comparison shows both texts in full and in order: without the lines
/// on disk it is what the source would write, and without what the source would write it is
/// what is on disk.
pub proof fn law_previews_hold_both_texts(
    base: Seq<Seq<char>>,
    ours: Seq<Seq<char>>,
    theirs: Seq<Seq<char>>,
    ignore: bool,
    regs: Seq<MergeRegion>,
    at: (int, int, int),
)
    requires
        regions_tile(
            regs,
            at,
            (base.len() as int, ours.len() as int, theirs.len() as int),
        ),
        all_truthful(base, ours, theirs, ignore, regs),
        0 <= at.0 <= base.len(),
        0 <= at.1 <= ours.len(),
        forall|k: int|
            0 <= k < regs.len() ==> (#[trigger] regs[k]).kind == RegionKind::Unchanged
                || regs[k].kind == RegionKind::OursOnly,
    ensures
        texts_without(all_shown(base, ours, regs), LineTint::Destination) == displayed_lines(
            base.skip(at.0),
        ),
        texts_without(all_shown(base, ours, regs), LineTint::Rendered) == displayed_lines(
            ours.skip(at.1),
        ),
    decreases regs.len(),
{
    if regs.len() == 0 {
        assert(displayed_lines(base.skip(at.0)) =~= seq![]);
        assert(displayed_lines(ours.skip(at.1)) =~= seq![]);
    } else {
        let r = regs[0];
        let rest = regs.drop_first();
        assert(truthful(base, ours, theirs, ignore, r));
        assert forall|k: int| 0 <= k < rest.len() implies rest[k] == regs[k + 1] by {}
        law_previews_hold_both_texts(
            base,
            ours,
            theirs,
            ignore,
            rest,
            (r.base.end as int, r.ours.end as int, r.theirs.end as int),
        );
        let now = region_shown(base, ours, r);
        let later = all_shown(base, ours, rest);
        let (a, b) = (cut(base, r.base), cut(ours, r.ours));
        lemma_texts_without_concat(now, later, LineTint::Destination);
        lemma_texts_without_concat(now, later, LineTint::Rendered);
        if r.kind == RegionKind::Unchanged {
            lemma_texts_of_one_tint(now, a, LineTint::Context, LineTint::Destination);
            lemma_texts_of_one_tint(now, a, LineTint::Context, LineTint::Rendered);
        } else {
            let left = side_shown(a, highlights_of(a, b).0, LineTint::Rendered, "−"@);
            let right = side_shown(b, highlights_of(a, b).1, LineTint::Destination, "+"@);
            lemma_texts_without_concat(left, right, LineTint::Destination);
            lemma_texts_without_concat(left, right, LineTint::Rendered);
            lemma_texts_of_one_tint(left, a, LineTint::Rendered, LineTint::Destination);
            lemma_texts_of_one_tint(left, a, LineTint::Rendered, LineTint::Rendered);
            lemma_texts_of_one_tint(right, b, LineTint::Destination, LineTint::Destination);
            lemma_texts_of_one_tint(right, b, LineTint::Destination, LineTint::Rendered);
            assert(displayed_lines(a) + seq![] =~= displayed_lines(a));
            assert(Seq::<Seq<char>>::empty() + displayed_lines(b) =~= displayed_lines(b));
        }
        assert(displayed_lines(a) + displayed_lines(base.skip(r.base.end as int))
            =~= displayed_lines(base.skip(at.0)));
        assert(displayed_lines(b) + displayed_lines(ours.skip(r.ours.end as int))
            =~= displayed_lines(ours.skip(at.1)));
    }
}

// ---------------------------------------------------------------------------
// Loading the preview

/// What is known of the difference of a file.
#[derive(Debug)]
pub enum PreviewState {
    /// Nothing is selected.
    Empty,
    /// It is being computed.
    Loading,
    Ready(MergeDocument),
    /// The template could not be evaluated; what may help.
    EvalFailed(String),
    Error(String),
}

/// The text of a file on disk, as far as it is one. A missing file is empty.
pub open spec fn text_on_disk(file: Option<Vec<u8>>) -> Seq<char> {
    match file {
        Some(b) => lossy(b@),
        None => seq![],
    }
}

/// Two texts can be compared: each is set against the first, and two texts that are set against
/// each other have fewer lines together than a 32-bit position reaches.
pub open spec fn can_compare(rendered: Seq<char>, destination: Seq<char>) -> bool {
    &&& lines_of(rendered).len() + lines_of(destination).len() < 0x7fff_ffff
    &&& lines_of(rendered).len() + lines_of(rendered).len() < 0x7fff_ffff
}

/// The document compares what the source would write with what is on disk.
pub open spec fn compares(doc: MergeDocument, rendered: Seq<char>, destination: Seq<char>) -> bool {
    &&& doc.wf()
    &&& doc.base() == lines_of(rendered)
    &&& doc.ours() == lines_of(destination)
    &&& doc.theirs() == lines_of(rendered)
    &&& doc.regions@ == regions_of(merge_sides(rendered, destination, rendered, false))
}

/// The preview of a file that could be read, or not.
pub open spec fn preview_is(
    p: PreviewState,
    rendered: Seq<u8>,
    file: Result<Option<Vec<u8>>, String>,
    target: Seq<char>,
) -> bool {
    match file {
        Err(e) => p matches PreviewState::Error(m) && m@ == "read "@ + target + ": "@ + e@,
        Ok(f) => if can_compare(lossy(rendered), text_on_disk(f)) {
            p matches PreviewState::Ready(doc) && compares(doc, lossy(rendered), text_on_disk(f))
        } else {
            p matches PreviewState::Error(m) && m@ == "too many lines to compare"@
        },
    }
}

/// The preview of what the source would write, set against what reading the file gave.
pub fn preview_of(
    rendered: &[u8],
    file: Result<Option<Vec<u8>>, String>,
    target: &str,
) -> (r: PreviewState)
    ensures
        preview_is(r, rendered@, file, target@),
{
    let rendered = lossy_text(rendered);
    let destination = match file {
        Ok(Some(b)) => lossy_text(b.as_slice()),
        Ok(None) => {
            let s = String::new();
            assert(s@ =~= seq![]);
            s
        },
        Err(e) => {
            let mut m = "read ".to_owned();
            m.append(target);
            m.append(": ");
            m.append(e.as_str());
            return PreviewState::Error(m);
        },
    };
    let left: usize = split_lines(rendered.as_str()).len();
    let right: usize = split_lines(destination.as_str()).len();
    if left >= 0x7fff_ffff || left >= 0x7fff_ffff - left || right >= 0x7fff_ffff - left {
        return PreviewState::Error("too many lines to compare".to_owned());
    }
    PreviewState::Ready(
        MergeDocument::compute(
            rendered.as_str(),
            destination.as_str(),
            rendered.as_str(),
            MergeOptions::default(),
        ),
    )
}

/// Asks what the source would write, reads the file, and compares the two. Where the source
/// cannot be evaluated the file is not read.
pub fn load_preview<C: CommandRunner, F: Fn(String) -> Result<Option<Vec<u8>>, String>>(
    client: &mut ChezmoiClient<C>,
    read_file: &F,
    target: &str,
) -> (r: PreviewState)
    requires
        forall|p: String| read_file.requires((p,)),
    ensures
        called(
            *old(client),
            *final(client),
            seq!["cat"@, target@],
            None,
            old(client).opts.timeout,
        ),
        match outcome(final(client).answer()) {
            Err(Failure::Eval { kind, raw_stderr, hint }) => r matches PreviewState::EvalFailed(
                h,
            ) && h@ == hint,
            Err(f) => exists|e: ChezmoiError| #[trigger]
                e@ == f && (r matches PreviewState::Error(m) && m@ == e.message_spec()),
            Ok(rendered) => exists|file: Result<Option<Vec<u8>>, String>| #[trigger]
                reads(*read_file, target@, file) && preview_is(r, rendered, file, target@),
        },
{
    match client.cat(target) {
        Ok(rendered) => {
            let path = target.to_owned();
            let file = read_file(path);
            let ghost said = file;
            let p = preview_of(rendered.as_slice(), file, target);
            assert(reads(*read_file, target@, said)) by {
                assert(path@ == target@ && read_file.ensures((path,), said));
            }
            p
        },
        Err(ChezmoiError::Eval(failure)) => PreviewState::EvalFailed(failure.hint),
        Err(e) => {
            let m = e.message();
            let ghost x = e;
            assert(x@ == outcome(client.answer())->Err_0);
            PreviewState::Error(m)
        },
    }
}

/// The merge that is made without asking: it has no conflict, and is neither side's own text.
pub open spec fn merges_by_itself(inputs: MergeInputs) -> Option<Seq<char>> {
    let regs = regions_of(merge_sides(base_of(inputs), inputs.ours@, inputs.theirs@, false));
    let merged = assembled_from(
        lines_of(base_of(inputs)),
        lines_of(inputs.ours@),
        lines_of(inputs.theirs@),
        regs,
        Map::empty(),
        0,
    );
    match merged {
        Ok(t) => if conflicts(regs, regs.len() as int).len() > 0 || t == inputs.ours@ || t
            == inputs.theirs@ {
            None
        } else {
            Some(t)
        },
        Err(_) => None,
    }
}

/// The merge of the two sides where it needs nobody to decide, and neither side is it already.
pub fn auto_merge(inputs: &MergeInputs) -> (r: Option<String>)
    requires
        comparable(*inputs),
    ensures
        optional(r) == merges_by_itself(*inputs),
{
    let state = MergeState::new(inputs);
    if state.conflicts().len() > 0 {
        return None;
    }
    let len: usize = state.doc.regions.len();
    proof {
        lemma_undecided(state.regs(), state.resolution@, len as int);
    }
    match state.assembled() {
        Some(t) => if same(t.as_str(), inputs.ours.as_str()) || same(
            t.as_str(),
            inputs.theirs.as_str(),
        ) {
            None
        } else {
            Some(t)
        },
        None => None,
    }
}

// ---------------------------------------------------------------------------
// History

/// How many rows of the journal are shown for a file.
pub const PROVENANCE_LIMIT: u32 = 8;

/// A row of the history of a file.
#[derive(Debug)]
pub struct ProvRow {
    pub ts: u64,
    pub kind: String,
    pub machine: String,
    pub class: Option<String>,
}

/// A row of the history of a file, for a row of the journal.
pub fn prov_row(r: EventRow) -> (p: ProvRow)
    ensures
        p.ts == r.ts,
        p.kind@ == r.kind@,
        p.machine@ == r.machine@,
        optional(p.class) == (match r.meta {
            Some(m) => text_member(m, "class"@),
            None => None,
        }),
{
    let class: Option<String> = match &r.meta {
        Some(m) => match m.get_text("class") {
            Some(s) => Some(s.clone()),
            None => None,
        },
        None => None,
    };
    ProvRow { ts: r.ts, kind: r.kind, machine: r.machine, class }
}

/// What the chip of a row says: its class, where its kind does not say the same.
pub open spec fn chip_of(kind: Seq<char>, class: Option<Seq<char>>) -> Option<Seq<char>> {
    match class {
        Some(c) => if class_words(c) == kind_words(kind) {
            None
        } else {
            Some(class_words(c))
        },
        None => None,
    }
}

/// What the chip of a row says.
pub fn provenance_chip(row: &ProvRow) -> (r: Option<&'static str>)
    ensures
        (match r {
            Some(s) => Some(s@),
            None => None,
        }) == chip_of(row.kind@, optional(row.class)),
{
    match &row.class {
        Some(c) => {
            let label = class_label(c.as_str());
            if same(label, kind_label(row.kind.as_str())) {
                None
            } else {
                Some(label)
            }
        },
        None => None,
    }
}

/// What is shown of a row of the history of a file.
#[derive(Debug)]
pub struct ProvLine {
    pub time: String,
    pub glyph: &'static str,
    /// The colour of the glyph and the chip.
    pub color: u32,
    pub title: &'static str,
    pub machine: String,
    pub chip: Option<&'static str>,
}

/// What is shown of a row of the history of a file.
pub fn provenance_line(row: &ProvRow, now: u64, theme: &Theme) -> (r: ProvLine)
    ensures
        r.time@ == ago(now, row.ts),
        r.glyph@ == glyph_of(row.kind@),
        r.color == (match row.class {
            Some(c) => theme.color_of(c@),
            None => theme.text_muted,
        }),
        r.title@ == kind_words(row.kind@),
        r.machine@ == row.machine@,
        (match r.chip {
            Some(s) => Some(s@),
            None => None,
        }) == chip_of(row.kind@, optional(row.class)),
{
    ProvLine {
        time: time_ago(now, row.ts),
        glyph: kind_glyph(row.kind.as_str()),
        color: match &row.class {
            Some(c) => theme.class_color(c.as_str()),
            None => theme.text_muted,
        },
        title: kind_label(row.kind.as_str()),
        machine: row.machine.clone(),
        chip: provenance_chip(row),
    }
}

/// The colour of a line of the preview.
pub fn diff_color(tint: LineTint, theme: &Theme) -> (r: u32)
    ensures
        r == (match tint {
            LineTint::Context => theme.text_muted,
            LineTint::Rendered => theme.accent,
            LineTint::Destination => theme.drift,
        }),
{
    match tint {
        LineTint::Context => theme.text_muted,
        LineTint::Rendered => theme.accent,
        LineTint::Destination => theme.drift,
    }
}

// ---------------------------------------------------------------------------
// The list of files

/// A row of the list of files.
#[derive(Debug)]
pub enum SidebarRow {
    /// The head of a group.
    Header(&'static str),
    /// A file: its name, since when it has drifted, and whether it is selected.
    Target { name: String, since: String, selected: bool },
    Note(&'static str),
}

/// A row of the list of files, as the model has it.
pub enum ListRow {
    Header { words: Seq<char> },
    Target { name: Seq<char>, since: Seq<char>, selected: bool },
    Note { words: Seq<char> },
}

impl View for SidebarRow {
    type V = ListRow;

    open spec fn view(&self) -> ListRow {
        match *self {
            SidebarRow::Header(s) => ListRow::Header { words: s@ },
            SidebarRow::Target { name, since, selected } => ListRow::Target {
                name: name@,
                since: since@,
                selected,
            },
            SidebarRow::Note(s) => ListRow::Note { words: s@ },
        }
    }
}

pub open spec fn list_rows(v: Seq<SidebarRow>) -> Seq<ListRow> {
    v.map_values(|r: SidebarRow| r@)
}

/// The row of a file.
pub open spec fn target_row(d: Drift, selected: Option<Seq<char>>, now: u64) -> ListRow {
    ListRow::Target {
        name: shown_name(d.target),
        since: match d.since_ts {
            Some(ts) => ago(now, ts),
            None => seq![],
        },
        selected: selected matches Some(s) && same_path(s, d.target),
    }
}

/// The rows of a group: none where it is empty.
pub open spec fn group_rows(
    head: Seq<char>,
    group: Seq<Drift>,
    selected: Option<Seq<char>>,
    now: u64,
) -> Seq<ListRow> {
    if group.len() == 0 {
        seq![]
    } else {
        seq![ListRow::Header { words: head }] + group.map_values(
            |d: Drift| target_row(d, selected, now),
        )
    }
}

/// The rows of the list of files.
pub open spec fn sidebar_of(d: Seq<Drift>, selected: Option<Seq<char>>, now: u64) -> Seq<ListRow> {
    if d.len() == 0 {
        seq![ListRow::Note { words: "nothing to review"@ }]
    } else {
        group_rows("NEEDS A DECISION"@, needing_you(d), selected, now) + group_rows(
            "SAFE TO RESOLVE"@,
            one_click(d),
            selected,
            now,
        )
    }
}

fn push_group(
    rows: &mut Vec<SidebarRow>,
    head: &'static str,
    group: &Vec<DriftSummary>,
    selected: &Option<String>,
    now: u64,
)
    ensures
        list_rows(final(rows)@) == list_rows(old(rows)@) + group_rows(
            head@,
            drifts(group@),
            optional(*selected),
            now,
        ),
{
    let ghost had = list_rows(rows@);
    let ghost d = drifts(group@);
    let ghost new = group_rows(head@, d, optional(*selected), now);
    assert(d.len() == group@.len());
    if group.len() == 0 {
        assert(had + new =~= had);
        return;
    }
    rows.push(SidebarRow::Header(head));
    assert(list_rows(rows@) =~= had + new.take(1));
    let mut i: usize = 0;
    while i < group.len()
        invariant
            i <= group@.len(),
            0 < group@.len(),
            d == drifts(group@),
            d.len() == group@.len(),
            new == group_rows(head@, d, optional(*selected), now),
            list_rows(rows@) == had + new.take(i + 1),
        decreases group@.len() - i,
    {
        let ghost before = rows@;
        let entry = &group[i];
        let since = match entry.since_ts {
            Some(ts) => time_ago(now, ts),
            None => {
                let s = String::new();
                assert(s@ =~= seq![]);
                s
            },
        };
        let chosen: bool = match selected {
            Some(s) => is_same_path(s.as_str(), entry.target.as_str()),
            None => false,
        };
        rows.push(
            SidebarRow::Target {
                name: display_name(entry.target.as_str()),
                since,
                selected: chosen,
            },
        );
        proof {
            assert(d[i as int] == entry@);
            assert(new[i + 1] == target_row(d[i as int], optional(*selected), now));
            assert(rows@.last()@ == new[i + 1]);
            assert(list_rows(rows@) =~= list_rows(before).push(rows@.last()@));
            assert(had + new.take(i + 2) =~= (had + new.take(i + 1)).push(new[i + 1]));
        }
        i = i + 1;
    }
    assert(new.take(i + 1) =~= new);
}

/// The rows of the list of files: those that need a decision, then those that do not.
pub fn sidebar_rows(drifted: &Vec<DriftSummary>, selected: &Option<String>, now: u64) -> (r: Vec<
    SidebarRow,
>)
    ensures
        list_rows(r@) == sidebar_of(drifts(drifted@), optional(*selected), now),
{
    let mut rows: Vec<SidebarRow> = Vec::new();
    assert(drifts(drifted@).len() == drifted@.len());
    if drifted.len() == 0 {
        rows.push(SidebarRow::Note("nothing to review"));
        assert(list_rows(rows@) =~= seq![ListRow::Note { words: "nothing to review"@ }]);
        return rows;
    }
    let (needs, easy) = severity_groups(drifted);
    assert(list_rows(rows@) =~= seq![]);
    push_group(&mut rows, "NEEDS A DECISION", &needs, selected, now);
    push_group(&mut rows, "SAFE TO RESOLVE", &easy, selected, now);
    proof {
        let a = group_rows("NEEDS A DECISION"@, drifts(needs@), optional(*selected), now);
        let b = group_rows("SAFE TO RESOLVE"@, drifts(easy@), optional(*selected), now);
        assert(Seq::<ListRow>::empty() + a =~= a);
    }
    rows
}

/// The line below the list: how many files are in sync.
pub fn in_sync_line(in_sync: u64) -> (r: String)
    ensures
        r@ == "In sync ("@ + decimal(in_sync as nat) + ")"@,
{
    let mut s = "In sync (".to_owned();
    s.append(decimal_text(in_sync).as_str());
    s.append(")");
    s
}

// ---------------------------------------------------------------------------
// The view

/// What was loaded for a file.
#[derive(Debug)]
pub struct LoadedDetail {
    pub provenance: Vec<ProvRow>,
    pub preview: PreviewState,
    pub auto_merge: Option<(MergeInputs, String)>,
}

/// The state of the review.
#[derive(Debug)]
pub struct ReviewState {
    pub selected: Option<String>,
    pub preview: PreviewState,
    pub provenance: Vec<ProvRow>,
    pub auto_merge: Option<(MergeInputs, String)>,
    pub last_outcome: Option<OutcomeBanner>,
    pub action_in_flight: bool,
}

/// The file is the selected one.
pub open spec fn is_selected(selected: Option<String>, target: Seq<char>) -> bool {
    selected matches Some(s) && same_path(s@, target)
}

fn selects(selected: &Option<String>, target: &str) -> (r: bool)
    ensures
        r == is_selected(*selected, target@),
{
    match selected {
        Some(s) => is_same_path(s.as_str(), target),
        None => false,
    }
}

/// The resolution changed something.
pub open spec fn is_done(result: Result<ResolveOutcome, ResolveError>) -> bool {
    result matches Ok(ResolveOutcome::Done { .. })
}

fn was_done(result: &Result<ResolveOutcome, ResolveError>) -> (r: bool)
    ensures
        r == is_done(*result),
{
    match result {
        Ok(ResolveOutcome::Done { .. }) => true,
        _ => false,
    }
}

impl ReviewState {
    pub fn new() -> (r: Self)
        ensures
            r.selected is None,
            r.preview is Empty,
            r.provenance@.len() == 0,
            r.auto_merge is None,
            r.last_outcome is None,
            !r.action_in_flight,
    {
        ReviewState {
            selected: None,
            preview: PreviewState::Empty,
            provenance: Vec::new(),
            auto_merge: None,
            last_outcome: None,
            action_in_flight: false,
        }
    }

    /// Selects a file, of which all is to be loaded. What was told of another file is dropped.
    pub fn select(&mut self, target: &str)
        ensures
            final(self).selected matches Some(s) && s@ == target@,
            final(self).preview is Loading,
            final(self).provenance@.len() == 0,
            final(self).auto_merge is None,
            final(self).last_outcome == (if is_selected(old(self).selected, target@) {
                old(self).last_outcome
            } else {
                None
            }),
            final(self).action_in_flight == old(self).action_in_flight,
    {
        if !selects(&self.selected, target) {
            self.last_outcome = None;
        }
        self.selected = Some(target.to_owned());
        self.preview = PreviewState::Loading;
        self.provenance = Vec::new();
        self.auto_merge = None;
    }

    /// Takes what was loaded for a file, unless another one is selected by now.
    pub fn loaded(&mut self, target: &str, detail: LoadedDetail)
        ensures
            *final(self) == (if is_selected(old(self).selected, target@) {
                ReviewState {
                    provenance: detail.provenance,
                    auto_merge: detail.auto_merge,
                    preview: detail.preview,
                    ..*old(self)
                }
            } else {
                *old(self)
            }),
    {
        if selects(&self.selected, target) {
            self.provenance = detail.provenance;
            self.auto_merge = detail.auto_merge;
            self.preview = detail.preview;
        }
    }

    /// Begins an action on the selected file, and gives it. None begins while one is under way,
    /// without a selection, or while there is no daemon.
    pub fn begin_action(&mut self, engine_ready: bool) -> (r: Option<String>)
        ensures
            if old(self).action_in_flight || old(self).selected is None || !engine_ready {
                r is None && *final(self) == *old(self)
            } else {
                &&& r matches Some(t) && t@ == old(self).selected->Some_0@
                &&& *final(self) == (ReviewState {
                    action_in_flight: true,
                    last_outcome: None,
                    ..*old(self)
                })
            },
    {
        if self.action_in_flight || !engine_ready {
            return None;
        }
        let target = match &self.selected {
            Some(s) => s.clone(),
            None => {
                return None;
            },
        };
        self.action_in_flight = true;
        self.last_outcome = None;
        Some(target)
    }

    /// Ends an action on a file: tells what came of it, notes the file as resolved if it is,
    /// and gives the file if it is to be loaded again.
    pub fn end_action(
        &mut self,
        action: ResolveAction,
        target: &str,
        result: &Result<ResolveOutcome, ResolveError>,
        model: &mut SyncModel,
    ) -> (r: Option<String>)
        ensures
            !final(self).action_in_flight,
            final(self).last_outcome matches Some(b) && b@ == told(action, *result),
            final(model)@ == noted_in(old(model)@, *result, target@),
            reloads(*old(self), *final(self), r, is_selected(old(self).selected, target@)),
            is_selected(old(self).selected, target@) ==> final(self).selected->Some_0@ == target@,
    {
        self.action_in_flight = false;
        self.last_outcome = Some(outcome_banner(action, result));
        if was_done(result) {
            model.confirm_resolved(target);
        }
        if selects(&self.selected, target) {
            proof {
                assert(same_path(self.selected->Some_0@, target@));
            }
            self.select(target);
            return Some(target.to_owned());
        }
        None
    }

    /// Begins to undo the last session. That needs no selection.
    pub fn begin_undo(&mut self, engine_ready: bool) -> (r: bool)
        ensures
            r == (engine_ready && !old(self).action_in_flight),
            *final(self) == (if r {
                ReviewState { action_in_flight: true, ..*old(self) }
            } else {
                *old(self)
            }),
    {
        if self.action_in_flight || !engine_ready {
            return false;
        }
        self.action_in_flight = true;
        true
    }

    pub(crate) fn reselect(&mut self) -> (r: Option<String>)
        ensures
            reloads(*old(self), *final(self), r, old(self).selected is Some),
            final(self).last_outcome == old(self).last_outcome,
            final(self).action_in_flight == old(self).action_in_flight,
            old(self).selected matches Some(s) ==> final(self).selected->Some_0@ == s@,
    {
        let target = match &self.selected {
            Some(s) => s.clone(),
            None => {
                return None;
            },
        };
        self.select(target.as_str());
        Some(target)
    }

    /// Ends an undo: tells what came of it, and gives the selected file, which is to be loaded
    /// again.
    pub fn end_undo(&mut self, result: &Result<Option<i64>, ResolveError>) -> (r: Option<String>)
        ensures
            !final(self).action_in_flight,
            final(self).last_outcome matches Some(b) && b@ == undo_told(*result),
            reloads(*old(self), *final(self), r, old(self).selected is Some),
            old(self).selected matches Some(s) ==> final(self).selected->Some_0@ == s@,
    {
        self.action_in_flight = false;
        self.last_outcome = Some(undo_banner(result));
        self.reselect()
    }

    /// Begins to write the merge that needs nobody to decide. It is left in place.
    pub fn begin_keep_both(&mut self, engine_ready: bool) -> (r: bool)
        ensures
            r == (engine_ready && old(self).auto_merge is Some),
            *final(self) == (if r {
                ReviewState { action_in_flight: true, ..*old(self) }
            } else {
                *old(self)
            }),
    {
        if self.auto_merge.is_none() || !engine_ready {
            return false;
        }
        self.action_in_flight = true;
        true
    }

    /// Ends the writing of such a merge for a file.
    pub fn end_keep_both(
        &mut self,
        target: &str,
        result: &Result<ResolveOutcome, ResolveError>,
        model: &mut SyncModel,
    ) -> (r: Option<String>)
        ensures
            !final(self).action_in_flight,
            final(self).last_outcome matches Some(b) && b@ == kept_both(*result),
            final(model)@ == noted_in(old(model)@, *result, target@),
            reloads(*old(self), *final(self), r, old(self).selected is Some),
            old(self).selected matches Some(s) ==> final(self).selected->Some_0@ == s@,
    {
        self.action_in_flight = false;
        self.last_outcome = Some(keep_both_banner(result));
        if was_done(result) {
            model.confirm_resolved(target);
        }
        self.reselect()
    }
}

/// The model, once a resolution of the target has ended.
pub open spec fn noted_in(
    m: State,
    result: Result<ResolveOutcome, ResolveError>,
    target: Seq<char>,
) -> State {
    if is_done(result) {
        State { drifted: without(m.drifted, target), ..m }
    } else {
        m
    }
}

/// The selected file is loaded again, or nothing of what is shown of it changes.
pub open spec fn reloads(
    before: ReviewState,
    after: ReviewState,
    r: Option<String>,
    again: bool,
) -> bool {
    if again {
        &&& r matches Some(t) && after.selected matches Some(s) && t@ == s@
        &&& after.preview is Loading
        &&& after.provenance@.len() == 0
        &&& after.auto_merge is None
    } else {
        &&& r is None
        &&& after.selected == before.selected
        &&& after.preview == before.preview
        &&& after.provenance == before.provenance
        &&& after.auto_merge == before.auto_merge
    }
}

/// The file is one for which merging is the way: both sides have changed.
pub open spec fn wants_merge(d: Seq<Drift>, target: Seq<char>) -> bool {
    match place(d, target, 0) {
        Some(k) => d[k].class == "conflict"@ || d[k].class == "local_source_diverged"@,
        None => false,
    }
}

/// Whether the file is one for which merging is the way.
pub fn is_conflict(drifted: &Vec<DriftSummary>, target: &str) -> (r: bool)
    ensures
        r == wants_merge(drifts(drifted@), target@),
{
    let ghost d = drifts(drifted@);
    let mut i: usize = 0;
    assert(d.len() == drifted@.len());
    while i < drifted.len()
        invariant
            d == drifts(drifted@),
            d.len() == drifted@.len(),
            i <= drifted@.len(),
            place(d, target@, 0) == place(d, target@, i as int),
        decreases drifted@.len() - i,
    {
        assert(d[i as int] == drifted@[i as int]@);
        if is_same_path(drifted[i].target.as_str(), target) {
            let class = drifted[i].class.as_str();
            return same(class, "conflict") || same(class, "local_source_diverged");
        }
        i = i + 1;
    }
    false
}

// ---------------------------------------------------------------------------
// The selected file

/// What is shown of the selected file.
#[derive(Debug, PartialEq, Eq)]
pub enum DetailBody {
    Note(&'static str),
    Message { title: &'static str, text: String, advice: Option<&'static str> },
    /// The lines of the preview.
    Diff,
}

/// What is offered for the selected file.
#[derive(Debug, Clone, Copy, PartialEq, Eq, Structural)]
pub enum DetailActions {
    /// Nothing: an action is under way.
    Working,
    /// The two resolutions, and the merge that needs nobody to decide where there is one. They
    /// can be used only while there is a daemon.
    Offered { enabled: bool, keep_both: bool },
}

/// How a button looks.
#[derive(Debug, Clone, Copy, PartialEq, Eq, Structural)]
pub struct ButtonLook {
    pub enabled: bool,
    pub color: u32,
    pub border: u32,
}

/// What stands above the selected file.
#[derive(Debug)]
pub struct DetailHeader {
    pub name: String,
    pub path: String,
    pub actions: DetailActions,
    /// The button that opens the merge editor.
    pub merge: ButtonLook,
}

/// The button that opens the merge editor. It stands out only where merging is the way.
pub open spec fn merge_look(enabled: bool, wanted: bool, theme: Theme) -> ButtonLook {
    if !enabled {
        ButtonLook { enabled, color: theme.text_muted, border: theme.border }
    } else if wanted {
        ButtonLook { enabled, color: theme.accent, border: theme.accent }
    } else {
        ButtonLook { enabled, color: theme.text, border: theme.border }
    }
}

/// What is shown of the selected file is what is known of it.
pub open spec fn body_is(view: ReviewState, b: DetailBody) -> bool {
    if view.selected is None {
        b matches DetailBody::Note(s) && s@ == "select a file to review"@
    } else {
        match view.preview {
            PreviewState::Empty | PreviewState::Loading => b matches DetailBody::Note(s) && s@
                == "loading preview…"@,
            PreviewState::EvalFailed(hint) => b matches DetailBody::Message {
                title,
                text,
                advice,
            } && title@ == "template/secret evaluation failed"@ && text@ == hint@
                && (advice matches Some(a) && a@
                == "Fix this, then re-select the file to reload the preview."@),
            PreviewState::Error(m) => b matches DetailBody::Message { title, text, advice }
                && title@ == "preview failed"@ && text@ == m@ && advice is None,
            PreviewState::Ready(doc) => if all_shown(
                doc.base(),
                doc.ours(),
                doc.regions@,
            ).len() == 0 {
                b matches DetailBody::Note(s) && s@ == "destination matches the rendered source"@
            } else {
                b is Diff
            },
        }
    }
}

impl ReviewState {
    /// What is shown of the selected file.
    pub fn detail_body(&self) -> (r: DetailBody)
        requires
            self.preview matches PreviewState::Ready(doc) ==> doc.wf(),
        ensures
            body_is(*self, r),
    {
        if self.selected.is_none() {
            return DetailBody::Note("select a file to review");
        }
        match &self.preview {
            PreviewState::Empty | PreviewState::Loading => DetailBody::Note("loading preview…"),
            PreviewState::EvalFailed(hint) => DetailBody::Message {
                title: "template/secret evaluation failed",
                text: hint.clone(),
                advice: Some("Fix this, then re-select the file to reload the preview."),
            },
            PreviewState::Error(m) => DetailBody::Message {
                title: "preview failed",
                text: m.clone(),
                advice: None,
            },
            PreviewState::Ready(doc) => {
                let shown = flatten_document(doc);
                assert(shown_lines(shown@).len() == shown@.len());
                if shown.len() == 0 {
                    DetailBody::Note("destination matches the rendered source")
                } else {
                    DetailBody::Diff
                }
            },
        }
    }

    /// What is offered for the selected file.
    pub fn detail_actions(&self, engine_ready: bool) -> (r: DetailActions)
        ensures
            r == (if self.action_in_flight {
                DetailActions::Working
            } else {
                DetailActions::Offered {
                    enabled: engine_ready,
                    keep_both: self.auto_merge is Some,
                }
            }),
    {
        if self.action_in_flight {
            DetailActions::Working
        } else {
            DetailActions::Offered { enabled: engine_ready, keep_both: self.auto_merge.is_some() }
        }
    }

    /// What stands above the selected file, if one is selected.
    pub fn detail_header(
        &self,
        drifted: &Vec<DriftSummary>,
        engine_ready: bool,
        theme: &Theme,
    ) -> (r: Option<DetailHeader>)
        ensures
            match self.selected {
                None => r is None,
                Some(target) => {
                    &&& r matches Some(h)
                    &&& h.name@ == shown_name(target@)
                    &&& h.path@ == target@
                    &&& h.actions == (if self.action_in_flight {
                        DetailActions::Working
                    } else {
                        DetailActions::Offered {
                            enabled: engine_ready,
                            keep_both: self.auto_merge is Some,
                        }
                    })
                    &&& h.merge == merge_look(
                        engine_ready,
                        wants_merge(drifts(drifted@), target@),
                        *theme,
                    )
                },
            },
    {
        match &self.selected {
            None => None,
            Some(target) => {
                let merge = if !engine_ready {
                    ButtonLook { enabled: false, color: theme.text_muted, border: theme.border }
                } else if is_conflict(drifted, target.as_str()) {
                    ButtonLook { enabled: true, color: theme.accent, border: theme.accent }
                } else {
                    ButtonLook { enabled: true, color: theme.text, border: theme.border }
                };
                Some(
                    DetailHeader {
                        name: display_name(target.as_str()),
                        path: target.clone(),
                        actions: self.detail_actions(engine_ready),
                        merge,
                    },
                )
            },
        }
    }

    /// Whether what was done last can be undone now.
    pub fn offers_undo(&self) -> (r: bool)
        ensures
            r == (!self.action_in_flight && (self.last_outcome matches Some(b) && b.undoable)),
    {
        match &self.last_outcome {
            Some(b) => b.undoable && !self.action_in_flight,
            None => false,
        }
    }
}

// ---------------------------------------------------------------------------
// What is shown is what there is

proof fn lemma_members_filter(d: Seq<Drift>, g: Group, n: int)
    requires
        0 <= n <= d.len(),
    ensures
        members(d, g, n) == d.take(n).filter(|x: Drift| group_of(x.class) == g),
    decreases n,
{
    reveal(Seq::filter);
    if n > 0 {
        lemma_members_filter(d, g, n - 1);
        assert(d.take(n).drop_last() =~= d.take(n - 1));
        assert(d.take(n).last() == d[n - 1]);
    }
}

proof fn lemma_filters_agree(d: Seq<Drift>, p: spec_fn(Drift) -> bool, q: spec_fn(Drift) -> bool)
    requires
        forall|x: Drift| #[trigger] p(x) == q(x),
    ensures
        d.filter(p) == d.filter(q),
    decreases d.len(),
{
    reveal(Seq::filter);
    if d.len() > 0 {
        lemma_filters_agree(d.drop_last(), p, q);
    }
}

/// First come the conflicts, then what else needs somebody, what has come apart or could not be
/// evaluated, and then all the others; within each the targets keep their order.
pub proof fn law_conflicts_come_first(d: Seq<Drift>)
    ensures
        needing_you(d) == d.filter(|x: Drift| x.class == "conflict"@) + d.filter(
            |x: Drift| x.class == "local_source_diverged"@ || x.class == "eval_failed"@,
        ),
        one_click(d) == d.filter(
            |x: Drift|
                x.class != "conflict"@ && x.class != "local_source_diverged"@ && x.class
                    != "eval_failed"@,
        ),
{
    reveal_strlit("conflict");
    reveal_strlit("local_source_diverged");
    reveal_strlit("eval_failed");
    assert("conflict"@[0] == 'c' && "local_source_diverged"@[0] == 'l' && "eval_failed"@[0] == 'e');
    let n = d.len() as int;
    assert(d.take(n) =~= d);
    lemma_members_filter(d, Group::Conflict, n);
    lemma_members_filter(d, Group::NeedsYou, n);
    lemma_members_filter(d, Group::OneClick, n);
    lemma_filters_agree(
        d,
        |x: Drift| group_of(x.class) == Group::Conflict,
        |x: Drift| x.class == "conflict"@,
    );
    lemma_filters_agree(
        d,
        |x: Drift| group_of(x.class) == Group::NeedsYou,
        |x: Drift| x.class == "local_source_diverged"@ || x.class == "eval_failed"@,
    );
    lemma_filters_agree(
        d,
        |x: Drift| group_of(x.class) == Group::OneClick,
        |x: Drift|
            x.class != "conflict"@ && x.class != "local_source_diverged"@ && x.class
                != "eval_failed"@,
    );
}

/// The byte is in one of the ranges.
pub open spec fn covered(ranges: Seq<Range<usize>>, n: int, p: int) -> bool {
    exists|i: int| 0 <= i < n && (#[trigger] ranges[i]).start <= p < ranges[i].end
}

proof fn lemma_parts_cover(
    ranges: Seq<Range<usize>>,
    n: int,
    offset: int,
    line: Seq<char>,
    p: int,
)
    requires
        0 <= n <= ranges.len(),
        0 <= offset <= usize::MAX,
        0 <= p < encode_utf8(displayed(line)).len() <= usize::MAX,
    ensures
        ({
            let parts = parts_in_line(ranges, n, offset, line);
            covered(parts, parts.len() as int, p) <==> covered(ranges, n, offset + p)
        }),
    decreases n,
{
    let parts = parts_in_line(ranges, n, offset, line);
    if n > 0 {
        lemma_parts_cover(ranges, n - 1, offset, line, p);
        let front = parts_in_line(ranges, n - 1, offset, line);
        let r = ranges[n - 1];
        if covered(parts, parts.len() as int, p) {
            let i = choose|i: int|
                0 <= i < parts.len() && (#[trigger] parts[i]).start <= p < parts[i].end;
            if i < front.len() {
                assert(front[i] == parts[i]);
                assert(covered(front, front.len() as int, p));
                let j = choose|j: int|
                    0 <= j < n - 1 && (#[trigger] ranges[j]).start <= offset + p < ranges[j].end;
                assert(ranges[j].start <= offset + p < ranges[j].end);
            } else {
                assert(ranges[n - 1].start <= offset + p < ranges[n - 1].end);
            }
        }
        if covered(ranges, n, offset + p) {
            let j = choose|j: int|
                0 <= j < n && (#[trigger] ranges[j]).start <= offset + p < ranges[j].end;
            if j < n - 1 {
                assert(covered(ranges, n - 1, offset + p));
                let i = choose|i: int|
                    0 <= i < front.len() && (#[trigger] front[i]).start <= p < front[i].end;
                assert(parts[i] == front[i]);
            } else {
                let (start, end) = part_in_line(r, offset, line);
                assert(start <= p < end);
                assert(parts[front.len() as int].start <= p < parts[front.len() as int].end);
            }
        }
    }
}

/// A byte of a line is highlighted exactly where it is one of the changed bytes of the text.
pub proof fn law_highlights_mark_the_changed_bytes(
    lines: Seq<Seq<char>>,
    ranges: Seq<Range<usize>>,
    k: int,
    p: int,
)
    requires
        0 <= k < lines.len(),
        bytes_up_to(lines, lines.len() as int) <= usize::MAX,
        0 <= p < encode_utf8(displayed(lines[k])).len(),
    ensures
        ({
            let parts = cut_to_lines(lines, ranges)[k];
            covered(parts, parts.len() as int, p) <==> covered(
                ranges,
                ranges.len() as int,
                bytes_up_to(lines, k) + p,
            )
        }),
{
    lemma_displayed(lines[k]);
    lemma_bytes_up_to(lines, k, k + 1);
    lemma_bytes_up_to(lines, k + 1, lines.len() as int);
    lemma_parts_cover(ranges, ranges.len() as int, bytes_up_to(lines, k), lines[k], p);
}

/// The line of a preview says by its mark which text it is of.
pub open spec fn is_marked(s: Shown) -> bool {
    match s.tint {
        LineTint::Context => s.marker == " "@ && s.highlights.len() == 0,
        LineTint::Rendered => s.marker == "−"@,
        LineTint::Destination => s.marker == "+"@,
    }
}

/// Every line of a preview is marked: one of both texts with nothing, one that would be taken
/// away with a minus, and one that is on disk with a plus.
pub proof fn law_lines_are_marked(
    base: Seq<Seq<char>>,
    ours: Seq<Seq<char>>,
    regs: Seq<MergeRegion>,
)
    ensures
        forall|k: int|
            0 <= k < all_shown(base, ours, regs).len() ==> is_marked(
                #[trigger] all_shown(base, ours, regs)[k],
            ),
    decreases regs.len(),
{
    if regs.len() > 0 {
        let rest = regs.drop_first();
        law_lines_are_marked(base, ours, rest);
        let now = region_shown(base, ours, regs[0]);
        let later = all_shown(base, ours, rest);
        let all = all_shown(base, ours, regs);
        assert forall|k: int| 0 <= k < now.len() implies is_marked(#[trigger] now[k]) by {}
        assert forall|k: int| 0 <= k < all.len() implies is_marked(#[trigger] all[k]) by {
            if k < now.len() {
                assert(all[k] == now[k]);
            } else {
                assert(all[k] == later[k - now.len()]);
            }
        }
    }
}

/// The text is told behind what was done.
pub open spec fn tells(banner: Banner, words: Seq<char>) -> bool {
    words.is_suffix_of(banner.text)
}

proof fn lemma_tells(front: Seq<char>, words: Seq<char>)
    ensures
        words.is_suffix_of(front + words),
{
    let all = front + words;
    assert(all.subrange(all.len() - words.len(), all.len() as int) =~= words);
}

/// However something was resolved, what is told of it can be undone exactly where it was done; it
/// is red exactly where it failed, and then tells the error; what is noted is told, and without
/// a note nothing is amiss.
pub proof fn law_outcomes_are_told(
    action: ResolveAction,
    result: Result<ResolveOutcome, ResolveError>,
    banner: Banner,
)
    requires
        banner == told(action, result) || banner == kept_both(result) || banner
            == crate::views::merge::merge_told(result),
    ensures
        banner.undoable <==> is_done(result),
        banner.tint == BannerTint::Conflict <==> result is Err,
        result matches Err(e) ==> tells(banner, e.message_spec()),
        result matches Ok(ResolveOutcome::Done { note: Some(n), .. }) ==> banner.tint
            == BannerTint::Drift && tells(banner, n@),
        result matches Ok(ResolveOutcome::Done { note: None, committed, pushed, .. })
            ==> banner.tint == BannerTint::Fine && (committed && pushed ==> tells(
            banner,
            " · committed & pushed"@,
        )),
        result is Ok && !is_done(result) ==> banner.tint == BannerTint::Drift,
        banner != told(action, result) ==> (result matches Ok(
            ResolveOutcome::ProtectedSpan { detail },
        ) ==> tells(banner, detail@)),
{
    match result {
        Err(e) => {
            lemma_tells(action.label_words() + " failed: "@, e.message_spec());
            lemma_tells("Keep both failed: "@, e.message_spec());
            lemma_tells("save failed: "@, e.message_spec());
        },
        Ok(ResolveOutcome::Done { note: Some(n), .. }) => {
            lemma_tells(action.verb_words() + " · "@, n@);
            lemma_tells("Kept both (merged)"@ + " · "@, n@);
            lemma_tells("Merged"@ + " · "@, n@);
        },
        Ok(ResolveOutcome::Done { note: None, .. }) => {
            lemma_tells(action.verb_words(), " · committed & pushed"@);
            lemma_tells("Kept both (merged)"@, " · committed & pushed"@);
            lemma_tells("Merged"@, " · committed & pushed"@);
        },
        Ok(ResolveOutcome::ProtectedSpan { detail }) => {
            lemma_tells("This change touches a templated value · "@, detail@);
        },
        Ok(ResolveOutcome::NeedsMergeEditor) => {},
    }
}

/// What was resolved is no longer known to have drifted, and nothing else changes; what was not
/// resolved stays as it is.
pub proof fn law_resolved_targets_leave_the_list(
    m: State,
    result: Result<ResolveOutcome, ResolveError>,
    target: Seq<char>,
)
    ensures
        ({
            let after = noted_in(m, result, target);
            &&& is_done(result) ==> !is_known(after.drifted, target) && others_stay(
                m.drifted,
                after.drifted,
                target,
            )
            &&& !is_done(result) ==> after == m
            &&& after == (State { drifted: after.drifted, ..m })
        }),
{
    lemma_without(m.drifted, target);
}

/// The rows of targets.
pub open spec fn target_rows(rows: Seq<ListRow>) -> Seq<ListRow> {
    rows.filter(|r: ListRow| r is Target)
}

/// The rows of a list of targets.
pub open spec fn rows_for(group: Seq<Drift>, selected: Option<Seq<char>>, now: u64) -> Seq<ListRow> {
    group.map_values(|x: Drift| target_row(x, selected, now))
}

/// The sidebar has a row for each target, those that need a decision first.
pub proof fn law_the_sidebar_shows_every_target(
    d: Seq<Drift>,
    selected: Option<Seq<char>>,
    now: u64,
)
    requires
        d.len() > 0,
    ensures
        target_rows(sidebar_of(d, selected, now)) == rows_for(needing_you(d), selected, now)
            + rows_for(one_click(d), selected, now),
{
    let (a, b) = (needing_you(d), one_click(d));
    lemma_group_rows("NEEDS A DECISION"@, a, selected, now);
    lemma_group_rows("SAFE TO RESOLVE"@, b, selected, now);
    lemma_target_rows_join(
        group_rows("NEEDS A DECISION"@, a, selected, now),
        group_rows("SAFE TO RESOLVE"@, b, selected, now),
    );
}

proof fn lemma_target_rows_join(a: Seq<ListRow>, b: Seq<ListRow>)
    ensures
        target_rows(a + b) == target_rows(a) + target_rows(b),
{
    Seq::filter_distributes_over_add(a, b, |r: ListRow| r is Target);
}

proof fn lemma_group_rows(
    head: Seq<char>,
    group: Seq<Drift>,
    selected: Option<Seq<char>>,
    now: u64,
)
    ensures
        target_rows(group_rows(head, group, selected, now)) == rows_for(group, selected, now),
{
    let rows = rows_for(group, selected, now);
    lemma_all_pass(rows);
    if group.len() == 0 {
        assert(rows =~= seq![]);
    } else {
        lemma_heading(head);
        lemma_target_rows_join(seq![ListRow::Header { words: head }], rows);
        assert(Seq::<ListRow>::empty() + rows =~= rows);
    }
}

proof fn lemma_heading(head: Seq<char>)
    ensures
        target_rows(seq![ListRow::Header { words: head }]) == Seq::<ListRow>::empty(),
{
    reveal(Seq::filter);
    let heading = seq![ListRow::Header { words: head }];
    assert(heading.drop_last() =~= seq![]);
    assert(target_rows(heading.drop_last()) =~= seq![]);
    assert(!(heading.last() is Target));
}

proof fn lemma_all_pass(rows: Seq<ListRow>)
    requires
        forall|k: int| 0 <= k < rows.len() ==> #[trigger] rows[k] is Target,
    ensures
        target_rows(rows) == rows,
    decreases rows.len(),
{
    reveal(Seq::filter);
    if rows.len() > 0 {
        let front = rows.drop_last();
        assert forall|k: int| 0 <= k < front.len() implies #[trigger] front[k] is Target by {
            assert(rows[k] == front[k]);
        }
        lemma_all_pass(front);
        assert(rows[rows.len() - 1] is Target);
        assert(front.push(rows.last()) =~= rows);
    }
}

/// Merging is the way for the targets in conflict and for those whose branches have come apart,
/// and for no others.
pub proof fn law_merging_is_for_conflicts(d: Seq<Drift>, target: Seq<char>)
    requires
        unique(d),
    ensures
        wants_merge(d, target) <==> known_as(d, target, "conflict"@) || known_as(
            d,
            target,
            "local_source_diverged"@,
        ),
{
    lemma_place(d, target, 0);
    match place(d, target, 0) {
        Some(j) => {
            assert forall|k: int| 0 <= k < d.len() && k != j implies !same_path(
                (#[trigger] d[k]).target,
                target,
            ) by {
                if k < j {
                    assert(!same_path(d[k].target, d[j].target));
                } else {
                    assert(!same_path(d[j].target, d[k].target));
                }
            }
            assert(same_path(d[j].target, target));
        },
        None => {},
    }
}

} // verus!
