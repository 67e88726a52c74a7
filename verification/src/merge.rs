//! Structured three-way merging: a list of regions instead of conflict markers.

use std::collections::HashMap;
use std::ops::Range;
use vstd::prelude::*;
use vstd::string::*;
use vstd::utf8::*;

use crate::text::{chars_of, decimal, decimal_text, is_white, lemma_ascii_boundaries};
use crate::text::{lemma_encode_concat, lemma_encode_injective, lemma_scalar_bytes, string_of};
use crate::text::{strings, trim_end, trimmed_end};

pub mod worddiff;

verus! {

broadcast use vstd::std_specs::hash::group_hash_axioms;

// ---------------------------------------------------------------------------
// Lines

/// The length of the first line of `s`, its line feed included.
pub open spec fn line_len(s: Seq<char>) -> int
    decreases s.len(),
{
    if s.len() == 0 {
        0
    } else if s[0] == '\n' {
        1
    } else {
        1 + line_len(s.drop_first())
    }
}

/// The lines of a text. Each keeps its line feed; the last may have none.
pub open spec fn lines_of(s: Seq<char>) -> Seq<Seq<char>>
    decreases s.len(),
{
    if s.len() == 0 {
        seq![]
    } else {
        proof {
            lemma_line_len(s);
        }
        seq![s.take(line_len(s))] + lines_of(s.skip(line_len(s)))
    }
}

pub proof fn lemma_line_len(s: Seq<char>)
    ensures
        0 <= line_len(s) <= s.len(),
        s.len() > 0 ==> line_len(s) > 0,
    decreases s.len(),
{
    if s.len() > 0 && s[0] != '\n' {
        lemma_line_len(s.drop_first());
    }
}

/// The lines of a text, put end to end, are the text.
pub proof fn law_lines_rejoin(s: Seq<char>)
    ensures
        lines_of(s).flatten() == s,
    decreases s.len(),
{
    if s.len() > 0 {
        lemma_line_len(s);
        let n = line_len(s);
        law_lines_rejoin(s.skip(n));
        let all = lines_of(s);
        assert(all.drop_first() =~= lines_of(s.skip(n)));
        assert(all.flatten() == s.take(n) + s.skip(n));
        assert(s.take(n) + s.skip(n) =~= s);
    }
}

/// No line is empty.
pub proof fn lemma_lines_not_empty(s: Seq<char>, k: int)
    requires
        0 <= k < lines_of(s).len(),
    ensures
        lines_of(s)[k].len() > 0,
    decreases s.len(),
{
    lemma_line_len(s);
    if k > 0 {
        lemma_lines_not_empty(s.skip(line_len(s)), k - 1);
    }
}

proof fn lemma_line_len_found(p: Seq<char>, q: Seq<char>)
    requires
        p.len() > 0,
        p.last() == '\n',
        forall|i: int| 0 <= i < p.len() - 1 ==> p[i] != '\n',
    ensures
        line_len(p + q) == p.len(),
    decreases p.len(),
{
    if p.len() > 1 {
        assert((p + q).drop_first() =~= p.drop_first() + q);
        lemma_line_len_found(p.drop_first(), q);
    }
}

proof fn lemma_line_len_whole(s: Seq<char>)
    requires
        forall|i: int| 0 <= i < s.len() ==> s[i] != '\n',
    ensures
        line_len(s) == s.len(),
    decreases s.len(),
{
    if s.len() > 0 {
        lemma_line_len_whole(s.drop_first());
    }
}

/// A line feed in a text is a line-feed byte in its encoding.
proof fn lemma_no_feed(s: Seq<char>)
    requires
        forall|k: int| 0 <= k < encode_utf8(s).len() ==> encode_utf8(s)[k] != 0x0a,
    ensures
        forall|i: int| 0 <= i < s.len() ==> s[i] != '\n',
{
    assert forall|i: int| 0 <= i < s.len() implies s[i] != '\n' by {
        if s[i] == '\n' {
            let a = s.take(i);
            let r = s.skip(i);
            assert(a + r =~= s);
            lemma_encode_concat(a, r);
            let u = r[0] as u32;
            assert(u == 0x0a);
            lemma_scalar_bytes(u);
            assert(encode_utf8(r)[0] == 0x0a);
            assert(encode_utf8(s)[encode_utf8(a).len() as int] == 0x0a);
        }
    }
}

/// A text whose encoding ends in a line-feed byte ends in a line feed.
proof fn lemma_last_feed(s: Seq<char>)
    requires
        encode_utf8(s).len() > 0,
        encode_utf8(s).last() == 0x0a,
    ensures
        s.len() > 0,
        s.last() == '\n',
        encode_utf8(s.drop_last()) == encode_utf8(s).drop_last(),
{
    assert(s.len() > 0) by {
        if s.len() == 0 {
            assert(encode_utf8(s).len() == 0);
        }
    }
    reveal_with_fuel(encode_utf8, 2);
    let a = s.drop_last();
    let z = seq![s.last()];
    assert(a + z =~= s);
    lemma_encode_concat(a, z);
    let u = s.last() as u32;
    char_is_scalar(s.last());
    assert(z.drop_first() =~= seq![]);
    assert(encode_utf8(z) =~= encode_scalar(u));
    let e = encode_scalar(u);
    assert(e.last() == encode_utf8(s).last());
    lemma_scalar_bytes(u);
    if !has_width_1_encoding(u) {
        assert(e.last() == last_continuation_byte(u));
        assert(u % 64 < 64);
        assert(false);
    }
    assert(e.last() == leading_byte_width_1(u));
    assert(u == 0x0a);
    char_u32_cast(s.last(), u);
    char_u32_cast('\n', 0x0au32);
    assert(encode_utf8(s).drop_last() =~= encode_utf8(a));
}

/// Splits a text into its lines; each keeps its line feed.
pub fn split_lines(text: &str) -> (lines: Vec<&str>)
    ensures
        views(lines@) == lines_of(text@),
{
    let mut lines: Vec<&str> = Vec::new();
    let mut rest: &str = text;
    assert(views(lines@) + lines_of(rest@) =~= lines_of(text@));
    loop
        invariant
            views(lines@) + lines_of(rest@) == lines_of(text@),
        decreases rest@.len(),
    {
        let b = rest.as_bytes();
        let len: usize = b.len();
        if len == 0 {
            proof {
                if rest@.len() > 0 {
                    encode_utf8_first_scalar(rest@);
                }
                assert(views(lines@) + Seq::<Seq<char>>::empty() =~= views(lines@));
            }
            return lines;
        }
        let mut k: usize = 0;
        while k < len && b[k] != 0x0a
            invariant
                len == b@.len(),
                k <= len,
                forall|i: int| 0 <= i < k ==> b@[i] != 0x0a,
            decreases len - k,
        {
            k = k + 1;
        }
        proof {
            encode_utf8_valid_utf8(rest@);
            lemma_line_len(rest@);
        }
        let ghost had = lines@;
        if k == len {
            proof {
                lemma_no_feed(rest@);
                lemma_line_len_whole(rest@);
                assert(rest@.take(rest@.len() as int) =~= rest@);
                assert(rest@.skip(rest@.len() as int) =~= seq![]);
                reveal_with_fuel(lines_of, 2);
                assert(lines_of(rest@) =~= seq![rest@]);
            }
            lines.push(rest);
            assert(views(lines@) =~= views(had) + seq![rest@]);
            return lines;
        }
        proof {
            lemma_ascii_boundaries(b@, k as int);
        }
        let (line, tail) = rest.split_at(k + 1);
        proof {
            let whole = rest@;
            let p = line@;
            let q = tail@;
            assert(b@.subrange(0, k + 1) + b@.subrange(k + 1, len as int) =~= b@);
            lemma_encode_concat(p, q);
            lemma_encode_injective(p + q, whole);
            assert(encode_utf8(p).last() == b@[k as int]);
            lemma_last_feed(p);
            assert forall|i: int| 0 <= i < encode_utf8(p.drop_last()).len() implies encode_utf8(
                p.drop_last(),
            )[i] != 0x0a by {
                assert(encode_utf8(p.drop_last())[i] == b@[i]);
            }
            lemma_no_feed(p.drop_last());
            assert forall|i: int| 0 <= i < p.len() - 1 implies p[i] != '\n' by {
                assert(p.drop_last()[i] == p[i]);
            }
            lemma_line_len_found(p, q);
            assert(whole.take(p.len() as int) =~= p);
            assert(whole.skip(p.len() as int) =~= q);
        }
        lines.push(line);
        proof {
            assert(views(lines@) =~= views(had).push(line@));
            assert(views(had) + (seq![line@] + lines_of(tail@)) =~= views(lines@) + lines_of(
                tail@,
            ));
        }
        rest = tail;
    }
}

/// A line without its ending: a line feed, or a carriage return and a line feed.
pub open spec fn without_ending(line: Seq<char>) -> Seq<char> {
    if line.len() > 0 && line.last() == '\n' {
        let s = line.drop_last();
        if s.len() > 0 && s.last() == '\r' {
            s.drop_last()
        } else {
            s
        }
    } else {
        line
    }
}

/// The lines of a text without their endings.
pub open spec fn bare_lines(s: Seq<char>) -> Seq<Seq<char>> {
    lines_of(s).map_values(|line: Seq<char>| without_ending(line))
}

/// The lines of a text without their endings.
pub fn lines(text: &str) -> (r: Vec<String>)
    ensures
        texts(r@) == bare_lines(text@),
{
    let full = split_lines(text);
    let mut r: Vec<String> = Vec::new();
    let mut i: usize = 0;
    while i < full.len()
        invariant
            views(full@) == lines_of(text@),
            i <= full@.len(),
            r@.len() == i,
            forall|k: int| 0 <= k < i ==> (#[trigger] r@[k])@ == without_ending(full@[k]@),
        decreases full@.len() - i,
    {
        let v = chars_of(full[i]);
        let mut n: usize = v.len();
        if n > 0 && v[n - 1] == '\n' {
            n = n - 1;
            if n > 0 && v[n - 1] == '\r' {
                n = n - 1;
            }
        }
        let line = string_of(v.as_slice(), 0, n);
        assert(line@ =~= without_ending(full@[i as int]@));
        r.push(line);
        i = i + 1;
    }
    assert forall|k: int| 0 <= k < r@.len() implies texts(r@)[k] == bare_lines(text@)[k] by {
        assert(views(full@)[k] == full@[k]@);
    }
    assert(texts(r@) =~= bare_lines(text@));
    r
}

/// The texts of a list of string slices.
pub open spec fn views(v: Seq<&str>) -> Seq<Seq<char>> {
    v.map_values(|s: &str| s@)
}

/// The texts of a list of strings.
pub open spec fn texts(v: Seq<String>) -> Seq<Seq<char>> {
    strings(v)
}

// ---------------------------------------------------------------------------
// Differences

/// A list of tokens to compare.
pub struct SliceTokens<'a>(pub &'a [&'a str]);

/// A change: the tokens `before` of the one list stand for the tokens `after` of the other.
#[derive(Debug)]
pub struct Hunk {
    pub before: Range<u32>,
    pub after: Range<u32>,
}

/// How far the tokens behind the first `n` hunks are displaced.
pub open spec fn displaced(h: Seq<Hunk>, n: int) -> int {
    if n <= 0 {
        0
    } else {
        h[n - 1].after.end - h[n - 1].before.end
    }
}

/// Where the tokens behind the first `n` hunks start.
pub open spec fn kept_from(h: Seq<Hunk>, n: int) -> int {
    if n <= 0 {
        0
    } else {
        h[n - 1].before.end as int
    }
}

/// Where the tokens behind the first `n` hunks end.
pub open spec fn kept_to(len: int, h: Seq<Hunk>, n: int) -> int {
    if 0 <= n < h.len() {
        h[n].before.start as int
    } else {
        len
    }
}

/// The token `p` is kept, and stands behind the first `n` hunks and before the others.
pub open spec fn kept(len: int, h: Seq<Hunk>, n: int, p: int) -> bool {
    0 <= n <= h.len() && kept_from(h, n) <= p < kept_to(len, h, n)
}

/// A hunk that stands in both lists and changes something, `n` hunks before it.
pub open spec fn hunk_fits(a: int, b: int, h: Seq<Hunk>, n: int) -> bool {
    &&& h[n].before.start <= h[n].before.end <= a
    &&& h[n].after.start <= h[n].after.end <= b
    &&& h[n].before.start < h[n].before.end || h[n].after.start < h[n].after.end
    &&& h[n].after.start == h[n].before.start + displaced(h, n)
}

/// The hunks turn `a` into `b`: they stand in order and apart, and every token between them
/// is the same in both.
pub open spec fn edit_script(a: Seq<Seq<char>>, b: Seq<Seq<char>>, h: Seq<Hunk>) -> bool {
    &&& forall|n: int|
        0 <= n < h.len() ==> #[trigger] hunk_fits(a.len() as int, b.len() as int, h, n)
    &&& forall|m: int, n: int|
        #![trigger h[m], h[n]]
        0 <= m < n < h.len() ==> h[m].before.end < h[n].before.start && h[m].after.end
            < h[n].after.start
    &&& b.len() == a.len() + displaced(h, h.len() as int)
    &&& forall|n: int, p: int|
        #[trigger] kept(a.len() as int, h, n, p) ==> a[p] == b[p + displaced(h, n)]
}

/// The hunks that the histogram difference of two token lists has.
pub uninterp spec fn histogram_hunks(before: Seq<Seq<char>>, after: Seq<Seq<char>>) -> Seq<Hunk>;

/// `imara_diff::Diff::compute` with `Algorithm::Histogram`, and the hunks of its result. They
/// depend on the two lists alone; they are an edit script that turns the one into the other,
/// in increasing order and apart from each other; equal lists have none. The crate panics where
/// one list has `i32::MAX` tokens or more, and where it falls back to its other algorithm it
/// computes sums of a position in the one list and a position in the other in `i32`: so the
/// two lists together are kept below that.
#[verifier::external_body]
pub(crate) fn diff_tokens(before: SliceTokens, after: SliceTokens) -> (hunks: Vec<Hunk>)
    requires
        before.0@.len() + after.0@.len() < 0x7fff_ffff,
    ensures
        hunks@ == histogram_hunks(views(before.0@), views(after.0@)),
        edit_script(views(before.0@), views(after.0@), hunks@),
        views(before.0@) == views(after.0@) ==> hunks@.len() == 0,
{
    let mut input: imara_diff::InternedInput<&str> = imara_diff::InternedInput::default();
    input.update_before(before.0.iter().copied());
    input.update_after(after.0.iter().copied());
    let diff = imara_diff::Diff::compute(imara_diff::Algorithm::Histogram, &input);
    diff.hunks().map(|h| Hunk { before: h.before, after: h.after }).collect()
}

// ---------------------------------------------------------------------------
// Regions

#[derive(Debug, Clone, Copy)]
pub struct MergeOptions {
    /// Two lines that differ only in the white space at their end count as equal where both
    /// sides changed the same lines.
    pub ignore_trailing_whitespace: bool,
}

impl Default for MergeOptions {
    fn default() -> (r: Self)
        ensures
            !r.ignore_trailing_whitespace,
    {
        MergeOptions { ignore_trailing_whitespace: false }
    }
}

#[derive(Debug, Clone, Copy, PartialEq, Eq, Structural)]
pub enum RegionKind {
    Unchanged,
    OursOnly,
    TheirsOnly,
    BothSame,
    Conflict,
}

/// A stretch of lines: where it stands in the base and on each side.
#[derive(Debug)]
pub struct MergeRegion {
    pub kind: RegionKind,
    pub base: Range<usize>,
    pub ours: Range<usize>,
    pub theirs: Range<usize>,
}

/// The lines count as equal.
pub open spec fn same_line(a: Seq<char>, b: Seq<char>, ignore: bool) -> bool {
    if ignore {
        trim_end(a) == trim_end(b)
    } else {
        a == b
    }
}

pub open spec fn same_lines(a: Seq<Seq<char>>, b: Seq<Seq<char>>, ignore: bool) -> bool {
    &&& a.len() == b.len()
    &&& forall|i: int| 0 <= i < a.len() ==> same_line(#[trigger] a[i], b[i], ignore)
}

/// Where the next cluster of hunks starts: at the earlier of the two next hunks.
pub open spec fn cluster_start(ho: Seq<Hunk>, ht: Seq<Hunk>, i: int, j: int) -> int {
    if 0 <= i < ho.len() && (j >= ht.len() || ho[i].before.start <= ht[j].before.start) {
        ho[i].before.start as int
    } else {
        ht[j].before.start as int
    }
}

pub open spec fn max(a: int, b: int) -> int {
    if a < b {
        b
    } else {
        a
    }
}

/// A cluster that reaches up to `hi` takes in every next hunk, of either side, that starts at
/// or before its end, and grows with it. Gives the hunks behind it and where it ends.
pub open spec fn grow(ho: Seq<Hunk>, ht: Seq<Hunk>, i: int, j: int, hi: int) -> (int, int, int)
    decreases max(ho.len() - i, 0) + max(ht.len() - j, 0),
{
    if 0 <= i < ho.len() && ho[i].before.start <= hi {
        grow(ho, ht, i + 1, j, max(hi, ho[i].before.end as int))
    } else if 0 <= j < ht.len() && ht[j].before.start <= hi {
        grow(ho, ht, i, j + 1, max(hi, ht[j].before.end as int))
    } else {
        (i, j, hi)
    }
}

pub proof fn lemma_grow(ho: Seq<Hunk>, ht: Seq<Hunk>, i: int, j: int, hi: int)
    requires
        0 <= i <= ho.len(),
        0 <= j <= ht.len(),
    ensures
        ({
            let (i2, j2, hi2) = grow(ho, ht, i, j, hi);
            &&& i <= i2 <= ho.len()
            &&& j <= j2 <= ht.len()
            &&& hi <= hi2
            &&& (i < ho.len() && ho[i].before.start <= hi) ==> i < i2 || j < j2
            &&& (j < ht.len() && ht[j].before.start <= hi) ==> i < i2 || j < j2
            &&& i2 < ho.len() ==> hi2 < ho[i2].before.start
            &&& j2 < ht.len() ==> hi2 < ht[j2].before.start
        }),
    decreases ho.len() - i + ht.len() - j,
{
    if i < ho.len() && ho[i].before.start <= hi {
        lemma_grow(ho, ht, i + 1, j, max(hi, ho[i].before.end as int));
    } else if j < ht.len() && ht[j].before.start <= hi {
        lemma_grow(ho, ht, i, j + 1, max(hi, ht[j].before.end as int));
    }
}

pub open spec fn region(
    kind: RegionKind,
    base: (int, int),
    ours: (int, int),
    theirs: (int, int),
) -> MergeRegion {
    MergeRegion {
        kind,
        base: Range { start: base.0 as usize, end: base.1 as usize },
        ours: Range { start: ours.0 as usize, end: ours.1 as usize },
        theirs: Range { start: theirs.0 as usize, end: theirs.1 as usize },
    }
}

/// The kind of a cluster: who has hunks in it, and where both have, whether they made the
/// same change.
pub open spec fn cluster_kind(
    ours_changed: bool,
    theirs_changed: bool,
    ours: Seq<Seq<char>>,
    theirs: Seq<Seq<char>>,
    ignore: bool,
) -> RegionKind {
    if ours_changed && theirs_changed {
        if same_lines(ours, theirs, ignore) {
            RegionKind::BothSame
        } else {
            RegionKind::Conflict
        }
    } else if ours_changed {
        RegionKind::OursOnly
    } else if theirs_changed {
        RegionKind::TheirsOnly
    } else {
        RegionKind::Unchanged
    }
}

/// The two sides of a merge: their lines and what changed on them.
pub struct Sides {
    pub base_len: int,
    pub ours: Seq<Seq<char>>,
    pub theirs: Seq<Seq<char>>,
    pub ours_hunks: Seq<Hunk>,
    pub theirs_hunks: Seq<Hunk>,
    pub ignore: bool,
}

/// The cluster of hunks at `i` and `j`, as a region.
pub open spec fn cluster_region(s: Sides, i: int, j: int) -> MergeRegion {
    let (ho, ht) = (s.ours_hunks, s.theirs_hunks);
    let lo = cluster_start(ho, ht, i, j);
    let (i2, j2, hi) = grow(ho, ht, i, j, lo);
    let ours = (lo + displaced(ho, i), hi + displaced(ho, i2));
    let theirs = (lo + displaced(ht, j), hi + displaced(ht, j2));
    region(
        cluster_kind(
            i < i2,
            j < j2,
            s.ours.subrange(ours.0, ours.1),
            s.theirs.subrange(theirs.0, theirs.1),
            s.ignore,
        ),
        (lo, hi),
        ours,
        theirs,
    )
}

/// The kept lines `from..to` of the base, `i` and `j` hunks lying before them.
pub open spec fn kept_region(s: Sides, i: int, j: int, from: int, to: int) -> MergeRegion {
    let (ho, ht) = (s.ours_hunks, s.theirs_hunks);
    region(
        RegionKind::Unchanged,
        (from, to),
        (from + displaced(ho, i), to + displaced(ho, i)),
        (from + displaced(ht, j), to + displaced(ht, j)),
    )
}

/// The regions from base line `cursor` on, the hunks before `i` and `j` being done. Kept
/// lines and clusters alternate; a text without changes is one region, even when empty.
pub open spec fn regions_from(s: Sides, i: int, j: int, cursor: int, first: bool) -> Seq<
    MergeRegion,
>
    decreases max(s.ours_hunks.len() - i, 0) + max(s.theirs_hunks.len() - j, 0),
{
    let (ho, ht) = (s.ours_hunks, s.theirs_hunks);
    if i < 0 || j < 0 || i > ho.len() || j > ht.len() || (i == ho.len() && j == ht.len()) {
        if cursor < s.base_len || first {
            seq![
                region(
                    RegionKind::Unchanged,
                    (cursor, s.base_len),
                    (cursor + displaced(ho, ho.len() as int), s.ours.len() as int),
                    (cursor + displaced(ht, ht.len() as int), s.theirs.len() as int),
                ),
            ]
        } else {
            seq![]
        }
    } else {
        let lo = cluster_start(ho, ht, i, j);
        let (i2, j2, hi) = grow(ho, ht, i, j, lo);
        proof {
            lemma_grow(ho, ht, i, j, lo);
        }
        let head = if cursor < lo {
            seq![kept_region(s, i, j, cursor, lo)]
        } else {
            seq![]
        };
        head.push(cluster_region(s, i, j)) + regions_from(s, i2, j2, hi, false)
    }
}

/// The regions of a merge.
pub open spec fn regions_of(s: Sides) -> Seq<MergeRegion> {
    regions_from(s, 0, 0, 0, true)
}

/// The hunks of both sides are edit scripts of the base.
pub open spec fn sides_fit(base: Seq<Seq<char>>, s: Sides) -> bool {
    &&& s.base_len == base.len()
    &&& edit_script(base, s.ours, s.ours_hunks)
    &&& edit_script(base, s.theirs, s.theirs_hunks)
}

/// Between two calls for a region: all hunks before `i` and `j` end by `cursor`, all others
/// start at it or later, and later unless no hunk is done.
pub open spec fn between_clusters(s: Sides, i: int, j: int, cursor: int) -> bool {
    let (ho, ht) = (s.ours_hunks, s.theirs_hunks);
    &&& 0 <= i <= ho.len()
    &&& 0 <= j <= ht.len()
    &&& kept_from(ho, i) <= cursor <= kept_to(s.base_len, ho, i)
    &&& kept_from(ht, j) <= cursor <= kept_to(s.base_len, ht, j)
    &&& 0 <= cursor <= s.base_len
}

/// A cluster keeps inside the base, and leaves the hunks behind it apart from it.
proof fn lemma_cluster(base: Seq<Seq<char>>, s: Sides, i: int, j: int, cursor: int)
    requires
        sides_fit(base, s),
        between_clusters(s, i, j, cursor),
        i < s.ours_hunks.len() || j < s.theirs_hunks.len(),
    ensures
        ({
            let lo = cluster_start(s.ours_hunks, s.theirs_hunks, i, j);
            let (i2, j2, hi) = grow(s.ours_hunks, s.theirs_hunks, i, j, lo);
            &&& cursor <= lo <= hi <= s.base_len
            &&& between_clusters(s, i2, j2, hi)
            &&& i <= i2 && j <= j2 && (i < i2 || j < j2)
            &&& lo <= kept_to(s.base_len, s.ours_hunks, i)
            &&& lo <= kept_to(s.base_len, s.theirs_hunks, j)
            &&& 0 <= lo + displaced(s.ours_hunks, i) <= hi + displaced(s.ours_hunks, i2)
                <= s.ours.len()
            &&& 0 <= lo + displaced(s.theirs_hunks, j) <= hi + displaced(s.theirs_hunks, j2)
                <= s.theirs.len()
            &&& 0 <= cursor + displaced(s.ours_hunks, i)
            &&& 0 <= cursor + displaced(s.theirs_hunks, j)
        }),
{
    let (ho, ht) = (s.ours_hunks, s.theirs_hunks);
    let lo = cluster_start(ho, ht, i, j);
    let (i2, j2, hi) = grow(ho, ht, i, j, lo);
    lemma_grow(ho, ht, i, j, lo);
    if i < ho.len() {
        assert(hunk_fits(base.len() as int, s.ours.len() as int, ho, i));
    }
    if j < ht.len() {
        assert(hunk_fits(base.len() as int, s.theirs.len() as int, ht, j));
    }
    lemma_grow_reach(base, s, i, j, lo);
    lemma_side_position(base, s.ours, ho, i, cursor);
    lemma_side_position(base, s.theirs, ht, j, cursor);
    lemma_side_position(base, s.ours, ho, i, lo);
    lemma_side_position(base, s.theirs, ht, j, lo);
    lemma_side_position(base, s.ours, ho, i2, hi);
    lemma_side_position(base, s.theirs, ht, j2, hi);
    lemma_side_monotone(base, s.ours, ho, i, i2, lo, hi);
    lemma_side_monotone(base, s.theirs, ht, j, j2, lo, hi);
}

/// A position between hunks has a position on the side.
proof fn lemma_side_position(
    base: Seq<Seq<char>>,
    side: Seq<Seq<char>>,
    h: Seq<Hunk>,
    n: int,
    p: int,
)
    requires
        edit_script(base, side, h),
        0 <= n <= h.len(),
        kept_from(h, n) <= p <= kept_to(base.len() as int, h, n),
    ensures
        0 <= p + displaced(h, n) <= side.len(),
{
    if n > 0 {
        assert(hunk_fits(base.len() as int, side.len() as int, h, n - 1));
    }
    if n < h.len() {
        assert(hunk_fits(base.len() as int, side.len() as int, h, n));
    }
}

/// Later positions of the base are later positions on the side.
proof fn lemma_side_monotone(
    base: Seq<Seq<char>>,
    side: Seq<Seq<char>>,
    h: Seq<Hunk>,
    m: int,
    n: int,
    p: int,
    q: int,
)
    requires
        edit_script(base, side, h),
        0 <= m <= n <= h.len(),
        kept_from(h, m) <= p <= kept_to(base.len() as int, h, m),
        kept_from(h, n) <= q <= kept_to(base.len() as int, h, n),
        p <= q,
    ensures
        p + displaced(h, m) <= q + displaced(h, n),
{
    if m < n {
        assert(hunk_fits(base.len() as int, side.len() as int, h, m));
        assert(hunk_fits(base.len() as int, side.len() as int, h, n - 1));
        if m < n - 1 {
            assert(h[m].after.end < h[n - 1].after.start);
        }
    }
}

proof fn lemma_grow_reach(base: Seq<Seq<char>>, s: Sides, i: int, j: int, hi: int)
    requires
        sides_fit(base, s),
        0 <= i <= s.ours_hunks.len(),
        0 <= j <= s.theirs_hunks.len(),
        kept_from(s.ours_hunks, i) <= hi,
        kept_from(s.theirs_hunks, j) <= hi,
        0 <= hi <= s.base_len,
    ensures
        ({
            let (i2, j2, hi2) = grow(s.ours_hunks, s.theirs_hunks, i, j, hi);
            &&& kept_from(s.ours_hunks, i2) <= hi2
            &&& kept_from(s.theirs_hunks, j2) <= hi2
            &&& hi2 <= s.base_len
        }),
    decreases s.ours_hunks.len() - i + s.theirs_hunks.len() - j,
{
    let (ho, ht) = (s.ours_hunks, s.theirs_hunks);
    if i < ho.len() && ho[i].before.start <= hi {
        assert(hunk_fits(base.len() as int, s.ours.len() as int, ho, i));
        lemma_grow_reach(base, s, i + 1, j, max(hi, ho[i].before.end as int));
    } else if j < ht.len() && ht[j].before.start <= hi {
        assert(hunk_fits(base.len() as int, s.theirs.len() as int, ht, j));
        lemma_grow_reach(base, s, i, j + 1, max(hi, ht[j].before.end as int));
    }
}

// ---------------------------------------------------------------------------
// Computing the regions

/// The position on the side of base line `pos`, which stands behind the first `n` hunks.
fn map_pos(h: &Vec<Hunk>, n: usize, pos: u32) -> (r: usize)
    requires
        n <= h@.len(),
        kept_from(h@, n as int) <= pos,
        0 <= pos + displaced(h@, n as int) <= u32::MAX,
    ensures
        r == pos + displaced(h@, n as int),
{
    if n == 0 {
        pos as usize
    } else {
        ((pos - h[n - 1].before.end) + h[n - 1].after.end) as usize
    }
}

fn eq_line(a: &String, b: &String, opts: MergeOptions) -> (r: bool)
    ensures
        r == same_line(a@, b@, opts.ignore_trailing_whitespace),
{
    if opts.ignore_trailing_whitespace {
        let x = chars_of(a.as_str());
        let y = chars_of(b.as_str());
        let m: usize = trimmed_end(x.as_slice());
        let n: usize = trimmed_end(y.as_slice());
        if m != n {
            assert(trim_end(a@).len() != trim_end(b@).len());
            return false;
        }
        let mut i: usize = 0;
        while i < m
            invariant
                i <= m,
                m <= x@.len(),
                m <= y@.len(),
                x@ == a@,
                y@ == b@,
                x@.take(m as int) == trim_end(a@),
                y@.take(m as int) == trim_end(b@),
                opts.ignore_trailing_whitespace,
                forall|k: int| 0 <= k < i ==> x@[k] == y@[k],
            decreases m - i,
        {
            if x[i] != y[i] {
                assert(x@.take(m as int)[i as int] != y@.take(m as int)[i as int]);
                return false;
            }
            i = i + 1;
        }
        assert(x@.take(m as int) =~= y@.take(m as int));
        true
    } else {
        *a == *b
    }
}

/// Whether the lines `a[a0..a1]` and `b[b0..b1]` count as equal.
fn eq_lines(
    a: &Vec<String>,
    a0: usize,
    a1: usize,
    b: &Vec<String>,
    b0: usize,
    b1: usize,
    opts: MergeOptions,
) -> (r: bool)
    requires
        a0 <= a1 <= a@.len(),
        b0 <= b1 <= b@.len(),
    ensures
        r == same_lines(
            texts(a@).subrange(a0 as int, a1 as int),
            texts(b@).subrange(b0 as int, b1 as int),
            opts.ignore_trailing_whitespace,
        ),
{
    let ghost x = texts(a@).subrange(a0 as int, a1 as int);
    let ghost y = texts(b@).subrange(b0 as int, b1 as int);
    let ghost ignore = opts.ignore_trailing_whitespace;
    if a1 - a0 != b1 - b0 {
        return false;
    }
    let mut i: usize = 0;
    while i < a1 - a0
        invariant
            a0 <= a1 <= a@.len(),
            b0 <= b1 <= b@.len(),
            a1 - a0 == b1 - b0,
            x == texts(a@).subrange(a0 as int, a1 as int),
            y == texts(b@).subrange(b0 as int, b1 as int),
            ignore == opts.ignore_trailing_whitespace,
            i <= a1 - a0,
            forall|k: int| 0 <= k < i ==> same_line(#[trigger] x[k], y[k], ignore),
        decreases a1 - a0 - i,
    {
        assert(x[i as int] == a@[a0 + i]@);
        assert(y[i as int] == b@[b0 + i]@);
        if !eq_line(&a[a0 + i], &b[b0 + i], opts) {
            return false;
        }
        i = i + 1;
    }
    true
}

/// What `merge_regions` works on, as the model has it.
pub open spec fn sides_of(
    base: Seq<String>,
    ours: Seq<String>,
    theirs: Seq<String>,
    ours_hunks: Seq<Hunk>,
    theirs_hunks: Seq<Hunk>,
    opts: MergeOptions,
) -> Sides {
    Sides {
        base_len: base.len() as int,
        ours: texts(ours),
        theirs: texts(theirs),
        ours_hunks,
        theirs_hunks,
        ignore: opts.ignore_trailing_whitespace,
    }
}

/// The hunks behind the cluster that starts at `lo`, and where it ends.
fn grow_cluster(ho: &Vec<Hunk>, ht: &Vec<Hunk>, i: usize, j: usize, lo: u32) -> (r: (
    usize,
    usize,
    u32,
))
    requires
        i <= ho@.len(),
        j <= ht@.len(),
    ensures
        (r.0 as int, r.1 as int, r.2 as int) == grow(ho@, ht@, i as int, j as int, lo as int),
{
    let mut m: usize = i;
    let mut n: usize = j;
    let mut hi: u32 = lo;
    loop
        invariant
            m <= ho@.len(),
            n <= ht@.len(),
            grow(ho@, ht@, m as int, n as int, hi as int) == grow(
                ho@,
                ht@,
                i as int,
                j as int,
                lo as int,
            ),
        decreases ho@.len() - m + ht@.len() - n,
    {
        if m < ho.len() && ho[m].before.start <= hi {
            if ho[m].before.end > hi {
                hi = ho[m].before.end;
            }
            m = m + 1;
        } else if n < ht.len() && ht[n].before.start <= hi {
            if ht[n].before.end > hi {
                hi = ht[n].before.end;
            }
            n = n + 1;
        } else {
            return (m, n, hi);
        }
    }
}

/// Appends the kept lines from `cursor` on and the cluster behind them; gives the hunks behind
/// that cluster and where it ends.
fn push_cluster(
    base: &Vec<String>,
    ours: &Vec<String>,
    theirs: &Vec<String>,
    ho: &Vec<Hunk>,
    ht: &Vec<Hunk>,
    opts: MergeOptions,
    i: usize,
    j: usize,
    cursor: u32,
    regions: &mut Vec<MergeRegion>,
) -> (r: (usize, usize, u32))
    requires
        sides_fit(texts(base@), sides_of(base@, ours@, theirs@, ho@, ht@, opts)),
        ours@.len() <= u32::MAX,
        theirs@.len() <= u32::MAX,
        between_clusters(
            sides_of(base@, ours@, theirs@, ho@, ht@, opts),
            i as int,
            j as int,
            cursor as int,
        ),
        i < ho@.len() || j < ht@.len(),
    ensures
        ({
            let s = sides_of(base@, ours@, theirs@, ho@, ht@, opts);
            let lo = cluster_start(ho@, ht@, i as int, j as int);
            let head = if cursor < lo {
                seq![kept_region(s, i as int, j as int, cursor as int, lo)]
            } else {
                seq![]
            };
            &&& (r.0 as int, r.1 as int, r.2 as int) == grow(ho@, ht@, i as int, j as int, lo)
            &&& final(regions)@ == old(regions)@ + head.push(
                cluster_region(s, i as int, j as int),
            )
            &&& between_clusters(s, r.0 as int, r.1 as int, r.2 as int)
            &&& i <= r.0 && j <= r.1 && (i < r.0 || j < r.1)
        }),
{
    let ghost s = sides_of(base@, ours@, theirs@, ho@, ht@, opts);
    proof {
        lemma_cluster(texts(base@), s, i as int, j as int, cursor as int);
    }
    let take_ours = i < ho.len() && (j >= ht.len() || ho[i].before.start <= ht[j].before.start);
    let lo: u32 = if take_ours {
        ho[i].before.start
    } else {
        ht[j].before.start
    };
    let ours_from: usize = map_pos(ho, i, lo);
    let theirs_from: usize = map_pos(ht, j, lo);
    let ghost had = regions@;
    if cursor < lo {
        regions.push(
            MergeRegion {
                kind: RegionKind::Unchanged,
                base: cursor as usize..lo as usize,
                ours: map_pos(ho, i, cursor)..ours_from,
                theirs: map_pos(ht, j, cursor)..theirs_from,
            },
        );
    }
    let ghost head = regions@.skip(had.len() as int);
    let (m, n, hi) = grow_cluster(ho, ht, i, j, lo);
    let ours_to: usize = map_pos(ho, m, hi);
    let theirs_to: usize = map_pos(ht, n, hi);
    let kind = if i < m && j < n {
        if eq_lines(ours, ours_from, ours_to, theirs, theirs_from, theirs_to, opts) {
            RegionKind::BothSame
        } else {
            RegionKind::Conflict
        }
    } else if i < m {
        RegionKind::OursOnly
    } else {
        RegionKind::TheirsOnly
    };
    regions.push(
        MergeRegion {
            kind,
            base: lo as usize..hi as usize,
            ours: ours_from..ours_to,
            theirs: theirs_from..theirs_to,
        },
    );
    proof {
        let reg = cluster_region(s, i as int, j as int);
        assert(regions@.last() == reg);
        assert(regions@ =~= had + head.push(reg));
        if cursor < lo {
            assert(head =~= seq![kept_region(s, i as int, j as int, cursor as int, lo as int)]);
        } else {
            assert(head =~= seq![]);
        }
    }
    (m, n, hi)
}

/// The regions of a merge whose differences to the base are known.
pub fn merge_regions(
    base: &Vec<String>,
    ours: &Vec<String>,
    theirs: &Vec<String>,
    ours_hunks: &Vec<Hunk>,
    theirs_hunks: &Vec<Hunk>,
    opts: MergeOptions,
) -> (regions: Vec<MergeRegion>)
    requires
        edit_script(texts(base@), texts(ours@), ours_hunks@),
        edit_script(texts(base@), texts(theirs@), theirs_hunks@),
        base@.len() <= u32::MAX,
        ours@.len() <= u32::MAX,
        theirs@.len() <= u32::MAX,
    ensures
        regions@ == regions_of(
            sides_of(base@, ours@, theirs@, ours_hunks@, theirs_hunks@, opts),
        ),
{
    let ghost s = sides_of(base@, ours@, theirs@, ours_hunks@, theirs_hunks@, opts);
    let mut regions: Vec<MergeRegion> = Vec::new();
    let mut i: usize = 0;
    let mut j: usize = 0;
    let mut cursor: u32 = 0;
    proof {
        assert(regions@ + regions_of(s) =~= regions_of(s));
        if ours_hunks@.len() > 0 {
            assert(hunk_fits(base@.len() as int, ours@.len() as int, ours_hunks@, 0));
        }
        if theirs_hunks@.len() > 0 {
            assert(hunk_fits(base@.len() as int, theirs@.len() as int, theirs_hunks@, 0));
        }
    }
    while i < ours_hunks.len() || j < theirs_hunks.len()
        invariant
            s == sides_of(base@, ours@, theirs@, ours_hunks@, theirs_hunks@, opts),
            sides_fit(texts(base@), s),
            ours@.len() <= u32::MAX,
            theirs@.len() <= u32::MAX,
            between_clusters(s, i as int, j as int, cursor as int),
            regions@.len() == 0 <==> (i == 0 && j == 0),
            regions@ + regions_from(s, i as int, j as int, cursor as int, regions@.len() == 0)
                == regions_of(s),
        decreases ours_hunks@.len() - i + theirs_hunks@.len() - j,
    {
        let ghost (i0, j0, c0) = (i as int, j as int, cursor as int);
        let ghost had = regions@;
        let (m, n, hi) = push_cluster(
            base,
            ours,
            theirs,
            ours_hunks,
            theirs_hunks,
            opts,
            i,
            j,
            cursor,
            &mut regions,
        );
        i = m;
        j = n;
        cursor = hi;
        proof {
            let rest = regions_from(s, m as int, n as int, hi as int, false);
            let lo = cluster_start(s.ours_hunks, s.theirs_hunks, i0, j0);
            let head = if c0 < lo {
                seq![kept_region(s, i0, j0, c0, lo)]
            } else {
                seq![]
            };
            let reg = cluster_region(s, i0, j0);
            assert(regions_from(s, i0, j0, c0, had.len() == 0) == head.push(reg) + rest);
            assert(had + (head.push(reg) + rest) =~= regions@ + rest);
        }
    }
    let ghost had = regions@;
    if (cursor as usize) < base.len() || regions.len() == 0 {
        proof {
            lemma_side_position(texts(base@), s.ours, s.ours_hunks, i as int, cursor as int);
            lemma_side_position(texts(base@), s.theirs, s.theirs_hunks, j as int, cursor as int);
        }
        regions.push(
            MergeRegion {
                kind: RegionKind::Unchanged,
                base: cursor as usize..base.len(),
                ours: map_pos(ours_hunks, i, cursor)..ours.len(),
                theirs: map_pos(theirs_hunks, j, cursor)..theirs.len(),
            },
        );
        assert(regions@ =~= had + seq![regions@.last()]);
    } else {
        assert(regions@ =~= had + seq![]);
    }
    regions
}

// ---------------------------------------------------------------------------
// Laws of the regions

/// The regions cover the lines of all three texts, from the given lines to the ends, without
/// gap or overlap.
pub open spec fn regions_tile(
    regs: Seq<MergeRegion>,
    at: (int, int, int),
    ends: (int, int, int),
) -> bool
    decreases regs.len(),
{
    if regs.len() == 0 {
        at == ends
    } else {
        let r = regs[0];
        &&& r.base.start == at.0 && r.base.start <= r.base.end
        &&& r.ours.start == at.1 && r.ours.start <= r.ours.end
        &&& r.theirs.start == at.2 && r.theirs.start <= r.theirs.end
        &&& regions_tile(
            regs.drop_first(),
            (r.base.end as int, r.ours.end as int, r.theirs.end as int),
            ends,
        )
    }
}

/// The lines of `v` in the range.
pub open spec fn cut(v: Seq<Seq<char>>, r: Range<usize>) -> Seq<Seq<char>> {
    v.subrange(r.start as int, r.end as int)
}

pub open spec fn in_bounds(r: Range<usize>, len: int) -> bool {
    r.start <= r.end <= len
}

/// What the kind of a region says of its lines holds.
pub open spec fn truthful(
    base: Seq<Seq<char>>,
    ours: Seq<Seq<char>>,
    theirs: Seq<Seq<char>>,
    ignore: bool,
    r: MergeRegion,
) -> bool {
    &&& in_bounds(r.base, base.len() as int)
    &&& in_bounds(r.ours, ours.len() as int)
    &&& in_bounds(r.theirs, theirs.len() as int)
    &&& match r.kind {
        RegionKind::Unchanged => cut(ours, r.ours) == cut(base, r.base) && cut(theirs, r.theirs)
            == cut(base, r.base),
        RegionKind::OursOnly => cut(theirs, r.theirs) == cut(base, r.base),
        RegionKind::TheirsOnly => cut(ours, r.ours) == cut(base, r.base),
        RegionKind::BothSame => same_lines(cut(ours, r.ours), cut(theirs, r.theirs), ignore),
        RegionKind::Conflict => !same_lines(cut(ours, r.ours), cut(theirs, r.theirs), ignore),
    }
}

pub open spec fn all_truthful(
    base: Seq<Seq<char>>,
    ours: Seq<Seq<char>>,
    theirs: Seq<Seq<char>>,
    ignore: bool,
    regs: Seq<MergeRegion>,
) -> bool {
    forall|k: int|
        0 <= k < regs.len() ==> truthful(base, ours, theirs, ignore, #[trigger] regs[k])
}

/// Kept lines are the same on the side.
proof fn lemma_kept_lines(
    base: Seq<Seq<char>>,
    side: Seq<Seq<char>>,
    h: Seq<Hunk>,
    n: int,
    from: int,
    to: int,
)
    requires
        edit_script(base, side, h),
        0 <= n <= h.len(),
        kept_from(h, n) <= from <= to <= kept_to(base.len() as int, h, n),
    ensures
        0 <= from + displaced(h, n),
        to + displaced(h, n) <= side.len(),
        side.subrange(from + displaced(h, n), to + displaced(h, n)) == base.subrange(from, to),
{
    lemma_side_position(base, side, h, n, from);
    lemma_side_position(base, side, h, n, to);
    let d = displaced(h, n);
    if n < h.len() {
        assert(hunk_fits(base.len() as int, side.len() as int, h, n));
    }
    if n > 0 {
        assert(hunk_fits(base.len() as int, side.len() as int, h, n - 1));
    }
    assert forall|k: int| 0 <= k < to - from implies side.subrange(from + d, to + d)[k]
        == base.subrange(from, to)[k] by {
        assert(kept(base.len() as int, h, n, from + k));
    }
    assert(side.subrange(from + d, to + d) =~= base.subrange(from, to));
}

/// One step: the cluster at `i` and `j`, and the kept lines before it, tell the truth.
proof fn lemma_step(base: Seq<Seq<char>>, s: Sides, i: int, j: int, cursor: int)
    requires
        sides_fit(base, s),
        between_clusters(s, i, j, cursor),
        i < s.ours_hunks.len() || j < s.theirs_hunks.len(),
        base.len() <= usize::MAX,
        s.ours.len() <= usize::MAX,
        s.theirs.len() <= usize::MAX,
    ensures
        ({
            let (ho, ht) = (s.ours_hunks, s.theirs_hunks);
            let lo = cluster_start(ho, ht, i, j);
            let (i2, j2, hi) = grow(ho, ht, i, j, lo);
            let reg = cluster_region(s, i, j);
            let head = kept_region(s, i, j, cursor, lo);
            &&& truthful(base, s.ours, s.theirs, s.ignore, reg)
            &&& reg.base.start == lo && reg.base.end == hi
            &&& reg.ours.start == lo + displaced(ho, i) && reg.ours.end == hi + displaced(ho, i2)
            &&& reg.theirs.start == lo + displaced(ht, j) && reg.theirs.end == hi + displaced(
                ht,
                j2,
            )
            &&& ht.len() == 0 ==> reg.kind == RegionKind::OursOnly
            &&& ho.len() == 0 ==> reg.kind == RegionKind::TheirsOnly
            &&& cursor < lo ==> {
                &&& truthful(base, s.ours, s.theirs, s.ignore, head)
                &&& head.kind == RegionKind::Unchanged
                &&& head.base.start == cursor && head.base.end == lo
                &&& head.ours.start == cursor + displaced(ho, i) && head.ours.end == lo
                    + displaced(ho, i)
                &&& head.theirs.start == cursor + displaced(ht, j) && head.theirs.end == lo
                    + displaced(ht, j)
            }
        }),
{
    let (ho, ht) = (s.ours_hunks, s.theirs_hunks);
    lemma_cluster(base, s, i, j, cursor);
    let lo = cluster_start(ho, ht, i, j);
    let (i2, j2, hi) = grow(ho, ht, i, j, lo);
    if j2 == j {
        lemma_kept_lines(base, s.theirs, ht, j, lo, hi);
    }
    if i2 == i {
        lemma_kept_lines(base, s.ours, ho, i, lo, hi);
    }
    if cursor < lo {
        lemma_kept_lines(base, s.ours, ho, i, cursor, lo);
        lemma_kept_lines(base, s.theirs, ht, j, cursor, lo);
    }
}

/// The kinds that a merge may have where one of its sides has no changes.
pub open spec fn one_sided(s: Sides, regs: Seq<MergeRegion>) -> bool {
    &&& s.theirs_hunks.len() == 0 ==> forall|k: int|
        0 <= k < regs.len() ==> (#[trigger] regs[k]).kind == RegionKind::Unchanged || regs[k].kind
            == RegionKind::OursOnly
    &&& s.ours_hunks.len() == 0 ==> forall|k: int|
        0 <= k < regs.len() ==> (#[trigger] regs[k]).kind == RegionKind::Unchanged || regs[k].kind
            == RegionKind::TheirsOnly
}

proof fn lemma_last_region(base: Seq<Seq<char>>, s: Sides, cursor: int)
    requires
        sides_fit(base, s),
        between_clusters(s, s.ours_hunks.len() as int, s.theirs_hunks.len() as int, cursor),
        base.len() <= usize::MAX,
        s.ours.len() <= usize::MAX,
        s.theirs.len() <= usize::MAX,
    ensures
        ({
            let (ho, ht) = (s.ours_hunks, s.theirs_hunks);
            let r = region(
                RegionKind::Unchanged,
                (cursor, s.base_len),
                (cursor + displaced(ho, ho.len() as int), s.ours.len() as int),
                (cursor + displaced(ht, ht.len() as int), s.theirs.len() as int),
            );
            &&& truthful(base, s.ours, s.theirs, s.ignore, r)
            &&& r.base.start == cursor && r.base.end == base.len()
            &&& r.ours.start == cursor + displaced(ho, ho.len() as int) && r.ours.end
                == s.ours.len()
            &&& r.theirs.start == cursor + displaced(ht, ht.len() as int) && r.theirs.end
                == s.theirs.len()
        }),
{
    let (ho, ht) = (s.ours_hunks, s.theirs_hunks);
    lemma_kept_lines(base, s.ours, ho, ho.len() as int, cursor, s.base_len);
    lemma_kept_lines(base, s.theirs, ht, ht.len() as int, cursor, s.base_len);
}

#[verifier::spinoff_prover]
#[verifier::rlimit(30)]
proof fn lemma_regions_law(base: Seq<Seq<char>>, s: Sides, i: int, j: int, cursor: int, first: bool)
    requires
        sides_fit(base, s),
        between_clusters(s, i, j, cursor),
        base.len() <= usize::MAX,
        s.ours.len() <= usize::MAX,
        s.theirs.len() <= usize::MAX,
    ensures
        regions_tile(
            regions_from(s, i, j, cursor, first),
            (cursor, cursor + displaced(s.ours_hunks, i), cursor + displaced(s.theirs_hunks, j)),
            (base.len() as int, s.ours.len() as int, s.theirs.len() as int),
        ),
        all_truthful(base, s.ours, s.theirs, s.ignore, regions_from(s, i, j, cursor, first)),
        one_sided(s, regions_from(s, i, j, cursor, first)),
    decreases s.ours_hunks.len() - i + s.theirs_hunks.len() - j,
{
    let (ho, ht) = (s.ours_hunks, s.theirs_hunks);
    let ends = (base.len() as int, s.ours.len() as int, s.theirs.len() as int);
    let regs = regions_from(s, i, j, cursor, first);
    if i == ho.len() && j == ht.len() {
        if cursor < s.base_len || first {
            lemma_last_region(base, s, cursor);
            let none = Seq::<MergeRegion>::empty();
            assert(regions_tile(none, ends, ends));
            lemma_cons(base, s, regs[0], none, ends);
            assert(seq![regs[0]] + none =~= regs);
        }
    } else {
        lemma_step(base, s, i, j, cursor);
        lemma_cluster(base, s, i, j, cursor);
        let lo = cluster_start(ho, ht, i, j);
        let (i2, j2, hi) = grow(ho, ht, i, j, lo);
        lemma_regions_law(base, s, i2, j2, hi, false);
        let rest = regions_from(s, i2, j2, hi, false);
        let reg = cluster_region(s, i, j);
        let tail = seq![reg] + rest;
        lemma_cons(base, s, reg, rest, ends);
        if cursor < lo {
            let head = kept_region(s, i, j, cursor, lo);
            lemma_cons(base, s, head, tail, ends);
            assert(seq![head] + tail =~= regs);
        } else {
            assert(tail =~= regs);
        }
    }
}

proof fn lemma_cons(
    base: Seq<Seq<char>>,
    s: Sides,
    reg: MergeRegion,
    rest: Seq<MergeRegion>,
    ends: (int, int, int),
)
    requires
        truthful(base, s.ours, s.theirs, s.ignore, reg),
        all_truthful(base, s.ours, s.theirs, s.ignore, rest),
        one_sided(s, rest),
        one_sided(s, seq![reg]),
        regions_tile(
            rest,
            (reg.base.end as int, reg.ours.end as int, reg.theirs.end as int),
            ends,
        ),
    ensures
        all_truthful(base, s.ours, s.theirs, s.ignore, seq![reg] + rest),
        one_sided(s, seq![reg] + rest),
        regions_tile(
            seq![reg] + rest,
            (reg.base.start as int, reg.ours.start as int, reg.theirs.start as int),
            ends,
        ),
{
    let all = seq![reg] + rest;
    assert(all.drop_first() =~= rest);
    assert(seq![reg][0] == reg);
    assert forall|k: int| 0 <= k < all.len() implies truthful(
        base,
        s.ours,
        s.theirs,
        s.ignore,
        #[trigger] all[k],
    ) by {
        if k > 0 {
            assert(all[k] == rest[k - 1]);
        }
    }
    assert forall|k: int| 0 < k < all.len() implies all[k] == rest[k - 1] by {}
}

/// The regions of a merge cover all lines of the three texts in order, and their kinds tell
/// the truth: unchanged lines are the same in all three, a side that alone changed is set
/// against unchanged lines of the other, and where both changed the same lines the two agree
/// or conflict.
pub proof fn law_regions_partition_the_texts(base: Seq<Seq<char>>, s: Sides)
    requires
        sides_fit(base, s),
        base.len() <= usize::MAX,
        s.ours.len() <= usize::MAX,
        s.theirs.len() <= usize::MAX,
    ensures
        regions_tile(
            regions_of(s),
            (0, 0, 0),
            (base.len() as int, s.ours.len() as int, s.theirs.len() as int),
        ),
        all_truthful(base, s.ours, s.theirs, s.ignore, regions_of(s)),
{
    lemma_start_between(base, s);
    lemma_regions_law(base, s, 0, 0, 0, true);
}

proof fn lemma_start_between(base: Seq<Seq<char>>, s: Sides)
    requires
        sides_fit(base, s),
    ensures
        between_clusters(s, 0, 0, 0),
{
    if s.ours_hunks.len() > 0 {
        assert(hunk_fits(base.len() as int, s.ours.len() as int, s.ours_hunks, 0));
    }
    if s.theirs_hunks.len() > 0 {
        assert(hunk_fits(base.len() as int, s.theirs.len() as int, s.theirs_hunks, 0));
    }
}

/// A side without changes brings no conflict: then only the other side's changes are left.
pub proof fn law_one_sided_merges_have_no_conflict(base: Seq<Seq<char>>, s: Sides)
    requires
        sides_fit(base, s),
        base.len() <= usize::MAX,
        s.ours.len() <= usize::MAX,
        s.theirs.len() <= usize::MAX,
    ensures
        one_sided(s, regions_of(s)),
{
    lemma_start_between(base, s);
    lemma_regions_law(base, s, 0, 0, 0, true);
}

proof fn lemma_same_lines_refl(a: Seq<Seq<char>>, ignore: bool)
    ensures
        same_lines(a, a, ignore),
{
}

proof fn lemma_same_sides(base: Seq<Seq<char>>, s: Sides, i: int, cursor: int, first: bool)
    requires
        sides_fit(base, s),
        s.ours == s.theirs,
        s.ours_hunks == s.theirs_hunks,
        between_clusters(s, i, i, cursor),
    ensures
        forall|k: int|
            0 <= k < regions_from(s, i, i, cursor, first).len() ==> {
                let kind = (#[trigger] regions_from(s, i, i, cursor, first)[k]).kind;
                kind == RegionKind::Unchanged || kind == RegionKind::BothSame
            },
    decreases s.ours_hunks.len() - i,
{
    let h = s.ours_hunks;
    if i < h.len() {
        let lo = cluster_start(h, h, i, i);
        let (i2, j2, hi) = grow(h, h, i, i, lo);
        assert(hunk_fits(base.len() as int, s.ours.len() as int, h, i));
        assert(lo == h[i].before.start);
        reveal_with_fuel(grow, 3);
        if i + 1 < h.len() {
            assert(h[i].before.end < h[i + 1].before.start);
        }
        assert(i2 == i + 1 && j2 == i + 1);
        lemma_cluster(base, s, i, i, cursor);
        lemma_same_sides(base, s, i + 1, hi, false);
        lemma_same_lines_refl(
            s.ours.subrange(lo + displaced(h, i), hi + displaced(h, i2)),
            s.ignore,
        );
    }
}

/// The same change on both sides is no conflict, whatever it is.
pub proof fn law_equal_sides_have_no_conflict(base: Seq<Seq<char>>, s: Sides)
    requires
        sides_fit(base, s),
        s.ours == s.theirs,
        s.ours_hunks == s.theirs_hunks,
    ensures
        forall|k: int|
            0 <= k < regions_of(s).len() ==> {
                let kind = (#[trigger] regions_of(s)[k]).kind;
                kind == RegionKind::Unchanged || kind == RegionKind::BothSame
            },
{
    lemma_start_between(base, s);
    lemma_same_sides(base, s, 0, 0, true);
}

/// Of two regions that follow each other, one is unchanged and the other is not.
pub open spec fn alternate(regs: Seq<MergeRegion>) -> bool {
    forall|j: int, k: int|
        #![trigger regs[j], regs[k]]
        0 <= j && k == j + 1 && k < regs.len() ==> (regs[j].kind == RegionKind::Unchanged) != (
        regs[k].kind == RegionKind::Unchanged)
}

proof fn lemma_regions_alternate(
    base: Seq<Seq<char>>,
    s: Sides,
    i: int,
    j: int,
    cursor: int,
    first: bool,
)
    requires
        sides_fit(base, s),
        between_clusters(s, i, j, cursor),
        !first && i < s.ours_hunks.len() ==> cursor < s.ours_hunks[i].before.start,
        !first && j < s.theirs_hunks.len() ==> cursor < s.theirs_hunks[j].before.start,
    ensures
        ({
            let regs = regions_from(s, i, j, cursor, first);
            &&& alternate(regs)
            &&& first ==> regs.len() > 0
            &&& !first && regs.len() > 0 ==> regs[0].kind == RegionKind::Unchanged
        }),
    decreases s.ours_hunks.len() - i + s.theirs_hunks.len() - j,
{
    let (ho, ht) = (s.ours_hunks, s.theirs_hunks);
    if i < ho.len() || j < ht.len() {
        let regs = regions_from(s, i, j, cursor, first);
        let lo = cluster_start(ho, ht, i, j);
        let (i2, j2, hi) = grow(ho, ht, i, j, lo);
        lemma_grow(ho, ht, i, j, lo);
        lemma_cluster(base, s, i, j, cursor);
        lemma_regions_alternate(base, s, i2, j2, hi, false);
        let rest = regions_from(s, i2, j2, hi, false);
        let reg = cluster_region(s, i, j);
        assert(reg.kind != RegionKind::Unchanged);
        let h = regs.len() - rest.len();
        assert(regs[h - 1] == reg);
        assert(h == 2 ==> regs[0].kind == RegionKind::Unchanged);
        assert forall|m: int, n: int|
            #![trigger regs[m], regs[n]]
            0 <= m && n == m + 1 && n < regs.len() implies (regs[m].kind == RegionKind::Unchanged)
            != (regs[n].kind == RegionKind::Unchanged) by {
            if m >= h {
                assert(regs[m] == rest[m - h] && regs[n] == rest[n - h]);
            } else if n >= h {
                assert(regs[n] == rest[n - h]);
            }
        }
    }
}

/// There is always a region, and kept lines and changes alternate.
pub proof fn law_kept_lines_and_changes_alternate(base: Seq<Seq<char>>, s: Sides)
    requires
        sides_fit(base, s),
    ensures
        regions_of(s).len() > 0,
        alternate(regions_of(s)),
{
    lemma_start_between(base, s);
    lemma_regions_alternate(base, s, 0, 0, 0, true);
}

/// The sides exchanged.
pub open spec fn exchanged(s: Sides) -> Sides {
    Sides {
        base_len: s.base_len,
        ours: s.theirs,
        theirs: s.ours,
        ours_hunks: s.theirs_hunks,
        theirs_hunks: s.ours_hunks,
        ignore: s.ignore,
    }
}

/// A region, seen from the other side.
pub open spec fn mirrored(r: MergeRegion) -> MergeRegion {
    MergeRegion {
        kind: match r.kind {
            RegionKind::OursOnly => RegionKind::TheirsOnly,
            RegionKind::TheirsOnly => RegionKind::OursOnly,
            kind => kind,
        },
        base: r.base,
        ours: r.theirs,
        theirs: r.ours,
    }
}

/// A cluster may as well take in a hunk of theirs first.
proof fn lemma_grow_by_theirs(ho: Seq<Hunk>, ht: Seq<Hunk>, i: int, j: int, hi: int)
    requires
        0 <= i <= ho.len(),
        0 <= j < ht.len(),
        ht[j].before.start <= hi,
    ensures
        grow(ho, ht, i, j, hi) == grow(ho, ht, i, j + 1, max(hi, ht[j].before.end as int)),
    decreases ho.len() - i,
{
    if i < ho.len() && ho[i].before.start <= hi {
        lemma_grow_by_theirs(ho, ht, i + 1, j, max(hi, ho[i].before.end as int));
        assert(max(max(hi, ho[i].before.end as int), ht[j].before.end as int) == max(
            max(hi, ht[j].before.end as int),
            ho[i].before.end as int,
        ));
    }
}

proof fn lemma_grow_mirrored(ho: Seq<Hunk>, ht: Seq<Hunk>, i: int, j: int, hi: int)
    requires
        0 <= i <= ho.len(),
        0 <= j <= ht.len(),
    ensures
        ({
            let (i2, j2, hi2) = grow(ho, ht, i, j, hi);
            grow(ht, ho, j, i, hi) == (j2, i2, hi2)
        }),
    decreases ho.len() - i + ht.len() - j,
{
    if j < ht.len() && ht[j].before.start <= hi {
        lemma_grow_by_theirs(ho, ht, i, j, hi);
        lemma_grow_mirrored(ho, ht, i, j + 1, max(hi, ht[j].before.end as int));
    } else if i < ho.len() && ho[i].before.start <= hi {
        lemma_grow_mirrored(ho, ht, i + 1, j, max(hi, ho[i].before.end as int));
    }
}

proof fn lemma_same_lines_mirrored(a: Seq<Seq<char>>, b: Seq<Seq<char>>, ignore: bool)
    ensures
        same_lines(a, b, ignore) == same_lines(b, a, ignore),
{
    if same_lines(a, b, ignore) {
        assert forall|i: int| 0 <= i < b.len() implies same_line(#[trigger] b[i], a[i], ignore) by {
            assert(same_line(a[i], b[i], ignore));
        }
    }
    if same_lines(b, a, ignore) {
        assert forall|i: int| 0 <= i < a.len() implies same_line(#[trigger] a[i], b[i], ignore) by {
            assert(same_line(b[i], a[i], ignore));
        }
    }
}

proof fn lemma_regions_mirrored(s: Sides, i: int, j: int, cursor: int, first: bool)
    requires
        0 <= i <= s.ours_hunks.len(),
        0 <= j <= s.theirs_hunks.len(),
    ensures
        regions_from(exchanged(s), j, i, cursor, first) == regions_from(
            s,
            i,
            j,
            cursor,
            first,
        ).map_values(|r: MergeRegion| mirrored(r)),
    decreases s.ours_hunks.len() - i + s.theirs_hunks.len() - j,
{
    let f = |r: MergeRegion| mirrored(r);
    let t = exchanged(s);
    let (ho, ht) = (s.ours_hunks, s.theirs_hunks);
    if i == ho.len() && j == ht.len() {
        assert(regions_from(t, j, i, cursor, first) =~= regions_from(
            s,
            i,
            j,
            cursor,
            first,
        ).map_values(f));
    } else {
        let lo = cluster_start(ho, ht, i, j);
        let (i2, j2, hi) = grow(ho, ht, i, j, lo);
        assert(cluster_start(ht, ho, j, i) == lo);
        lemma_grow(ho, ht, i, j, lo);
        lemma_grow_mirrored(ho, ht, i, j, lo);
        lemma_regions_mirrored(s, i2, j2, hi, false);
        let ours = s.ours.subrange(lo + displaced(ho, i), hi + displaced(ho, i2));
        let theirs = s.theirs.subrange(lo + displaced(ht, j), hi + displaced(ht, j2));
        lemma_same_lines_mirrored(ours, theirs, s.ignore);
        assert(cluster_region(t, j, i) == mirrored(cluster_region(s, i, j)));
        assert(kept_region(t, j, i, cursor, lo) == mirrored(kept_region(s, i, j, cursor, lo)));
        assert(regions_from(t, j, i, cursor, first) =~= regions_from(
            s,
            i,
            j,
            cursor,
            first,
        ).map_values(f));
    }
}

/// Exchanging the two sides mirrors the regions: they are as many, and stand at the same lines;
/// what only one side had changed is now what only the other had, and all other kinds stay.
pub proof fn law_exchanging_the_sides_mirrors_the_regions(
    base: Seq<char>,
    ours: Seq<char>,
    theirs: Seq<char>,
    ignore: bool,
)
    ensures
        regions_of(merge_sides(base, theirs, ours, ignore)) == regions_of(
            merge_sides(base, ours, theirs, ignore),
        ).map_values(|r: MergeRegion| mirrored(r)),
{
    lemma_regions_mirrored(merge_sides(base, ours, theirs, ignore), 0, 0, 0, true);
}

// ---------------------------------------------------------------------------
// Documents

/// A merge of three texts, as regions.
#[derive(Debug)]
pub struct MergeDocument {
    pub regions: Vec<MergeRegion>,
    pub base_lines: Vec<String>,
    pub ours_lines: Vec<String>,
    pub theirs_lines: Vec<String>,
}

/// The sides of the merge of three texts.
pub open spec fn merge_sides(
    base: Seq<char>,
    ours: Seq<char>,
    theirs: Seq<char>,
    ignore: bool,
) -> Sides {
    Sides {
        base_len: lines_of(base).len() as int,
        ours: lines_of(ours),
        theirs: lines_of(theirs),
        ours_hunks: histogram_hunks(lines_of(base), lines_of(ours)),
        theirs_hunks: histogram_hunks(lines_of(base), lines_of(theirs)),
        ignore,
    }
}

fn own_lines(v: &Vec<&str>) -> (r: Vec<String>)
    ensures
        texts(r@) == views(v@),
{
    let mut r: Vec<String> = Vec::new();
    let mut i: usize = 0;
    while i < v.len()
        invariant
            i <= v@.len(),
            r@.len() == i,
            forall|k: int| 0 <= k < i ==> (#[trigger] r@[k])@ == v@[k]@,
        decreases v@.len() - i,
    {
        r.push(v[i].to_owned());
        i = i + 1;
    }
    assert(texts(r@) =~= views(v@));
    r
}

impl MergeDocument {
    /// The lines of the base.
    pub open spec fn base(&self) -> Seq<Seq<char>> {
        texts(self.base_lines@)
    }

    /// The lines of our side.
    pub open spec fn ours(&self) -> Seq<Seq<char>> {
        texts(self.ours_lines@)
    }

    /// The lines of their side.
    pub open spec fn theirs(&self) -> Seq<Seq<char>> {
        texts(self.theirs_lines@)
    }

    /// Every region is a stretch of the three texts.
    pub open spec fn wf(&self) -> bool {
        forall|k: int|
            0 <= k < self.regions@.len() ==> {
                let r = #[trigger] self.regions@[k];
                &&& in_bounds(r.base, self.base().len() as int)
                &&& in_bounds(r.ours, self.ours().len() as int)
                &&& in_bounds(r.theirs, self.theirs().len() as int)
            }
    }

    /// Merges the changes that `ours` and `theirs` made to `base`.
    pub fn compute(base: &str, ours: &str, theirs: &str, opts: MergeOptions) -> (r: Self)
        requires
            lines_of(base@).len() + lines_of(ours@).len() < 0x7fff_ffff,
            lines_of(base@).len() + lines_of(theirs@).len() < 0x7fff_ffff,
        ensures
            r.wf(),
            r.base() == lines_of(base@),
            r.ours() == lines_of(ours@),
            r.theirs() == lines_of(theirs@),
            r.regions@ == regions_of(
                merge_sides(base@, ours@, theirs@, opts.ignore_trailing_whitespace),
            ),
            sides_fit(
                lines_of(base@),
                merge_sides(base@, ours@, theirs@, opts.ignore_trailing_whitespace),
            ),
            regions_tile(
                r.regions@,
                (0, 0, 0),
                (r.base().len() as int, r.ours().len() as int, r.theirs().len() as int),
            ),
            all_truthful(
                r.base(),
                r.ours(),
                r.theirs(),
                opts.ignore_trailing_whitespace,
                r.regions@,
            ),
            base@ == theirs@ ==> forall|k: int|
                0 <= k < r.regions@.len() ==> {
                    let kind = (#[trigger] r.regions@[k]).kind;
                    kind == RegionKind::Unchanged || kind == RegionKind::OursOnly
                },
            base@ == ours@ ==> forall|k: int|
                0 <= k < r.regions@.len() ==> {
                    let kind = (#[trigger] r.regions@[k]).kind;
                    kind == RegionKind::Unchanged || kind == RegionKind::TheirsOnly
                },
            ours@ == theirs@ ==> forall|k: int|
                0 <= k < r.regions@.len() ==> {
                    let kind = (#[trigger] r.regions@[k]).kind;
                    kind == RegionKind::Unchanged || kind == RegionKind::BothSame
                },
            base@ == theirs@ || ours@ == theirs@ ==> r.assembled(Map::empty()) == Ok::<
                Seq<char>,
                usize,
            >(ours@),
            base@ == ours@ ==> r.assembled(Map::empty()) == Ok::<Seq<char>, usize>(theirs@),
    {
        let b = split_lines(base);
        let o = split_lines(ours);
        let t = split_lines(theirs);
        proof {
            assert(views(b@).len() == b@.len());
            assert(views(o@).len() == o@.len());
            assert(views(t@).len() == t@.len());
        }
        let ours_hunks = diff_tokens(SliceTokens(b.as_slice()), SliceTokens(o.as_slice()));
        let theirs_hunks = diff_tokens(SliceTokens(b.as_slice()), SliceTokens(t.as_slice()));
        let base_lines = own_lines(&b);
        let ours_lines = own_lines(&o);
        let theirs_lines = own_lines(&t);
        let ghost s = merge_sides(base@, ours@, theirs@, opts.ignore_trailing_whitespace);
        proof {
            assert(texts(base_lines@).len() == base_lines@.len());
            assert(texts(ours_lines@).len() == ours_lines@.len());
            assert(texts(theirs_lines@).len() == theirs_lines@.len());
            assert(sides_fit(lines_of(base@), s));
            law_regions_partition_the_texts(lines_of(base@), s);
            law_one_sided_merges_have_no_conflict(lines_of(base@), s);
            if ours@ == theirs@ {
                law_equal_sides_have_no_conflict(lines_of(base@), s);
            }
        }
        let regions = merge_regions(
            &base_lines,
            &ours_lines,
            &theirs_lines,
            &ours_hunks,
            &theirs_hunks,
            opts,
        );
        let doc = MergeDocument { regions, base_lines, ours_lines, theirs_lines };
        proof {
            assert forall|k: int| 0 <= k < doc.regions@.len() implies truthful(
                doc.base(),
                doc.ours(),
                doc.theirs(),
                s.ignore,
                #[trigger] doc.regions@[k],
            ) by {}
            law_merge_of_one_change_is_that_change(base@, ours@, theirs@, s);
        }
        doc
    }

    pub fn base_lines(&self) -> (r: &[String])
        ensures
            texts(r@) == self.base(),
    {
        self.base_lines.as_slice()
    }

    pub fn ours_lines(&self) -> (r: &[String])
        ensures
            texts(r@) == self.ours(),
    {
        self.ours_lines.as_slice()
    }

    pub fn theirs_lines(&self) -> (r: &[String])
        ensures
            texts(r@) == self.theirs(),
    {
        self.theirs_lines.as_slice()
    }

    /// The regions that need a decision: the conflicts.
    pub fn required_decisions(&self) -> (r: Vec<usize>)
        ensures
            r@ == conflicts(self.regions@, self.regions@.len() as int),
    {
        let mut r: Vec<usize> = Vec::new();
        let mut i: usize = 0;
        while i < self.regions.len()
            invariant
                i <= self.regions@.len(),
                r@ == conflicts(self.regions@, i as int),
            decreases self.regions@.len() - i,
        {
            if self.regions[i].kind == RegionKind::Conflict {
                r.push(i);
            }
            i = i + 1;
        }
        r
    }
}

/// The conflicts among the first `n` regions, in order.
pub open spec fn conflicts(regs: Seq<MergeRegion>, n: int) -> Seq<usize>
    decreases n,
{
    if n <= 0 {
        seq![]
    } else if regs[n - 1].kind == RegionKind::Conflict {
        conflicts(regs, n - 1).push((n - 1) as usize)
    } else {
        conflicts(regs, n - 1)
    }
}

/// `conflicts` holds exactly the conflicting regions, each once, in order.
pub proof fn lemma_conflicts(regs: Seq<MergeRegion>, n: int)
    requires
        0 <= n <= regs.len() <= usize::MAX,
    ensures
        forall|k: int|
            0 <= k < conflicts(regs, n).len() ==> (#[trigger] conflicts(regs, n)[k]) < n
                && regs[conflicts(regs, n)[k] as int].kind == RegionKind::Conflict,
        forall|x: int|
            0 <= x < n && regs[x].kind == RegionKind::Conflict ==> conflicts(regs, n).contains(
                x as usize,
            ),
        forall|j: int, k: int|
            0 <= j < k < conflicts(regs, n).len() ==> conflicts(regs, n)[j] < conflicts(
                regs,
                n,
            )[k],
    decreases n,
{
    if n > 0 {
        lemma_conflicts(regs, n - 1);
        let prev = conflicts(regs, n - 1);
        let all = conflicts(regs, n);
        assert forall|x: int|
            0 <= x < n && regs[x].kind == RegionKind::Conflict implies all.contains(
            x as usize,
        ) by {
            if x < n - 1 {
                assert(prev.contains(x as usize));
                let k = choose|k: int| 0 <= k < prev.len() && prev[k] == x as usize;
                assert(all[k] == x as usize);
            } else {
                assert(all[all.len() - 1] == x as usize);
            }
        }
    }
}

// ---------------------------------------------------------------------------
// Decisions

/// What a region becomes.
#[derive(Debug, PartialEq, Eq)]
pub enum Choice {
    Ours,
    Theirs,
    Base,
    /// Our lines, then theirs.
    Both,
    Edited(String),
}

impl Clone for Choice {
    fn clone(&self) -> (r: Self)
        ensures
            r == *self,
    {
        match self {
            Choice::Ours => Choice::Ours,
            Choice::Theirs => Choice::Theirs,
            Choice::Base => Choice::Base,
            Choice::Both => Choice::Both,
            Choice::Edited(text) => Choice::Edited(text.clone()),
        }
    }
}

/// The choices made, by region.
#[derive(Debug)]
pub struct Resolution {
    choices: HashMap<usize, Choice>,
}

impl View for Resolution {
    type V = Map<usize, Choice>;

    closed spec fn view(&self) -> Map<usize, Choice> {
        self.choices@
    }
}

impl Default for Resolution {
    fn default() -> (r: Self)
        ensures
            r@ == Map::<usize, Choice>::empty(),
    {
        Resolution::new()
    }
}

impl Resolution {
    /// No choice made.
    pub fn new() -> (r: Self)
        ensures
            r@ == Map::<usize, Choice>::empty(),
    {
        Resolution { choices: HashMap::new() }
    }

    /// Makes a choice for a region; an earlier one is replaced.
    pub fn set(&mut self, region_index: usize, choice: Choice)
        ensures
            final(self)@ == old(self)@.insert(region_index, choice),
    {
        self.choices.insert(region_index, choice);
    }

    /// Takes the choice for a region back.
    pub fn unset(&mut self, region_index: usize)
        ensures
            final(self)@ == old(self)@.remove(region_index),
    {
        self.choices.remove(&region_index);
    }

    /// The choice made for a region.
    pub fn get(&self, region_index: usize) -> (r: Option<&Choice>)
        ensures
            match r {
                Some(c) => self@.contains_key(region_index) && *c == self@[region_index],
                None => !self@.contains_key(region_index),
            },
    {
        self.choices.get(&region_index)
    }
}

#[derive(Debug)]
pub enum AssembleError {
    Unresolved { region: usize },
}

impl AssembleError {
    pub open spec fn message_spec(self) -> Seq<char> {
        match self {
            AssembleError::Unresolved { region } => "region "@ + decimal(region as nat)
                + " is a conflict with no choice made"@,
        }
    }

    /// The error in words.
    pub fn message(&self) -> (r: String)
        ensures
            r@ == self.message_spec(),
    {
        match self {
            AssembleError::Unresolved { region } => {
                let mut s = "region ".to_owned();
                s.append(decimal_text(*region as u64).as_str());
                s.append(" is a conflict with no choice made");
                s
            },
        }
    }
}

/// The choice made for region `k`.
pub open spec fn choice_for(m: Map<usize, Choice>, k: int) -> Option<Choice> {
    if m.contains_key(k as usize) {
        Some(m[k as usize])
    } else {
        None
    }
}

/// The text that a region becomes. Without a choice the changed side is taken, or our lines
/// where both made the same change; a conflict has none.
pub open spec fn piece(
    base: Seq<Seq<char>>,
    ours: Seq<Seq<char>>,
    theirs: Seq<Seq<char>>,
    r: MergeRegion,
    choice: Option<Choice>,
) -> Option<Seq<char>> {
    let (b, o, t) = (
        cut(base, r.base).flatten(),
        cut(ours, r.ours).flatten(),
        cut(theirs, r.theirs).flatten(),
    );
    match choice {
        Some(Choice::Ours) => Some(o),
        Some(Choice::Theirs) => Some(t),
        Some(Choice::Base) => Some(b),
        Some(Choice::Both) => Some(o + t),
        Some(Choice::Edited(text)) => Some(text@),
        None => match r.kind {
            RegionKind::Unchanged => Some(b),
            RegionKind::OursOnly | RegionKind::BothSame => Some(o),
            RegionKind::TheirsOnly => Some(t),
            RegionKind::Conflict => None,
        },
    }
}

/// The text of the regions from the `k`-th on, or the first of them that is undecided.
pub open spec fn assembled_from(
    base: Seq<Seq<char>>,
    ours: Seq<Seq<char>>,
    theirs: Seq<Seq<char>>,
    regs: Seq<MergeRegion>,
    m: Map<usize, Choice>,
    k: int,
) -> Result<Seq<char>, usize>
    decreases regs.len() - k,
{
    if k < 0 || k >= regs.len() {
        Ok(seq![])
    } else {
        match piece(base, ours, theirs, regs[k], choice_for(m, k)) {
            None => Err(k as usize),
            Some(text) => match assembled_from(base, ours, theirs, regs, m, k + 1) {
                Ok(rest) => Ok(text + rest),
                Err(e) => Err(e),
            },
        }
    }
}

/// Appends the lines `lines[from..to]`.
fn push_lines(out: &mut String, lines: &Vec<String>, from: usize, to: usize)
    requires
        from <= to <= lines@.len(),
    ensures
        final(out)@ == old(out)@ + texts(lines@).subrange(from as int, to as int).flatten(),
{
    let ghost all = texts(lines@);
    let mut i: usize = from;
    assert(all.subrange(from as int, from as int) =~= seq![]);
    assert(out@ + Seq::<char>::empty() =~= out@);
    while i < to
        invariant
            all == texts(lines@),
            from <= i <= to <= lines@.len(),
            out@ == old(out)@ + all.subrange(from as int, i as int).flatten(),
        decreases to - i,
    {
        let ghost had = out@;
        out.append(lines[i].as_str());
        proof {
            let cur = all.subrange(from as int, i as int);
            assert(all.subrange(from as int, i + 1) =~= cur.push(all[i as int]));
            cur.lemma_flatten_push(all[i as int]);
            assert(had + lines@[i as int]@ =~= old(out)@ + (cur.flatten() + all[i as int]));
        }
        i = i + 1;
    }
}

impl MergeDocument {
    /// What the document becomes under the choices made.
    pub open spec fn assembled(&self, m: Map<usize, Choice>) -> Result<Seq<char>, usize> {
        assembled_from(self.base(), self.ours(), self.theirs(), self.regions@, m, 0)
    }

    /// The merged text, or the first conflict without a choice.
    pub fn assemble(&self, res: &Resolution) -> (r: Result<String, AssembleError>)
        requires
            self.wf(),
        ensures
            match r {
                Ok(text) => self.assembled(res@) == Ok::<Seq<char>, usize>(text@),
                Err(AssembleError::Unresolved { region }) => self.assembled(res@) == Err::<
                    Seq<char>,
                    usize,
                >(region),
            },
    {
        let mut out = String::new();
        let mut k: usize = 0;
        proof {
            let whole = self.assembled(res@);
            if let Ok(text) = whole {
                assert(out@ + text =~= text);
            }
        }
        while k < self.regions.len()
            invariant
                self.wf(),
                k <= self.regions@.len(),
                self.assembled(res@) == (match assembled_from(
                    self.base(),
                    self.ours(),
                    self.theirs(),
                    self.regions@,
                    res@,
                    k as int,
                ) {
                    Ok(rest) => Ok(out@ + rest),
                    Err(e) => Err(e),
                }),
            decreases self.regions@.len() - k,
        {
            let reg = &self.regions[k];
            let ghost had = out@;
            let ghost part = piece(
                self.base(),
                self.ours(),
                self.theirs(),
                *reg,
                choice_for(res@, k as int),
            );
            match res.get(k) {
                Some(Choice::Ours) => {
                    push_lines(&mut out, &self.ours_lines, reg.ours.start, reg.ours.end);
                },
                Some(Choice::Theirs) => {
                    push_lines(&mut out, &self.theirs_lines, reg.theirs.start, reg.theirs.end);
                },
                Some(Choice::Base) => {
                    push_lines(&mut out, &self.base_lines, reg.base.start, reg.base.end);
                },
                Some(Choice::Both) => {
                    push_lines(&mut out, &self.ours_lines, reg.ours.start, reg.ours.end);
                    push_lines(&mut out, &self.theirs_lines, reg.theirs.start, reg.theirs.end);
                    proof {
                        let o = cut(self.ours(), reg.ours).flatten();
                        let t = cut(self.theirs(), reg.theirs).flatten();
                        assert(out@ =~= had + (o + t));
                    }
                },
                Some(Choice::Edited(text)) => {
                    out.append(text.as_str());
                },
                None => {
                    match reg.kind {
                        RegionKind::Unchanged => {
                            push_lines(&mut out, &self.base_lines, reg.base.start, reg.base.end);
                        },
                        RegionKind::OursOnly | RegionKind::BothSame => {
                            push_lines(&mut out, &self.ours_lines, reg.ours.start, reg.ours.end);
                        },
                        RegionKind::TheirsOnly => {
                            push_lines(
                                &mut out,
                                &self.theirs_lines,
                                reg.theirs.start,
                                reg.theirs.end,
                            );
                        },
                        RegionKind::Conflict => {
                            return Err(AssembleError::Unresolved { region: k });
                        },
                    }
                },
            }
            proof {
                assert(part is Some);
                assert(out@ == had + part.unwrap());
                if let Ok(rest) = assembled_from(
                    self.base(),
                    self.ours(),
                    self.theirs(),
                    self.regions@,
                    res@,
                    k + 1,
                ) {
                    assert(had + (part.unwrap() + rest) =~= out@ + rest);
                }
            }
            k = k + 1;
        }
        assert(out@ + Seq::<char>::empty() =~= out@);
        Ok(out)
    }
}

// ---------------------------------------------------------------------------
// Laws of assembling

/// One of the three texts of a merge.
#[derive(Debug, Clone, Copy, PartialEq, Eq, Structural)]
pub enum Text {
    Base,
    Ours,
    Theirs,
}

/// The lines of a merge, as three texts.
pub struct Texts {
    pub base: Seq<Seq<char>>,
    pub ours: Seq<Seq<char>>,
    pub theirs: Seq<Seq<char>>,
}

impl Texts {
    pub open spec fn lines(self, w: Text) -> Seq<Seq<char>> {
        match w {
            Text::Base => self.base,
            Text::Ours => self.ours,
            Text::Theirs => self.theirs,
        }
    }

    /// The regions cover the three texts, and their kinds tell the truth.
    pub open spec fn covered_by(self, regs: Seq<MergeRegion>, ignore: bool) -> bool {
        &&& regions_tile(
            regs,
            (0, 0, 0),
            (self.base.len() as int, self.ours.len() as int, self.theirs.len() as int),
        )
        &&& all_truthful(self.base, self.ours, self.theirs, ignore, regs)
    }

    /// Region `k` becomes what it is in text `w`.
    pub open spec fn becomes(
        self,
        regs: Seq<MergeRegion>,
        m: Map<usize, Choice>,
        k: int,
        w: Text,
    ) -> bool {
        piece(self.base, self.ours, self.theirs, regs[k], choice_for(m, k)) == Some(
            cut(self.lines(w), part(regs[k], w)).flatten(),
        )
    }
}

/// Where a region stands in one of the texts.
pub open spec fn part(r: MergeRegion, w: Text) -> Range<usize> {
    match w {
        Text::Base => r.base,
        Text::Ours => r.ours,
        Text::Theirs => r.theirs,
    }
}

pub open spec fn pick(at: (int, int, int), w: Text) -> int {
    match w {
        Text::Base => at.0,
        Text::Ours => at.1,
        Text::Theirs => at.2,
    }
}

proof fn lemma_becomes_text(
    x: Texts,
    regs: Seq<MergeRegion>,
    m: Map<usize, Choice>,
    k: int,
    at: (int, int, int),
    w: Text,
)
    requires
        0 <= k <= regs.len(),
        0 <= pick(at, w) <= x.lines(w).len(),
        regions_tile(
            regs.skip(k),
            at,
            (x.base.len() as int, x.ours.len() as int, x.theirs.len() as int),
        ),
        forall|j: int|
            k <= j < regs.len() ==> {
                let r = part(#[trigger] regs[j], w);
                in_bounds(r, x.lines(w).len() as int)
            },
        forall|j: int| k <= j < regs.len() ==> #[trigger] x.becomes(regs, m, j, w),
    ensures
        assembled_from(x.base, x.ours, x.theirs, regs, m, k) == Ok::<Seq<char>, usize>(
            x.lines(w).skip(pick(at, w)).flatten(),
        ),
    decreases regs.len() - k,
{
    let lines = x.lines(w);
    let a = pick(at, w);
    if k == regs.len() {
        assert(lines.skip(a) =~= seq![]);
    } else {
        let r = regs[k];
        assert(regs.skip(k)[0] == r);
        assert(regs.skip(k).drop_first() =~= regs.skip(k + 1));
        let next = (r.base.end as int, r.ours.end as int, r.theirs.end as int);
        assert(x.becomes(regs, m, k, w));
        assert(in_bounds(part(regs[k], w), lines.len() as int));
        lemma_becomes_text(x, regs, m, k + 1, next, w);
        let here = cut(lines, part(r, w));
        let rest = lines.skip(pick(next, w));
        assert(here + rest =~= lines.skip(a));
        vstd::seq_lib::lemma_flatten_concat(here, rest);
    }
}

/// Choosing the same text for every region gives that text back.
pub proof fn law_one_choice_throughout(
    x: Texts,
    regs: Seq<MergeRegion>,
    ignore: bool,
    m: Map<usize, Choice>,
    w: Text,
)
    requires
        x.covered_by(regs, ignore),
        regs.len() <= usize::MAX,
        forall|k: int|
            0 <= k < regs.len() ==> #[trigger] choice_for(m, k) == Some(
                match w {
                    Text::Base => Choice::Base,
                    Text::Ours => Choice::Ours,
                    Text::Theirs => Choice::Theirs,
                },
            ),
    ensures
        assembled_from(x.base, x.ours, x.theirs, regs, m, 0) == Ok::<Seq<char>, usize>(
            x.lines(w).flatten(),
        ),
{
    assert(regs.skip(0) =~= regs);
    assert(x.lines(w).skip(0) =~= x.lines(w));
    assert forall|k: int| 0 <= k < regs.len() implies #[trigger] x.becomes(regs, m, k, w) by {
        assert(choice_for(m, k) is Some);
    }
    assert forall|k: int| 0 <= k < regs.len() implies in_bounds(
        part(#[trigger] regs[k], w),
        x.lines(w).len() as int,
    ) by {
        assert(truthful(x.base, x.ours, x.theirs, ignore, regs[k]));
    }
    lemma_becomes_text(x, regs, m, 0, (0, 0, 0), w);
}

/// Choosing the same text for every region of a merge gives that text back, character by
/// character.
pub proof fn law_one_choice_gives_that_text_back(
    base: Seq<char>,
    ours: Seq<char>,
    theirs: Seq<char>,
    ignore: bool,
    m: Map<usize, Choice>,
    w: Text,
)
    requires
        ({
            let s = merge_sides(base, ours, theirs, ignore);
            &&& sides_fit(lines_of(base), s)
            &&& regions_of(s).len() <= usize::MAX
            &&& forall|k: int|
                0 <= k < regions_of(s).len() ==> #[trigger] choice_for(m, k) == Some(
                    match w {
                        Text::Base => Choice::Base,
                        Text::Ours => Choice::Ours,
                        Text::Theirs => Choice::Theirs,
                    },
                )
        }),
        lines_of(base).len() <= usize::MAX,
        lines_of(ours).len() <= usize::MAX,
        lines_of(theirs).len() <= usize::MAX,
    ensures
        assembled_from(
            lines_of(base),
            lines_of(ours),
            lines_of(theirs),
            regions_of(merge_sides(base, ours, theirs, ignore)),
            m,
            0,
        ) == Ok::<Seq<char>, usize>(
            match w {
                Text::Base => base,
                Text::Ours => ours,
                Text::Theirs => theirs,
            },
        ),
{
    let s = merge_sides(base, ours, theirs, ignore);
    let x = Texts { base: lines_of(base), ours: s.ours, theirs: s.theirs };
    law_regions_partition_the_texts(lines_of(base), s);
    law_one_choice_throughout(x, regions_of(s), ignore, m, w);
    law_lines_rejoin(base);
    law_lines_rejoin(ours);
    law_lines_rejoin(theirs);
}

/// Where only one side changed anything, the merge without any choice is that side's text;
/// where both made the same changes it is ours.
pub proof fn law_defaults_take_the_changed_side(
    x: Texts,
    regs: Seq<MergeRegion>,
    ignore: bool,
)
    requires
        x.covered_by(regs, ignore),
    ensures
        (forall|k: int|
            0 <= k < regs.len() ==> (#[trigger] regs[k]).kind != RegionKind::Conflict
                && regs[k].kind != RegionKind::TheirsOnly) ==> assembled_from(
            x.base,
            x.ours,
            x.theirs,
            regs,
            Map::empty(),
            0,
        ) == Ok::<Seq<char>, usize>(x.ours.flatten()),
        (forall|k: int|
            0 <= k < regs.len() ==> (#[trigger] regs[k]).kind == RegionKind::Unchanged
                || regs[k].kind == RegionKind::TheirsOnly) ==> assembled_from(
            x.base,
            x.ours,
            x.theirs,
            regs,
            Map::empty(),
            0,
        ) == Ok::<Seq<char>, usize>(x.theirs.flatten()),
{
    let m = Map::<usize, Choice>::empty();
    assert(regs.skip(0) =~= regs);
    assert(x.ours.skip(0) =~= x.ours);
    assert(x.theirs.skip(0) =~= x.theirs);
    assert forall|k: int| 0 <= k < regs.len() implies in_bounds(
        part(#[trigger] regs[k], Text::Ours),
        x.ours.len() as int,
    ) && in_bounds(part(regs[k], Text::Theirs), x.theirs.len() as int) by {
        assert(truthful(x.base, x.ours, x.theirs, ignore, regs[k]));
    }
    if forall|k: int|
        0 <= k < regs.len() ==> (#[trigger] regs[k]).kind != RegionKind::Conflict && regs[k].kind
            != RegionKind::TheirsOnly {
        assert forall|k: int| 0 <= k < regs.len() implies #[trigger] x.becomes(
            regs,
            m,
            k,
            Text::Ours,
        ) by {
            assert(truthful(x.base, x.ours, x.theirs, ignore, regs[k]));
        }
        lemma_becomes_text(x, regs, m, 0, (0, 0, 0), Text::Ours);
    }
    if forall|k: int|
        0 <= k < regs.len() ==> (#[trigger] regs[k]).kind == RegionKind::Unchanged || regs[k].kind
            == RegionKind::TheirsOnly {
        assert forall|k: int| 0 <= k < regs.len() implies #[trigger] x.becomes(
            regs,
            m,
            k,
            Text::Theirs,
        ) by {
            assert(truthful(x.base, x.ours, x.theirs, ignore, regs[k]));
        }
        lemma_becomes_text(x, regs, m, 0, (0, 0, 0), Text::Theirs);
    }
}

proof fn lemma_undecided_from(x: Texts, regs: Seq<MergeRegion>, m: Map<usize, Choice>, k: int)
    requires
        0 <= k <= regs.len() <= usize::MAX,
    ensures
        match assembled_from(x.base, x.ours, x.theirs, regs, m, k) {
            Ok(_) => forall|j: int|
                k <= j < regs.len() && (#[trigger] regs[j]).kind == RegionKind::Conflict
                    ==> m.contains_key(j as usize),
            Err(e) => {
                &&& k <= e < regs.len()
                &&& regs[e as int].kind == RegionKind::Conflict
                &&& !m.contains_key(e)
                &&& forall|j: int|
                    k <= j < e && (#[trigger] regs[j]).kind == RegionKind::Conflict
                        ==> m.contains_key(j as usize)
            },
        },
    decreases regs.len() - k,
{
    if k < regs.len() {
        lemma_undecided_from(x, regs, m, k + 1);
    }
}

/// A document assembles exactly when every conflict has a choice; where it does not, the
/// error names the first conflict without one.
pub proof fn law_assembles_iff_every_conflict_is_decided(
    x: Texts,
    regs: Seq<MergeRegion>,
    m: Map<usize, Choice>,
)
    requires
        regs.len() <= usize::MAX,
    ensures
        match assembled_from(x.base, x.ours, x.theirs, regs, m, 0) {
            Ok(_) => forall|j: int|
                0 <= j < regs.len() && (#[trigger] regs[j]).kind == RegionKind::Conflict
                    ==> m.contains_key(j as usize),
            Err(e) => {
                &&& e < regs.len()
                &&& regs[e as int].kind == RegionKind::Conflict
                &&& !m.contains_key(e)
                &&& forall|j: int|
                    0 <= j < e && (#[trigger] regs[j]).kind == RegionKind::Conflict
                        ==> m.contains_key(j as usize)
            },
        },
{
    lemma_undecided_from(x, regs, m, 0);
}

/// Merging a text with itself on both sides, or a change on one side only, gives the changed
/// text, and the text that was split into lines is the text that comes back.
pub proof fn law_merge_of_one_change_is_that_change(
    base: Seq<char>,
    ours: Seq<char>,
    theirs: Seq<char>,
    s: Sides,
)
    requires
        s.ours == lines_of(ours),
        s.theirs == lines_of(theirs),
        sides_fit(lines_of(base), s),
        lines_of(base).len() <= usize::MAX,
        lines_of(ours).len() <= usize::MAX,
        lines_of(theirs).len() <= usize::MAX,
    ensures
        s.theirs_hunks.len() == 0 || (s.ours == s.theirs && s.ours_hunks == s.theirs_hunks)
            ==> assembled_from(
            lines_of(base),
            s.ours,
            s.theirs,
            regions_of(s),
            Map::empty(),
            0,
        ) == Ok::<Seq<char>, usize>(ours),
        s.ours_hunks.len() == 0 ==> assembled_from(
            lines_of(base),
            s.ours,
            s.theirs,
            regions_of(s),
            Map::empty(),
            0,
        ) == Ok::<Seq<char>, usize>(theirs),
{
    let x = Texts { base: lines_of(base), ours: s.ours, theirs: s.theirs };
    law_regions_partition_the_texts(lines_of(base), s);
    law_one_sided_merges_have_no_conflict(lines_of(base), s);
    if s.ours == s.theirs && s.ours_hunks == s.theirs_hunks {
        law_equal_sides_have_no_conflict(lines_of(base), s);
    }
    law_defaults_take_the_changed_side(x, regions_of(s), s.ignore);
    law_lines_rejoin(ours);
    law_lines_rejoin(theirs);
}

proof fn lemma_assembled_alike(
    x: Texts,
    regs: Seq<MergeRegion>,
    m: Map<usize, Choice>,
    n: Map<usize, Choice>,
    j: int,
)
    requires
        0 <= j,
        forall|i: int| j <= i < regs.len() ==> #[trigger] choice_for(m, i) == choice_for(n, i),
    ensures
        assembled_from(x.base, x.ours, x.theirs, regs, m, j) == assembled_from(
            x.base,
            x.ours,
            x.theirs,
            regs,
            n,
            j,
        ),
    decreases regs.len() - j,
{
    if j < regs.len() {
        assert(choice_for(m, j) == choice_for(n, j));
        lemma_assembled_alike(x, regs, m, n, j + 1);
    }
}

/// Around region `k` an assembled text is the same, whatever `k` becomes.
proof fn lemma_choice_is_local(
    x: Texts,
    regs: Seq<MergeRegion>,
    m: Map<usize, Choice>,
    k: int,
    j: int,
) -> (around: (Seq<char>, Seq<char>))
    requires
        0 <= j <= k < regs.len() <= usize::MAX,
        forall|i: int|
            0 <= i < regs.len() && i != k && (#[trigger] regs[i]).kind == RegionKind::Conflict
                ==> m.contains_key(i as usize),
    ensures
        forall|n: Map<usize, Choice>|
            #![trigger assembled_from(x.base, x.ours, x.theirs, regs, n, j)]
            (forall|i: int|
                0 <= i < regs.len() && i != k ==> #[trigger] choice_for(n, i) == choice_for(m, i))
                ==> (match piece(x.base, x.ours, x.theirs, regs[k], choice_for(n, k)) {
                Some(text) => assembled_from(x.base, x.ours, x.theirs, regs, n, j) == Ok::<
                    Seq<char>,
                    usize,
                >(around.0 + text + around.1),
                None => assembled_from(x.base, x.ours, x.theirs, regs, n, j) is Err,
            }),
    decreases k - j,
{
    if j == k {
        let back = assembled_from(x.base, x.ours, x.theirs, regs, m, k + 1);
        lemma_undecided_from(x, regs, m, k + 1);
        let around = (Seq::<char>::empty(), back->Ok_0);
        assert forall|n: Map<usize, Choice>|
            #![trigger assembled_from(x.base, x.ours, x.theirs, regs, n, j)]
            (forall|i: int|
                0 <= i < regs.len() && i != k ==> #[trigger] choice_for(n, i) == choice_for(
                    m,
                    i,
                )) implies (match piece(x.base, x.ours, x.theirs, regs[k], choice_for(n, k)) {
            Some(text) => assembled_from(x.base, x.ours, x.theirs, regs, n, j) == Ok::<
                Seq<char>,
                usize,
            >(around.0 + text + around.1),
            None => assembled_from(x.base, x.ours, x.theirs, regs, n, j) is Err,
        }) by {
            lemma_assembled_alike(x, regs, n, m, k + 1);
            if let Some(text) = piece(x.base, x.ours, x.theirs, regs[k], choice_for(n, k)) {
                assert(text + back->Ok_0 =~= around.0 + text + around.1);
            }
        }
        around
    } else {
        let inner = lemma_choice_is_local(x, regs, m, k, j + 1);
        let here = piece(x.base, x.ours, x.theirs, regs[j], choice_for(m, j));
        assert(here is Some) by {
            if regs[j].kind == RegionKind::Conflict {
                assert(m.contains_key(j as usize));
            }
        }
        let around = (here->Some_0 + inner.0, inner.1);
        assert forall|n: Map<usize, Choice>|
            #![trigger assembled_from(x.base, x.ours, x.theirs, regs, n, j)]
            (forall|i: int|
                0 <= i < regs.len() && i != k ==> #[trigger] choice_for(n, i) == choice_for(
                    m,
                    i,
                )) implies (match piece(x.base, x.ours, x.theirs, regs[k], choice_for(n, k)) {
            Some(text) => assembled_from(x.base, x.ours, x.theirs, regs, n, j) == Ok::<
                Seq<char>,
                usize,
            >(around.0 + text + around.1),
            None => assembled_from(x.base, x.ours, x.theirs, regs, n, j) is Err,
        }) by {
            assert(choice_for(n, j) == choice_for(m, j));
            let rest = assembled_from(x.base, x.ours, x.theirs, regs, n, j + 1);
            if let Some(text) = piece(x.base, x.ours, x.theirs, regs[k], choice_for(n, k)) {
                assert(here->Some_0 + (inner.0 + text + inner.1) =~= around.0 + text + around.1);
            }
        }
        around
    }
}

/// A choice decides its own region and nothing else. Where every other conflict has a choice,
/// the assembled texts for the choices of one region are alike around it, and in it stand all
/// the lines of the text that was chosen: ours, theirs, those of the base, the text that was
/// written for it, or, where both were chosen, all of ours and behind them all of theirs.
/// Without a choice the changed side stands there, and a conflict cannot be assembled.
pub proof fn law_a_choice_decides_its_region(
    doc: MergeDocument,
    m: Map<usize, Choice>,
    k: usize,
    written: String,
) -> (around: (Seq<char>, Seq<char>))
    requires
        k < doc.regions@.len() <= usize::MAX,
        forall|i: int|
            0 <= i < doc.regions@.len() && i != k && (#[trigger] doc.regions@[i]).kind
                == RegionKind::Conflict ==> m.contains_key(i as usize),
    ensures
        ({
            let r = doc.regions@[k as int];
            let (front, back) = around;
            let ours = doc.ours().subrange(r.ours.start as int, r.ours.end as int).flatten();
            let theirs = doc.theirs().subrange(
                r.theirs.start as int,
                r.theirs.end as int,
            ).flatten();
            let base = doc.base().subrange(r.base.start as int, r.base.end as int).flatten();
            let given = |c: Choice| doc.assembled(m.insert(k, c));
            let unasked = doc.assembled(m.remove(k));
            &&& given(Choice::Ours) == Ok::<Seq<char>, usize>(front + ours + back)
            &&& given(Choice::Theirs) == Ok::<Seq<char>, usize>(front + theirs + back)
            &&& given(Choice::Base) == Ok::<Seq<char>, usize>(front + base + back)
            &&& given(Choice::Both) == Ok::<Seq<char>, usize>(front + ours + theirs + back)
            &&& given(Choice::Edited(written)) == Ok::<Seq<char>, usize>(front + written@ + back)
            &&& match r.kind {
                RegionKind::Conflict => unasked is Err,
                RegionKind::TheirsOnly => unasked == Ok::<Seq<char>, usize>(front + theirs + back),
                RegionKind::OursOnly | RegionKind::BothSame => unasked == Ok::<Seq<char>, usize>(
                    front + ours + back,
                ),
                RegionKind::Unchanged => unasked == Ok::<Seq<char>, usize>(front + base + back),
            }
        }),
{
    let x = Texts { base: doc.base(), ours: doc.ours(), theirs: doc.theirs() };
    let regs = doc.regions@;
    let around = lemma_choice_is_local(x, regs, m, k as int, 0);
    assert forall|c: Choice, i: int| 0 <= i < regs.len() && i != k implies #[trigger] choice_for(
        m.insert(k, c),
        i,
    ) == choice_for(m, i) by {}
    assert forall|i: int| 0 <= i < regs.len() && i != k implies #[trigger] choice_for(
        m.remove(k),
        i,
    ) == choice_for(m, i) by {}
    let r = regs[k as int];
    let o = cut(x.ours, r.ours).flatten();
    let t = cut(x.theirs, r.theirs).flatten();
    assert(around.0 + (o + t) + around.1 =~= around.0 + o + t + around.1);
    assert(choice_for(m.insert(k, Choice::Ours), k as int) == Some(Choice::Ours));
    assert(choice_for(m.insert(k, Choice::Theirs), k as int) == Some(Choice::Theirs));
    assert(choice_for(m.insert(k, Choice::Base), k as int) == Some(Choice::Base));
    assert(choice_for(m.insert(k, Choice::Both), k as int) == Some(Choice::Both));
    assert(choice_for(m.insert(k, Choice::Edited(written)), k as int) == Some(
        Choice::Edited(written),
    ));
    assert(choice_for(m.remove(k), k as int) is None);
    around
}

// ---------------------------------------------------------------------------
// Regions and hunks

/// The hunk changes lines of the region only.
pub open spec fn within(h: Hunk, r: MergeRegion) -> bool {
    r.base.start <= h.before.start && h.before.end <= r.base.end
}

/// One of the hunks lies in the region.
pub open spec fn some_within(hs: Seq<Hunk>, r: MergeRegion) -> bool {
    exists|m: int| 0 <= m < hs.len() && within(#[trigger] hs[m], r)
}

/// One of the hunks is the region.
pub open spec fn is_one_of(hs: Seq<Hunk>, r: MergeRegion) -> bool {
    exists|m: int|
        0 <= m < hs.len() && (#[trigger] hs[m]).before.start == r.base.start && hs[m].before.end
            == r.base.end
}

/// The kind of the region says whose hunks it holds.
pub open spec fn says_who_changed(s: Sides, r: MergeRegion) -> bool {
    match r.kind {
        RegionKind::Unchanged => {
            &&& forall|m: int|
                0 <= m < s.ours_hunks.len() ==> (#[trigger] s.ours_hunks[m]).before.end
                    <= r.base.start || r.base.end <= s.ours_hunks[m].before.start
            &&& forall|m: int|
                0 <= m < s.theirs_hunks.len() ==> (#[trigger] s.theirs_hunks[m]).before.end
                    <= r.base.start || r.base.end <= s.theirs_hunks[m].before.start
        },
        RegionKind::OursOnly => is_one_of(s.ours_hunks, r) && !some_within(s.theirs_hunks, r),
        RegionKind::TheirsOnly => is_one_of(s.theirs_hunks, r) && !some_within(s.ours_hunks, r),
        RegionKind::BothSame | RegionKind::Conflict => some_within(s.ours_hunks, r)
            && some_within(s.theirs_hunks, r),
    }
}

proof fn lemma_taken(base: Seq<Seq<char>>, s: Sides, i: int, j: int, hi: int)
    requires
        sides_fit(base, s),
        0 <= i <= s.ours_hunks.len(),
        0 <= j <= s.theirs_hunks.len(),
    ensures
        ({
            let (i2, j2, hi2) = grow(s.ours_hunks, s.theirs_hunks, i, j, hi);
            &&& hi <= hi2
            &&& forall|m: int| i <= m < i2 ==> (#[trigger] s.ours_hunks[m]).before.end <= hi2
            &&& forall|m: int| j <= m < j2 ==> (#[trigger] s.theirs_hunks[m]).before.end <= hi2
        }),
    decreases s.ours_hunks.len() - i + s.theirs_hunks.len() - j,
{
    let (ho, ht) = (s.ours_hunks, s.theirs_hunks);
    lemma_grow(ho, ht, i, j, hi);
    if i < ho.len() && ho[i].before.start <= hi {
        lemma_taken(base, s, i + 1, j, max(hi, ho[i].before.end as int));
    } else if j < ht.len() && ht[j].before.start <= hi {
        lemma_taken(base, s, i, j + 1, max(hi, ht[j].before.end as int));
    }
}

/// Once a cluster is done, the next hunks start behind it.
spec fn clear_of(s: Sides, i: int, j: int, cursor: int) -> bool {
    i + j > 0 ==> {
        &&& i < s.ours_hunks.len() ==> cursor < s.ours_hunks[i].before.start
        &&& j < s.theirs_hunks.len() ==> cursor < s.theirs_hunks[j].before.start
    }
}

/// A cluster that holds hunks of one side holds one.
proof fn lemma_lone_cluster(base: Seq<Seq<char>>, s: Sides, i: int, j: int)
    requires
        sides_fit(base, s),
        0 <= i <= s.ours_hunks.len(),
        0 <= j <= s.theirs_hunks.len(),
        i < s.ours_hunks.len() || j < s.theirs_hunks.len(),
    ensures
        ({
            let (ho, ht) = (s.ours_hunks, s.theirs_hunks);
            let lo = cluster_start(ho, ht, i, j);
            let (i2, j2, hi) = grow(ho, ht, i, j, lo);
            &&& j2 == j ==> i2 == i + 1 && lo == ho[i].before.start && hi == ho[i].before.end
            &&& i2 == i ==> j2 == j + 1 && lo == ht[j].before.start && hi == ht[j].before.end
        }),
{
    let (ho, ht) = (s.ours_hunks, s.theirs_hunks);
    let lo = cluster_start(ho, ht, i, j);
    let (i2, j2, hi) = grow(ho, ht, i, j, lo);
    lemma_grow(ho, ht, i, j, lo);
    if i < ho.len() {
        assert(hunk_fits(base.len() as int, s.ours.len() as int, ho, i));
    }
    if j < ht.len() {
        assert(hunk_fits(base.len() as int, s.theirs.len() as int, ht, j));
    }
    if i < ho.len() && ho[i].before.start <= lo {
        let end = max(lo, ho[i].before.end as int);
        lemma_grow(ho, ht, i + 1, j, end);
        if i + 1 < ho.len() {
            assert(ho[i].before.end < ho[i + 1].before.start);
        }
        if j < ht.len() && ht[j].before.start <= end {
            lemma_grow(ho, ht, i + 1, j + 1, max(end, ht[j].before.end as int));
        }
    } else {
        let end = max(lo, ht[j].before.end as int);
        lemma_grow(ho, ht, i, j + 1, end);
        if j + 1 < ht.len() {
            assert(ht[j].before.end < ht[j + 1].before.start);
        }
        if i < ho.len() && ho[i].before.start <= end {
            lemma_grow(ho, ht, i + 1, j + 1, max(end, ho[i].before.end as int));
        }
    }
}

proof fn lemma_hunks_ascend(
    base: Seq<Seq<char>>,
    side: Seq<Seq<char>>,
    h: Seq<Hunk>,
    m: int,
    n: int,
)
    requires
        edit_script(base, side, h),
        0 <= m <= n < h.len(),
    ensures
        h[m].before.start <= h[m].before.end,
        h[m].before.start <= h[n].before.start,
        h[m].before.end <= h[n].before.end,
{
    assert(hunk_fits(base.len() as int, side.len() as int, h, m));
    assert(hunk_fits(base.len() as int, side.len() as int, h, n));
    if m < n {
        assert(h[m].before.end < h[n].before.start);
    }
}

/// The hunks of one side that a cluster takes in, and those that it leaves.
proof fn lemma_cluster_holds(
    base: Seq<Seq<char>>,
    side: Seq<Seq<char>>,
    h: Seq<Hunk>,
    i: int,
    i2: int,
    lo: int,
    hi: int,
    r: MergeRegion,
)
    requires
        edit_script(base, side, h),
        0 <= i <= i2 <= h.len(),
        r.base.start == lo,
        r.base.end == hi,
        lo <= hi,
        i < h.len() ==> lo <= h[i].before.start,
        forall|m: int| i <= m < i2 ==> (#[trigger] h[m]).before.end <= hi,
        i2 < h.len() ==> hi < h[i2].before.start,
        i > 0 ==> h[i - 1].before.end < lo,
    ensures
        forall|m: int| 0 <= m < h.len() ==> (within(#[trigger] h[m], r) <==> i <= m < i2),
        some_within(h, r) <==> i < i2,
{
    assert forall|m: int| 0 <= m < h.len() implies (within(#[trigger] h[m], r) <==> i <= m
        < i2) by {
        if m < i {
            lemma_hunks_ascend(base, side, h, m, i - 1);
        } else if m < i2 {
            lemma_hunks_ascend(base, side, h, i, m);
        } else {
            lemma_hunks_ascend(base, side, h, i2, m);
        }
    }
    if i < i2 {
        assert(within(h[i], r));
    }
}

proof fn lemma_kept_is_clear(
    base: Seq<Seq<char>>,
    side: Seq<Seq<char>>,
    h: Seq<Hunk>,
    i: int,
    from: int,
    to: int,
)
    requires
        edit_script(base, side, h),
        0 <= i <= h.len(),
        kept_from(h, i) <= from,
        i < h.len() ==> to <= h[i].before.start,
    ensures
        forall|m: int|
            0 <= m < h.len() ==> (#[trigger] h[m]).before.end <= from || to <= h[m].before.start,
{
    assert forall|m: int| 0 <= m < h.len() implies (#[trigger] h[m]).before.end <= from || to
        <= h[m].before.start by {
        if m < i {
            lemma_hunks_ascend(base, side, h, m, i - 1);
        } else {
            lemma_hunks_ascend(base, side, h, i, m);
        }
    }
}

/// One of the changed regions holds the hunk.
pub open spec fn is_held(h: Hunk, regs: Seq<MergeRegion>) -> bool {
    exists|k: int|
        0 <= k < regs.len() && (#[trigger] regs[k]).kind != RegionKind::Unchanged && within(
            h,
            regs[k],
        )
}

#[verifier::opaque]
spec fn says(s: Sides, r: MergeRegion) -> bool {
    says_who_changed(s, r)
}

/// The next cluster, and the kept lines before it.
#[verifier::spinoff_prover]
#[verifier::rlimit(30)]
proof fn lemma_cluster_says(base: Seq<Seq<char>>, s: Sides, i: int, j: int, cursor: int)
    requires
        sides_fit(base, s),
        between_clusters(s, i, j, cursor),
        clear_of(s, i, j, cursor),
        i < s.ours_hunks.len() || j < s.theirs_hunks.len(),
        base.len() <= usize::MAX,
        s.ours.len() <= usize::MAX,
        s.theirs.len() <= usize::MAX,
    ensures
        ({
            let (ho, ht) = (s.ours_hunks, s.theirs_hunks);
            let lo = cluster_start(ho, ht, i, j);
            let (i2, j2, hi) = grow(ho, ht, i, j, lo);
            let reg = cluster_region(s, i, j);
            &&& says(s, reg)
            &&& reg.kind != RegionKind::Unchanged
            &&& cursor < lo ==> says(s, kept_region(s, i, j, cursor, lo))
            &&& i <= i2 <= ho.len()
            &&& j <= j2 <= ht.len()
            &&& i < i2 || j < j2
            &&& between_clusters(s, i2, j2, hi)
            &&& clear_of(s, i2, j2, hi)
            &&& forall|m: int| i <= m < i2 ==> within(#[trigger] ho[m], reg)
            &&& forall|m: int| j <= m < j2 ==> within(#[trigger] ht[m], reg)
        }),
{
    reveal(says);
    let (ho, ht) = (s.ours_hunks, s.theirs_hunks);
    lemma_step(base, s, i, j, cursor);
    lemma_cluster(base, s, i, j, cursor);
    let lo = cluster_start(ho, ht, i, j);
    let (i2, j2, hi) = grow(ho, ht, i, j, lo);
    lemma_grow(ho, ht, i, j, lo);
    lemma_taken(base, s, i, j, lo);
    lemma_lone_cluster(base, s, i, j);
    let reg = cluster_region(s, i, j);
    if i > 0 {
        assert(ho[i - 1].before.end <= cursor);
    }
    if j > 0 {
        assert(ht[j - 1].before.end <= cursor);
    }
    lemma_cluster_holds(base, s.ours, ho, i, i2, lo, hi, reg);
    lemma_cluster_holds(base, s.theirs, ht, j, j2, lo, hi, reg);
    if j2 == j {
        assert(ho[i].before.start == reg.base.start);
    } else if i2 == i {
        assert(ht[j].before.start == reg.base.start);
    }
    if cursor < lo {
        lemma_kept_is_clear(base, s.ours, ho, i, cursor, lo);
        lemma_kept_is_clear(base, s.theirs, ht, j, cursor, lo);
    }
}

proof fn lemma_held_behind(h: Hunk, head: Seq<MergeRegion>, rest: Seq<MergeRegion>)
    requires
        is_held(h, rest),
    ensures
        is_held(h, head + rest),
{
    let k = choose|k: int|
        0 <= k < rest.len() && (#[trigger] rest[k]).kind != RegionKind::Unchanged && within(
            h,
            rest[k],
        );
    assert((head + rest)[head.len() + k] == rest[k]);
}

#[verifier::spinoff_prover]
proof fn lemma_regions_say(
    base: Seq<Seq<char>>,
    s: Sides,
    i: int,
    j: int,
    cursor: int,
    first: bool,
)
    requires
        sides_fit(base, s),
        between_clusters(s, i, j, cursor),
        clear_of(s, i, j, cursor),
        base.len() <= usize::MAX,
        s.ours.len() <= usize::MAX,
        s.theirs.len() <= usize::MAX,
    ensures
        forall|k: int|
            0 <= k < regions_from(s, i, j, cursor, first).len() ==> says(
                s,
                #[trigger] regions_from(s, i, j, cursor, first)[k],
            ),
        forall|m: int|
            i <= m < s.ours_hunks.len() ==> is_held(
                #[trigger] s.ours_hunks[m],
                regions_from(s, i, j, cursor, first),
            ),
        forall|m: int|
            j <= m < s.theirs_hunks.len() ==> is_held(
                #[trigger] s.theirs_hunks[m],
                regions_from(s, i, j, cursor, first),
            ),
    decreases s.ours_hunks.len() - i + s.theirs_hunks.len() - j,
{
    let (ho, ht) = (s.ours_hunks, s.theirs_hunks);
    let regs = regions_from(s, i, j, cursor, first);
    if i == ho.len() && j == ht.len() {
        reveal(says);
        lemma_kept_is_clear(base, s.ours, ho, i, cursor, s.base_len);
        lemma_kept_is_clear(base, s.theirs, ht, j, cursor, s.base_len);
        assert forall|k: int| 0 <= k < regs.len() implies says(s, #[trigger] regs[k]) by {
            assert(regs[k].base.start == cursor && regs[k].base.end == s.base_len);
        }
    } else {
        lemma_cluster_says(base, s, i, j, cursor);
        let lo = cluster_start(ho, ht, i, j);
        let (i2, j2, hi) = grow(ho, ht, i, j, lo);
        lemma_regions_say(base, s, i2, j2, hi, false);
        let rest = regions_from(s, i2, j2, hi, false);
        let reg = cluster_region(s, i, j);
        let head = if cursor < lo {
            seq![kept_region(s, i, j, cursor, lo)]
        } else {
            seq![]
        };
        let front = head.push(reg);
        assert(regs == front + rest);
        let n = front.len() as int;
        assert(front[n - 1] == reg);
        assert forall|k: int| 0 <= k < regs.len() implies says(s, #[trigger] regs[k]) by {
            if k >= n {
                assert(regs[k] == rest[k - n]);
            } else {
                assert(regs[k] == front[k]);
            }
        }
        assert forall|m: int| i <= m < ho.len() implies is_held(#[trigger] ho[m], regs) by {
            if m < i2 {
                assert(regs[n - 1] == reg);
                assert(within(ho[m], regs[n - 1]));
            } else {
                lemma_held_behind(ho[m], front, rest);
            }
        }
        assert forall|m: int| j <= m < ht.len() implies is_held(#[trigger] ht[m], regs) by {
            if m < j2 {
                assert(regs[n - 1] == reg);
                assert(within(ht[m], regs[n - 1]));
            } else {
                lemma_held_behind(ht[m], front, rest);
            }
        }
    }
}

/// The kind of every region says who changed it. Where one side alone changed lines, the region
/// is that one change and nothing more; a conflict, or the same change twice, is only where
/// changes of both sides meet; lines that nobody changed are in no change. And no change of
/// either side is lost.
pub proof fn law_regions_say_who_changed_them(base: Seq<Seq<char>>, s: Sides)
    requires
        sides_fit(base, s),
        base.len() <= usize::MAX,
        s.ours.len() <= usize::MAX,
        s.theirs.len() <= usize::MAX,
    ensures
        forall|k: int|
            0 <= k < regions_of(s).len() ==> says_who_changed(s, #[trigger] regions_of(s)[k]),
        forall|m: int|
            0 <= m < s.ours_hunks.len() ==> is_held(#[trigger] s.ours_hunks[m], regions_of(s)),
        forall|m: int|
            0 <= m < s.theirs_hunks.len() ==> is_held(#[trigger] s.theirs_hunks[m], regions_of(s)),
{
    reveal(says);
    lemma_start_between(base, s);
    lemma_regions_say(base, s, 0, 0, 0, true);
    assert forall|k: int| 0 <= k < regions_of(s).len() implies says_who_changed(
        s,
        #[trigger] regions_of(s)[k],
    ) by {
        assert(says(s, regions_of(s)[k]));
    }
}

/// The lines, each with a line feed behind it.
pub open spec fn printed(ls: Seq<Seq<char>>) -> Seq<char>
    decreases ls.len(),
{
    if ls.len() == 0 {
        seq![]
    } else {
        ls[0].push('\n') + printed(ls.drop_first())
    }
}

/// A text that can stand in a line by itself.
pub open spec fn fits_a_line(line: Seq<char>) -> bool {
    !line.contains('\n') && (line.len() > 0 ==> line.last() != '\r')
}

/// Lines that are printed one after the other are read back as they are.
pub proof fn law_printed_lines_are_read_back(ls: Seq<Seq<char>>)
    requires
        forall|k: int| 0 <= k < ls.len() ==> fits_a_line(#[trigger] ls[k]),
    ensures
        bare_lines(printed(ls)) == ls,
    decreases ls.len(),
{
    if ls.len() == 0 {
        assert(bare_lines(printed(ls)) =~= ls);
    } else {
        let rest = ls.drop_first();
        assert forall|k: int| 0 <= k < rest.len() implies fits_a_line(#[trigger] rest[k]) by {
            assert(rest[k] == ls[k + 1]);
        }
        law_printed_lines_are_read_back(rest);
        let p = ls[0].push('\n');
        let q = printed(rest);
        assert(fits_a_line(ls[0]));
        assert forall|i: int| 0 <= i < p.len() - 1 implies p[i] != '\n' by {
            assert(ls[0].contains(ls[0][i]));
        }
        lemma_line_len_found(p, q);
        assert((p + q).take(p.len() as int) =~= p);
        assert((p + q).skip(p.len() as int) =~= q);
        assert(lines_of(p + q) =~= seq![p] + lines_of(q));
        assert(p.drop_last() =~= ls[0]);
        assert(without_ending(p) == ls[0]);
        assert(bare_lines(p + q) =~= seq![ls[0]] + bare_lines(q));
        assert(seq![ls[0]] + rest =~= ls);
    }
}

/// Lines end where line feeds stand: every line but the last ends with one, and none holds one
/// before its end.
pub proof fn law_lines_end_at_line_feeds(s: Seq<char>)
    ensures
        forall|k: int, i: int|
            #![trigger lines_of(s)[k][i]]
            0 <= k < lines_of(s).len() && 0 <= i < lines_of(s)[k].len() - 1 ==> lines_of(s)[k][i]
                != '\n',
        forall|k: int|
            0 <= k < lines_of(s).len() - 1 ==> (#[trigger] lines_of(s)[k]).len() > 0 && lines_of(
                s,
            )[k].last() == '\n',
    decreases s.len(),
{
    if s.len() > 0 {
        lemma_line_len(s);
        let n = line_len(s);
        let rest = s.skip(n);
        law_lines_end_at_line_feeds(rest);
        lemma_first_line(s);
        let all = lines_of(s);
        assert forall|k: int, i: int|
            #![trigger all[k][i]]
            0 <= k < all.len() && 0 <= i < all[k].len() - 1 implies all[k][i] != '\n' by {
            if k > 0 {
                assert(all[k] == lines_of(rest)[k - 1]);
                assert(lines_of(rest)[k - 1][i] != '\n');
            }
        }
        assert forall|k: int| 0 <= k < all.len() - 1 implies (#[trigger] all[k]).len() > 0
            && all[k].last() == '\n' by {
            if k > 0 {
                assert(all[k] == lines_of(rest)[k - 1]);
            } else {
                assert(all.len() == 1 + lines_of(rest).len());
                assert(rest.len() > 0) by {
                    if rest.len() == 0 {
                        assert(lines_of(rest).len() == 0);
                    }
                }
            }
        }
    }
}

proof fn lemma_first_line(s: Seq<char>)
    requires
        s.len() > 0,
    ensures
        0 < line_len(s) <= s.len(),
        forall|i: int| 0 <= i < line_len(s) - 1 ==> s[i] != '\n',
        line_len(s) < s.len() ==> s[line_len(s) - 1] == '\n',
    decreases s.len(),
{
    lemma_line_len(s);
    if s[0] != '\n' && s.len() > 1 {
        let rest = s.drop_first();
        lemma_first_line(rest);
        assert forall|i: int| 0 <= i < line_len(s) - 1 implies s[i] != '\n' by {
            if i > 0 {
                assert(rest[i - 1] == s[i]);
            }
        }
        if line_len(s) < s.len() {
            assert(rest[line_len(rest) - 1] == s[line_len(s) - 1]);
        }
    } else if s[0] != '\n' {
        assert(s.drop_first().len() == 0);
    }
}

/// White space at the end of a line may be ignored, and nothing else: then lines are the same
/// whatever white space they end with, and otherwise only where they are equal.
pub proof fn law_only_white_space_at_the_end_is_ignored(
    a: Seq<char>,
    b: Seq<char>,
    x: Seq<char>,
    y: Seq<char>,
)
    requires
        a.len() > 0 ==> !is_white(a.last()),
        b.len() > 0 ==> !is_white(b.last()),
        forall|k: int| 0 <= k < x.len() ==> is_white(#[trigger] x[k]),
        forall|k: int| 0 <= k < y.len() ==> is_white(#[trigger] y[k]),
    ensures
        same_line(a + x, b + y, true) <==> a == b,
        same_line(a + x, b + y, false) <==> a + x == b + y,
{
    lemma_end_trimmed(a, x);
    lemma_end_trimmed(b, y);
}

proof fn lemma_end_trimmed(a: Seq<char>, x: Seq<char>)
    requires
        a.len() > 0 ==> !is_white(a.last()),
        forall|k: int| 0 <= k < x.len() ==> is_white(#[trigger] x[k]),
    ensures
        trim_end(a + x) == a,
    decreases x.len(),
{
    let all = a + x;
    if x.len() > 0 {
        assert(is_white(x[x.len() - 1]));
        let rest = x.drop_last();
        assert forall|k: int| 0 <= k < rest.len() implies is_white(#[trigger] rest[k]) by {
            assert(rest[k] == x[k]);
        }
        lemma_end_trimmed(a, rest);
        assert(all.drop_last() =~= a + rest);
    } else {
        assert(all =~= a);
    }
}

} // verus!
