//! Which words of two texts differ.

use std::ops::Range;
use vstd::prelude::*;
use vstd::string::*;
use vstd::utf8::*;

use crate::merge::{diff_tokens, displaced, edit_script, histogram_hunks, hunk_fits, kept};
use crate::merge::{kept_from, kept_to, views, Hunk, SliceTokens};
use crate::text::{chars_of, lemma_encode_concat, string_of, strings};

verus! {

/// Texts of more words than this are not compared: they differ as a whole.
pub const MAX_TOKENS: usize = 5000;

/// Whether a character is a letter or a digit of some script.
pub uninterp spec fn alphanumeric(c: char) -> bool;

/// `char::is_alphanumeric`, which depends on the character alone.
#[verifier::external_body]
pub(crate) fn char_is_alphanumeric(c: char) -> (r: bool)
    ensures
        r == alphanumeric(c),
{
    c.is_alphanumeric()
}

/// Whether a character may stand in a word.
pub open spec fn word_char(c: char) -> bool {
    alphanumeric(c) || c == '_' || c == '.' || c == '-'
}

/// Whether a character may stand in a word.
pub fn is_word(c: char) -> (r: bool)
    ensures
        r == word_char(c),
{
    char_is_alphanumeric(c) || c == '_' || c == '.' || c == '-'
}

/// The maximal runs of characters that may stand in a word, and of those that may not.
pub open spec fn runs(s: Seq<char>) -> Seq<Seq<char>>
    decreases s.len(),
{
    if s.len() == 0 {
        seq![]
    } else {
        let front = runs(s.drop_last());
        if s.len() > 1 && word_char(s[s.len() - 2]) == word_char(s.last()) {
            front.drop_last().push(front.last().push(s.last()))
        } else {
            front.push(seq![s.last()])
        }
    }
}

/// The tokens one after the other.
pub open spec fn joined_tokens(t: Seq<Seq<char>>) -> Seq<char>
    decreases t.len(),
{
    if t.len() == 0 {
        seq![]
    } else {
        joined_tokens(t.drop_last()) + t.last()
    }
}

/// All characters of a run are of one kind.
pub open spec fn uniform(run: Seq<char>) -> bool {
    &&& run.len() > 0
    &&& forall|k: int| 0 <= k < run.len() ==> word_char(#[trigger] run[k]) == word_char(run[0])
}

/// The runs of a text rejoin to it; each is of one kind, and the next is of the other.
pub proof fn law_runs_are_maximal_and_rejoin(s: Seq<char>)
    ensures
        joined_tokens(runs(s)) == s,
        forall|k: int| 0 <= k < runs(s).len() ==> uniform(#[trigger] runs(s)[k]),
        forall|k: int|
            0 < k < runs(s).len() ==> word_char(#[trigger] runs(s)[k][0]) != word_char(
                runs(s)[k - 1][0],
            ),
        s.len() > 0 ==> runs(s).len() > 0 && runs(s).last().last() == s.last(),
        runs(s).len() <= s.len(),
    decreases s.len(),
{
    if s.len() > 0 {
        let before = s.drop_last();
        law_runs_are_maximal_and_rejoin(before);
        let front = runs(before);
        let c = s.last();
        let all = runs(s);
        assert(before.push(c) =~= s);
        if s.len() > 1 {
            assert(before.last() == s[s.len() - 2]);
            let last = front.last();
            assert(last == front[front.len() - 1]);
            assert(uniform(last));
            if word_char(s[s.len() - 2]) == word_char(c) {
                let run = last.push(c);
                assert(all.drop_last() =~= front.drop_last());
                assert(joined_tokens(all) =~= joined_tokens(front.drop_last()) + run);
                assert(joined_tokens(all) =~= (joined_tokens(front.drop_last()) + last).push(c));
                assert(uniform(run));
                assert forall|k: int| 0 <= k < all.len() implies uniform(#[trigger] all[k]) by {
                    if k < all.len() - 1 {
                        assert(all[k] == front[k]);
                    }
                }
                assert forall|k: int| 0 < k < all.len() implies word_char(#[trigger] all[k][0])
                    != word_char(all[k - 1][0]) by {
                    assert(all[k][0] == front[k][0]);
                    assert(all[k - 1][0] == front[k - 1][0]);
                }
            } else {
                assert(all.drop_last() =~= front);
                assert(joined_tokens(all) =~= joined_tokens(front).push(c));
                assert forall|k: int| 0 <= k < all.len() implies uniform(#[trigger] all[k]) by {
                    if k < all.len() - 1 {
                        assert(all[k] == front[k]);
                    }
                }
                assert forall|k: int| 0 < k < all.len() implies word_char(#[trigger] all[k][0])
                    != word_char(all[k - 1][0]) by {
                    if k < all.len() - 1 {
                        assert(all[k][0] == front[k][0]);
                    }
                    assert(all[k - 1] == front[k - 1]);
                }
            }
        } else {
            assert(before.len() == 0);
            assert(all =~= seq![seq![c]]);
            assert(all.drop_last() =~= seq![]);
            assert(joined_tokens(all.drop_last()) =~= seq![]);
            assert(joined_tokens(all) =~= seq![c]);
            assert(s =~= seq![c]);
        }
    }
}

/// The bytes of the first `n` tokens.
pub open spec fn bytes_before(t: Seq<Seq<char>>, n: int) -> int
    decreases n,
{
    if n <= 0 {
        0
    } else {
        bytes_before(t, n - 1) + encode_utf8(t[n - 1]).len()
    }
}

proof fn lemma_bytes_before(t: Seq<Seq<char>>, n: int)
    requires
        0 <= n <= t.len(),
    ensures
        bytes_before(t, n) == encode_utf8(joined_tokens(t.take(n))).len(),
    decreases n,
{
    if n > 0 {
        lemma_bytes_before(t, n - 1);
        assert(t.take(n).drop_last() =~= t.take(n - 1));
        lemma_encode_concat(joined_tokens(t.take(n - 1)), t[n - 1]);
    } else {
        assert(joined_tokens(t.take(0)) =~= seq![]);
        assert(encode_utf8(seq![]) =~= seq![]);
    }
}

proof fn lemma_bytes_ascend(t: Seq<Seq<char>>, m: int, n: int)
    requires
        0 <= m <= n,
    ensures
        0 <= bytes_before(t, m) <= bytes_before(t, n),
    decreases n,
{
    if m < n {
        lemma_bytes_ascend(t, m, n - 1);
    } else if m > 0 {
        lemma_bytes_ascend(t, m - 1, n - 1);
    }
}

/// The runs of a text.
pub fn tokens(s: &str) -> (r: Vec<String>)
    ensures
        strings(r@) == runs(s@),
{
    let v = chars_of(s);
    let mut out: Vec<String> = Vec::new();
    let mut start: usize = 0;
    let mut i: usize = 0;
    assert(strings(out@) =~= seq![]);
    assert(v@.take(0) =~= seq![]);
    while i < v.len()
        invariant
            v@ == s@,
            start <= i <= v@.len(),
            i == 0 ==> start == 0 && out@.len() == 0,
            i > 0 ==> start < i && runs(v@.take(i as int)) == strings(out@).push(
                v@.subrange(start as int, i as int),
            ),
        decreases v@.len() - i,
    {
        let ghost had = strings(out@);
        let ghost now = v@.take(i + 1);
        assert(now.drop_last() =~= v@.take(i as int));
        let c = v[i];
        if i > 0 {
            let ghost run = v@.subrange(start as int, i as int);
            assert(now[now.len() - 2] == v@[i - 1]);
            if is_word(v[i - 1]) != is_word(c) {
                let piece = string_of(v.as_slice(), start, i);
                out.push(piece);
                start = i;
                assert(strings(out@) =~= had.push(run));
                assert(v@.subrange(start as int, i + 1) =~= seq![c]);
            } else {
                assert(had.push(run).drop_last() =~= had);
                assert(v@.subrange(start as int, i + 1) =~= run.push(c));
            }
        } else {
            assert(runs(now.drop_last()) =~= seq![]);
            assert(v@.subrange(0, 1) =~= seq![c]);
            assert(had =~= seq![]);
        }
        i = i + 1;
    }
    assert(v@.take(v@.len() as int) =~= v@);
    if v.len() > 0 {
        let ghost had = strings(out@);
        let piece = string_of(v.as_slice(), start, v.len());
        let ghost p = piece@;
        out.push(piece);
        assert(strings(out@) =~= had.push(p));
    }
    out
}

/// The parts of two texts that differ, as ranges of bytes.
#[derive(Debug)]
pub struct WordDiff {
    pub changed_a: Vec<Range<usize>>,
    pub changed_b: Vec<Range<usize>>,
}

impl Default for WordDiff {
    fn default() -> (r: Self)
        ensures
            r.changed_a@.len() == 0,
            r.changed_b@.len() == 0,
    {
        WordDiff { changed_a: Vec::new(), changed_b: Vec::new() }
    }
}

/// The ranges of tokens that hunks change in one of the texts.
pub open spec fn token_ranges(h: Seq<Hunk>, in_a: bool) -> Seq<Range<u32>> {
    h.map_values(
        |x: Hunk|
            if in_a {
                x.before
            } else {
                x.after
            },
    )
}

/// The bytes of the first `n` ranges of tokens; a range without tokens has none.
pub open spec fn byte_ranges(t: Seq<Seq<char>>, ranges: Seq<Range<u32>>, n: int) -> Seq<
    Range<usize>,
>
    decreases n,
{
    if n <= 0 {
        seq![]
    } else {
        let front = byte_ranges(t, ranges, n - 1);
        let r = ranges[n - 1];
        if r.start >= r.end {
            front
        } else {
            front.push(
                Range {
                    start: bytes_before(t, r.start as int) as usize,
                    end: bytes_before(t, r.end as int) as usize,
                },
            )
        }
    }
}

/// The whole text, unless it is empty.
pub open spec fn whole(s: Seq<char>) -> Seq<Range<usize>> {
    if s.len() == 0 {
        seq![]
    } else {
        seq![Range { start: 0usize, end: encode_utf8(s).len() as usize }]
    }
}

fn offsets(t: &Vec<String>, Ghost(s): Ghost<Seq<char>>, len: usize) -> (r: Vec<usize>)
    requires
        joined_tokens(strings(t@)) == s,
        encode_utf8(s).len() == len,
    ensures
        r@.len() == t@.len() + 1,
        forall|k: int| 0 <= k < r@.len() ==> #[trigger] r@[k] == bytes_before(strings(t@), k),
{
    let ghost all = strings(t@);
    proof {
        lemma_bytes_before(all, all.len() as int);
        assert(all.take(all.len() as int) =~= all);
    }
    let mut out: Vec<usize> = vec![0];
    let mut i: usize = 0;
    while i < t.len()
        invariant
            all == strings(t@),
            bytes_before(all, all.len() as int) == len,
            i <= t@.len(),
            out@.len() == i + 1,
            forall|k: int| 0 <= k <= i ==> #[trigger] out@[k] == bytes_before(all, k),
        decreases t@.len() - i,
    {
        proof {
            lemma_bytes_ascend(all, i + 1, all.len() as int);
            lemma_bytes_ascend(all, i as int, all.len() as int);
            assert(all[i as int] == t@[i as int]@);
        }
        let n: usize = out[i] + t[i].as_str().as_bytes().len();
        out.push(n);
        i = i + 1;
    }
    out
}

/// The bytes that hunks change in one of the texts, given by its tokens.
pub fn changed_bytes(t: &Vec<String>, text: &str, hunks: &Vec<Hunk>, in_a: bool) -> (r: Vec<
    Range<usize>,
>)
    requires
        joined_tokens(strings(t@)) == text@,
        forall|k: int|
            0 <= k < hunks@.len() ==> {
                let x = #[trigger] token_ranges(hunks@, in_a)[k];
                x.start <= x.end <= t@.len()
            },
    ensures
        r@ == byte_ranges(strings(t@), token_ranges(hunks@, in_a), hunks@.len() as int),
{
    let offs = offsets(t, Ghost(text@), text.as_bytes().len());
    let ghost all = strings(t@);
    let mut out: Vec<Range<usize>> = Vec::new();
    let mut i: usize = 0;
    while i < hunks.len()
        invariant
            all == strings(t@),
            i <= hunks@.len(),
            offs@.len() == t@.len() + 1,
            forall|k: int| 0 <= k < offs@.len() ==> #[trigger] offs@[k] == bytes_before(all, k),
            forall|k: int|
                0 <= k < hunks@.len() ==> {
                    let x = #[trigger] token_ranges(hunks@, in_a)[k];
                    x.start <= x.end <= t@.len()
                },
            out@ == byte_ranges(all, token_ranges(hunks@, in_a), i as int),
        decreases hunks@.len() - i,
    {
        let ghost x = token_ranges(hunks@, in_a)[i as int];
        let (from, to): (u32, u32) = if in_a {
            (hunks[i].before.start, hunks[i].before.end)
        } else {
            (hunks[i].after.start, hunks[i].after.end)
        };
        assert(x.start == from && x.end == to);
        if from < to {
            let r = Range { start: offs[from as usize], end: offs[to as usize] };
            out.push(r);
        }
        i = i + 1;
    }
    out
}

fn slices(v: &Vec<String>) -> (r: Vec<&str>)
    ensures
        views(r@) == strings(v@),
{
    let mut out: Vec<&str> = Vec::new();
    let mut i: usize = 0;
    while i < v.len()
        invariant
            i <= v@.len(),
            out@.len() == i,
            forall|k: int| 0 <= k < i ==> (#[trigger] out@[k])@ == v@[k]@,
        decreases v@.len() - i,
    {
        out.push(v[i].as_str());
        i = i + 1;
    }
    assert(views(out@) =~= strings(v@));
    out
}

/// The words of two texts that differ: of the one, and of the other.
pub open spec fn changed_words(a: Seq<char>, b: Seq<char>) -> (Seq<Range<usize>>, Seq<Range<usize>>) {
    let (ta, tb) = (runs(a), runs(b));
    let h = histogram_hunks(ta, tb);
    if ta.len() > MAX_TOKENS || tb.len() > MAX_TOKENS {
        (whole(a), whole(b))
    } else {
        (
            byte_ranges(ta, token_ranges(h, true), h.len() as int),
            byte_ranges(tb, token_ranges(h, false), h.len() as int),
        )
    }
}

/// The ranges hold bytes of a text of `len`; they stand in order and apart.
pub open spec fn in_order(v: Seq<Range<usize>>, len: int) -> bool {
    &&& forall|k: int| 0 <= k < v.len() ==> (#[trigger] v[k]).start < v[k].end <= len
    &&& forall|j: int, k: int|
        #![trigger v[j], v[k]]
        0 <= j < k < v.len() ==> v[j].end < v[k].start
}

proof fn lemma_bytes_climb(t: Seq<Seq<char>>, m: int, n: int)
    requires
        0 <= m < n <= t.len(),
        forall|k: int| 0 <= k < t.len() ==> uniform(#[trigger] t[k]),
    ensures
        bytes_before(t, m) < bytes_before(t, n),
{
    lemma_bytes_ascend(t, m, n - 1);
    assert(uniform(t[n - 1]));
    lemma_some_bytes(t[n - 1]);
}

proof fn lemma_ranges_in_order(t: Seq<Seq<char>>, ranges: Seq<Range<u32>>, n: int)
    requires
        0 <= n <= ranges.len(),
        bytes_before(t, t.len() as int) <= usize::MAX,
        forall|k: int| 0 <= k < t.len() ==> uniform(#[trigger] t[k]),
        forall|k: int|
            0 <= k < ranges.len() ==> (#[trigger] ranges[k]).start <= ranges[k].end <= t.len(),
        forall|j: int, k: int|
            #![trigger ranges[j], ranges[k]]
            0 <= j < k < ranges.len() ==> ranges[j].end < ranges[k].start,
    ensures
        in_order(byte_ranges(t, ranges, n), bytes_before(t, t.len() as int)),
        forall|k: int|
            0 <= k < byte_ranges(t, ranges, n).len() ==> (#[trigger] byte_ranges(
                t,
                ranges,
                n,
            )[k]).end <= bytes_before(t, ranges[n - 1].end as int),
    decreases n,
{
    if n > 0 {
        lemma_ranges_in_order(t, ranges, n - 1);
        let r = ranges[n - 1];
        lemma_bytes_ascend(t, r.start as int, r.end as int);
        lemma_bytes_ascend(t, r.end as int, t.len() as int);
        if r.start < r.end {
            lemma_bytes_climb(t, r.start as int, r.end as int);
        }
        if n > 1 {
            let p = ranges[n - 2];
            lemma_bytes_climb(t, p.end as int, r.start as int);
        }
    }
}

proof fn lemma_changes_in_order(
    s: Seq<char>,
    ta: Seq<Seq<char>>,
    tb: Seq<Seq<char>>,
    h: Seq<Hunk>,
    in_a: bool,
    len: usize,
)
    requires
        edit_script(ta, tb, h),
        runs(s) == if in_a {
            ta
        } else {
            tb
        },
        encode_utf8(s).len() == len,
    ensures
        in_order(byte_ranges(runs(s), token_ranges(h, in_a), h.len() as int), len as int),
{
    let t = runs(s);
    let ranges = token_ranges(h, in_a);
    law_runs_are_maximal_and_rejoin(s);
    lemma_bytes_before(t, t.len() as int);
    assert(t.take(t.len() as int) =~= t);
    assert forall|k: int| 0 <= k < ranges.len() implies (#[trigger] ranges[k]).start
        <= ranges[k].end <= t.len() by {
        assert(hunk_fits(ta.len() as int, tb.len() as int, h, k));
    }
    lemma_ranges_in_order(t, ranges, h.len() as int);
}

/// The words of two texts that differ. Equal texts do not differ, unless they are not compared.
#[verifier::rlimit(30)]
pub fn word_diff(a: &str, b: &str) -> (r: WordDiff)
    ensures
        r.changed_a@ == changed_words(a@, b@).0,
        r.changed_b@ == changed_words(a@, b@).1,
        ({
            let (ta, tb) = (runs(a@), runs(b@));
            ta.len() <= MAX_TOKENS && tb.len() <= MAX_TOKENS ==> {
                &&& edit_script(ta, tb, histogram_hunks(ta, tb))
                &&& a@ == b@ ==> r.changed_a@.len() == 0 && r.changed_b@.len() == 0
            }
        }),
        in_order(r.changed_a@, encode_utf8(a@).len() as int),
        in_order(r.changed_b@, encode_utf8(b@).len() as int),
{
    let ta = tokens(a);
    let tb = tokens(b);
    proof {
        law_runs_are_maximal_and_rejoin(a@);
        law_runs_are_maximal_and_rejoin(b@);
    }
    assert(strings(ta@).len() == ta@.len());
    assert(strings(tb@).len() == tb@.len());
    if ta.len() > MAX_TOKENS || tb.len() > MAX_TOKENS {
        let mut out = WordDiff::default();
        if a.as_bytes().len() > 0 {
            assert(a@.len() > 0) by {
                if a@.len() == 0 {
                    assert(encode_utf8(a@) =~= seq![]);
                }
            }
            out.changed_a.push(Range { start: 0usize, end: a.as_bytes().len() });
        } else {
            proof {
                lemma_some_bytes(a@);
            }
        }
        if b.as_bytes().len() > 0 {
            assert(b@.len() > 0) by {
                if b@.len() == 0 {
                    assert(encode_utf8(b@) =~= seq![]);
                }
            }
            out.changed_b.push(Range { start: 0usize, end: b.as_bytes().len() });
        } else {
            proof {
                lemma_some_bytes(b@);
            }
        }
        assert(out.changed_a@ =~= whole(a@));
        assert(out.changed_b@ =~= whole(b@));
        return out;
    }
    let a_len: usize = a.as_bytes().len();
    let b_len: usize = b.as_bytes().len();
    let sa = slices(&ta);
    let sb = slices(&tb);
    let hunks = diff_tokens(SliceTokens(sa.as_slice()), SliceTokens(sb.as_slice()));
    assert forall|k: int| 0 <= k < hunks@.len() implies {
        let x = #[trigger] token_ranges(hunks@, true)[k];
        x.start <= x.end <= ta@.len()
    } by {
        assert(hunk_fits(sa@.len() as int, sb@.len() as int, hunks@, k));
    }
    assert forall|k: int| 0 <= k < hunks@.len() implies {
        let x = #[trigger] token_ranges(hunks@, false)[k];
        x.start <= x.end <= tb@.len()
    } by {
        assert(hunk_fits(sa@.len() as int, sb@.len() as int, hunks@, k));
    }
    let changed_a = changed_bytes(&ta, a, &hunks, true);
    let changed_b = changed_bytes(&tb, b, &hunks, false);
    proof {
        lemma_changes_in_order(a@, runs(a@), runs(b@), hunks@, true, a_len);
        lemma_changes_in_order(b@, runs(a@), runs(b@), hunks@, false, b_len);
    }
    WordDiff { changed_a, changed_b }
}

proof fn lemma_some_bytes(s: Seq<char>)
    ensures
        s.len() > 0 ==> encode_utf8(s).len() > 0,
{
}

// ---------------------------------------------------------------------------
// What is left of the texts

/// The bytes before `upto` that lie in none of the first `n` ranges.
pub open spec fn left_over(b: Seq<u8>, v: Seq<Range<usize>>, n: int, upto: int) -> Seq<u8>
    decreases n,
{
    if n <= 0 {
        b.subrange(0, upto)
    } else {
        left_over(b, v, n - 1, v[n - 1].start as int) + b.subrange(v[n - 1].end as int, upto)
    }
}

/// The place lies between two characters of the text, or at one of its ends.
pub open spec fn between_chars(s: Seq<char>, at: int) -> bool {
    exists|i: int| 0 <= i <= s.len() && #[trigger] encode_utf8(s.take(i)).len() == at
}

proof fn lemma_joined_concat(x: Seq<Seq<char>>, y: Seq<Seq<char>>)
    ensures
        joined_tokens(x + y) == joined_tokens(x) + joined_tokens(y),
    decreases y.len(),
{
    if y.len() == 0 {
        assert(x + y =~= x);
        assert(joined_tokens(x) + joined_tokens(y) =~= joined_tokens(x));
    } else {
        lemma_joined_concat(x, y.drop_last());
        assert((x + y).drop_last() =~= x + y.drop_last());
        assert(joined_tokens(x) + joined_tokens(y.drop_last()) + y.last() =~= joined_tokens(x) + (
        joined_tokens(y.drop_last()) + y.last()));
    }
}

proof fn lemma_middle(x: Seq<u8>, y: Seq<u8>, z: Seq<u8>)
    ensures
        (x + y + z).subrange(x.len() as int, (x.len() + y.len()) as int) == y,
        (x + y + z).len() == x.len() + y.len() + z.len(),
{
    assert((x + y + z).subrange(x.len() as int, (x.len() + y.len()) as int) =~= y);
}

/// A text in front of some tokens ends between characters.
#[verifier::spinoff_prover]
proof fn lemma_token_ends(s: Seq<char>, t: Seq<Seq<char>>, m: int)
    requires
        joined_tokens(t) == s,
        0 <= m <= t.len(),
    ensures
        between_chars(s, bytes_before(t, m)),
{
    let (front, back) = (t.take(m), t.skip(m));
    lemma_bytes_before(t, m);
    assert(front + back =~= t);
    lemma_joined_concat(front, back);
    let (x, y) = (joined_tokens(front), joined_tokens(back));
    assert((x + y).take(x.len() as int) =~= x);
    assert(encode_utf8(s.take(x.len() as int)).len() == bytes_before(t, m));
}

/// The bytes of some tokens of a text.
#[verifier::spinoff_prover]
proof fn lemma_token_bytes(s: Seq<char>, t: Seq<Seq<char>>, m: int, n: int)
    requires
        joined_tokens(t) == s,
        0 <= m <= n <= t.len(),
    ensures
        0 <= bytes_before(t, m) <= bytes_before(t, n) <= encode_utf8(s).len(),
        encode_utf8(s).subrange(bytes_before(t, m), bytes_before(t, n)) == encode_utf8(
            joined_tokens(t.subrange(m, n)),
        ),
        between_chars(s, bytes_before(t, m)),
        bytes_before(t, t.len() as int) == encode_utf8(s).len(),
{
    lemma_token_ends(s, t, m);
    let (front, mid, back) = (t.take(m), t.subrange(m, n), t.skip(n));
    lemma_bytes_before(t, m);
    lemma_bytes_before(t, n);
    lemma_bytes_before(t, t.len() as int);
    assert(t.take(t.len() as int) =~= t);
    assert(t.take(n) =~= front + mid);
    assert(t.take(n) + back =~= t);
    lemma_joined_concat(front, mid);
    lemma_joined_concat(t.take(n), back);
    let (x, y, z) = (joined_tokens(front), joined_tokens(mid), joined_tokens(back));
    lemma_encode_concat(x, y);
    lemma_encode_concat(x + y, z);
    assert(encode_utf8(s) == encode_utf8(x) + encode_utf8(y) + encode_utf8(z));
    lemma_middle(encode_utf8(x), encode_utf8(y), encode_utf8(z));
}

proof fn lemma_left_over_grows(b: Seq<u8>, v: Seq<Range<usize>>, n: int, p: int, q: int)
    requires
        0 <= n <= v.len(),
        0 <= p <= q <= b.len(),
        n > 0 ==> v[n - 1].end <= p,
    ensures
        left_over(b, v, n, q) == left_over(b, v, n, p) + b.subrange(p, q),
{
    if n == 0 {
        assert(b.subrange(0, q) =~= b.subrange(0, p) + b.subrange(p, q));
    } else {
        let e = v[n - 1].end as int;
        let front = left_over(b, v, n - 1, v[n - 1].start as int);
        assert(b.subrange(e, q) =~= b.subrange(e, p) + b.subrange(p, q));
        assert(front + (b.subrange(e, p) + b.subrange(p, q)) =~= front + b.subrange(e, p)
            + b.subrange(p, q));
    }
}

/// What a hunk leaves over of one of the texts, and what is kept behind it.
proof fn lemma_left_over_step(
    s: Seq<char>,
    t: Seq<Seq<char>>,
    ranges: Seq<Range<u32>>,
    n: int,
    q: int,
)
    requires
        joined_tokens(t) == s,
        encode_utf8(s).len() <= usize::MAX,
        forall|k: int| 0 <= k < t.len() ==> uniform(#[trigger] t[k]),
        forall|k: int|
            0 <= k < ranges.len() ==> (#[trigger] ranges[k]).start <= ranges[k].end <= t.len(),
        forall|j: int, k: int|
            #![trigger ranges[j], ranges[k]]
            0 <= j < k < ranges.len() ==> ranges[j].end < ranges[k].start,
        0 < n <= ranges.len(),
        ranges[n - 1].end <= q <= t.len(),
    ensures
        ({
            let b = encode_utf8(s);
            let (front, all) = (byte_ranges(t, ranges, n - 1), byte_ranges(t, ranges, n));
            left_over(b, all, all.len() as int, bytes_before(t, q)) == left_over(
                b,
                front,
                front.len() as int,
                bytes_before(t, ranges[n - 1].start as int),
            ) + b.subrange(bytes_before(t, ranges[n - 1].end as int), bytes_before(t, q))
        }),
{
    let b = encode_utf8(s);
    let r = ranges[n - 1];
    let (front, all) = (byte_ranges(t, ranges, n - 1), byte_ranges(t, ranges, n));
    lemma_token_bytes(s, t, r.start as int, r.end as int);
    lemma_token_bytes(s, t, r.end as int, q);
    if r.start >= r.end {
        lemma_ranges_in_order(t, ranges, n - 1);
        let p = bytes_before(t, r.start as int);
        if front.len() > 0 {
            assert(front[front.len() - 1].end <= bytes_before(t, ranges[n - 2].end as int));
            lemma_bytes_ascend(t, ranges[n - 2].end as int, r.start as int);
        }
        lemma_left_over_grows(b, front, front.len() as int, p, bytes_before(t, q));
    } else {
        lemma_left_over_prefix(b, front, all, front.len() as int, bytes_before(t, r.start as int));
        assert(all.len() == front.len() + 1);
    }
}

proof fn lemma_left_over_prefix(
    b: Seq<u8>,
    v: Seq<Range<usize>>,
    w: Seq<Range<usize>>,
    n: int,
    p: int,
)
    requires
        0 <= n <= v.len(),
        n <= w.len(),
        forall|k: int| 0 <= k < n ==> v[k] == w[k],
    ensures
        left_over(b, v, n, p) == left_over(b, w, n, p),
    decreases n,
{
    if n > 0 {
        lemma_left_over_prefix(b, v, w, n - 1, v[n - 1].start as int);
    }
}

/// The ranges of one side of an edit script stand in the tokens, in order and apart.
proof fn lemma_side_ranges(ta: Seq<Seq<char>>, tb: Seq<Seq<char>>, h: Seq<Hunk>, in_a: bool)
    requires
        edit_script(ta, tb, h),
    ensures
        ({
            let ranges = token_ranges(h, in_a);
            let len = if in_a {
                ta.len()
            } else {
                tb.len()
            };
            &&& ranges.len() == h.len()
            &&& forall|k: int|
                0 <= k < ranges.len() ==> (#[trigger] ranges[k]).start <= ranges[k].end <= len
            &&& forall|j: int, k: int|
                #![trigger ranges[j], ranges[k]]
                0 <= j < k < ranges.len() ==> ranges[j].end < ranges[k].start
        }),
{
    let ranges = token_ranges(h, in_a);
    assert forall|k: int| 0 <= k < ranges.len() implies (#[trigger] ranges[k]).start
        <= ranges[k].end && ranges[k].end <= if in_a {
        ta.len()
    } else {
        tb.len()
    } by {
        assert(hunk_fits(ta.len() as int, tb.len() as int, h, k));
    }
}

/// Up to a token that is kept, the same is left of both texts.
proof fn lemma_same_left_over(a: Seq<char>, b: Seq<char>, h: Seq<Hunk>, n: int, q: int)
    requires
        edit_script(runs(a), runs(b), h),
        encode_utf8(a).len() <= usize::MAX,
        encode_utf8(b).len() <= usize::MAX,
        0 <= n <= h.len(),
        kept_from(h, n) <= q <= kept_to(runs(a).len() as int, h, n),
    ensures
        0 <= q + displaced(h, n) <= runs(b).len(),
        ({
            let va = byte_ranges(runs(a), token_ranges(h, true), n);
            let vb = byte_ranges(runs(b), token_ranges(h, false), n);
            left_over(encode_utf8(a), va, va.len() as int, bytes_before(runs(a), q)) == left_over(
                encode_utf8(b),
                vb,
                vb.len() as int,
                bytes_before(runs(b), q + displaced(h, n)),
            )
        }),
    decreases n,
{
    let (ta, tb) = (runs(a), runs(b));
    let (ra, rb) = (token_ranges(h, true), token_ranges(h, false));
    law_runs_are_maximal_and_rejoin(a);
    law_runs_are_maximal_and_rejoin(b);
    lemma_side_ranges(ta, tb, h, true);
    lemma_side_ranges(ta, tb, h, false);
    let d = displaced(h, n);
    if n < h.len() {
        assert(hunk_fits(ta.len() as int, tb.len() as int, h, n));
    }
    if n == 0 {
        assert forall|p: int| 0 <= p < q implies ta[p] == tb[p] by {
            assert(kept(ta.len() as int, h, 0, p));
        }
        assert(ta.subrange(0, q) =~= tb.subrange(0, q));
        lemma_token_bytes(a, ta, 0, q);
        lemma_token_bytes(b, tb, 0, q);
    } else {
        let x = h[n - 1];
        assert(hunk_fits(ta.len() as int, tb.len() as int, h, n - 1));
        assert(ra[n - 1] == x.before && rb[n - 1] == x.after);
        if n > 1 {
            assert(h[n - 2].before.end < h[n - 1].before.start);
        }
        lemma_same_left_over(a, b, h, n - 1, x.before.start as int);
        lemma_left_over_step(a, ta, ra, n, q);
        lemma_left_over_step(b, tb, rb, n, q + d);
        assert forall|p: int| x.before.end <= p < q implies ta[p] == tb[p + d] by {
            assert(kept(ta.len() as int, h, n, p));
        }
        assert(ta.subrange(x.before.end as int, q) =~= tb.subrange(x.after.end as int, q + d));
        lemma_token_bytes(a, ta, x.before.end as int, q);
        lemma_token_bytes(b, tb, x.after.end as int, q + d);
    }
}

/// The ends of the ranges lie between characters.
proof fn lemma_ranges_between_chars(
    s: Seq<char>,
    t: Seq<Seq<char>>,
    ranges: Seq<Range<u32>>,
    n: int,
    k: int,
)
    requires
        joined_tokens(t) == s,
        encode_utf8(s).len() <= usize::MAX,
        forall|i: int|
            0 <= i < ranges.len() ==> (#[trigger] ranges[i]).start <= ranges[i].end <= t.len(),
        0 <= n <= ranges.len(),
        0 <= k < byte_ranges(t, ranges, n).len(),
    ensures
        between_chars(s, byte_ranges(t, ranges, n)[k].start as int),
        between_chars(s, byte_ranges(t, ranges, n)[k].end as int),
    decreases n,
{
    let front = byte_ranges(t, ranges, n - 1);
    if k < front.len() {
        lemma_ranges_between_chars(s, t, ranges, n - 1, k);
    } else {
        let r = ranges[n - 1];
        lemma_token_bytes(s, t, r.start as int, r.end as int);
        lemma_token_bytes(s, t, r.end as int, r.end as int);
    }
}

/// The ranges hold all that differs: what lies outside of them is the same in both texts. And
/// they cut no character in two.
pub proof fn law_changed_words_hold_all_that_differs(a: Seq<char>, b: Seq<char>)
    requires
        runs(a).len() <= MAX_TOKENS && runs(b).len() <= MAX_TOKENS ==> edit_script(
            runs(a),
            runs(b),
            histogram_hunks(runs(a), runs(b)),
        ),
        encode_utf8(a).len() <= usize::MAX,
        encode_utf8(b).len() <= usize::MAX,
    ensures
        ({
            let (va, vb) = changed_words(a, b);
            let (x, y) = (encode_utf8(a), encode_utf8(b));
            left_over(x, va, va.len() as int, x.len() as int) == left_over(
                y,
                vb,
                vb.len() as int,
                y.len() as int,
            )
        }),
        forall|k: int|
            0 <= k < changed_words(a, b).0.len() ==> between_chars(
                a,
                (#[trigger] changed_words(a, b).0[k]).start as int,
            ) && between_chars(a, changed_words(a, b).0[k].end as int),
        forall|k: int|
            0 <= k < changed_words(a, b).1.len() ==> between_chars(
                b,
                (#[trigger] changed_words(a, b).1[k]).start as int,
            ) && between_chars(b, changed_words(a, b).1[k].end as int),
{
    let (ta, tb) = (runs(a), runs(b));
    let h = histogram_hunks(ta, tb);
    let (va, vb) = changed_words(a, b);
    if ta.len() > MAX_TOKENS || tb.len() > MAX_TOKENS {
        lemma_whole_left_over(a);
        lemma_whole_left_over(b);
    } else {
        let n = h.len() as int;
        if n > 0 {
            assert(hunk_fits(ta.len() as int, tb.len() as int, h, n - 1));
        }
        law_runs_are_maximal_and_rejoin(a);
        law_runs_are_maximal_and_rejoin(b);
        lemma_side_ranges(ta, tb, h, true);
        lemma_side_ranges(ta, tb, h, false);
        lemma_same_left_over(a, b, h, n, ta.len() as int);
        lemma_token_bytes(a, ta, 0, 0);
        lemma_token_bytes(b, tb, 0, 0);
        assert forall|k: int| 0 <= k < va.len() implies between_chars(
            a,
            (#[trigger] va[k]).start as int,
        ) && between_chars(a, va[k].end as int) by {
            lemma_ranges_between_chars(a, ta, token_ranges(h, true), n, k);
        }
        assert forall|k: int| 0 <= k < vb.len() implies between_chars(
            b,
            (#[trigger] vb[k]).start as int,
        ) && between_chars(b, vb[k].end as int) by {
            lemma_ranges_between_chars(b, tb, token_ranges(h, false), n, k);
        }
    }
}

proof fn lemma_whole_left_over(s: Seq<char>)
    requires
        encode_utf8(s).len() <= usize::MAX,
    ensures
        left_over(encode_utf8(s), whole(s), whole(s).len() as int, encode_utf8(s).len() as int)
            == Seq::<u8>::empty(),
        forall|k: int|
            0 <= k < whole(s).len() ==> between_chars(s, (#[trigger] whole(s)[k]).start as int)
                && between_chars(s, whole(s)[k].end as int),
{
    let b = encode_utf8(s);
    reveal_with_fuel(left_over, 2);
    assert(s.take(0) =~= seq![]);
    assert(encode_utf8(s.take(0)).len() == 0);
    assert(s.take(s.len() as int) =~= s);
    assert(encode_utf8(s.take(s.len() as int)).len() == b.len());
    assert(left_over(b, whole(s), whole(s).len() as int, b.len() as int) =~= seq![]);
}

/// Letters and digits, underscores, dots and dashes.
pub open spec fn is_wordly(s: Seq<char>) -> bool {
    forall|k: int|
        0 <= k < s.len() ==> alphanumeric(#[trigger] s[k]) || s[k] == '_' || s[k] == '.' || s[k]
            == '-'
}

/// None of those.
pub open spec fn is_wordless(s: Seq<char>) -> bool {
    forall|k: int|
        0 <= k < s.len() ==> !alphanumeric(#[trigger] s[k]) && s[k] != '_' && s[k] != '.' && s[k]
            != '-'
}

/// A word is not cut in two at an underscore, a dot or a dash, and neither is what stands between
/// two words; and where the one ends and the other starts is a cut.
pub proof fn law_words_are_not_cut(a: Seq<char>, b: Seq<char>)
    requires
        a.len() > 0,
        is_wordly(a) && is_wordless(b) || is_wordless(a) && is_wordly(b),
    ensures
        runs(a) == seq![a],
        b.len() > 0 ==> runs(a + b) == seq![a, b],
    decreases a.len() + b.len(),
{
    if b.len() == 0 {
        let front = a.drop_last();
        if front.len() > 0 {
            assert forall|k: int| 0 <= k < front.len() implies front[k] == #[trigger] a[k] by {}
            law_words_are_not_cut(front, b);
            assert(front.push(a.last()) =~= a);
            assert(runs(a) =~= seq![a]);
        } else {
            assert(seq![a.last()] =~= a);
            assert(runs(front) =~= seq![]);
            assert(runs(a) =~= seq![a]);
        }
    } else {
        let front = b.drop_last();
        assert forall|k: int| 0 <= k < front.len() implies front[k] == #[trigger] b[k] by {}
        law_words_are_not_cut(a, front);
        let all = a + b;
        assert(all.drop_last() =~= a + front);
        assert(all.last() == b.last());
        if front.len() > 0 {
            assert(all[all.len() - 2] == b[b.len() - 2]);
            assert(front.push(b.last()) =~= b);
        } else {
            assert(all[all.len() - 2] == a.last());
            assert(a + front =~= a);
            assert(seq![b.last()] =~= b);
        }
        assert(runs(all) =~= seq![a, b]);
    }
}

/// The byte is in one of the ranges.
pub open spec fn is_marked(v: Seq<Range<usize>>, p: int) -> bool {
    exists|i: int| 0 <= i < v.len() && (#[trigger] v[i]).start <= p < v[i].end
}

/// The token is in one of the first `n` ranges.
pub open spec fn is_changed(ranges: Seq<Range<u32>>, n: int, k: int) -> bool {
    exists|i: int| 0 <= i < n && (#[trigger] ranges[i]).start <= k < ranges[i].end
}

proof fn lemma_marks_follow_tokens(
    t: Seq<Seq<char>>,
    ranges: Seq<Range<u32>>,
    n: int,
    k: int,
    p: int,
)
    requires
        0 <= n <= ranges.len(),
        forall|i: int| 0 <= i < ranges.len() ==> (#[trigger] ranges[i]).end <= t.len(),
        0 <= k < t.len(),
        bytes_before(t, k) <= p < bytes_before(t, k + 1),
        bytes_before(t, t.len() as int) <= usize::MAX,
    ensures
        is_marked(byte_ranges(t, ranges, n), p) <==> is_changed(ranges, n, k),
    decreases n,
{
    if n > 0 {
        lemma_marks_follow_tokens(t, ranges, n - 1, k, p);
        let front = byte_ranges(t, ranges, n - 1);
        let all = byte_ranges(t, ranges, n);
        let r = ranges[n - 1];
        let own = r.start <= k < r.end;
        if r.start < r.end {
            lemma_bytes_ascend(t, 0, r.start as int);
            lemma_bytes_ascend(t, r.start as int, r.end as int);
            lemma_bytes_ascend(t, r.end as int, t.len() as int);
            if r.start <= k {
                lemma_bytes_ascend(t, r.start as int, k);
            } else {
                lemma_bytes_ascend(t, k + 1, r.start as int);
            }
            if k < r.end {
                lemma_bytes_ascend(t, k + 1, r.end as int);
            } else {
                lemma_bytes_ascend(t, r.end as int, k);
            }
            let last = all[front.len() as int];
            assert(last.start <= p < last.end <==> own);
        }
        if is_marked(all, p) {
            let i = choose|i: int| 0 <= i < all.len() && (#[trigger] all[i]).start <= p < all[i].end;
            if i < front.len() {
                assert(front[i] == all[i]);
                assert(is_changed(ranges, n - 1, k));
                let j = choose|j: int|
                    0 <= j < n - 1 && (#[trigger] ranges[j]).start <= k < ranges[j].end;
                assert(ranges[j].start <= k < ranges[j].end);
            } else {
                assert(ranges[n - 1].start <= k < ranges[n - 1].end);
            }
        }
        if is_changed(ranges, n, k) {
            let j = choose|j: int| 0 <= j < n && (#[trigger] ranges[j]).start <= k < ranges[j].end;
            if j < n - 1 {
                assert(is_changed(ranges, n - 1, k));
                let i = choose|i: int|
                    0 <= i < front.len() && (#[trigger] front[i]).start <= p < front[i].end;
                assert(all[i] == front[i]);
            } else {
                assert(all[front.len() as int].start <= p < all[front.len() as int].end);
            }
        }
    }
}

/// A byte counts as changed exactly where the word that it stands in is one that the comparison
/// of the words found changed; where there are too many words to compare, all bytes do.
pub proof fn law_words_are_changed_as_a_whole(a: Seq<char>, b: Seq<char>, k: int, p: int)
    requires
        runs(a).len() <= MAX_TOKENS && runs(b).len() <= MAX_TOKENS ==> edit_script(
            runs(a),
            runs(b),
            histogram_hunks(runs(a), runs(b)),
        ),
        encode_utf8(a).len() <= usize::MAX,
        0 <= k < runs(a).len(),
        bytes_before(runs(a), k) <= p < bytes_before(runs(a), k + 1),
        0 <= p < encode_utf8(a).len(),
        bytes_before(runs(a), runs(a).len() as int) <= usize::MAX,
    ensures
        ({
            let h = histogram_hunks(runs(a), runs(b));
            let few = runs(a).len() <= MAX_TOKENS && runs(b).len() <= MAX_TOKENS;
            is_marked(changed_words(a, b).0, p) <==> !few || exists|i: int|
                0 <= i < h.len() && (#[trigger] h[i]).before.start <= k < h[i].before.end
        }),
{
    let (ta, tb) = (runs(a), runs(b));
    let h = histogram_hunks(ta, tb);
    if ta.len() <= MAX_TOKENS && tb.len() <= MAX_TOKENS {
        let ranges = token_ranges(h, true);
        assert forall|i: int| 0 <= i < ranges.len() implies (#[trigger] ranges[i]).end
            <= ta.len() by {
            assert(hunk_fits(ta.len() as int, tb.len() as int, h, i));
        }
        lemma_marks_follow_tokens(ta, ranges, h.len() as int, k, p);
        if is_changed(ranges, h.len() as int, k) {
            let i = choose|i: int|
                0 <= i < h.len() && (#[trigger] ranges[i]).start <= k < ranges[i].end;
            assert(h[i].before.start <= k < h[i].before.end);
        }
        if exists|i: int| 0 <= i < h.len() && (#[trigger] h[i]).before.start <= k < h[i].before.end {
            let i = choose|i: int|
                0 <= i < h.len() && (#[trigger] h[i]).before.start <= k < h[i].before.end;
            assert(ranges[i].start <= k < ranges[i].end);
        }
    } else {
        assert(whole(a)[0].start <= p < whole(a)[0].end);
    }
}

} // verus!
