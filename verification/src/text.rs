//! Text at the level of bytes and characters: UTF-8 facts, white space and searching.

use vstd::prelude::*;
use vstd::string::*;
use vstd::utf8::*;

verus! {

/// `String::push` of the standard library appends one character.
pub assume_specification[ String::push ](s: &mut String, c: char)
    ensures
        final(s)@ == old(s)@.push(c),
;

/// `String::from_utf8` of the standard library: it succeeds exactly on valid UTF-8,
/// and then the string holds those bytes.
#[verifier::external_body]
pub(crate) fn utf8_string(bytes: Vec<u8>) -> (r: Option<String>)
    ensures
        r is Some <==> valid_utf8(bytes@),
        r matches Some(s) ==> encode_utf8(s@) == bytes@,
{
    String::from_utf8(bytes).ok()
}

// ---------------------------------------------------------------------------
// UTF-8 facts

/// Encoding distributes over concatenation.
pub proof fn lemma_encode_concat(a: Seq<char>, b: Seq<char>)
    ensures
        encode_utf8(a + b) == encode_utf8(a) + encode_utf8(b),
    decreases a.len(),
{
    if a.len() == 0 {
        assert(a + b =~= b);
        assert(encode_utf8(a) + encode_utf8(b) =~= encode_utf8(b));
    } else {
        lemma_encode_concat(a.drop_first(), b);
        assert((a + b).drop_first() =~= a.drop_first() + b);
        assert(encode_utf8(a + b) =~= encode_utf8(a) + encode_utf8(b));
    }
}

/// Two texts with the same bytes are the same text.
pub proof fn lemma_encode_injective(a: Seq<char>, b: Seq<char>)
    requires
        encode_utf8(a) == encode_utf8(b),
    ensures
        a == b,
{
    encode_utf8_decode_utf8(a);
    encode_utf8_decode_utf8(b);
}

/// An ASCII byte of valid UTF-8 is a character of its own: both its ends are boundaries.
pub proof fn lemma_ascii_boundaries(b: Seq<u8>, k: int)
    requires
        valid_utf8(b),
        0 <= k < b.len(),
        b[k] < 0x80,
    ensures
        is_char_boundary(b, k),
        is_char_boundary(b, k + 1),
    decreases b.len(),
{
    let n = length_of_first_scalar(b);
    if k < n {
        assert(k == 0);
        reveal_with_fuel(is_char_boundary, 2);
    } else {
        lemma_ascii_boundaries(pop_first_scalar(b), k - n);
    }
}

/// The piece of valid UTF-8 between two boundaries is valid UTF-8.
pub proof fn lemma_valid_piece(b: Seq<u8>, i: int, j: int)
    requires
        valid_utf8(b),
        0 <= i <= j <= b.len(),
        is_char_boundary(b, i),
        is_char_boundary(b, j),
    ensures
        valid_utf8(b.subrange(i, j)),
    decreases b.len(),
{
    if i == 0 {
        valid_utf8_split(b, j);
    } else {
        let n = length_of_first_scalar(b);
        let t = pop_first_scalar(b);
        reveal_with_fuel(is_char_boundary, 2);
        lemma_valid_piece(t, i - n, j - n);
        assert(b.subrange(i, j) =~= t.subrange(i - n, j - n));
    }
}

// ---------------------------------------------------------------------------
// White space

/// The characters with the Unicode property White_Space.
pub open spec fn is_white(c: char) -> bool {
    let u = c as u32;
    ||| 0x09 <= u <= 0x0d
    ||| u == 0x20
    ||| u == 0x85
    ||| u == 0xa0
    ||| u == 0x1680
    ||| 0x2000 <= u <= 0x200a
    ||| u == 0x2028
    ||| u == 0x2029
    ||| u == 0x202f
    ||| u == 0x205f
    ||| u == 0x3000
}

/// Whether `c` is white space.
pub fn white(c: char) -> (r: bool)
    ensures
        r == is_white(c),
{
    let u: u32 = c as u32;
    (0x09 <= u && u <= 0x0d) || u == 0x20 || u == 0x85 || u == 0xa0 || u == 0x1680
        || (0x2000 <= u && u <= 0x200a) || u == 0x2028 || u == 0x2029 || u == 0x202f || u == 0x205f
        || u == 0x3000
}

/// The length in bytes of the white-space character that starts at byte `i`; 0 where none does.
pub open spec fn ws_len(b: Seq<u8>, i: int) -> int {
    if i < 0 || i >= b.len() {
        0
    } else if 0x09 <= b[i] <= 0x0d || b[i] == 0x20 {
        1
    } else if i + 1 < b.len() && b[i] == 0xc2 && (b[i + 1] == 0x85 || b[i + 1] == 0xa0) {
        2
    } else if i + 2 < b.len() && ((b[i] == 0xe1 && b[i + 1] == 0x9a && b[i + 2] == 0x80) || (b[i]
        == 0xe2 && b[i + 1] == 0x80 && (0x80 <= b[i + 2] <= 0x8a || b[i + 2] == 0xa8 || b[i + 2]
        == 0xa9 || b[i + 2] == 0xaf)) || (b[i] == 0xe2 && b[i + 1] == 0x81 && b[i + 2] == 0x9f) || (
    b[i] == 0xe3 && b[i + 1] == 0x80 && b[i + 2] == 0x80)) {
        3
    } else {
        0
    }
}

/// The white-space character at byte `i`, as a length; 0 where there is none.
pub fn whitespace_at(b: &[u8], i: usize) -> (n: usize)
    ensures
        n == ws_len(b@, i as int),
{
    if i >= b.len() {
        return 0;
    }
    let c: u8 = b[i];
    if (0x09 <= c && c <= 0x0d) || c == 0x20 {
        return 1;
    }
    let left: usize = b.len() - i;
    if left >= 2 && c == 0xc2 && (b[i + 1] == 0x85 || b[i + 1] == 0xa0) {
        return 2;
    }
    if left >= 3 {
        let d: u8 = b[i + 1];
        let e: u8 = b[i + 2];
        if (c == 0xe1 && d == 0x9a && e == 0x80) || (c == 0xe2 && d == 0x80 && ((0x80 <= e && e
            <= 0x8a) || e == 0xa8 || e == 0xa9 || e == 0xaf)) || (c == 0xe2 && d == 0x81 && e
            == 0x9f) || (c == 0xe3 && d == 0x80 && e == 0x80) {
            return 3;
        }
    }
    0
}

/// The bytes of a character's encoding, as numbers.
pub proof fn lemma_scalar_bytes(u: u32)
    requires
        is_scalar(u),
    ensures
        has_width_1_encoding(u) ==> leading_byte_width_1(u) == u,
        has_width_2_encoding(u) ==> {
            &&& leading_byte_width_2(u) == 0xc0 + u / 64
            &&& last_continuation_byte(u) == 0x80 + u % 64
        },
        has_width_3_encoding(u) ==> {
            &&& leading_byte_width_3(u) == 0xe0 + u / 4096
            &&& second_last_continuation_byte(u) == 0x80 + (u / 64) % 64
            &&& last_continuation_byte(u) == 0x80 + u % 64
        },
        has_width_4_encoding(u) ==> {
            &&& leading_byte_width_4(u) >= 0xf0
            &&& last_continuation_byte(u) == 0x80 + u % 64
        },
{
    if has_width_1_encoding(u) {
        assert((u & 0x7f) as u8 == u) by (bit_vector)
            requires
                u <= 0x7f,
        ;
    } else if has_width_2_encoding(u) {
        assert(0xc0u8 | ((u >> 6) & 0x1f) as u8 == 0xc0 + u / 64) by (bit_vector)
            requires
                u <= 0x7ff,
        ;
        assert(0x80u8 | (u & 0x3f) as u8 == 0x80 + u % 64) by (bit_vector);
    } else if has_width_3_encoding(u) {
        assert(0xe0u8 | ((u >> 12) & 0x0f) as u8 == 0xe0 + u / 4096) by (bit_vector)
            requires
                u <= 0xffff,
        ;
        assert(0x80u8 | ((u >> 6) & 0x3f) as u8 == 0x80 + (u / 64) % 64) by (bit_vector);
        assert(0x80u8 | (u & 0x3f) as u8 == 0x80 + u % 64) by (bit_vector);
    } else {
        assert(0xf0u8 | ((u >> 18) & 0x07) as u8 >= 0xf0) by (bit_vector);
        assert(0x80u8 | (u & 0x3f) as u8 == 0x80 + u % 64) by (bit_vector);
    }
}

/// White space is recognised by its bytes: exactly the encodings of white-space characters are.
pub proof fn law_white_space_is_recognised(s: Seq<char>)
    requires
        s.len() > 0,
    ensures
        is_white(s[0]) ==> ws_len(encode_utf8(s), 0) == encode_scalar(s[0] as u32).len(),
        !is_white(s[0]) ==> ws_len(encode_utf8(s), 0) == 0,
{
    let u = s[0] as u32;
    char_is_scalar(s[0]);
    lemma_scalar_bytes(u);
    let e = encode_scalar(u);
    let b = encode_utf8(s);
    assert(b == e + encode_utf8(s.drop_first()));
    assert(forall|k: int| 0 <= k < e.len() ==> b[k] == e[k]);
}

/// The first byte at or after `i` that starts no white-space character.
pub open spec fn skip_ws(b: Seq<u8>, i: int) -> int
    decreases b.len() - i,
{
    if ws_len(b, i) == 0 {
        i
    } else {
        skip_ws(b, i + ws_len(b, i))
    }
}

/// The first byte at or after `i` that starts a white-space character, or the end.
pub open spec fn find_ws(b: Seq<u8>, i: int) -> int
    decreases b.len() - i,
{
    if i < 0 || i >= b.len() {
        b.len() as int
    } else if ws_len(b, i) > 0 {
        i
    } else {
        find_ws(b, i + 1)
    }
}

/// The first word of `b`, the words being what white space separates; empty where there is none.
pub open spec fn first_word_spec(b: Seq<u8>) -> Seq<u8> {
    let start = skip_ws(b, 0);
    b.subrange(start, find_ws(b, start))
}

pub proof fn lemma_skip_ws_bounds(b: Seq<u8>, i: int)
    requires
        0 <= i <= b.len(),
    ensures
        i <= skip_ws(b, i) <= b.len(),
        ws_len(b, skip_ws(b, i)) == 0,
    decreases b.len() - i,
{
    if ws_len(b, i) > 0 {
        lemma_skip_ws_bounds(b, i + ws_len(b, i));
    }
}

/// The first byte at or after `from` that starts no white-space character.
pub fn skip_whitespace(b: &[u8], from: usize) -> (r: usize)
    requires
        from <= b@.len(),
    ensures
        r == skip_ws(b@, from as int),
        from <= r <= b@.len(),
{
    let len: usize = b.len();
    let mut i: usize = from;
    loop
        invariant
            len == b@.len(),
            from <= i <= b@.len(),
            skip_ws(b@, from as int) == skip_ws(b@, i as int),
        decreases b@.len() - i,
    {
        let n: usize = whitespace_at(b, i);
        if n == 0 {
            return i;
        }
        i = i + n;
    }
}

/// The first word of `b`; empty where there is none.
pub fn first_word(b: &[u8]) -> (r: &[u8])
    ensures
        r@ == first_word_spec(b@),
{
    let start: usize = skip_whitespace(b, 0);
    let mut end: usize = start;
    while end < b.len()
        invariant_except_break
            start <= end <= b@.len(),
            find_ws(b@, start as int) == find_ws(b@, end as int),
        ensures
            start <= end <= b@.len(),
            end == find_ws(b@, start as int),
        decreases b@.len() - end,
    {
        if whitespace_at(b, end) > 0 {
            break;
        }
        end = end + 1;
    }
    &b[start..end]
}

// ---------------------------------------------------------------------------
// Comparing and searching

/// Whether two byte strings are equal.
pub fn bytes_eq(a: &[u8], b: &[u8]) -> (r: bool)
    ensures
        r == (a@ == b@),
{
    if a.len() != b.len() {
        return false;
    }
    let mut i: usize = 0;
    while i < a.len()
        invariant
            a@.len() == b@.len(),
            i <= a@.len(),
            forall|k: int| 0 <= k < i ==> a@[k] == b@[k],
        decreases a@.len() - i,
    {
        if a[i] != b[i] {
            return false;
        }
        i = i + 1;
    }
    assert(a@ =~= b@);
    true
}

/// `needle` stands in `hay` at position `at`.
pub open spec fn occurs_at(hay: Seq<u8>, needle: Seq<u8>, at: int) -> bool {
    &&& 0 <= at
    &&& at + needle.len() <= hay.len()
    &&& hay.subrange(at, at + needle.len()) == needle
}

/// The first position at or after `from` where `needle` stands in `hay`.
pub open spec fn find_from(hay: Seq<u8>, needle: Seq<u8>, from: int) -> Option<int>
    decreases hay.len() + 1 - from,
{
    if from < 0 || from + needle.len() > hay.len() {
        None
    } else if occurs_at(hay, needle, from) {
        Some(from)
    } else {
        find_from(hay, needle, from + 1)
    }
}

/// `find_from` is the least occurrence.
pub proof fn lemma_find_from(hay: Seq<u8>, needle: Seq<u8>, from: int)
    requires
        0 <= from,
    ensures
        find_from(hay, needle, from) matches Some(p) ==> {
            &&& from <= p
            &&& occurs_at(hay, needle, p)
            &&& forall|q: int| from <= q < p ==> !occurs_at(hay, needle, q)
        },
        find_from(hay, needle, from) is None ==> forall|q: int|
            from <= q ==> !occurs_at(hay, needle, q),
    decreases hay.len() + 1 - from,
{
    if from + needle.len() > hay.len() {
    } else if occurs_at(hay, needle, from) {
    } else {
        lemma_find_from(hay, needle, from + 1);
    }
}

/// Whether `needle` stands in `hay` at `at`.
pub fn occurs(hay: &[u8], needle: &[u8], at: usize) -> (r: bool)
    ensures
        r == occurs_at(hay@, needle@, at as int),
{
    if at > hay.len() || hay.len() - at < needle.len() {
        return false;
    }
    bytes_eq(&hay[at..at + needle.len()], needle)
}

/// The first position at or after `from` where `needle` stands in `hay`.
pub fn find_bytes(hay: &[u8], needle: &[u8], from: usize) -> (r: Option<usize>)
    ensures
        match r {
            Some(p) => find_from(hay@, needle@, from as int) == Some(p as int),
            None => find_from(hay@, needle@, from as int) is None,
        },
{
    let mut i: usize = from;
    while i <= hay.len() && hay.len() - i >= needle.len()
        invariant
            from <= i,
            i <= hay@.len() || i == from,
            find_from(hay@, needle@, from as int) == find_from(hay@, needle@, i as int),
        decreases hay@.len() + 1 - i,
    {
        if occurs(hay, needle, i) {
            return Some(i);
        }
        if i == hay.len() {
            assert(find_from(hay@, needle@, i as int + 1) is None);
            return None;
        }
        i = i + 1;
    }
    None
}

// ---------------------------------------------------------------------------
// Characters

/// The characters of `s`.
pub fn chars_of(s: &str) -> (v: Vec<char>)
    ensures
        v@ == s@,
{
    let mut v: Vec<char> = Vec::new();
    for c in it: s.chars()
        invariant
            v@ == it.seq().take(it.index()),
    {
        v.push(c);
        assert(v@ =~= it.seq().take(it.index() + 1));
    }
    v
}

/// The string of the characters `v[from..to]`.
pub fn string_of(v: &[char], from: usize, to: usize) -> (s: String)
    requires
        from <= to <= v@.len(),
    ensures
        s@ == v@.subrange(from as int, to as int),
{
    let mut s = String::new();
    let mut i: usize = from;
    while i < to
        invariant
            from <= i <= to <= v@.len(),
            s@ == v@.subrange(from as int, i as int),
        decreases to - i,
    {
        s.push(v[i]);
        i = i + 1;
        assert(s@ =~= v@.subrange(from as int, i as int));
    }
    s
}

/// `s` without the white space at its end.
pub open spec fn trim_end(s: Seq<char>) -> Seq<char>
    decreases s.len(),
{
    if s.len() > 0 && is_white(s.last()) {
        trim_end(s.drop_last())
    } else {
        s
    }
}

/// How many characters of `s` its trailing white space leaves.
pub fn trimmed_end(s: &[char]) -> (n: usize)
    ensures
        n <= s@.len(),
        s@.take(n as int) == trim_end(s@),
{
    let mut n: usize = s.len();
    assert(s@.take(n as int) =~= s@);
    while n > 0 && white(s[n - 1])
        invariant
            n <= s@.len(),
            trim_end(s@.take(n as int)) == trim_end(s@),
        decreases n,
    {
        assert(s@.take(n as int).drop_last() =~= s@.take(n - 1));
        n = n - 1;
    }
    n
}

/// `s` without the white space at its start.
pub open spec fn trim_start(s: Seq<char>) -> Seq<char>
    decreases s.len(),
{
    if s.len() > 0 && is_white(s[0]) {
        trim_start(s.drop_first())
    } else {
        s
    }
}

/// `s` without the white space at its ends.
pub open spec fn trim(s: Seq<char>) -> Seq<char> {
    trim_end(trim_start(s))
}

/// The characters of `s` behind its leading white space.
pub fn trimmed_start(s: &[char]) -> (r: &[char])
    ensures
        r@ == trim_start(s@),
{
    let len: usize = s.len();
    let mut k: usize = 0;
    assert(s@.skip(0) =~= s@);
    while k < len && white(s[k])
        invariant
            len == s@.len(),
            k <= len,
            trim_start(s@.skip(k as int)) == trim_start(s@),
        decreases len - k,
    {
        assert(s@.skip(k as int).drop_first() =~= s@.skip(k + 1));
        k = k + 1;
    }
    assert(s@.subrange(k as int, len as int) =~= s@.skip(k as int));
    &s[k..len]
}

/// `s` without the white space at its start, as a string.
pub fn trim_start_text(s: &str) -> (r: String)
    ensures
        r@ == trim_start(s@),
{
    let v = chars_of(s);
    let t = trimmed_start(v.as_slice());
    let r = string_of(t, 0, t.len());
    assert(t@.subrange(0, t@.len() as int) =~= t@);
    r
}

/// `s` without the white space at its ends, as a string.
pub fn trim_text(s: &str) -> (r: String)
    ensures
        r@ == trim(s@),
{
    let v = chars_of(s);
    let t = trimmed_start(v.as_slice());
    let n: usize = trimmed_end(t);
    let r = string_of(t, 0, n);
    assert(t@.subrange(0, n as int) =~= t@.take(n as int));
    r
}

/// Whether two texts are equal.
pub fn same(a: &str, b: &str) -> (r: bool)
    ensures
        r == (a@ == b@),
{
    let r = bytes_eq(a.as_bytes(), b.as_bytes());
    proof {
        if r {
            lemma_encode_injective(a@, b@);
        }
    }
    r
}

/// `pat` stands somewhere in `s`.
pub open spec fn contains_text(s: Seq<char>, pat: Seq<char>) -> bool {
    exists|i: int|
        0 <= i && i + pat.len() <= s.len() && #[trigger] s.subrange(i, i + pat.len()) == pat
}

fn stands_at(s: &Vec<char>, pat: &Vec<char>, i: usize) -> (r: bool)
    requires
        i + pat@.len() <= s@.len(),
    ensures
        r == (s@.subrange(i as int, i + pat@.len()) == pat@),
{
    let len: usize = s.len();
    let mut k: usize = 0;
    while k < pat.len()
        invariant
            len == s@.len(),
            i + pat@.len() <= len,
            k <= pat@.len(),
            forall|j: int| 0 <= j < k ==> s@[i + j] == pat@[j],
        decreases pat@.len() - k,
    {
        if s[i + k] != pat[k] {
            assert(s@.subrange(i as int, i + pat@.len())[k as int] != pat@[k as int]);
            return false;
        }
        k = k + 1;
    }
    assert(s@.subrange(i as int, i + pat@.len()) =~= pat@);
    true
}

/// Whether `pat` stands somewhere in `s`.
pub fn contains(s: &str, pat: &str) -> (r: bool)
    ensures
        r == contains_text(s@, pat@),
{
    let v = chars_of(s);
    let p = chars_of(pat);
    let mut i: usize = 0;
    while i <= v.len() && v.len() - i >= p.len()
        invariant
            v@ == s@,
            p@ == pat@,
            i <= v@.len() + 1,
            i <= v@.len() || p@.len() >= 0,
            forall|j: int|
                0 <= j < i && j + p@.len() <= v@.len() ==> #[trigger] v@.subrange(j, j + p@.len())
                    != p@,
        decreases v@.len() + 1 - i,
    {
        if stands_at(&v, &p, i) {
            assert(s@.subrange(i as int, i + pat@.len()) == pat@);
            return true;
        }
        if i == v.len() {
            return false;
        }
        i = i + 1;
    }
    false
}

/// The part of `s` behind the first `pat` in it.
pub open spec fn behind_first(s: Seq<char>, pat: Seq<char>) -> Option<Seq<char>>
    decreases s.len(),
{
    if s.len() < pat.len() {
        None
    } else if s.take(pat.len() as int) == pat {
        Some(s.skip(pat.len() as int))
    } else if s.len() == 0 {
        None
    } else {
        behind_first(s.drop_first(), pat)
    }
}

/// The part of `s` behind the first `pat` in it, where there is one.
pub fn text_behind(s: &str, pat: &str) -> (r: Option<String>)
    ensures
        match r {
            Some(t) => behind_first(s@, pat@) == Some(t@),
            None => behind_first(s@, pat@) is None,
        },
{
    let v = chars_of(s);
    let p = chars_of(pat);
    let mut i: usize = 0;
    assert(v@.skip(0) =~= v@);
    while v.len() - i >= p.len()
        invariant
            v@ == s@,
            p@ == pat@,
            i <= v@.len(),
            behind_first(s@, pat@) == behind_first(v@.skip(i as int), pat@),
        decreases v@.len() - i,
    {
        let ghost rest = v@.skip(i as int);
        assert(v@.subrange(i as int, i + p@.len()) =~= rest.take(p@.len() as int));
        if stands_at(&v, &p, i) {
            let t = string_of(v.as_slice(), i + p.len(), v.len());
            assert(t@ =~= rest.skip(p@.len() as int));
            return Some(t);
        }
        if i == v.len() {
            return None;
        }
        assert(rest.drop_first() =~= v@.skip(i + 1));
        i = i + 1;
    }
    None
}

pub open spec fn starts_with_text(s: Seq<char>, pat: Seq<char>) -> bool {
    pat.len() <= s.len() && s.take(pat.len() as int) == pat
}

/// Whether `s` starts with `pat`.
pub fn starts_with(s: &str, pat: &str) -> (r: bool)
    ensures
        r == starts_with_text(s@, pat@),
{
    let v = chars_of(s);
    let p = chars_of(pat);
    if p.len() > v.len() {
        return false;
    }
    let r = stands_at(&v, &p, 0);
    assert(v@.subrange(0, p@.len() as int) =~= s@.take(pat@.len() as int));
    r
}

/// The part of `s` behind the prefix `pat`, where it starts with it.
pub fn strip_prefix(s: &str, pat: &str) -> (r: Option<String>)
    ensures
        match r {
            Some(t) => starts_with_text(s@, pat@) && t@ == s@.skip(pat@.len() as int),
            None => !starts_with_text(s@, pat@),
        },
{
    if !starts_with(s, pat) {
        return None;
    }
    let v = chars_of(s);
    let p = chars_of(pat);
    let t = string_of(v.as_slice(), p.len(), v.len());
    assert(v@.subrange(p@.len() as int, v@.len() as int) =~= s@.skip(pat@.len() as int));
    Some(t)
}

/// The first `n` characters of `s`.
pub fn first_chars(s: &str, n: usize) -> (r: String)
    ensures
        r@ == s@.take(if n <= s@.len() { n as int } else { s@.len() as int }),
{
    let v = chars_of(s);
    let k: usize = if n <= v.len() {
        n
    } else {
        v.len()
    };
    let r = string_of(v.as_slice(), 0, k);
    assert(v@.subrange(0, k as int) =~= s@.take(k as int));
    r
}

// ---------------------------------------------------------------------------
// Words

/// Where the first word of `s` ends: at its first white space.
pub open spec fn word_len(s: Seq<char>) -> int
    decreases s.len(),
{
    if s.len() == 0 || is_white(s[0]) {
        0
    } else {
        1 + word_len(s.drop_first())
    }
}

pub proof fn lemma_word_len(s: Seq<char>)
    ensures
        0 <= word_len(s) <= s.len(),
        s.len() > 0 && !is_white(s[0]) ==> word_len(s) > 0,
    decreases s.len(),
{
    if s.len() > 0 && !is_white(s[0]) {
        lemma_word_len(s.drop_first());
    }
}

pub proof fn lemma_trim_start(s: Seq<char>)
    ensures
        trim_start(s).len() <= s.len(),
        trim_start(s).len() > 0 ==> !is_white(trim_start(s)[0]),
    decreases s.len(),
{
    if s.len() > 0 && is_white(s[0]) {
        lemma_trim_start(s.drop_first());
    }
}

/// The words of `s`, which white space separates.
pub open spec fn words(s: Seq<char>) -> Seq<Seq<char>>
    decreases s.len(),
{
    let t = trim_start(s);
    if t.len() == 0 {
        seq![]
    } else {
        proof {
            lemma_trim_start(s);
            lemma_word_len(t);
        }
        seq![t.take(word_len(t))] + words(t.skip(word_len(t)))
    }
}

/// The texts of a list of strings.
pub open spec fn strings(v: Seq<String>) -> Seq<Seq<char>> {
    v.map_values(|s: String| s@)
}

fn first_word_len(t: &[char]) -> (n: usize)
    ensures
        n == word_len(t@),
        n <= t@.len(),
{
    let len: usize = t.len();
    let mut n: usize = 0;
    assert(t@.skip(0) =~= t@);
    while n < len && !white(t[n])
        invariant
            len == t@.len(),
            n <= len,
            word_len(t@) == n + word_len(t@.skip(n as int)),
        decreases len - n,
    {
        assert(t@.skip(n as int).drop_first() =~= t@.skip(n + 1));
        n = n + 1;
    }
    n
}

/// The words of `s`.
pub fn split_words(s: &str) -> (r: Vec<String>)
    ensures
        strings(r@) == words(s@),
{
    let v = chars_of(s);
    let mut rest: &[char] = v.as_slice();
    let mut out: Vec<String> = Vec::new();
    assert(strings(out@) + words(s@) =~= words(s@));
    loop
        invariant
            strings(out@) + words(rest@) == words(s@),
        decreases rest@.len(),
    {
        let t = trimmed_start(rest);
        let len: usize = t.len();
        if len == 0 {
            assert(strings(out@) + Seq::<Seq<char>>::empty() =~= strings(out@));
            return out;
        }
        proof {
            lemma_trim_start(rest@);
            lemma_word_len(t@);
        }
        let n: usize = first_word_len(t);
        let ghost had = strings(out@);
        out.push(string_of(t, 0, n));
        proof {
            assert(t@.subrange(0, n as int) =~= t@.take(n as int));
            assert(t@.subrange(n as int, len as int) =~= t@.skip(n as int));
            assert(strings(out@) =~= had.push(t@.take(n as int)));
            assert(had + (seq![t@.take(n as int)] + words(t@.skip(n as int))) =~= strings(out@)
                + words(t@.skip(n as int)));
        }
        rest = &t[n..len];
    }
}

// ---------------------------------------------------------------------------
// Numbers

pub open spec fn digit_char(d: int) -> char {
    (0x30 + d) as u8 as char
}

/// The decimal digits of `n`.
pub open spec fn decimal(n: nat) -> Seq<char>
    decreases n,
{
    if n < 10 {
        seq![digit_char(n as int)]
    } else {
        decimal(n / 10).push(digit_char((n % 10) as int))
    }
}

/// The decimal digits of `n`, as a string.
pub fn decimal_text(n: u64) -> (r: String)
    ensures
        r@ == decimal(n as nat),
    decreases n,
{
    let d: u8 = 0x30 + (n % 10) as u8;
    let mut s = if n < 10 {
        String::new()
    } else {
        decimal_text(n / 10)
    };
    s.push(d as char);
    assert(n < 10 ==> s@ =~= seq![digit_char(n as int)]);
    s
}

/// `n` in at least `width` decimal digits, zeros in front.
pub open spec fn padded(n: nat, width: nat) -> Seq<char> {
    let d = decimal(n);
    if d.len() < width {
        Seq::new((width - d.len()) as nat, |i: int| '0') + d
    } else {
        d
    }
}

/// `n` in at least `width` decimal digits, zeros in front, as a string.
pub fn padded_text(n: u64, width: usize) -> (r: String)
    ensures
        r@ == padded(n as nat, width as nat),
{
    let d = decimal_text(n);
    let len: usize = chars_of(d.as_str()).len();
    let mut s = String::new();
    let mut i: usize = len;
    while i < width
        invariant
            len <= i,
            i <= width || i == len,
            s@ == Seq::new((i - len) as nat, |k: int| '0'),
        decreases width - i,
    {
        s.push('0');
        i = i + 1;
        assert(s@ =~= Seq::new((i - len) as nat, |k: int| '0'));
    }
    s.append(d.as_str());
    assert(len >= width ==> s@ =~= d@);
    s
}

pub open spec fn is_digit(c: char) -> bool {
    '0' <= c <= '9'
}

/// The number that a text of digits stands for.
pub open spec fn number(s: Seq<char>) -> nat
    decreases s.len(),
{
    if s.len() == 0 {
        0
    } else {
        (10 * number(s.drop_last()) + (s.last() as int - 0x30)) as nat
    }
}

pub open spec fn all_digits(s: Seq<char>) -> bool {
    forall|i: int| 0 <= i < s.len() ==> is_digit(#[trigger] s[i])
}

/// The digits that `s` starts with.
pub open spec fn leading_digits(s: Seq<char>) -> Seq<char>
    decreases s.len(),
{
    if s.len() > 0 && is_digit(s[0]) {
        seq![s[0]] + leading_digits(s.drop_first())
    } else {
        seq![]
    }
}

/// The digits that `s` starts with.
pub fn digits_in_front(s: &str) -> (r: String)
    ensures
        r@ == leading_digits(s@),
{
    let v = chars_of(s);
    let mut n: usize = 0;
    assert(v@.take(0) + leading_digits(v@.skip(0)) =~= leading_digits(v@)) by {
        assert(v@.skip(0) =~= v@);
    }
    while n < v.len() && '0' <= v[n] && v[n] <= '9'
        invariant
            n <= v@.len(),
            v@.take(n as int) + leading_digits(v@.skip(n as int)) == leading_digits(v@),
        decreases v@.len() - n,
    {
        proof {
            let rest = v@.skip(n as int);
            assert(rest[0] == v@[n as int]);
            assert(rest.drop_first() =~= v@.skip(n + 1));
            assert(v@.take(n + 1) + leading_digits(v@.skip(n + 1)) =~= v@.take(n as int)
                + leading_digits(rest));
        }
        n = n + 1;
    }
    proof {
        let rest = v@.skip(n as int);
        if n < v@.len() {
            assert(rest[0] == v@[n as int]);
        }
        assert(leading_digits(rest) =~= seq![]);
        assert(v@.take(n as int) + leading_digits(rest) =~= v@.take(n as int));
        assert(v@.subrange(0, n as int) =~= v@.take(n as int));
    }
    string_of(v.as_slice(), 0, n)
}

/// Why a text is no number.
#[derive(Debug, Clone, Copy, PartialEq, Eq, Structural)]
pub enum NumberError {
    Empty,
    InvalidDigit,
    TooLarge,
}

impl NumberError {
    pub open spec fn message_spec(self) -> Seq<char> {
        match self {
            NumberError::Empty => "cannot parse integer from empty string"@,
            NumberError::InvalidDigit => "invalid digit found in string"@,
            NumberError::TooLarge => "number too large to fit in target type"@,
        }
    }

    /// The error in words.
    pub fn message(self) -> (r: String)
        ensures
            r@ == self.message_spec(),
    {
        match self {
            NumberError::Empty => "cannot parse integer from empty string".to_owned(),
            NumberError::InvalidDigit => "invalid digit found in string".to_owned(),
            NumberError::TooLarge => "number too large to fit in target type".to_owned(),
        }
    }
}

/// The digits of a number that may have a plus sign in front.
pub open spec fn unsigned_digits(s: Seq<char>) -> Seq<char> {
    if s.len() > 1 && s[0] == '+' {
        s.drop_first()
    } else {
        s
    }
}

/// The number, up to `max`, that `s` is written as: digits, behind an optional plus sign. Of a
/// text that is wrong in two ways the error is the one that comes first in the text.
pub open spec fn parsed(s: Seq<char>, max: nat) -> Result<nat, NumberError> {
    if s.len() == 0 {
        Err(NumberError::Empty)
    } else {
        parse_digits(unsigned_digits(s), max)
    }
}

/// The digits of `s`, read from the left.
pub open spec fn parse_digits(s: Seq<char>, max: nat) -> Result<nat, NumberError>
    decreases s.len(),
{
    if s.len() == 0 {
        Ok(0)
    } else {
        match parse_digits(s.drop_last(), max) {
            Err(e) => Err(e),
            Ok(n) => if !is_digit(s.last()) {
                Err(NumberError::InvalidDigit)
            } else if 10 * n + (s.last() as int - 0x30) > max {
                Err(NumberError::TooLarge)
            } else {
                Ok((10 * n + (s.last() as int - 0x30)) as nat)
            },
        }
    }
}

/// The number that `s` is written as, up to `max`.
pub fn parse_number(s: &str, max: u64) -> (r: Result<u64, NumberError>)
    ensures
        match r {
            Ok(n) => parsed(s@, max as nat) == Ok::<nat, NumberError>(n as nat),
            Err(e) => parsed(s@, max as nat) == Err::<nat, NumberError>(e),
        },
{
    let v = chars_of(s);
    if v.len() == 0 {
        return Err(NumberError::Empty);
    }
    let first: usize = if v.len() > 1 && v[0] == '+' {
        1
    } else {
        0
    };
    let ghost d = unsigned_digits(s@);
    let mut n: u64 = 0;
    let mut i: usize = first;
    assert(d.take(0) =~= seq![]);
    while i < v.len()
        invariant
            v@ == s@,
            first <= i <= v@.len(),
            d == unsigned_digits(s@),
            d == s@.skip(first as int),
            n <= max,
            parse_digits(d.take(i - first), max as nat) == Ok::<nat, NumberError>(n as nat),
        decreases v@.len() - i,
    {
        let c: char = v[i];
        proof {
            assert(d.take(i - first + 1).drop_last() =~= d.take(i - first));
            assert(d.take(i - first + 1).last() == c);
        }
        if !('0' <= c && c <= '9') {
            proof {
                lemma_parse_stops(d, max as nat, i - first + 1);
            }
            return Err(NumberError::InvalidDigit);
        }
        let x: u64 = (c as u32 - 0x30) as u64;
        if n > max / 10 || (n == max / 10 && x > max % 10) {
            proof {
                assert(10 * n + x > max) by (nonlinear_arith)
                    requires
                        n > max / 10 || (n == max / 10 && x > max % 10),
                ;
                lemma_parse_stops(d, max as nat, i - first + 1);
            }
            return Err(NumberError::TooLarge);
        }
        assert(10 * n + x <= max) by (nonlinear_arith)
            requires
                !(n > max / 10 || (n == max / 10 && x > max % 10)),
                x <= 9,
        ;
        n = n * 10 + x;
        i = i + 1;
    }
    assert(d.take(i - first) =~= d);
    Ok(n)
}

proof fn lemma_parse_stops(s: Seq<char>, max: nat, k: int)
    requires
        0 <= k <= s.len(),
        parse_digits(s.take(k), max) is Err,
    ensures
        parse_digits(s, max) == parse_digits(s.take(k), max),
    decreases s.len() - k,
{
    if k < s.len() {
        assert(s.take(k + 1).drop_last() =~= s.take(k));
        lemma_parse_stops(s, max, k + 1);
    } else {
        assert(s.take(k) =~= s);
    }
}

/// A number that was read is within the bound.
pub proof fn lemma_parsed_bound(s: Seq<char>, max: nat)
    ensures
        parsed(s, max) matches Ok(n) ==> n <= max,
{
    lemma_digits_bound(unsigned_digits(s), max);
}

proof fn lemma_digits_bound(s: Seq<char>, max: nat)
    ensures
        parse_digits(s, max) matches Ok(n) ==> n <= max,
    decreases s.len(),
{
    if s.len() > 0 {
        lemma_digits_bound(s.drop_last(), max);
    }
}

pub proof fn lemma_decimal_digits(n: nat)
    ensures
        decimal(n).len() > 0,
        all_digits(decimal(n)),
        number(decimal(n)) == n,
    decreases n,
{
    if n < 10 {
        assert(decimal(n).drop_last() =~= seq![]);
        reveal_with_fuel(number, 2);
    } else {
        lemma_decimal_digits(n / 10);
        assert(decimal(n).drop_last() =~= decimal(n / 10));
    }
}

proof fn lemma_parse_number(s: Seq<char>, max: nat)
    requires
        all_digits(s),
        number(s) <= max,
    ensures
        parse_digits(s, max) == Ok::<nat, NumberError>(number(s)),
    decreases s.len(),
{
    if s.len() > 0 {
        assert(is_digit(s[s.len() - 1]));
        assert forall|i: int| 0 <= i < s.drop_last().len() implies is_digit(
            #[trigger] s.drop_last()[i],
        ) by {
            assert(s.drop_last()[i] == s[i]);
        }
        lemma_parse_number(s.drop_last(), max);
    }
}

/// A number is read back from its decimal digits.
pub proof fn law_numbers_round_trip(n: nat, max: nat)
    requires
        n <= max,
    ensures
        parsed(decimal(n), max) == Ok::<nat, NumberError>(n),
{
    lemma_decimal_digits(n);
    assert(is_digit(decimal(n)[0]));
    lemma_parse_number(decimal(n), max);
}

// ---------------------------------------------------------------------------
// Bytes as text

/// What `String::from_utf8_lossy` makes of bytes.
pub uninterp spec fn lossy(bytes: Seq<u8>) -> Seq<char>;

/// `String::from_utf8_lossy` of the standard library. Valid UTF-8 becomes the text it encodes;
/// what replaces invalid sequences is not stated.
#[verifier::external_body]
pub(crate) fn lossy_text(bytes: &[u8]) -> (s: String)
    ensures
        s@ == lossy(bytes@),
        valid_utf8(bytes@) ==> encode_utf8(s@) == bytes@,
{
    String::from_utf8_lossy(bytes).into_owned()
}

// ---------------------------------------------------------------------------
// Joining and splitting

/// The texts, with `sep` between them.
pub open spec fn join_texts(c: Seq<Seq<char>>, sep: Seq<char>) -> Seq<char>
    decreases c.len(),
{
    if c.len() == 0 {
        seq![]
    } else if c.len() == 1 {
        c[0]
    } else {
        join_texts(c.drop_last(), sep) + sep + c.last()
    }
}

/// The strings from the `from`-th on, with `sep` between them.
pub fn join_from(v: &Vec<String>, from: usize, sep: &str) -> (r: String)
    requires
        from <= v@.len(),
    ensures
        r@ == join_texts(strings(v@).skip(from as int), sep@),
{
    let ghost tail = strings(v@).skip(from as int);
    let mut out = String::new();
    let mut i: usize = from;
    assert(tail.take(0) =~= seq![]);
    while i < v.len()
        invariant
            tail == strings(v@).skip(from as int),
            from <= i <= v@.len(),
            out@ == join_texts(tail.take(i - from), sep@),
        decreases v@.len() - i,
    {
        let ghost cur = tail.take(i - from);
        proof {
            assert(tail.take(i - from + 1) =~= cur.push(tail[i - from]));
            assert(tail[i - from] == v@[i as int]@);
            assert(cur.push(tail[i - from]).drop_last() =~= cur);
        }
        if i == from {
            out = v[i].clone();
        } else {
            out.append(sep);
            out.append(v[i].as_str());
        }
        i = i + 1;
    }
    assert(tail.take(i - from) =~= tail);
    out
}

/// Where the first piece of `s` ends: at the first `sep`.
pub open spec fn part_len(s: Seq<char>, sep: char) -> int
    decreases s.len(),
{
    if s.len() == 0 || s[0] == sep {
        0
    } else {
        1 + part_len(s.drop_first(), sep)
    }
}

pub proof fn lemma_part_len(s: Seq<char>, sep: char)
    ensures
        0 <= part_len(s, sep) <= s.len(),
        part_len(s, sep) < s.len() ==> s[part_len(s, sep)] == sep,
    decreases s.len(),
{
    if s.len() > 0 && s[0] != sep {
        lemma_part_len(s.drop_first(), sep);
    }
}

/// The parts of `s` between the `sep`s; one at least.
pub open spec fn parts(s: Seq<char>, sep: char) -> Seq<Seq<char>>
    decreases s.len(),
{
    proof {
        lemma_part_len(s, sep);
    }
    let n = part_len(s, sep);
    if n >= s.len() {
        seq![s]
    } else {
        seq![s.take(n)] + parts(s.skip(n + 1), sep)
    }
}

/// The parts of `s` between the `sep`s.
pub fn split_parts(s: &str, sep: char) -> (r: Vec<String>)
    ensures
        strings(r@) == parts(s@, sep),
{
    let v = chars_of(s);
    let mut out: Vec<String> = Vec::new();
    let mut i: usize = 0;
    proof {
        assert(v@.skip(0) =~= v@);
        assert(strings(out@) + parts(v@, sep) =~= parts(s@, sep));
    }
    loop
        invariant
            v@ == s@,
            i <= v@.len(),
            strings(out@) + parts(v@.skip(i as int), sep) == parts(s@, sep),
        decreases v@.len() - i,
    {
        let ghost rest = v@.skip(i as int);
        let mut end: usize = i;
        while end < v.len() && v[end] != sep
            invariant
                i <= end <= v@.len(),
                rest == v@.skip(i as int),
                i + part_len(rest, sep) == end + part_len(v@.skip(end as int), sep),
            decreases v@.len() - end,
        {
            assert(v@.skip(end as int).drop_first() =~= v@.skip(end + 1));
            end = end + 1;
        }
        let ghost n = part_len(rest, sep);
        let ghost had = strings(out@);
        let part = string_of(v.as_slice(), i, end);
        assert(part@ =~= rest.take(n));
        out.push(part);
        assert(strings(out@) =~= had.push(rest.take(n)));
        if end >= v.len() {
            assert(rest.take(n) =~= rest);
            assert(had + seq![rest] =~= strings(out@));
            return out;
        }
        proof {
            assert(rest.skip(n + 1) =~= v@.skip(end + 1));
            assert(had + (seq![rest.take(n)] + parts(v@.skip(end + 1), sep)) =~= strings(out@)
                + parts(v@.skip(end + 1), sep));
        }
        i = end + 1;
    }
}

/// The text behind its first `n` bytes, where a character ends there.
pub open spec fn behind_bytes(s: Seq<char>, n: int) -> Option<Seq<char>> {
    let b = encode_utf8(s);
    if is_char_boundary(b, n) {
        Some(decode_utf8(b.subrange(n, b.len() as int)))
    } else {
        None
    }
}

/// The text behind its first `n` bytes, where a character ends there.
pub fn after_bytes(s: &str, n: usize) -> (r: Option<String>)
    ensures
        match r {
            Some(t) => behind_bytes(s@, n as int) == Some(t@),
            None => behind_bytes(s@, n as int) is None,
        },
{
    if s.is_char_boundary(n) {
        let (_, tail) = s.split_at(n);
        proof {
            encode_utf8_decode_utf8(tail@);
        }
        Some(tail.to_owned())
    } else {
        None
    }
}

/// Whether a text is among those of a list.
pub fn has_text(list: &Vec<String>, text: &str) -> (r: bool)
    ensures
        r == strings(list@).contains(text@),
{
    let ghost all = strings(list@);
    let mut i: usize = 0;
    while i < list.len()
        invariant
            all == strings(list@),
            i <= list@.len(),
            forall|k: int| 0 <= k < i ==> all[k] != text@,
        decreases list@.len() - i,
    {
        assert(all[i as int] == list@[i as int]@);
        if same(list[i].as_str(), text) {
            return true;
        }
        i = i + 1;
    }
    false
}

// ---------------------------------------------------------------------------
// Laws of white space

proof fn lemma_start_place(s: Seq<char>) -> (n: int)
    ensures
        0 <= n <= s.len(),
        trim_start(s) == s.skip(n),
        forall|i: int| 0 <= i < n ==> is_white(#[trigger] s[i]),
        n < s.len() ==> !is_white(s[n]),
    decreases s.len(),
{
    if s.len() > 0 && is_white(s[0]) {
        let m = lemma_start_place(s.drop_first());
        assert(s.drop_first().skip(m) =~= s.skip(m + 1));
        assert forall|i: int| 0 <= i < m + 1 implies is_white(#[trigger] s[i]) by {
            if i > 0 {
                assert(s.drop_first()[i - 1] == s[i]);
            }
        }
        m + 1
    } else {
        assert(s.skip(0) =~= s);
        0
    }
}

proof fn lemma_end_place(s: Seq<char>) -> (n: int)
    ensures
        0 <= n <= s.len(),
        trim_end(s) == s.take(n),
        forall|i: int| n <= i < s.len() ==> is_white(#[trigger] s[i]),
        n > 0 ==> !is_white(s[n - 1]),
    decreases s.len(),
{
    if s.len() > 0 && is_white(s.last()) {
        let n = lemma_end_place(s.drop_last());
        assert(s.drop_last().take(n) =~= s.take(n));
        assert forall|i: int| n <= i < s.len() implies is_white(#[trigger] s[i]) by {
            if i < s.len() - 1 {
                assert(s.drop_last()[i] == s[i]);
            }
        }
        if n > 0 {
            assert(s.drop_last()[n - 1] == s[n - 1]);
        }
        n
    } else {
        assert(s.take(s.len() as int) =~= s);
        s.len() as int
    }
}

/// Trimming takes white space from the ends, all of it, and nothing else.
pub proof fn law_trimming_takes_the_white_space_at_the_ends(s: Seq<char>) -> (r: (int, int))
    ensures
        0 <= r.0 <= r.1 <= s.len(),
        trim(s) == s.subrange(r.0, r.1),
        forall|i: int| 0 <= i < r.0 || r.1 <= i < s.len() ==> is_white(#[trigger] s[i]),
        r.0 < r.1 ==> !is_white(s[r.0]) && !is_white(s[r.1 - 1]),
{
    let a = lemma_start_place(s);
    let t = s.skip(a);
    let n = lemma_end_place(t);
    assert(t.take(n) =~= s.subrange(a, a + n));
    assert forall|i: int| 0 <= i < a || a + n <= i < s.len() implies is_white(
        #[trigger] s[i],
    ) by {
        if i >= a + n {
            assert(t[i - a] == s[i]);
        }
    }
    if n > 0 {
        assert(t[0] == s[a]);
        assert(t[n - 1] == s[a + n - 1]);
    }
    (a, a + n)
}

/// A text without white space.
pub open spec fn is_solid(s: Seq<char>) -> bool {
    forall|i: int| 0 <= i < s.len() ==> !is_white(#[trigger] s[i])
}

pub proof fn lemma_trim_solid(s: Seq<char>, ends: Seq<char>)
    requires
        is_solid(s),
        s.len() > 0,
        forall|i: int| 0 <= i < ends.len() ==> is_white(#[trigger] ends[i]),
    ensures
        trim(s + ends) == s,
{
    let all = s + ends;
    let (a, b) = law_trimming_takes_the_white_space_at_the_ends(all);
    assert(!is_white(all[0])) by {
        assert(!is_white(s[0]));
    }
    assert(!is_white(all[s.len() - 1])) by {
        assert(!is_white(s[s.len() - 1]));
    }
    if a > 0 {
        assert(is_white(all[0]));
    }
    if b < s.len() {
        assert(is_white(all[s.len() - 1]));
    }
    if b > s.len() {
        assert(all[b - 1] == ends[b - 1 - s.len()]);
        assert(is_white(ends[b - 1 - s.len()]));
    }
    assert(all.subrange(0, s.len() as int) =~= s);
}

proof fn lemma_solid_word(s: Seq<char>, rest: Seq<char>)
    requires
        is_solid(s),
        rest.len() == 0 || is_white(rest[0]),
    ensures
        word_len(s + rest) == s.len(),
    decreases s.len(),
{
    if s.len() > 0 {
        assert(!is_white(s[0]));
        assert((s + rest)[0] == s[0]);
        assert((s + rest).drop_first() =~= s.drop_first() + rest);
        assert forall|i: int| 0 <= i < s.drop_first().len() implies !is_white(
            #[trigger] s.drop_first()[i],
        ) by {
            assert(!is_white(s[i + 1]));
        }
        lemma_solid_word(s.drop_first(), rest);
    } else {
        assert(s + rest =~= rest);
    }
}

/// A text without white space is the first word of what starts with it.
pub proof fn lemma_first_word(s: Seq<char>, rest: Seq<char>)
    requires
        is_solid(s),
        s.len() > 0,
        rest.len() == 0 || is_white(rest[0]),
    ensures
        words(s + rest) == seq![s] + words(rest),
{
    let all = s + rest;
    assert(!is_white(s[0]));
    assert(all[0] == s[0]);
    lemma_solid_word(s, rest);
    assert(all.take(s.len() as int) =~= s);
    assert(all.skip(s.len() as int) =~= rest);
}

pub proof fn lemma_words_behind(c: char, rest: Seq<char>)
    requires
        is_white(c),
    ensures
        words(seq![c] + rest) == words(rest),
{
    let all = seq![c] + rest;
    assert(all[0] == c);
    assert(all.drop_first() =~= rest);
}

pub proof fn lemma_digits_are_solid(n: nat)
    ensures
        is_solid(decimal(n)),
        decimal(n).len() > 0,
{
    lemma_decimal_digits(n);
    assert forall|i: int| 0 <= i < decimal(n).len() implies !is_white(#[trigger] decimal(n)[i]) by {
        assert(is_digit(decimal(n)[i]));
    }
}

/// Words that white space separates are read back, whatever white space it is.
pub proof fn law_words_are_read_back(a: Seq<char>, b: Seq<char>, gap: char, end: char)
    requires
        is_solid(a),
        is_solid(b),
        a.len() > 0,
        b.len() > 0,
        is_white(gap),
        is_white(end),
    ensures
        words(a + seq![gap] + b + seq![end]) == seq![a, b],
{
    let tail = b + seq![end];
    assert(words(seq![]) =~= seq![]);
    assert(seq![end] + Seq::<char>::empty() =~= seq![end]);
    lemma_words_behind(end, seq![]);
    lemma_first_word(b, seq![end]);
    lemma_words_behind(gap, tail);
    lemma_first_word(a, seq![gap] + tail);
    assert(a + (seq![gap] + tail) =~= a + seq![gap] + b + seq![end]);
    assert(seq![a] + (seq![b] + Seq::<Seq<char>>::empty()) =~= seq![a, b]);
}

/// What stands behind three characters of one byte each.
pub proof fn lemma_behind_three(a: char, b: char, c: char, rest: Seq<char>)
    requires
        (a as u32) < 0x80,
        (b as u32) < 0x80,
        (c as u32) < 0x80,
    ensures
        behind_bytes(seq![a, b, c] + rest, 3) == Some(rest),
        encode_utf8(seq![a, b, c] + rest).len() == 3 + encode_utf8(rest).len(),
{
    let front = seq![a, b, c];
    is_ascii_chars_encode_utf8(front);
    lemma_encode_concat(front, rest);
    let all = encode_utf8(front + rest);
    assert(all.subrange(3, all.len() as int) =~= encode_utf8(rest));
    encode_utf8_decode_utf8(rest);
    encode_utf8_valid_utf8(front + rest);
    encode_utf8_valid_utf8(rest);
    is_char_boundary_start_end_of_seq(all);
    if rest.len() > 0 {
        encode_utf8_first_scalar(rest);
        assert(all[3] == encode_utf8(rest)[0]);
        is_char_boundary_iff_not_is_continuation_byte(all, 3);
    }
}

proof fn lemma_part_found(a: Seq<char>, sep: char, rest: Seq<char>)
    requires
        !a.contains(sep),
    ensures
        part_len(a + seq![sep] + rest, sep) == a.len(),
    decreases a.len(),
{
    let all = a + seq![sep] + rest;
    if a.len() > 0 {
        assert(a.contains(a[0]));
        assert(all[0] == a[0]);
        assert(all.drop_first() =~= a.drop_first() + seq![sep] + rest);
        assert(!a.drop_first().contains(sep)) by {
            assert forall|i: int| 0 <= i < a.drop_first().len() implies a.drop_first()[i] != sep by {
                assert(a.contains(a[i + 1]));
            }
        }
        lemma_part_found(a.drop_first(), sep, rest);
    } else {
        assert(all[0] == sep);
    }
}

proof fn lemma_no_part(a: Seq<char>, sep: char)
    requires
        !a.contains(sep),
    ensures
        part_len(a, sep) == a.len(),
    decreases a.len(),
{
    if a.len() > 0 {
        assert(a.contains(a[0]));
        assert(!a.drop_first().contains(sep)) by {
            assert forall|i: int| 0 <= i < a.drop_first().len() implies a.drop_first()[i] != sep by {
                assert(a.contains(a[i + 1]));
            }
        }
        lemma_no_part(a.drop_first(), sep);
    }
}

/// Texts with a separator between them are told apart again.
pub proof fn law_parts_are_told_apart(a: Seq<char>, sep: char, rest: Seq<char>)
    requires
        !a.contains(sep),
    ensures
        parts(a + seq![sep] + rest, sep) == seq![a] + parts(rest, sep),
        parts(a, sep) == seq![a],
{
    let all = a + seq![sep] + rest;
    lemma_part_found(a, sep, rest);
    lemma_no_part(a, sep);
    assert(all.take(a.len() as int) =~= a);
    assert(all.skip(a.len() as int + 1) =~= rest);
}

/// No digit is a dot.
pub proof fn lemma_digits_have_no(n: nat, c: char)
    requires
        !is_digit(c),
    ensures
        !decimal(n).contains(c),
{
    lemma_decimal_digits(n);
    assert forall|i: int| 0 <= i < decimal(n).len() implies decimal(n)[i] != c by {
        assert(is_digit(decimal(n)[i]));
    }
}

/// What stands behind the first of a text is what follows it, wherever it is.
pub proof fn law_the_first_is_looked_behind(s: Seq<char>, pat: Seq<char>, k: int)
    requires
        0 <= k,
        k + pat.len() <= s.len(),
        s.subrange(k, k + pat.len()) == pat,
        forall|i: int| 0 <= i < k ==> #[trigger] s.subrange(i, i + pat.len()) != pat,
    ensures
        behind_first(s, pat) == Some(s.skip(k + pat.len())),
    decreases k,
{
    let n = pat.len() as int;
    assert(s.subrange(0, n) =~= s.take(n));
    if k > 0 {
        assert(s.subrange(0, 0int + pat.len()) != pat);
        let rest = s.drop_first();
        assert(rest.subrange(k - 1, k - 1 + n) =~= s.subrange(k, k + n));
        assert forall|i: int| 0 <= i < k - 1 implies #[trigger] rest.subrange(i, i + pat.len())
            != pat by {
            assert(rest.subrange(i, i + n) =~= s.subrange(i + 1, i + 1 + n));
            assert(s.subrange(i + 1, i + 1 + pat.len()) != pat);
        }
        law_the_first_is_looked_behind(rest, pat, k - 1);
        assert(rest.skip(k - 1 + n) =~= s.skip(k + n));
    }
}

/// Digits are read as far as there are any.
pub proof fn law_digits_are_read_to_their_end(digits: Seq<char>, rest: Seq<char>)
    requires
        forall|i: int| 0 <= i < digits.len() ==> is_digit(#[trigger] digits[i]),
        rest.len() == 0 || !is_digit(rest[0]),
    ensures
        leading_digits(digits + rest) == digits,
    decreases digits.len(),
{
    let all = digits + rest;
    if digits.len() > 0 {
        assert(is_digit(digits[0]));
        let tail = digits.drop_first();
        assert forall|i: int| 0 <= i < tail.len() implies is_digit(#[trigger] tail[i]) by {
            assert(tail[i] == digits[i + 1]);
        }
        law_digits_are_read_to_their_end(tail, rest);
        assert(all.drop_first() =~= tail + rest);
        assert(seq![digits[0]] + tail =~= digits);
    } else {
        assert(all =~= rest);
    }
}

} // verus!
