//! Unix paths as text: their components, their order, and what is read off them.

use vstd::prelude::*;
use vstd::string::*;

use crate::text::{chars_of, same, string_of, strings};

verus! {

// ---------------------------------------------------------------------------
// Components

/// Where the first piece of `s` ends: at its first slash.
pub open spec fn piece_len(s: Seq<char>) -> int
    decreases s.len(),
{
    if s.len() == 0 || s[0] == '/' {
        0
    } else {
        1 + piece_len(s.drop_first())
    }
}

pub proof fn lemma_piece_len(s: Seq<char>)
    ensures
        0 <= piece_len(s) <= s.len(),
    decreases s.len(),
{
    if s.len() > 0 && s[0] != '/' {
        lemma_piece_len(s.drop_first());
    }
}

/// A piece of a path that counts: not empty, and no dot unless a relative path starts with it.
pub open spec fn counts(piece: Seq<char>, leading: bool) -> bool {
    piece.len() > 0 && (leading || piece != "."@)
}

/// The components of a path without its root, `leading` telling that a dot may start it.
pub open spec fn names(s: Seq<char>, leading: bool) -> Seq<Seq<char>>
    decreases s.len(),
{
    proof {
        lemma_piece_len(s);
    }
    let n = piece_len(s);
    let head = if counts(s.take(n), leading) {
        seq![s.take(n)]
    } else {
        seq![]
    };
    if n >= s.len() {
        head
    } else {
        head + names(s.skip(n + 1), false)
    }
}

pub open spec fn is_absolute(s: Seq<char>) -> bool {
    s.len() > 0 && s[0] == '/'
}

/// The components of a path: the root, where it is absolute, then its names. Slashes in a row,
/// slashes at the end and inner dots do not count.
pub open spec fn components(s: Seq<char>) -> Seq<Seq<char>> {
    if is_absolute(s) {
        seq!["/"@] + names(s, false)
    } else {
        names(s, true)
    }
}

/// The two texts are the same path.
pub open spec fn same_path(a: Seq<char>, b: Seq<char>) -> bool {
    components(a) == components(b)
}

fn piece_end(v: &Vec<char>, from: usize) -> (end: usize)
    requires
        from <= v@.len(),
    ensures
        end == from + piece_len(v@.skip(from as int)),
        from <= end <= v@.len(),
{
    let mut i: usize = from;
    while i < v.len() && v[i] != '/'
        invariant
            from <= i <= v@.len(),
            from + piece_len(v@.skip(from as int)) == i + piece_len(v@.skip(i as int)),
        decreases v@.len() - i,
    {
        assert(v@.skip(i as int).drop_first() =~= v@.skip(i + 1));
        i = i + 1;
    }
    i
}

/// The components of a path.
pub fn components_of(p: &str) -> (r: Vec<String>)
    ensures
        strings(r@) == components(p@),
{
    let v = chars_of(p);
    let mut out: Vec<String> = Vec::new();
    let absolute = v.len() > 0 && v[0] == '/';
    if absolute {
        out.push("/".to_owned());
    }
    let mut leading = !absolute;
    let mut i: usize = 0;
    proof {
        assert(v@.skip(0) =~= v@);
        assert(strings(out@) + names(v@, leading) =~= components(p@));
    }
    loop
        invariant
            v@ == p@,
            i <= v@.len(),
            strings(out@) + names(v@.skip(i as int), leading) == components(p@),
        decreases v@.len() - i,
    {
        let end: usize = piece_end(&v, i);
        let piece = string_of(v.as_slice(), i, end);
        let ghost had = strings(out@);
        let ghost rest = v@.skip(i as int);
        let ghost n = piece_len(rest);
        assert(piece@ =~= rest.take(n));
        let ghost head = if counts(piece@, leading) {
            seq![piece@]
        } else {
            seq![]
        };
        if end > i && (leading || !same(piece.as_str(), ".")) {
            out.push(piece);
            assert(strings(out@) =~= had + head);
        } else {
            assert(strings(out@) =~= had + head);
        }
        if end >= v.len() {
            return out;
        }
        proof {
            assert(rest.skip(n + 1) =~= v@.skip(end + 1));
            assert(had + (head + names(v@.skip(end + 1), false)) =~= strings(out@) + names(
                v@.skip(end + 1),
                false,
            ));
        }
        leading = false;
        i = end + 1;
    }
}

fn same_strings(a: &Vec<String>, b: &Vec<String>) -> (r: bool)
    ensures
        r == (strings(a@) == strings(b@)),
{
    if a.len() != b.len() {
        assert(strings(a@).len() != strings(b@).len());
        return false;
    }
    let mut i: usize = 0;
    while i < a.len()
        invariant
            a@.len() == b@.len(),
            i <= a@.len(),
            forall|k: int| 0 <= k < i ==> a@[k]@ == b@[k]@,
        decreases a@.len() - i,
    {
        if !same(a[i].as_str(), b[i].as_str()) {
            assert(strings(a@)[i as int] != strings(b@)[i as int]);
            return false;
        }
        i = i + 1;
    }
    assert(strings(a@) =~= strings(b@));
    true
}

/// Whether the two texts are the same path.
pub fn is_same_path(a: &str, b: &str) -> (r: bool)
    ensures
        r == same_path(a@, b@),
{
    same_strings(&components_of(a), &components_of(b))
}

/// The place of the first path in the list that is the same as `p`.
pub open spec fn path_index(paths: Seq<Seq<char>>, p: Seq<char>) -> Option<int>
    decreases paths.len(),
{
    if paths.len() == 0 {
        None
    } else if same_path(paths[0], p) {
        Some(0)
    } else {
        match path_index(paths.drop_first(), p) {
            Some(k) => Some(k + 1),
            None => None,
        }
    }
}

/// One of the paths is the same as `p`.
pub open spec fn has_path(paths: Seq<Seq<char>>, p: Seq<char>) -> bool {
    exists|k: int| 0 <= k < paths.len() && same_path(#[trigger] paths[k], p)
}

/// Whether one of the paths is the same as `p`.
pub fn contains_path(paths: &Vec<String>, p: &str) -> (r: bool)
    ensures
        r == has_path(strings(paths@), p@),
{
    let mut i: usize = 0;
    while i < paths.len()
        invariant
            i <= paths@.len(),
            forall|k: int| 0 <= k < i ==> !same_path(#[trigger] strings(paths@)[k], p@),
        decreases paths@.len() - i,
    {
        if is_same_path(paths[i].as_str(), p) {
            assert(same_path(strings(paths@)[i as int], p@));
            return true;
        }
        i = i + 1;
    }
    false
}

// ---------------------------------------------------------------------------
// Order

/// Texts in the order of their characters: -1, 0 or 1.
pub open spec fn text_order(a: Seq<char>, b: Seq<char>) -> int
    decreases a.len(),
{
    if a.len() == 0 {
        if b.len() == 0 {
            0
        } else {
            -1
        }
    } else if b.len() == 0 {
        1
    } else if a[0] < b[0] {
        -1
    } else if a[0] > b[0] {
        1
    } else {
        text_order(a.drop_first(), b.drop_first())
    }
}

/// The root comes first, then a dot, then two dots, then names.
pub open spec fn rank(c: Seq<char>) -> int {
    if c == "/"@ {
        0
    } else if c == "."@ {
        1
    } else if c == ".."@ {
        2
    } else {
        3
    }
}

pub open spec fn component_order(a: Seq<char>, b: Seq<char>) -> int {
    if rank(a) < rank(b) {
        -1
    } else if rank(a) > rank(b) {
        1
    } else if rank(a) < 3 {
        0
    } else {
        text_order(a, b)
    }
}

pub open spec fn list_order(a: Seq<Seq<char>>, b: Seq<Seq<char>>) -> int
    decreases a.len(),
{
    if a.len() == 0 {
        if b.len() == 0 {
            0
        } else {
            -1
        }
    } else if b.len() == 0 {
        1
    } else {
        let c = component_order(a[0], b[0]);
        if c != 0 {
            c
        } else {
            list_order(a.drop_first(), b.drop_first())
        }
    }
}

/// Paths in the order of their components: -1, 0 or 1.
pub open spec fn path_order(a: Seq<char>, b: Seq<char>) -> int {
    list_order(components(a), components(b))
}

proof fn lemma_text_order(a: Seq<char>, b: Seq<char>)
    ensures
        text_order(a, b) == 0 <==> a == b,
        text_order(a, b) == -text_order(b, a),
        -1 <= text_order(a, b) <= 1,
    decreases a.len(),
{
    if a.len() > 0 && b.len() > 0 && a[0] == b[0] {
        lemma_text_order(a.drop_first(), b.drop_first());
        if a.drop_first() == b.drop_first() {
            assert(a =~= seq![a[0]] + a.drop_first());
            assert(b =~= seq![b[0]] + b.drop_first());
        }
    } else if a.len() == 0 && b.len() == 0 {
        assert(a =~= b);
    }
}

proof fn lemma_text_order_transitive(a: Seq<char>, b: Seq<char>, c: Seq<char>)
    requires
        text_order(a, b) < 0,
        text_order(b, c) < 0,
    ensures
        text_order(a, c) < 0,
    decreases a.len(),
{
    if a.len() > 0 && b.len() > 0 && c.len() > 0 && a[0] == b[0] && b[0] == c[0] {
        lemma_text_order_transitive(a.drop_first(), b.drop_first(), c.drop_first());
    }
}

proof fn lemma_component_order(a: Seq<char>, b: Seq<char>)
    ensures
        component_order(a, b) == 0 <==> a == b,
        component_order(a, b) == -component_order(b, a),
        -1 <= component_order(a, b) <= 1,
{
    lemma_text_order(a, b);
}

proof fn lemma_list_order(a: Seq<Seq<char>>, b: Seq<Seq<char>>)
    ensures
        list_order(a, b) == 0 <==> a == b,
        list_order(a, b) == -list_order(b, a),
        -1 <= list_order(a, b) <= 1,
    decreases a.len(),
{
    if a.len() > 0 && b.len() > 0 {
        lemma_component_order(a[0], b[0]);
        lemma_list_order(a.drop_first(), b.drop_first());
        if a[0] == b[0] && a.drop_first() == b.drop_first() {
            assert(a =~= seq![a[0]] + a.drop_first());
            assert(b =~= seq![b[0]] + b.drop_first());
        }
    } else if a.len() == 0 && b.len() == 0 {
        assert(a =~= b);
    }
}

proof fn lemma_list_order_transitive(a: Seq<Seq<char>>, b: Seq<Seq<char>>, c: Seq<Seq<char>>)
    requires
        list_order(a, b) < 0,
        list_order(b, c) < 0,
    ensures
        list_order(a, c) < 0,
    decreases a.len(),
{
    if a.len() > 0 && b.len() > 0 && c.len() > 0 {
        lemma_component_order(a[0], b[0]);
        lemma_component_order(b[0], c[0]);
        lemma_component_order(a[0], c[0]);
        if a[0] == b[0] && b[0] == c[0] {
            lemma_list_order_transitive(a.drop_first(), b.drop_first(), c.drop_first());
        } else if a[0] != b[0] && b[0] != c[0] {
            if rank(a[0]) == 3 && rank(c[0]) == 3 {
                lemma_text_order_transitive(a[0], b[0], c[0]);
            }
        }
    }
}

/// The order of paths is total, and only a path and itself are level in it.
pub proof fn law_paths_are_ordered(a: Seq<char>, b: Seq<char>, c: Seq<char>)
    ensures
        path_order(a, b) == 0 <==> same_path(a, b),
        path_order(a, b) == -path_order(b, a),
        path_order(a, b) < 0 && path_order(b, c) < 0 ==> path_order(a, c) < 0,
{
    lemma_list_order(components(a), components(b));
    if path_order(a, b) < 0 && path_order(b, c) < 0 {
        lemma_list_order_transitive(components(a), components(b), components(c));
    }
}

fn order_of_texts(a: &str, b: &str) -> (r: i8)
    ensures
        r == text_order(a@, b@),
{
    let x = chars_of(a);
    let y = chars_of(b);
    let mut i: usize = 0;
    assert(x@.skip(0) =~= x@);
    assert(y@.skip(0) =~= y@);
    loop
        invariant
            x@ == a@,
            y@ == b@,
            i <= x@.len(),
            i <= y@.len(),
            text_order(x@.skip(i as int), y@.skip(i as int)) == text_order(x@, y@),
        decreases x@.len() - i,
    {
        if i == x.len() {
            return if i == y.len() {
                0
            } else {
                -1
            };
        }
        if i == y.len() {
            return 1;
        }
        if x[i] < y[i] {
            return -1;
        }
        if x[i] > y[i] {
            return 1;
        }
        proof {
            assert(x@.skip(i as int).drop_first() =~= x@.skip(i + 1));
            assert(y@.skip(i as int).drop_first() =~= y@.skip(i + 1));
        }
        i = i + 1;
    }
}

fn rank_of(c: &str) -> (r: u8)
    ensures
        r == rank(c@),
{
    if same(c, "/") {
        0
    } else if same(c, ".") {
        1
    } else if same(c, "..") {
        2
    } else {
        3
    }
}

fn order_of_components(a: &str, b: &str) -> (r: i8)
    ensures
        r == component_order(a@, b@),
{
    let x: u8 = rank_of(a);
    let y: u8 = rank_of(b);
    if x < y {
        -1
    } else if x > y {
        1
    } else if x < 3 {
        0
    } else {
        order_of_texts(a, b)
    }
}

/// The order of two paths: -1, 0 or 1.
pub fn order_of_paths(a: &str, b: &str) -> (r: i8)
    ensures
        r == path_order(a@, b@),
{
    let x = components_of(a);
    let y = components_of(b);
    let ghost p = strings(x@);
    let ghost q = strings(y@);
    let mut i: usize = 0;
    assert(p.skip(0) =~= p);
    assert(q.skip(0) =~= q);
    loop
        invariant
            p == strings(x@),
            q == strings(y@),
            p == components(a@),
            q == components(b@),
            i <= x@.len(),
            i <= y@.len(),
            list_order(p.skip(i as int), q.skip(i as int)) == list_order(p, q),
        decreases x@.len() - i,
    {
        if i == x.len() {
            return if i == y.len() {
                0
            } else {
                -1
            };
        }
        if i == y.len() {
            return 1;
        }
        assert(p.skip(i as int)[0] == x@[i as int]@);
        assert(q.skip(i as int)[0] == y@[i as int]@);
        let c: i8 = order_of_components(x[i].as_str(), y[i].as_str());
        if c != 0 {
            return c;
        }
        proof {
            assert(p.skip(i as int).drop_first() =~= p.skip(i + 1));
            assert(q.skip(i as int).drop_first() =~= q.skip(i + 1));
        }
        i = i + 1;
    }
}

/// The ordered list with `p` in it; a path that is there already stays as it is.
pub open spec fn insert_path(sorted: Seq<Seq<char>>, p: Seq<char>) -> Seq<Seq<char>>
    decreases sorted.len(),
{
    if sorted.len() == 0 || path_order(sorted.last(), p) < 0 {
        sorted.push(p)
    } else if path_order(sorted.last(), p) == 0 {
        sorted
    } else {
        insert_path(sorted.drop_last(), p).push(sorted.last())
    }
}

/// The paths stand in order, none of them twice.
pub open spec fn ordered_paths(v: Seq<Seq<char>>) -> bool {
    forall|j: int, k: int|
        #![trigger v[j], v[k]]
        0 <= j < k < v.len() ==> path_order(v[j], v[k]) < 0
}

/// Inserting keeps the order, adds the path, and drops none.
pub proof fn lemma_insert_path(sorted: Seq<Seq<char>>, p: Seq<char>)
    requires
        ordered_paths(sorted),
    ensures
        ordered_paths(insert_path(sorted, p)),
        forall|q: Seq<char>|
            #[trigger] has_path(insert_path(sorted, p), q) <==> has_path(sorted, q) || same_path(
                p,
                q,
            ),
        forall|k: int|
            0 <= k < insert_path(sorted, p).len() ==> #[trigger] insert_path(sorted, p)[k] == p
                || sorted.contains(insert_path(sorted, p)[k]),
    decreases sorted.len(),
{
    let all = insert_path(sorted, p);
    if sorted.len() == 0 {
        assert(all =~= seq![p]);
        assert forall|q: Seq<char>| #[trigger] has_path(all, q) <==> has_path(sorted, q)
            || same_path(p, q) by {
            if same_path(p, q) {
                assert(same_path(all[0], q));
            }
        }
    } else {
        let last = sorted.last();
        let front = sorted.drop_last();
        assert(sorted[sorted.len() - 1] == last);
        law_paths_are_ordered(last, p, p);
        assert forall|j: int, k: int|
            #![trigger front[j], front[k]]
            0 <= j < k < front.len() implies path_order(front[j], front[k]) < 0 by {
            assert(front[j] == sorted[j]);
            assert(front[k] == sorted[k]);
        }
        if path_order(last, p) < 0 {
            assert forall|j: int, k: int|
                #![trigger all[j], all[k]]
                0 <= j < k < all.len() implies path_order(all[j], all[k]) < 0 by {
                if k == sorted.len() {
                    if j < sorted.len() - 1 {
                        assert(path_order(sorted[j], sorted[sorted.len() - 1]) < 0);
                        law_paths_are_ordered(sorted[j], last, p);
                    }
                } else {
                    assert(all[j] == sorted[j] && all[k] == sorted[k]);
                }
            }
            assert forall|q: Seq<char>| #[trigger] has_path(all, q) <==> has_path(sorted, q)
                || same_path(p, q) by {
                if has_path(sorted, q) {
                    let k = choose|k: int|
                        0 <= k < sorted.len() && same_path(#[trigger] sorted[k], q);
                    assert(all[k] == sorted[k]);
                }
                if same_path(p, q) {
                    assert(same_path(all[sorted.len() as int], q));
                }
                if has_path(all, q) {
                    let k = choose|k: int| 0 <= k < all.len() && same_path(#[trigger] all[k], q);
                    if k < sorted.len() {
                        assert(same_path(sorted[k], q));
                    }
                }
            }
            assert forall|k: int| 0 <= k < all.len() implies #[trigger] all[k] == p
                || sorted.contains(all[k]) by {
                if k < sorted.len() {
                    assert(sorted[k] == all[k]);
                }
            }
        } else if path_order(last, p) == 0 {
            assert forall|q: Seq<char>| #[trigger] has_path(all, q) <==> has_path(sorted, q)
                || same_path(p, q) by {
                if same_path(p, q) {
                    assert(same_path(sorted[sorted.len() - 1], q));
                }
            }
            assert forall|k: int| 0 <= k < all.len() implies #[trigger] all[k] == p
                || sorted.contains(all[k]) by {
                assert(sorted[k] == all[k]);
            }
        } else {
            lemma_insert_path(front, p);
            let f = insert_path(front, p);
            assert(all == f.push(last));
            assert forall|j: int, k: int|
                #![trigger all[j], all[k]]
                0 <= j < k < all.len() implies path_order(all[j], all[k]) < 0 by {
                if k == f.len() {
                    assert(all[j] == f[j]);
                    assert(f[j] == p || front.contains(f[j]));
                    if f[j] != p {
                        let i = choose|i: int| 0 <= i < front.len() && front[i] == f[j];
                        assert(sorted[i] == f[j]);
                        assert(path_order(sorted[i], sorted[sorted.len() - 1]) < 0);
                    }
                } else {
                    assert(all[j] == f[j] && all[k] == f[k]);
                }
            }
            assert forall|q: Seq<char>| #[trigger] has_path(all, q) <==> has_path(sorted, q)
                || same_path(p, q) by {
                assert(has_path(f, q) <==> has_path(front, q) || same_path(p, q));
                if has_path(all, q) {
                    let k = choose|k: int| 0 <= k < all.len() && same_path(#[trigger] all[k], q);
                    if k < f.len() {
                        assert(same_path(f[k], q));
                        if has_path(front, q) {
                            let i = choose|i: int|
                                0 <= i < front.len() && same_path(#[trigger] front[i], q);
                            assert(same_path(sorted[i], q));
                        }
                    } else {
                        assert(same_path(sorted[sorted.len() - 1], q));
                    }
                }
                if has_path(sorted, q) {
                    let k = choose|k: int|
                        0 <= k < sorted.len() && same_path(#[trigger] sorted[k], q);
                    if k < front.len() {
                        assert(same_path(front[k], q));
                        assert(has_path(f, q));
                    } else {
                        assert(same_path(all[f.len() as int], q));
                    }
                }
                if has_path(f, q) {
                    let k = choose|k: int| 0 <= k < f.len() && same_path(#[trigger] f[k], q);
                    assert(same_path(all[k], q));
                }
            }
            assert forall|k: int| 0 <= k < all.len() implies #[trigger] all[k] == p
                || sorted.contains(all[k]) by {
                if k < f.len() {
                    assert(all[k] == f[k]);
                    if f[k] != p {
                        let i = choose|i: int| 0 <= i < front.len() && front[i] == f[k];
                        assert(sorted[i] == all[k]);
                    }
                } else {
                    assert(sorted[sorted.len() - 1] == all[k]);
                }
            }
        }
    }
}

proof fn lemma_insert_at(all: Seq<Seq<char>>, k: int, p: Seq<char>)
    requires
        0 <= k <= all.len(),
        forall|j: int| k <= j < all.len() ==> path_order(#[trigger] all[j], p) > 0,
        k > 0 ==> path_order(all[k - 1], p) <= 0,
    ensures
        insert_path(all, p) == (if k > 0 && path_order(all[k - 1], p) == 0 {
            all
        } else {
            all.insert(k, p)
        }),
    decreases all.len(),
{
    if k == all.len() {
        assert(all.insert(k, p) =~= all.push(p));
    } else {
        assert(path_order(all[all.len() - 1], p) > 0);
        let front = all.drop_last();
        assert forall|j: int| k <= j < front.len() implies path_order(#[trigger] front[j], p)
            > 0 by {
            assert(front[j] == all[j]);
        }
        lemma_insert_at(front, k, p);
        if k > 0 && path_order(all[k - 1], p) == 0 {
            assert(front.push(all.last()) =~= all);
        } else {
            assert(all.insert(k, p) =~= front.insert(k, p).push(all.last()));
        }
    }
}

/// Puts a path into an ordered list, unless it is there.
pub fn insert_ordered(sorted: &mut Vec<String>, p: String)
    ensures
        strings(final(sorted)@) == insert_path(strings(old(sorted)@), p@),
{
    let mut k: usize = sorted.len();
    let ghost all = strings(sorted@);
    loop
        invariant
            k <= sorted@.len(),
            sorted@ == old(sorted)@,
            all == strings(sorted@),
            forall|j: int| k <= j < all.len() ==> path_order(#[trigger] all[j], p@) > 0,
        ensures
            k <= sorted@.len(),
            sorted@ == old(sorted)@,
            forall|j: int| k <= j < all.len() ==> path_order(#[trigger] all[j], p@) > 0,
            k > 0 ==> path_order(all[k - 1], p@) < 0,
        decreases k,
    {
        if k == 0 {
            break;
        }
        assert(all[k - 1] == sorted@[k - 1]@);
        let c: i8 = order_of_paths(sorted[k - 1].as_str(), p.as_str());
        if c == 0 {
            proof {
                lemma_insert_at(all, k as int, p@);
            }
            return ;
        }
        if c < 0 {
            break;
        }
        k = k - 1;
    }
    proof {
        lemma_insert_at(all, k as int, p@);
    }
    sorted.insert(k, p);
    assert(strings(sorted@) =~= all.insert(k as int, p@));
}

// ---------------------------------------------------------------------------
// Reading paths

/// The component is a name, not the root or dots.
pub open spec fn is_name(c: Seq<char>) -> bool {
    rank(c) == 3
}

/// The last component of a path, where it is a name.
pub open spec fn file_name(p: Seq<char>) -> Option<Seq<char>> {
    let c = components(p);
    if c.len() > 0 && is_name(c.last()) {
        Some(c.last())
    } else {
        None
    }
}

/// The last component of a path, where it is a name.
pub fn file_name_of(p: &str) -> (r: Option<String>)
    ensures
        match r {
            Some(n) => file_name(p@) == Some(n@),
            None => file_name(p@) is None,
        },
{
    let mut c = components_of(p);
    let ghost all = strings(c@);
    assert(all.len() == c@.len());
    match c.pop() {
        None => None,
        Some(last) => {
            assert(all.last() == last@);
            if rank_of(last.as_str()) == 3 {
                Some(last)
            } else {
                None
            }
        },
    }
}

/// Where the last dot stands; -1 where there is none.
pub open spec fn last_dot(s: Seq<char>) -> int
    decreases s.len(),
{
    if s.len() == 0 {
        -1
    } else if s.last() == '.' {
        s.len() - 1
    } else {
        last_dot(s.drop_last())
    }
}

/// What follows the last dot of a file name; a dot in front makes none.
pub open spec fn extension(p: Seq<char>) -> Option<Seq<char>> {
    match file_name(p) {
        None => None,
        Some(n) => if last_dot(n) > 0 {
            Some(n.skip(last_dot(n) + 1))
        } else {
            None
        },
    }
}

/// What follows the last dot of a file name.
pub fn extension_of(p: &str) -> (r: Option<String>)
    ensures
        match r {
            Some(e) => extension(p@) == Some(e@),
            None => extension(p@) is None,
        },
{
    match file_name_of(p) {
        None => None,
        Some(n) => {
            let v = chars_of(n.as_str());
            let mut i: usize = v.len();
            assert(v@.take(i as int) =~= v@);
            while i > 0 && v[i - 1] != '.'
                invariant
                    i <= v@.len(),
                    last_dot(v@) == last_dot(v@.take(i as int)),
                decreases i,
            {
                assert(v@.take(i as int).drop_last() =~= v@.take(i - 1));
                i = i - 1;
            }
            if i > 1 {
                let e = string_of(v.as_slice(), i, v.len());
                assert(e@ =~= v@.skip(i as int));
                Some(e)
            } else {
                None
            }
        },
    }
}

/// `rel` below `base`; an absolute `rel` stands for itself.
pub open spec fn joined(base: Seq<char>, rel: Seq<char>) -> Seq<char> {
    if is_absolute(rel) {
        rel
    } else if base.len() > 0 && base.last() != '/' {
        base + "/"@ + rel
    } else {
        base + rel
    }
}

/// `rel` below `base`.
pub fn join(base: &str, rel: &str) -> (r: String)
    ensures
        r@ == joined(base@, rel@),
{
    let b = chars_of(base);
    let v = chars_of(rel);
    if v.len() > 0 && v[0] == '/' {
        return rel.to_owned();
    }
    let mut s = base.to_owned();
    if b.len() > 0 && b[b.len() - 1] != '/' {
        s.append("/");
    }
    s.append(rel);
    s
}

// ---------------------------------------------------------------------------
// Parts of paths

/// Where the components of a path without its root stand, `at` being where the text starts.
pub open spec fn name_places(s: Seq<char>, leading: bool, at: int) -> Seq<(int, int)>
    decreases s.len(),
{
    proof {
        lemma_piece_len(s);
    }
    let n = piece_len(s);
    let head = if counts(s.take(n), leading) {
        seq![(at, at + n)]
    } else {
        seq![]
    };
    if n >= s.len() {
        head
    } else {
        head + name_places(s.skip(n + 1), false, at + n + 1)
    }
}

/// Where the components of a path stand in it: where each starts, and where it ends.
pub open spec fn places(p: Seq<char>) -> Seq<(int, int)> {
    if is_absolute(p) {
        seq![(0, 1)] + name_places(p, false, 0)
    } else {
        name_places(p, true, 0)
    }
}

/// The path up to its first `n` components, as it is written.
pub open spec fn path_upto(p: Seq<char>, n: int) -> Seq<char> {
    if n <= 0 {
        seq![]
    } else {
        p.take(places(p)[n - 1].1)
    }
}

/// The path behind its first `n` components, as it is written.
pub open spec fn path_from(p: Seq<char>, n: int) -> Seq<char> {
    if n >= places(p).len() {
        seq![]
    } else {
        p.subrange(places(p)[n].0, places(p).last().1)
    }
}

proof fn lemma_name_places(s: Seq<char>, leading: bool, at: int)
    ensures
        name_places(s, leading, at).len() == names(s, leading).len(),
        forall|k: int|
            0 <= k < names(s, leading).len() ==> {
                let (a, b) = #[trigger] name_places(s, leading, at)[k];
                &&& at <= a < b <= at + s.len()
                &&& s.subrange(a - at, b - at) == names(s, leading)[k]
            },
        forall|j: int, k: int|
            #![trigger name_places(s, leading, at)[j], name_places(s, leading, at)[k]]
            0 <= j < k < names(s, leading).len() ==> name_places(s, leading, at)[j].1
                < name_places(s, leading, at)[k].0,
    decreases s.len(),
{
    lemma_piece_len(s);
    let n = piece_len(s);
    let all = name_places(s, leading, at);
    assert(s.subrange(0, n) =~= s.take(n));
    if n < s.len() {
        let rest = s.skip(n + 1);
        lemma_name_places(rest, false, at + n + 1);
        let tail = name_places(rest, false, at + n + 1);
        let h = all.len() - tail.len();
        assert forall|k: int| 0 <= k < names(s, leading).len() implies {
            let (a, b) = #[trigger] all[k];
            &&& at <= a < b <= at + s.len()
            &&& s.subrange(a - at, b - at) == names(s, leading)[k]
        } by {
            if k >= h {
                assert(all[k] == tail[k - h]);
                let (a, b) = tail[k - h];
                assert(s.subrange(a - at, b - at) =~= rest.subrange(
                    a - at - n - 1,
                    b - at - n - 1,
                ));
            }
        }
        assert forall|j: int, k: int|
            #![trigger all[j], all[k]]
            0 <= j < k < names(s, leading).len() implies all[j].1 < all[k].0 by {
            assert(all[k] == tail[k - h]);
            if j >= h {
                assert(all[j] == tail[j - h]);
            }
        }
    }
}

/// Every component has its place; the places stand in order and apart, but for the root, which
/// may touch the first name.
proof fn lemma_places(p: Seq<char>)
    ensures
        places(p).len() == components(p).len(),
        forall|k: int|
            0 <= k < places(p).len() ==> 0 <= (#[trigger] places(p)[k]).0 < places(p)[k].1
                <= p.len(),
        forall|j: int, k: int|
            #![trigger places(p)[j], places(p)[k]]
            0 <= j < k < places(p).len() ==> places(p)[j].1 <= places(p)[k].0,
{
    lemma_name_places(p, !is_absolute(p), 0);
    if is_absolute(p) {
        let tail = name_places(p, false, 0);
        let all = places(p);
        assert forall|k: int| 0 < k < all.len() implies 1 <= (#[trigger] all[k]).0 < all[k].1
            <= p.len() && all[k] == tail[k - 1] by {
            let (a, b) = tail[k - 1];
            if a == 0 {
                assert(p.subrange(0, b)[0] == '/');
                assert(names(p, false)[k - 1][0] == '/');
                lemma_no_slash(p, false, k - 1);
            }
        }
        assert forall|j: int, k: int|
            #![trigger all[j], all[k]]
            0 <= j < k < all.len() implies all[j].1 <= all[k].0 by {
            assert(all[k] == tail[k - 1]);
            if j > 0 {
                assert(all[j] == tail[j - 1]);
            }
        }
    }
}

proof fn lemma_piece_has_no_slash(s: Seq<char>, i: int)
    requires
        0 <= i < piece_len(s),
    ensures
        s[i] != '/',
        piece_len(s) <= s.len(),
    decreases s.len(),
{
    lemma_piece_len(s);
    if i > 0 {
        lemma_piece_has_no_slash(s.drop_first(), i - 1);
    }
}

proof fn lemma_no_slash(s: Seq<char>, leading: bool, k: int)
    requires
        0 <= k < names(s, leading).len(),
    ensures
        names(s, leading)[k].len() > 0,
        names(s, leading)[k][0] != '/',
    decreases s.len(),
{
    lemma_piece_len(s);
    let n = piece_len(s);
    if n > 0 {
        lemma_piece_has_no_slash(s, 0);
    }
    if n < s.len() {
        let tail = names(s.skip(n + 1), false);
        let h = names(s, leading).len() - tail.len();
        if k >= h {
            lemma_no_slash(s.skip(n + 1), false, k - h);
        }
    }
}

/// A piece ends at the same place in a text that is cut behind it.
proof fn lemma_piece_of_front(s: Seq<char>, e: int)
    requires
        piece_len(s) <= e <= s.len(),
    ensures
        piece_len(s.take(e)) == piece_len(s),
    decreases s.len(),
{
    lemma_piece_len(s);
    if s.len() > 0 && s[0] != '/' {
        lemma_piece_len(s.drop_first());
        assert(s.take(e).drop_first() =~= s.drop_first().take(e - 1));
        lemma_piece_of_front(s.drop_first(), e - 1);
    }
}

proof fn lemma_names_upto(s: Seq<char>, leading: bool, at: int, n: int)
    requires
        0 < n <= names(s, leading).len(),
    ensures
        name_places(s, leading, at).len() == names(s, leading).len(),
        0 < name_places(s, leading, at)[n - 1].1 - at <= s.len(),
        names(s.take(name_places(s, leading, at)[n - 1].1 - at), leading) == names(
            s,
            leading,
        ).take(n),
    decreases s.len(),
{
    lemma_piece_len(s);
    lemma_name_places(s, leading, at);
    let m = piece_len(s);
    let all = name_places(s, leading, at);
    let e = all[n - 1].1 - at;
    assert(all[n - 1].1 - at == e);
    let cut = s.take(e);
    let counted = counts(s.take(m), leading);
    if counted && n == 1 {
        assert(all[0] == (at, at + m));
        lemma_piece_of_front(s, m);
        assert(cut.take(m) =~= s.take(m));
        assert(names(cut, leading) =~= seq![s.take(m)]);
        assert(names(s, leading).take(1) =~= seq![s.take(m)]);
    } else {
        assert(m < s.len());
        let rest = s.skip(m + 1);
        let h: int = if counted {
            1
        } else {
            0
        };
        let tail = name_places(rest, false, at + m + 1);
        lemma_name_places(rest, false, at + m + 1);
        assert(all[n - 1] == tail[n - 1 - h]);
        lemma_names_upto(rest, false, at + m + 1, n - h);
        lemma_piece_of_front(s, e);
        assert(cut.take(m) =~= s.take(m));
        assert(cut.skip(m + 1) =~= rest.take(e - m - 1));
        assert(names(cut, leading) =~= names(s, leading).take(n));
    }
}

/// A path that starts with a name is the same with a dot allowed in front and without.
proof fn lemma_leading(s: Seq<char>)
    requires
        s.len() > 0,
        s.take(piece_len(s)) != "."@,
    ensures
        names(s, true) == names(s, false),
{
}

proof fn lemma_names_from(s: Seq<char>, leading: bool, at: int, n: int)
    requires
        0 <= n < names(s, leading).len(),
        n > 0 || !leading,
    ensures
        name_places(s, leading, at).len() == names(s, leading).len(),
        ({
            let a = name_places(s, leading, at)[n].0 - at;
            &&& 0 <= a < s.len()
            &&& !is_absolute(s.skip(a))
            &&& names(s.skip(a), true) == names(s, leading).skip(n)
            &&& name_places(s.skip(a), true, at + a) == name_places(s, leading, at).skip(n)
        }),
    decreases s.len(),
{
    lemma_piece_len(s);
    lemma_name_places(s, leading, at);
    let m = piece_len(s);
    let all = name_places(s, leading, at);
    assert(all[n].0 <= all[n].1);
    let counted = counts(s.take(m), leading);
    if counted && n == 0 {
        assert(s.skip(0) =~= s);
        lemma_piece_has_no_slash(s, 0);
        lemma_leading(s);
        assert(names(s, leading).skip(0) =~= names(s, leading));
        assert(all.skip(0) =~= all);
    } else {
        assert(m < s.len());
        let rest = s.skip(m + 1);
        let h: int = if counted {
            1
        } else {
            0
        };
        let tail = name_places(rest, false, at + m + 1);
        lemma_name_places(rest, false, at + m + 1);
        assert(all[n] == tail[n - h]);
        lemma_names_from(rest, false, at + m + 1, n - h);
        let a = all[n].0 - at;
        assert(s.skip(a) =~= rest.skip(a - m - 1));
        assert(names(s, leading).skip(n) =~= names(rest, false).skip(n - h));
        assert(all.skip(n) =~= tail.skip(n - h));
    }
}

/// The parts of a path, as it is written, have the components that they are cut at.
pub proof fn law_parts_of_paths_have_their_components(p: Seq<char>, n: int)
    requires
        0 <= n <= components(p).len(),
    ensures
        components(path_upto(p, n)) == components(p).take(n),
        components(path_from(p, n)) == components(p).skip(n),
{
    let c = components(p);
    let all = places(p);
    lemma_places(p);
    assert(Seq::<char>::empty().take(0) =~= seq![]);
    let absolute = is_absolute(p);
    let h: int = if absolute {
        1
    } else {
        0
    };
    if n == 0 {
        assert(components(seq![]) =~= seq![]);
        assert(c.take(0) =~= seq![]);
    } else if absolute && n == 1 {
        assert(all[0] == (0int, 1int));
        assert(path_upto(p, 1) == p.take(1));
        lemma_root(p);
        assert(c.take(1) =~= seq!["/"@]);
    } else {
        let tail = name_places(p, !absolute, 0);
        lemma_names_upto(p, !absolute, 0, n - h);
        assert(all[n - 1] == tail[n - 1 - h]);
        let cut = path_upto(p, n);
        assert(cut[0] == p[0]);
        assert(c.take(n) =~= components(cut));
    }
    lemma_part_behind(p, n);
}

proof fn lemma_part_behind(p: Seq<char>, n: int)
    requires
        0 <= n <= components(p).len(),
    ensures
        components(path_from(p, n)) == components(p).skip(n),
{
    let c = components(p);
    let all = places(p);
    lemma_places(p);
    assert(Seq::<char>::empty().take(0) =~= seq![]);
    let absolute = is_absolute(p);
    let h: int = if absolute {
        1
    } else {
        0
    };
    if n == c.len() {
        assert(components(seq![]) =~= seq![]);
        assert(c.skip(n) =~= seq![]);
    } else if n == 0 {
        lemma_whole_part(p);
        assert(c.skip(0) =~= c);
    } else {
        let tail = name_places(p, !absolute, 0);
        lemma_names_from(p, !absolute, 0, n - h);
        assert(all[n] == tail[n - h]);
        let a = all[n].0;
        let rest = p.skip(a);
        let left = (c.len() - n) as int;
        assert(names(rest, true).len() == left);
        lemma_names_upto(rest, true, a, left);
        assert(name_places(rest, true, a)[left - 1] == all.last());
        assert(path_from(p, n) =~= rest.take(all.last().1 - a));
        assert(path_from(p, n)[0] == rest[0]);
        assert(names(rest, true).take(left) =~= names(rest, true));
        assert(names(p, !absolute).skip(n - h) =~= c.skip(n));
    }
}

proof fn lemma_first_place(p: Seq<char>)
    requires
        !is_absolute(p),
        places(p).len() > 0,
    ensures
        places(p)[0].0 == 0,
{
    lemma_piece_len(p);
    if p.len() > 0 {
        lemma_piece_len(p.drop_first());
        assert(p.take(piece_len(p)).len() > 0);
    } else {
        assert(p.take(0) =~= seq![]);
    }
}

/// The whole of a path, without what stands behind its last component.
proof fn lemma_whole_part(p: Seq<char>)
    requires
        components(p).len() > 0,
    ensures
        components(path_from(p, 0)) == components(p),
{
    let c = components(p);
    let all = places(p);
    let last = c.len() as int;
    let absolute = is_absolute(p);
    lemma_places(p);
    if !absolute {
        lemma_first_place(p);
    }
    assert(all[0].0 == 0);
    let cut = path_upto(p, last);
    assert(path_from(p, 0) =~= cut);
    if absolute && last == 1 {
        assert(all[0] == (0int, 1int));
        lemma_root(p);
    } else {
        let h: int = if absolute {
            1
        } else {
            0
        };
        let tail = name_places(p, !absolute, 0);
        lemma_names_upto(p, !absolute, 0, last - h);
        assert(all[last - 1] == tail[last - 1 - h]);
        assert(cut[0] == p[0]);
        assert(names(p, !absolute).take(last - h) =~= names(p, !absolute));
        assert(components(cut) =~= c);
    }
}

proof fn lemma_root(p: Seq<char>)
    requires
        is_absolute(p),
    ensures
        components(p.take(1)) == seq!["/"@],
{
    let root = p.take(1);
    assert(piece_len(root) == 0);
    assert(root.skip(1) =~= seq![]);
    assert(root.take(0) =~= seq![]);
    assert(Seq::<char>::empty().take(0) =~= seq![]);
    reveal_with_fuel(names, 3);
    assert(components(root) =~= seq!["/"@]);
}

/// Where the components of a path stand in its characters.
fn places_of(v: &Vec<char>) -> (r: Vec<(usize, usize)>)
    ensures
        r@.len() == places(v@).len(),
        forall|k: int|
            0 <= k < r@.len() ==> (#[trigger] r@[k]).0 == places(v@)[k].0 && r@[k].1 == places(
                v@,
            )[k].1,
{
    let absolute = v.len() > 0 && v[0] == '/';
    let mut out: Vec<(usize, usize)> = Vec::new();
    if absolute {
        out.push((0, 1));
    }
    let ghost mut had: Seq<(int, int)> = if absolute {
        seq![(0, 1)]
    } else {
        seq![]
    };
    let mut leading = !absolute;
    let mut i: usize = 0;
    proof {
        assert(v@.skip(0) =~= v@);
        assert(had + name_places(v@, leading, 0) =~= places(v@));
    }
    loop
        invariant
            i <= v@.len(),
            out@.len() == had.len(),
            forall|k: int|
                0 <= k < had.len() ==> (#[trigger] out@[k]).0 == had[k].0 && out@[k].1
                    == had[k].1,
            had + name_places(v@.skip(i as int), leading, i as int) == places(v@),
        decreases v@.len() - i,
    {
        let end: usize = piece_end(v, i);
        let ghost rest = v@.skip(i as int);
        let ghost n = piece_len(rest);
        let dot = end > i && end - i == 1 && v[i] == '.';
        proof {
            reveal_strlit(".");
            if dot {
                assert(rest.take(n) =~= "."@);
            } else if rest.take(n) == "."@ {
                assert(rest.take(n).len() == 1);
                assert(rest.take(n)[0] == v@[i as int]);
                assert(false);
            }
        }
        let ghost before = had;
        if end > i && (leading || !dot) {
            out.push((i, end));
            proof {
                had = had.push((i as int, end as int));
            }
        }
        let ghost head = if counts(rest.take(n), leading) {
            seq![(i as int, end as int)]
        } else {
            seq![]
        };
        assert(had =~= before + head);
        if end >= v.len() {
            assert(had =~= places(v@));
            return out;
        }
        proof {
            assert(rest.skip(n + 1) =~= v@.skip(end + 1));
            assert(before + (head + name_places(v@.skip(end + 1), false, end + 1)) =~= had
                + name_places(v@.skip(end + 1), false, end + 1));
        }
        leading = false;
        i = end + 1;
    }
}

/// The path up to its first `n` components.
pub fn first_components(p: &str, n: usize) -> (r: String)
    requires
        n <= components(p@).len(),
    ensures
        r@ == path_upto(p@, n as int),
{
    let v = chars_of(p);
    let at = places_of(&v);
    proof {
        lemma_places(p@);
    }
    if n == 0 {
        return String::new();
    }
    let end: usize = at[n - 1].1;
    assert(places(p@)[n - 1].1 == end);
    let r = string_of(v.as_slice(), 0, end);
    assert(r@ =~= p@.take(end as int));
    r
}

/// The path behind its first `n` components.
pub fn components_behind(p: &str, n: usize) -> (r: String)
    ensures
        r@ == path_from(p@, n as int),
{
    let v = chars_of(p);
    let at = places_of(&v);
    proof {
        lemma_places(p@);
    }
    if n >= at.len() {
        return String::new();
    }
    let (start, end): (usize, usize) = (at[n].0, at[at.len() - 1].1);
    assert(places(p@)[n as int].0 == start && places(p@).last().1 == end);
    assert(n < at@.len() - 1 ==> places(p@)[n as int].1 <= places(p@)[at@.len() - 1].0);
    string_of(v.as_slice(), start, end)
}

/// The directory of a path, as it is written; the root has none.
pub open spec fn parent_of(p: Seq<char>) -> Option<Seq<char>> {
    let c = components(p);
    if c.len() == 0 || c.last() == "/"@ {
        None
    } else {
        Some(path_upto(p, c.len() - 1))
    }
}

/// The directory of a path.
pub fn parent_dir(p: &str) -> (r: Option<String>)
    ensures
        match r {
            Some(d) => parent_of(p@) == Some(d@),
            None => parent_of(p@) is None,
        },
{
    let c = components_of(p);
    assert(strings(c@).len() == c@.len());
    let len: usize = c.len();
    if len == 0 {
        return None;
    }
    assert(strings(c@).last() == c@[len - 1]@);
    if same(c[len - 1].as_str(), "/") {
        return None;
    }
    Some(first_components(p, len - 1))
}

/// The path below `base` that leads to `p`, as it is written.
pub open spec fn relative_to(p: Seq<char>, base: Seq<char>) -> Option<Seq<char>> {
    let (c, b) = (components(p), components(base));
    if b.len() <= c.len() && c.take(b.len() as int) == b {
        Some(path_from(p, b.len() as int))
    } else {
        None
    }
}

/// The path below `base` that leads to `p`, where there is one.
pub fn strip_base(p: &str, base: &str) -> (r: Option<String>)
    ensures
        match r {
            Some(t) => relative_to(p@, base@) == Some(t@),
            None => relative_to(p@, base@) is None,
        },
{
    let c = components_of(p);
    let b = components_of(base);
    let ghost cs = strings(c@);
    let ghost bs = strings(b@);
    if b.len() > c.len() {
        return None;
    }
    let mut i: usize = 0;
    while i < b.len()
        invariant
            cs == strings(c@),
            bs == strings(b@),
            cs == components(p@),
            bs == components(base@),
            b@.len() <= c@.len(),
            i <= b@.len(),
            forall|k: int| 0 <= k < i ==> c@[k]@ == b@[k]@,
        decreases b@.len() - i,
    {
        if !same(c[i].as_str(), b[i].as_str()) {
            assert(cs.take(bs.len() as int)[i as int] != bs[i as int]);
            return None;
        }
        i = i + 1;
    }
    assert(cs.take(bs.len() as int) =~= bs);
    Some(components_behind(p, b.len()))
}

// ---------------------------------------------------------------------------
// Paths that are put together

/// A part of a path that is one name.
pub open spec fn is_plain_name(s: Seq<char>) -> bool {
    s.len() > 0 && !s.contains('/') && s != "."@
}

proof fn lemma_piece_join(a: Seq<char>, b: Seq<char>)
    ensures
        piece_len(a + seq!['/'] + b) == piece_len(a),
        piece_len(a) <= a.len(),
    decreases a.len(),
{
    let all = a + seq!['/'] + b;
    if a.len() > 0 {
        lemma_piece_join(a.drop_first(), b);
        assert(all.drop_first() =~= a.drop_first() + seq!['/'] + b);
    }
}

/// A path that was put together from two parts has the names of both, in order.
pub proof fn law_names_of_both_parts(a: Seq<char>, b: Seq<char>, leading: bool)
    ensures
        names(a + seq!['/'] + b, leading) == names(a, leading) + names(b, false),
    decreases a.len(),
{
    let all = a + seq!['/'] + b;
    let n = piece_len(a);
    lemma_piece_len(a);
    lemma_piece_len(all);
    lemma_piece_join(a, b);
    assert(all.take(n) =~= a.take(n));
    let head = if counts(a.take(n), leading) {
        seq![a.take(n)]
    } else {
        seq![]
    };
    if n < a.len() {
        law_names_of_both_parts(a.skip(n + 1), b, false);
        assert(all.skip(n + 1) =~= a.skip(n + 1) + seq!['/'] + b);
        assert(head + (names(a.skip(n + 1), false) + names(b, false)) =~= (head + names(
            a.skip(n + 1),
            false,
        )) + names(b, false));
    } else {
        assert(all.skip(n + 1) =~= b);
    }
}

/// A name stands for itself; no name and a single dot inside a path stand for nothing.
pub proof fn law_a_name_is_one_part(s: Seq<char>, leading: bool)
    requires
        !s.contains('/'),
    ensures
        is_plain_name(s) ==> names(s, leading) == seq![s],
        s.len() == 0 || s == "."@ ==> names(s, false) == Seq::<Seq<char>>::empty(),
{
    lemma_one_piece(s);
    lemma_piece_len(s);
    assert(s.take(s.len() as int) =~= s);
}

proof fn lemma_one_piece(s: Seq<char>)
    requires
        !s.contains('/'),
    ensures
        piece_len(s) == s.len(),
    decreases s.len(),
{
    if s.len() > 0 {
        assert(s[0] != '/');
        let rest = s.drop_first();
        assert forall|k: int| 0 <= k < rest.len() implies rest[k] != '/' by {
            assert(rest[k] == s[k + 1]);
        }
        lemma_one_piece(rest);
    }
}

/// What is joined to a directory has the parts of the directory and then its own, whether or not
/// the directory ends with a slash.
pub proof fn law_joined_paths_have_both_parts(base: Seq<char>, rel: Seq<char>)
    requires
        base.len() > 0,
        !is_absolute(rel),
    ensures
        components(joined(base, rel)) == components(base) + names(rel, false),
{
    reveal_strlit("/");
    assert("/"@ =~= seq!['/']);
    let leading = !is_absolute(base);
    let whole = joined(base, rel);
    assert(is_absolute(whole) == is_absolute(base));
    if base.last() != '/' {
        law_names_of_both_parts(base, rel, leading);
        assert(base + "/"@ + rel =~= base + seq!['/'] + rel);
    } else {
        let a = base.drop_last();
        assert(a + seq!['/'] + rel =~= whole);
        assert(a + seq!['/'] + Seq::<char>::empty() =~= base);
        law_names_of_both_parts(a, rel, leading);
        law_names_of_both_parts(a, Seq::<char>::empty(), leading);
        law_a_name_is_one_part(Seq::<char>::empty(), false);
        assert(names(a, leading) + Seq::<Seq<char>>::empty() =~= names(a, leading));
    }
    assert(seq!["/"@] + (names(base, false) + names(rel, false)) =~= (seq!["/"@] + names(
        base,
        false,
    )) + names(rel, false));
}

/// A file in a directory has its own name, and the directory for its parent; seen from the
/// directory it is just its name.
pub proof fn law_files_are_found_in_their_directory(base: Seq<char>, name: Seq<char>)
    requires
        base.len() > 0,
        is_plain_name(name),
        name != ".."@,
    ensures
        file_name(joined(base, name)) == Some(name),
        parent_of(joined(base, name)) matches Some(dir) && same_path(dir, base),
        relative_to(joined(base, name), base) matches Some(rest) && components(rest) == seq![name],
{
    let p = joined(base, name);
    reveal_strlit("/");
    assert(name[0] != '/');
    assert(name != "/"@) by {
        assert("/"@[0] == '/');
    }
    law_joined_paths_have_both_parts(base, name);
    law_a_name_is_one_part(name, false);
    let c = components(p);
    let b = components(base);
    assert(c == b + seq![name]);
    assert(c.last() == name);
    law_parts_of_paths_have_their_components(p, b.len() as int);
    assert(c.take(b.len() as int) =~= b);
    assert(c.skip(b.len() as int) =~= seq![name]);
}

/// The extension of a file is what stands behind the last dot of its name, where something stands
/// in front of that.
pub proof fn law_extensions_stand_behind_the_last_dot(
    base: Seq<char>,
    stem: Seq<char>,
    ext: Seq<char>,
)
    requires
        base.len() > 0,
        !stem.contains('/') && !ext.contains('/') && !ext.contains('.'),
        stem.len() > 0,
        is_plain_name(stem + seq!['.'] + ext),
        stem + seq!['.'] + ext != ".."@,
    ensures
        extension(joined(base, stem + seq!['.'] + ext)) == Some(ext),
{
    let name = stem + seq!['.'] + ext;
    law_files_are_found_in_their_directory(base, name);
    lemma_last_dot(stem, ext);
    assert(name.skip(stem.len() as int + 1) =~= ext);
}

proof fn lemma_last_dot(front: Seq<char>, ext: Seq<char>)
    requires
        !ext.contains('.'),
    ensures
        last_dot(front + seq!['.'] + ext) == front.len(),
    decreases ext.len(),
{
    let all = front + seq!['.'] + ext;
    if ext.len() > 0 {
        assert(ext[ext.len() - 1] != '.');
        let rest = ext.drop_last();
        assert forall|k: int| 0 <= k < rest.len() implies rest[k] != '.' by {
            assert(rest[k] == ext[k]);
        }
        lemma_last_dot(front, rest);
        assert(all.drop_last() =~= front + seq!['.'] + rest);
    }
}

/// A name without a dot, or with one only in front, has no extension.
pub proof fn law_plain_and_hidden_names_have_no_extension(base: Seq<char>, name: Seq<char>)
    requires
        base.len() > 0,
        is_plain_name(name),
        name != ".."@,
        !name.drop_first().contains('.'),
    ensures
        extension(joined(base, name)) is None,
{
    law_files_are_found_in_their_directory(base, name);
    lemma_dot_in_front(name);
}

proof fn lemma_dot_in_front(s: Seq<char>)
    requires
        s.len() > 0,
        !s.drop_first().contains('.'),
    ensures
        last_dot(s) <= 0,
    decreases s.len(),
{
    if s.len() > 1 {
        assert(s.drop_first()[s.len() - 2] == s.last());
        let rest = s.drop_last();
        assert forall|k: int| 0 <= k < rest.drop_first().len() implies rest.drop_first()[k]
            != '.' by {
            assert(rest.drop_first()[k] == s.drop_first()[k]);
        }
        lemma_dot_in_front(rest);
    } else {
        assert(last_dot(s.drop_last()) == -1);
    }
}

} // verus!
