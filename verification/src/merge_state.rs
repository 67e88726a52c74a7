//! The state of a merge: the regions of one document, the choices made for them, and the region
//! that is in focus.

use vstd::prelude::*;
use vstd::string::*;

use crate::merge::{conflicts, law_assembles_iff_every_conflict_is_decided, lines_of};
use crate::merge::{all_truthful, merge_sides, regions_of, regions_tile, split_lines, Texts};
use crate::merge::{Choice, MergeDocument, MergeOptions, MergeRegion, RegionKind, Resolution};
use crate::merge_inputs::MergeInputs;

verus! {

/// The state of a merge.
#[derive(Debug)]
pub struct MergeState {
    pub doc: MergeDocument,
    pub resolution: Resolution,
    /// The region in focus.
    pub cursor: Option<usize>,
    /// There was no base: theirs stands for it.
    pub degraded_base: bool,
}

/// The conflicts among the first `n` regions for which no choice was made.
pub open spec fn undecided(regs: Seq<MergeRegion>, m: Map<usize, Choice>, n: int) -> Seq<usize>
    decreases n,
{
    if n <= 0 {
        seq![]
    } else {
        let front = undecided(regs, m, n - 1);
        if regs[n - 1].kind == RegionKind::Conflict && !m.contains_key((n - 1) as usize) {
            front.push((n - 1) as usize)
        } else {
            front
        }
    }
}

/// The regions among the first `n` in which something changed.
pub open spec fn changed(regs: Seq<MergeRegion>, n: int) -> Seq<usize>
    decreases n,
{
    if n <= 0 {
        seq![]
    } else if regs[n - 1].kind != RegionKind::Unchanged {
        changed(regs, n - 1).push((n - 1) as usize)
    } else {
        changed(regs, n - 1)
    }
}

/// The first of the regions, from `k` on, that comes behind `current`.
pub open spec fn first_behind(list: Seq<usize>, current: usize, k: int) -> Option<usize>
    decreases list.len() - k,
{
    if k < 0 || k >= list.len() {
        None
    } else if list[k] > current {
        Some(list[k])
    } else {
        first_behind(list, current, k + 1)
    }
}

/// The region that comes after the one in focus, round and round.
pub open spec fn next_of(list: Seq<usize>, cursor: Option<usize>) -> Option<usize> {
    let first = if list.len() > 0 {
        Some(list[0])
    } else {
        None
    };
    match cursor {
        None => first,
        Some(current) => match first_behind(list, current, 0) {
            Some(r) => Some(r),
            None => first,
        },
    }
}

fn next_in(list: &Vec<usize>, cursor: Option<usize>) -> (r: Option<usize>)
    ensures
        r == next_of(list@, cursor),
{
    match cursor {
        None => {},
        Some(current) => {
            let mut k: usize = 0;
            while k < list.len()
                invariant
                    k <= list@.len(),
                    cursor == Some(current),
                    first_behind(list@, current, 0) == first_behind(list@, current, k as int),
                decreases list@.len() - k,
            {
                if list[k] > current {
                    return Some(list[k]);
                }
                k = k + 1;
            }
        },
    }
    if list.len() > 0 {
        Some(list[0])
    } else {
        None
    }
}

/// `undecided` holds exactly the conflicts without a choice, each once, in order; and each of
/// them is a conflict.
pub proof fn lemma_undecided(regs: Seq<MergeRegion>, m: Map<usize, Choice>, n: int)
    requires
        0 <= n <= regs.len() <= usize::MAX,
    ensures
        undecided(regs, m, n).len() <= conflicts(regs, n).len() <= n,
        forall|k: int|
            0 <= k < undecided(regs, m, n).len() ==> {
                let r = #[trigger] undecided(regs, m, n)[k];
                r < n && regs[r as int].kind == RegionKind::Conflict && !m.contains_key(r)
            },
        forall|j: int|
            0 <= j < n && (#[trigger] regs[j]).kind == RegionKind::Conflict && !m.contains_key(
                j as usize,
            ) ==> undecided(regs, m, n).contains(j as usize),
    decreases n,
{
    if n > 0 {
        lemma_undecided(regs, m, n - 1);
        let front = undecided(regs, m, n - 1);
        let all = undecided(regs, m, n);
        assert forall|j: int|
            0 <= j < n && (#[trigger] regs[j]).kind == RegionKind::Conflict && !m.contains_key(
                j as usize,
            ) implies all.contains(j as usize) by {
            if j < n - 1 {
                let i = choose|i: int| 0 <= i < front.len() && front[i] == j as usize;
                assert(all[i] == j as usize);
            } else {
                assert(all[all.len() - 1] == j as usize);
            }
        }
    }
}

/// Every conflict has a choice exactly where none is undecided.
pub proof fn law_decided_means_no_conflict_is_open(regs: Seq<MergeRegion>, m: Map<usize, Choice>)
    requires
        regs.len() <= usize::MAX,
    ensures
        undecided(regs, m, regs.len() as int).len() == 0 <==> forall|j: int|
            0 <= j < regs.len() && (#[trigger] regs[j]).kind == RegionKind::Conflict
                ==> m.contains_key(j as usize),
{
    let n = regs.len() as int;
    lemma_undecided(regs, m, n);
    let open = undecided(regs, m, n);
    if open.len() > 0 {
        let r = open[0];
        assert(regs[r as int].kind == RegionKind::Conflict);
    }
}

/// The next region is one of the list, and it comes behind the one in focus unless none does.
pub proof fn law_next_goes_round(list: Seq<usize>, cursor: Option<usize>)
    ensures
        list.len() == 0 <==> next_of(list, cursor) is None,
        next_of(list, cursor) matches Some(r) ==> list.contains(r) && (r == list[0] || (
        cursor matches Some(c) && c < r)),
        match (next_of(list, cursor), cursor) {
            (Some(r), Some(c)) => r <= c ==> forall|k: int|
                0 <= k < list.len() ==> #[trigger] list[k] <= c,
            _ => true,
        },
{
    match cursor {
        Some(c) => {
            lemma_first_behind(list, c, 0);
        },
        None => {},
    }
    if list.len() > 0 {
        assert(list[0] == list[0]);
    }
}

proof fn lemma_first_behind(list: Seq<usize>, c: usize, k: int)
    requires
        0 <= k,
    ensures
        match first_behind(list, c, k) {
            Some(r) => list.contains(r) && r > c,
            None => forall|j: int| k <= j < list.len() ==> #[trigger] list[j] <= c,
        },
    decreases list.len() - k,
{
    if k < list.len() {
        lemma_first_behind(list, c, k + 1);
        if list[k] > c {
            assert(list.contains(list[k]));
        }
    }
}

/// The base of a merge: the last text that was written, or theirs.
pub open spec fn base_of(inputs: MergeInputs) -> Seq<char> {
    match inputs.base {
        Some(b) => b@,
        None => inputs.theirs@,
    }
}

/// The texts are of a size that can be compared.
pub open spec fn comparable(inputs: MergeInputs) -> bool {
    let b = lines_of(base_of(inputs)).len();
    &&& b + lines_of(inputs.ours@).len() < 0x7fff_ffff
    &&& b + lines_of(inputs.theirs@).len() < 0x7fff_ffff
}

/// Whether the texts are of a size that can be compared.
pub fn is_comparable(inputs: &MergeInputs) -> (r: bool)
    ensures
        r == comparable(*inputs),
{
    let base: usize = match &inputs.base {
        Some(b) => split_lines(b.as_str()).len(),
        None => split_lines(inputs.theirs.as_str()).len(),
    };
    let ours: usize = split_lines(inputs.ours.as_str()).len();
    let theirs: usize = split_lines(inputs.theirs.as_str()).len();
    base < 0x7fff_ffff && ours < 0x7fff_ffff - base && theirs < 0x7fff_ffff - base
}

impl MergeState {
    pub open spec fn wf(&self) -> bool {
        self.doc.wf()
    }

    pub open spec fn regs(&self) -> Seq<MergeRegion> {
        self.doc.regions@
    }

    pub open spec fn open_conflicts(&self) -> Seq<usize> {
        undecided(self.regs(), self.resolution@, self.regs().len() as int)
    }

    /// Compares the texts. The first conflict is in focus.
    pub fn new(inputs: &MergeInputs) -> (r: Self)
        requires
            comparable(*inputs),
        ensures
            r.wf(),
            r.regs() == regions_of(
                merge_sides(base_of(*inputs), inputs.ours@, inputs.theirs@, false),
            ),
            r.doc.base() == lines_of(base_of(*inputs)),
            r.doc.ours() == lines_of(inputs.ours@),
            r.doc.theirs() == lines_of(inputs.theirs@),
            r.resolution@ == Map::<usize, Choice>::empty(),
            r.cursor == next_of(conflicts(r.regs(), r.regs().len() as int), None),
            r.degraded_base == inputs.base is None,
            regions_tile(
                r.regs(),
                (0, 0, 0),
                (
                    r.doc.base().len() as int,
                    r.doc.ours().len() as int,
                    r.doc.theirs().len() as int,
                ),
            ),
            all_truthful(r.doc.base(), r.doc.ours(), r.doc.theirs(), false, r.regs()),
    {
        let base = match &inputs.base {
            Some(b) => b.as_str(),
            None => inputs.theirs.as_str(),
        };
        let doc = MergeDocument::compute(
            base,
            inputs.ours.as_str(),
            inputs.theirs.as_str(),
            MergeOptions::default(),
        );
        let cursor = next_in(&doc.required_decisions(), None);
        MergeState {
            doc,
            resolution: Resolution::new(),
            cursor,
            degraded_base: inputs.base.is_none(),
        }
    }

    /// The regions that need a decision.
    pub fn conflicts(&self) -> (r: Vec<usize>)
        ensures
            r@ == conflicts(self.regs(), self.regs().len() as int),
    {
        self.doc.required_decisions()
    }

    /// The conflicts for which no choice was made yet.
    pub fn unresolved(&self) -> (r: Vec<usize>)
        ensures
            r@ == self.open_conflicts(),
    {
        let mut out: Vec<usize> = Vec::new();
        let mut i: usize = 0;
        while i < self.doc.regions.len()
            invariant
                i <= self.regs().len(),
                out@ == undecided(self.regs(), self.resolution@, i as int),
            decreases self.regs().len() - i,
        {
            if self.doc.regions[i].kind == RegionKind::Conflict && self.resolution.get(
                i,
            ).is_none() {
                out.push(i);
            }
            i = i + 1;
        }
        out
    }

    /// How many conflicts are decided, and how many there are.
    pub fn progress(&self) -> (r: (usize, usize))
        ensures
            r.1 == conflicts(self.regs(), self.regs().len() as int).len(),
            r.0 == r.1 - self.open_conflicts().len(),
    {
        let total: usize = self.conflicts().len();
        let open: usize = self.unresolved().len();
        let len: usize = self.doc.regions.len();
        proof {
            lemma_undecided(self.regs(), self.resolution@, len as int);
        }
        (total - open, total)
    }

    /// Makes a choice for a region, in place of an earlier one. If the region was in focus, the
    /// next conflict without a choice is.
    pub fn pick(&mut self, region: usize, choice: Choice)
        ensures
            final(self).doc == old(self).doc,
            final(self).degraded_base == old(self).degraded_base,
            final(self).resolution@ == old(self).resolution@.insert(region, choice),
            final(self).cursor == if old(self).cursor == Some(region) {
                next_of(final(self).open_conflicts(), Some(region))
            } else {
                old(self).cursor
            },
    {
        self.resolution.set(region, choice);
        let focused = match self.cursor {
            Some(c) => c == region,
            None => false,
        };
        if focused {
            self.next_unresolved();
        }
    }

    /// Moves the focus to the next conflict without a choice; to none where there is none.
    pub fn next_unresolved(&mut self) -> (r: Option<usize>)
        ensures
            r == next_of(old(self).open_conflicts(), old(self).cursor),
            final(self).cursor == r,
            final(self).doc == old(self).doc,
            final(self).resolution@ == old(self).resolution@,
            final(self).degraded_base == old(self).degraded_base,
    {
        let open = self.unresolved();
        let next = next_in(&open, self.cursor);
        self.cursor = next;
        next
    }

    /// The regions in which something changed.
    pub fn changed_regions(&self) -> (r: Vec<usize>)
        ensures
            r@ == changed(self.regs(), self.regs().len() as int),
    {
        let mut out: Vec<usize> = Vec::new();
        let mut i: usize = 0;
        while i < self.doc.regions.len()
            invariant
                i <= self.regs().len(),
                out@ == changed(self.regs(), i as int),
            decreases self.regs().len() - i,
        {
            if self.doc.regions[i].kind != RegionKind::Unchanged {
                out.push(i);
            }
            i = i + 1;
        }
        out
    }

    /// Moves the focus to the next region in which something changed.
    pub fn next_changed(&mut self) -> (r: Option<usize>)
        ensures
            r == next_of(changed(old(self).regs(), old(self).regs().len() as int), old(self).cursor),
            final(self).cursor == r,
            final(self).doc == old(self).doc,
            final(self).resolution@ == old(self).resolution@,
            final(self).degraded_base == old(self).degraded_base,
    {
        let list = self.changed_regions();
        let next = next_in(&list, self.cursor);
        self.cursor = next;
        next
    }

    /// The merged text, once every conflict has a choice.
    pub fn assembled(&self) -> (r: Option<String>)
        requires
            self.wf(),
        ensures
            match r {
                Some(t) => self.open_conflicts().len() == 0 && self.doc.assembled(
                    self.resolution@,
                ) == Ok::<Seq<char>, usize>(t@),
                None => self.open_conflicts().len() > 0,
            },
    {
        if self.unresolved().len() > 0 {
            return None;
        }
        let len: usize = self.doc.regions.len();
        proof {
            law_decided_means_no_conflict_is_open(self.regs(), self.resolution@);
            law_assembles_iff_every_conflict_is_decided(
                Texts { base: self.doc.base(), ours: self.doc.ours(), theirs: self.doc.theirs() },
                self.regs(),
                self.resolution@,
            );
        }
        match self.doc.assemble(&self.resolution) {
            Ok(t) => Some(t),
            Err(_) => None,
        }
    }
}

/// The numbers go up.
pub open spec fn ascending(list: Seq<usize>) -> bool {
    forall|i: int, j: int| 0 <= i < j < list.len() ==> #[trigger] list[i] < #[trigger] list[j]
}

/// The regions that need a decision, those that still do, and those in which something changed
/// are just the conflicts, the conflicts without a choice, and all that is not unchanged, in the
/// order of the document.
pub proof fn law_lists_hold_just_their_regions(
    regs: Seq<MergeRegion>,
    m: Map<usize, Choice>,
    r: usize,
)
    requires
        regs.len() <= usize::MAX,
    ensures
        ({
            let n = regs.len() as int;
            let is_conflict = r < n && regs[r as int].kind == RegionKind::Conflict;
            &&& conflicts(regs, n).contains(r) <==> is_conflict
            &&& undecided(regs, m, n).contains(r) <==> is_conflict && !m.contains_key(r)
            &&& changed(regs, n).contains(r) <==> r < n && regs[r as int].kind
                != RegionKind::Unchanged
            &&& ascending(conflicts(regs, n))
            &&& ascending(undecided(regs, m, n))
            &&& ascending(changed(regs, n))
        }),
{
    lemma_lists(regs, m, r, regs.len() as int);
}

proof fn lemma_pushed(list: Seq<usize>, x: usize, r: usize)
    ensures
        list.push(x).contains(r) <==> list.contains(r) || r == x,
{
    let all = list.push(x);
    if list.contains(r) {
        let k = list.index_of(r);
        assert(all[k] == r);
    }
    assert(all[list.len() as int] == x);
    if all.contains(r) && r != x {
        let k = all.index_of(r);
        assert(list[k] == r);
    }
}

proof fn lemma_lists(regs: Seq<MergeRegion>, m: Map<usize, Choice>, r: usize, n: int)
    requires
        0 <= n <= regs.len() <= usize::MAX,
    ensures
        conflicts(regs, n).contains(r) <==> r < n && regs[r as int].kind == RegionKind::Conflict,
        undecided(regs, m, n).contains(r) <==> r < n && regs[r as int].kind == RegionKind::Conflict
            && !m.contains_key(r),
        changed(regs, n).contains(r) <==> r < n && regs[r as int].kind != RegionKind::Unchanged,
        forall|k: int| 0 <= k < conflicts(regs, n).len() ==> #[trigger] conflicts(regs, n)[k] < n,
        forall|k: int|
            0 <= k < undecided(regs, m, n).len() ==> #[trigger] undecided(regs, m, n)[k] < n,
        forall|k: int| 0 <= k < changed(regs, n).len() ==> #[trigger] changed(regs, n)[k] < n,
        ascending(conflicts(regs, n)),
        ascending(undecided(regs, m, n)),
        ascending(changed(regs, n)),
    decreases n,
{
    if n > 0 {
        lemma_lists(regs, m, r, n - 1);
        let x = (n - 1) as usize;
        lemma_pushed(conflicts(regs, n - 1), x, r);
        lemma_pushed(undecided(regs, m, n - 1), x, r);
        lemma_pushed(changed(regs, n - 1), x, r);
    }
}

/// The next region is the nearest behind the one in focus; behind the last, or where none is in
/// focus, it is the first.
pub proof fn law_next_is_the_nearest(list: Seq<usize>, cursor: Option<usize>, x: usize)
    requires
        ascending(list),
        list.contains(x),
    ensures
        next_of(list, cursor) matches Some(r) && {
            &&& cursor is None ==> r <= x
            &&& cursor matches Some(c) ==> {
                &&& c < x ==> c < r <= x
                &&& r <= c ==> r <= x
            }
        },
{
    let k = list.index_of(x);
    assert(list[0] <= list[k]);
    match cursor {
        Some(c) => {
            lemma_nearest(list, c, 0, k);
        },
        None => {},
    }
}

proof fn lemma_nearest(list: Seq<usize>, c: usize, from: int, k: int)
    requires
        ascending(list),
        0 <= from <= list.len(),
        0 <= k < list.len(),
    ensures
        first_behind(list, c, from) is Some ==> first_behind(list, c, from)->0 > c,
        from <= k && c < list[k] ==> first_behind(list, c, from) is Some && first_behind(
            list,
            c,
            from,
        )->0 <= list[k],
    decreases list.len() - from,
{
    if from < list.len() {
        lemma_nearest(list, c, from + 1, k);
    }
}

} // verus!
