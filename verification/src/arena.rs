//! The route arena: an append-only store of `(parent, step)` pairs.
//!
//! Every farthest-point extension made by the search appends one entry; the
//! entry's parent is the arena id of the extension it grew out of.  Because a
//! parent always has a smaller id than its child, every id spells a finite
//! path of steps from the origin, read off by `path_of`.  The arena never
//! erases, so the path of an existing id survives every later allocation —
//! that is what lets many frontier points share ancestors without any
//! reference counting.

use vstd::prelude::*;

verus! {

/// One move on the edit grid, as recorded in the arena.  With `a` the longer
/// (or first) side and `b` the other, a `Slide` consumes one element of `a`,
/// a `Down` consumes one element of `b`, and a `Diag` consumes one matching
/// element of each.  `Origin` marks the arena's root entry only.
#[derive(Clone, Copy)]
pub(crate) enum EditStep {
    Origin,
    Slide,
    Down,
    Diag,
}

/// The path spelled by arena id `id`: the steps along the parent chain from
/// the origin down to `id`, in the order they were taken.
pub(crate) open spec fn path_of(parents: Seq<usize>, kinds: Seq<EditStep>, id: int) -> Seq<
    EditStep,
>
    decreases id,
{
    if 0 < id < parents.len() && (parents[id] as int) < id {
        path_of(parents, kinds, parents[id] as int).push(kinds[id])
    } else {
        Seq::empty()
    }
}

/// `path_of` reads only entries at or below its id, so two stores that agree
/// up to `id` spell the same path for it.
pub(crate) proof fn lemma_path_of_prefix(
    parents1: Seq<usize>,
    kinds1: Seq<EditStep>,
    parents2: Seq<usize>,
    kinds2: Seq<EditStep>,
    id: int,
)
    requires
        0 <= id < parents1.len(),
        id < parents2.len(),
        forall|q: int| 0 <= q <= id ==> #[trigger] parents1[q] == parents2[q],
        forall|q: int| 0 <= q <= id ==> #[trigger] kinds1[q] == kinds2[q],
    ensures
        path_of(parents1, kinds1, id) == path_of(parents2, kinds2, id),
    decreases id,
{
    if 0 < id && (parents1[id] as int) < id {
        lemma_path_of_prefix(parents1, kinds1, parents2, kinds2, parents1[id] as int);
    }
}

/// The arena itself: two parallel arrays indexed by id.  Entry 0 is the
/// origin sentinel; every later entry points at a strictly smaller parent.
pub(crate) struct RouteArena {
    pub(crate) parents: Vec<usize>,
    pub(crate) kinds: Vec<EditStep>,
}

impl RouteArena {
    /// Number of entries allocated so far.
    pub(crate) open spec fn size(self) -> int {
        self.parents@.len() as int
    }

    /// Well-formed: the two arrays run in parallel, the origin entry is the
    /// sentinel, and every other entry has a smaller parent and a real step.
    pub(crate) open spec fn wf(self) -> bool {
        &&& self.parents@.len() == self.kinds@.len()
        &&& self.parents@.len() >= 1
        &&& self.parents@[0] == 0usize
        &&& self.kinds@[0] is Origin
        &&& forall|id: int|
            1 <= id < self.parents@.len() ==> (#[trigger] self.parents@[id] as int) < id
        &&& forall|id: int| 1 <= id < self.kinds@.len() ==> !((#[trigger] self.kinds@[id]) is Origin)
    }

    /// The path spelled by `id`.
    pub(crate) open spec fn path(self, id: int) -> Seq<EditStep> {
        path_of(self.parents@, self.kinds@, id)
    }

    /// A fresh arena holding only the origin sentinel.
    pub(crate) fn new() -> (a: RouteArena)
        ensures
            a.wf(),
            a.size() == 1,
    {
        let mut parents: Vec<usize> = Vec::new();
        let mut kinds: Vec<EditStep> = Vec::new();
        parents.push(0);
        kinds.push(EditStep::Origin);
        RouteArena { parents, kinds }
    }

    /// Reserve room for `additional` more entries up front, so that the
    /// following appends do not reallocate.  The store itself is unchanged.
    pub(crate) fn reserve(&mut self, additional: usize)
        ensures
            final(self).parents@ == old(self).parents@,
            final(self).kinds@ == old(self).kinds@,
    {
        self.parents.reserve(additional);
        self.kinds.reserve(additional);
    }

    /// Record one extension: the new entry's path is its parent's path with
    /// `kind` at the end, and every existing path is untouched.
    pub(crate) fn record(&mut self, parent: usize, kind: EditStep) -> (id: usize)
        requires
            old(self).wf(),
            (parent as int) < old(self).size(),
            !(kind is Origin),
        ensures
            final(self).wf(),
            final(self).size() == old(self).size() + 1,
            id as int == old(self).size(),
            final(self).parents@[id as int] == parent,
            final(self).kinds@[id as int] == kind,
            final(self).path(id as int) == old(self).path(parent as int).push(kind),
            forall|q: int| 0 <= q < old(self).size() ==> final(self).path(q) == old(self).path(q),
            forall|q: int|
                0 <= q < old(self).size() ==> final(self).parents@[q] == old(self).parents@[q]
                    && final(self).kinds@[q] == old(self).kinds@[q],
    {
        let id = self.parents.len();
        self.parents.push(parent);
        self.kinds.push(kind);
        proof {
            assert forall|q: int| 0 <= q < old(self).size() implies self.path(q) == old(
                self,
            ).path(q) by {
                lemma_path_of_prefix(
                    old(self).parents@,
                    old(self).kinds@,
                    self.parents@,
                    self.kinds@,
                    q,
                );
            }
            lemma_path_of_prefix(
                old(self).parents@,
                old(self).kinds@,
                self.parents@,
                self.kinds@,
                parent as int,
            );
        }
        id
    }
}

} // verus!
