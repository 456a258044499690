//! The mathematical model of an edit script.
//!
//! `script_between` pins down what it means for a sequence of `DiffResult`
//! entries to transform `old[i .. i_end]` into `new[j .. j_end]`: the entries
//! consume both sides left to right, every entry carries the index it
//! consumes, its `data` field is a clone of the consumed element, and a
//! `Common` entry relates equivalent elements.  The laws at the bottom follow
//! from that single predicate: the `old_index` fields of a valid script
//! enumerate `0 .. |old|`, so do the `new_index` fields, and replaying the
//! script over `old` rebuilds `new`.

use vstd::prelude::*;
use vstd::std_specs::cmp::PartialEqSpec;

use crate::DiffElement;
use crate::DiffResult;

verus! {

/// What one verified `==` comparison establishes: whenever the element type's
/// `PartialEq` is honest about its own specification, the two values are
/// equivalent under it.
pub open spec fn equiv_at<T: PartialEq>(x: T, y: T) -> bool {
    T::obeys_eq_spec() ==> x.eq_spec(&y)
}

/// The element type's equivalence is reflexive.
pub open spec fn eq_is_reflexive<T: PartialEq>() -> bool {
    forall|x: T| #[trigger] x.eq_spec(&x)
}

/// Cloning an element of the type hands back the element itself.
pub open spec fn clone_is_faithful<T: Clone>() -> bool {
    forall|x: T, y: T| #[trigger] cloned(x, y) ==> y == x
}

/// The element carried by a script entry, whichever kind it is.
pub open spec fn element_of<T>(d: DiffResult<T>) -> DiffElement<T> {
    match d {
        DiffResult::Removed(e) => e,
        DiffResult::Common(e) => e,
        DiffResult::Added(e) => e,
    }
}

/// How many elements of `old` one script entry consumes.
pub open spec fn old_step<T>(d: DiffResult<T>) -> int {
    match d {
        DiffResult::Removed(_) => 1,
        DiffResult::Common(_) => 1,
        DiffResult::Added(_) => 0,
    }
}

/// How many elements of `new` one script entry consumes.
pub open spec fn new_step<T>(d: DiffResult<T>) -> int {
    match d {
        DiffResult::Removed(_) => 0,
        DiffResult::Common(_) => 1,
        DiffResult::Added(_) => 1,
    }
}

/// One script entry is in place when the cursors stand at `old[i]` and
/// `new[j]`: it names the index it consumes, leaves the other side's index
/// empty, and carries a clone of the consumed element.  A `Common` entry in
/// addition relates equivalent elements of the two sides.
pub open spec fn entry_valid<T: PartialEq + Clone>(
    d: DiffResult<T>,
    old: Seq<T>,
    new: Seq<T>,
    i: int,
    j: int,
) -> bool {
    match d {
        DiffResult::Removed(e) => {
            &&& 0 <= i < old.len()
            &&& e.old_index is Some
            &&& e.old_index->0 as int == i
            &&& e.new_index is None
            &&& cloned(old[i], e.data)
        },
        DiffResult::Common(e) => {
            &&& 0 <= i < old.len()
            &&& 0 <= j < new.len()
            &&& e.old_index is Some
            &&& e.old_index->0 as int == i
            &&& e.new_index is Some
            &&& e.new_index->0 as int == j
            &&& equiv_at(old[i], new[j])
            &&& cloned(old[i], e.data)
        },
        DiffResult::Added(e) => {
            &&& 0 <= j < new.len()
            &&& e.old_index is None
            &&& e.new_index is Some
            &&& e.new_index->0 as int == j
            &&& cloned(new[j], e.data)
        },
    }
}

/// The script `r` transforms `old[i .. i_end]` into `new[j .. j_end]`,
/// consuming both sides exactly and in order.
pub open spec fn script_between<T: PartialEq + Clone>(
    r: Seq<DiffResult<T>>,
    old: Seq<T>,
    new: Seq<T>,
    i: int,
    j: int,
    i_end: int,
    j_end: int,
) -> bool
    decreases r.len(),
{
    if r.len() == 0 {
        i == i_end && j == j_end
    } else {
        &&& entry_valid(r[0], old, new, i, j)
        &&& script_between(
            r.drop_first(),
            old,
            new,
            i + old_step(r[0]),
            j + new_step(r[0]),
            i_end,
            j_end,
        )
    }
}

/// The script `r` transforms the whole of `old` into the whole of `new`.
pub open spec fn valid_script<T: PartialEq + Clone>(r: Seq<DiffResult<T>>, old: Seq<T>, new: Seq<T>) -> bool {
    script_between(r, old, new, 0, 0, old.len() as int, new.len() as int)
}

/// The `old_index` fields of the entries of `r`, in order, skipping `None`.
pub open spec fn old_indices<T>(r: Seq<DiffResult<T>>) -> Seq<int>
    decreases r.len(),
{
    if r.len() == 0 {
        Seq::empty()
    } else {
        match element_of(r[0]).old_index {
            Some(v) => seq![v as int] + old_indices(r.drop_first()),
            None => old_indices(r.drop_first()),
        }
    }
}

/// The `new_index` fields of the entries of `r`, in order, skipping `None`.
pub open spec fn new_indices<T>(r: Seq<DiffResult<T>>) -> Seq<int>
    decreases r.len(),
{
    if r.len() == 0 {
        Seq::empty()
    } else {
        match element_of(r[0]).new_index {
            Some(v) => seq![v as int] + new_indices(r.drop_first()),
            None => new_indices(r.drop_first()),
        }
    }
}

/// The sequence obtained by replaying the script: elements of `Common`
/// entries are kept, `Removed` entries are dropped, the `data` of `Added`
/// entries is inserted.
pub open spec fn patched<T>(r: Seq<DiffResult<T>>) -> Seq<T>
    decreases r.len(),
{
    if r.len() == 0 {
        Seq::empty()
    } else {
        match r[0] {
            DiffResult::Removed(_) => patched(r.drop_first()),
            DiffResult::Common(e) => seq![e.data] + patched(r.drop_first()),
            DiffResult::Added(e) => seq![e.data] + patched(r.drop_first()),
        }
    }
}

/// How many `Removed` entries `r` holds.
pub open spec fn removed_count<T>(r: Seq<DiffResult<T>>) -> int
    decreases r.len(),
{
    if r.len() == 0 {
        0
    } else {
        removed_count(r.drop_first()) + (if r[0] is Removed {
            1int
        } else {
            0int
        })
    }
}

/// How many `Common` entries `r` holds.
pub open spec fn common_count<T>(r: Seq<DiffResult<T>>) -> int
    decreases r.len(),
{
    if r.len() == 0 {
        0
    } else {
        common_count(r.drop_first()) + (if r[0] is Common {
            1int
        } else {
            0int
        })
    }
}

/// How many `Added` entries `r` holds.
pub open spec fn added_count<T>(r: Seq<DiffResult<T>>) -> int
    decreases r.len(),
{
    if r.len() == 0 {
        0
    } else {
        added_count(r.drop_first()) + (if r[0] is Added {
            1int
        } else {
            0int
        })
    }
}

/// The integers `lo, lo + 1, …, hi - 1`.
pub open spec fn index_range(lo: int, hi: int) -> Seq<int> {
    Seq::new(if hi >= lo { (hi - lo) as nat } else { 0 }, |q: int| lo + q)
}

/// `r` consists of exactly one `Removed` entry per element of `old`, in order.
pub open spec fn all_removed<T: PartialEq + Clone>(r: Seq<DiffResult<T>>, old: Seq<T>) -> bool {
    &&& r.len() == old.len()
    &&& forall|q: int|
        0 <= q < r.len() ==> (#[trigger] r[q] matches DiffResult::Removed(e) && entry_valid(
            r[q],
            old,
            Seq::empty(),
            q,
            0,
        ))
}

/// `r` consists of exactly one `Added` entry per element of `new`, in order.
pub open spec fn all_added<T: PartialEq + Clone>(r: Seq<DiffResult<T>>, new: Seq<T>) -> bool {
    &&& r.len() == new.len()
    &&& forall|q: int|
        0 <= q < r.len() ==> (#[trigger] r[q] matches DiffResult::Added(e) && entry_valid(
            r[q],
            Seq::empty(),
            new,
            0,
            q,
        ))
}

/// `r` consists of exactly one `Common` entry per element of `s`, in order,
/// with both indices equal to the position.
pub open spec fn all_common<T: PartialEq + Clone>(r: Seq<DiffResult<T>>, s: Seq<T>) -> bool {
    &&& r.len() == s.len()
    &&& forall|q: int|
        0 <= q < r.len() ==> (#[trigger] r[q] matches DiffResult::Common(e) && e.old_index is Some
            && e.old_index->0 as int == q && e.new_index is Some && e.new_index->0 as int == q
            && cloned(s[q], e.data))
}

/// A script consumes at least as much as nothing: its cursors only advance.
proof fn lemma_script_bounds<T: PartialEq + Clone>(
    r: Seq<DiffResult<T>>,
    old: Seq<T>,
    new: Seq<T>,
    i: int,
    j: int,
    i_end: int,
    j_end: int,
)
    requires
        script_between(r, old, new, i, j, i_end, j_end),
    ensures
        i <= i_end,
        j <= j_end,
    decreases r.len(),
{
    if r.len() > 0 {
        lemma_script_bounds(
            r.drop_first(),
            old,
            new,
            i + old_step(r[0]),
            j + new_step(r[0]),
            i_end,
            j_end,
        );
    }
}

/// Appending one entry that is valid at the script's end cursors extends the
/// script by that entry's consumption.
pub proof fn lemma_script_snoc<T: PartialEq + Clone>(
    r: Seq<DiffResult<T>>,
    old: Seq<T>,
    new: Seq<T>,
    i0: int,
    j0: int,
    i: int,
    j: int,
    d: DiffResult<T>,
)
    requires
        script_between(r, old, new, i0, j0, i, j),
        entry_valid(d, old, new, i, j),
    ensures
        script_between(r.push(d), old, new, i0, j0, i + old_step(d), j + new_step(d)),
    decreases r.len(),
{
    if r.len() == 0 {
        assert(i0 == i && j0 == j);
        assert(r.push(d)[0] == d);
        assert(r.push(d).drop_first() =~= Seq::<DiffResult<T>>::empty());
        assert(script_between(
            r.push(d).drop_first(),
            old,
            new,
            i + old_step(d),
            j + new_step(d),
            i + old_step(d),
            j + new_step(d),
        ));
    } else {
        assert(r.push(d)[0] == r[0]);
        assert(r.push(d).drop_first() =~= r.drop_first().push(d));
        lemma_script_snoc(
            r.drop_first(),
            old,
            new,
            i0 + old_step(r[0]),
            j0 + new_step(r[0]),
            i,
            j,
            d,
        );
    }
}

/// Two scripts that meet at a common pair of cursors concatenate.
pub proof fn lemma_script_concat<T: PartialEq + Clone>(
    r1: Seq<DiffResult<T>>,
    r2: Seq<DiffResult<T>>,
    old: Seq<T>,
    new: Seq<T>,
    i0: int,
    j0: int,
    i1: int,
    j1: int,
    i2: int,
    j2: int,
)
    requires
        script_between(r1, old, new, i0, j0, i1, j1),
        script_between(r2, old, new, i1, j1, i2, j2),
    ensures
        script_between(r1 + r2, old, new, i0, j0, i2, j2),
    decreases r1.len(),
{
    if r1.len() == 0 {
        assert(r1 + r2 =~= r2);
    } else {
        assert((r1 + r2)[0] == r1[0]);
        assert((r1 + r2).drop_first() =~= r1.drop_first() + r2);
        lemma_script_concat(
            r1.drop_first(),
            r2,
            old,
            new,
            i0 + old_step(r1[0]),
            j0 + new_step(r1[0]),
            i1,
            j1,
            i2,
            j2,
        );
    }
}

proof fn lemma_old_indices_between<T: PartialEq + Clone>(
    r: Seq<DiffResult<T>>,
    old: Seq<T>,
    new: Seq<T>,
    i: int,
    j: int,
    i_end: int,
    j_end: int,
)
    requires
        script_between(r, old, new, i, j, i_end, j_end),
    ensures
        old_indices(r) == index_range(i, i_end),
    decreases r.len(),
{
    if r.len() == 0 {
        assert(old_indices(r) =~= index_range(i, i));
    } else {
        let rest = r.drop_first();
        let i2 = i + old_step(r[0]);
        let j2 = j + new_step(r[0]);
        lemma_old_indices_between(rest, old, new, i2, j2, i_end, j_end);
        lemma_script_bounds(rest, old, new, i2, j2, i_end, j_end);
        match r[0] {
            DiffResult::Removed(e) => {
                assert(element_of(r[0]).old_index->0 as int == i);
                assert(old_indices(r) == seq![i] + index_range(i + 1, i_end));
                assert(old_indices(r) =~= index_range(i, i_end));
            },
            DiffResult::Common(e) => {
                assert(element_of(r[0]).old_index->0 as int == i);
                assert(old_indices(r) == seq![i] + index_range(i + 1, i_end));
                assert(old_indices(r) =~= index_range(i, i_end));
            },
            DiffResult::Added(e) => {
                assert(element_of(r[0]).old_index is None);
                assert(old_indices(r) == index_range(i, i_end));
            },
        }
    }
}

proof fn lemma_new_indices_between<T: PartialEq + Clone>(
    r: Seq<DiffResult<T>>,
    old: Seq<T>,
    new: Seq<T>,
    i: int,
    j: int,
    i_end: int,
    j_end: int,
)
    requires
        script_between(r, old, new, i, j, i_end, j_end),
    ensures
        new_indices(r) == index_range(j, j_end),
    decreases r.len(),
{
    if r.len() == 0 {
        assert(new_indices(r) =~= index_range(j, j));
    } else {
        let rest = r.drop_first();
        let i2 = i + old_step(r[0]);
        let j2 = j + new_step(r[0]);
        lemma_new_indices_between(rest, old, new, i2, j2, i_end, j_end);
        lemma_script_bounds(rest, old, new, i2, j2, i_end, j_end);
        match r[0] {
            DiffResult::Removed(e) => {
                assert(element_of(r[0]).new_index is None);
                assert(new_indices(r) == index_range(j, j_end));
            },
            DiffResult::Common(e) => {
                assert(element_of(r[0]).new_index->0 as int == j);
                assert(new_indices(r) == seq![j] + index_range(j + 1, j_end));
                assert(new_indices(r) =~= index_range(j, j_end));
            },
            DiffResult::Added(e) => {
                assert(element_of(r[0]).new_index->0 as int == j);
                assert(new_indices(r) == seq![j] + index_range(j + 1, j_end));
                assert(new_indices(r) =~= index_range(j, j_end));
            },
        }
    }
}

/// Concatenating the `old_index` fields of a valid script, in order and
/// skipping `None`, yields exactly `0, 1, …, |old| - 1`.
pub proof fn lemma_old_index_cover<T: PartialEq + Clone>(r: Seq<DiffResult<T>>, old: Seq<T>, new: Seq<T>)
    requires
        valid_script(r, old, new),
    ensures
        old_indices(r) == index_range(0, old.len() as int),
{
    lemma_old_indices_between(r, old, new, 0, 0, old.len() as int, new.len() as int);
}

/// Concatenating the `new_index` fields of a valid script, in order and
/// skipping `None`, yields exactly `0, 1, …, |new| - 1`.
pub proof fn lemma_new_index_cover<T: PartialEq + Clone>(r: Seq<DiffResult<T>>, old: Seq<T>, new: Seq<T>)
    requires
        valid_script(r, old, new),
    ensures
        new_indices(r) == index_range(0, new.len() as int),
{
    lemma_new_indices_between(r, old, new, 0, 0, old.len() as int, new.len() as int);
}

proof fn lemma_patched_between<T: PartialEq + Clone>(
    r: Seq<DiffResult<T>>,
    old: Seq<T>,
    new: Seq<T>,
    i: int,
    j: int,
    i_end: int,
    j_end: int,
)
    requires
        script_between(r, old, new, i, j, i_end, j_end),
        T::obeys_eq_spec(),
        eq_is_reflexive::<T>(),
        clone_is_faithful::<T>(),
    ensures
        patched(r).len() == j_end - j,
        forall|q: int|
            0 <= q < j_end - j ==> (#[trigger] patched(r)[q]).eq_spec(&new[j + q]),
    decreases r.len(),
{
    if r.len() == 0 {
    } else {
        let rest = r.drop_first();
        lemma_patched_between(
            rest,
            old,
            new,
            i + old_step(r[0]),
            j + new_step(r[0]),
            i_end,
            j_end,
        );
        match r[0] {
            DiffResult::Removed(_) => {
            },
            DiffResult::Common(e) => {
                assert(cloned(old[i], e.data));
                assert(e.data == old[i]);
                assert(patched(r)[0] == e.data);
                assert(forall|q: int|
                    1 <= q < patched(r).len() ==> patched(r)[q] == patched(rest)[q - 1]);
            },
            DiffResult::Added(e) => {
                assert(cloned(new[j], e.data));
                assert(e.data == new[j]);
                assert(patched(r)[0] == e.data);
                assert(forall|q: int|
                    1 <= q < patched(r).len() ==> patched(r)[q] == patched(rest)[q - 1]);
            },
        }
    }
}

/// Replaying a valid script over `old` — keeping the element of every
/// `Common` entry, dropping every `Removed` entry, inserting the `data` of
/// every `Added` entry — yields `new`, element for element, under the
/// script's equivalence.  The hypotheses say that the element type's
/// equality obeys its specification and is reflexive, and that cloning an
/// element hands the element back.
pub proof fn lemma_patch_rebuilds<T: PartialEq + Clone>(
    r: Seq<DiffResult<T>>,
    old: Seq<T>,
    new: Seq<T>,
)
    requires
        valid_script(r, old, new),
        T::obeys_eq_spec(),
        eq_is_reflexive::<T>(),
        clone_is_faithful::<T>(),
    ensures
        patched(r).len() == new.len(),
        forall|q: int| 0 <= q < new.len() ==> (#[trigger] patched(r)[q]).eq_spec(&new[q]),
{
    lemma_patched_between(r, old, new, 0, 0, old.len() as int, new.len() as int);
}

proof fn lemma_counts_between<T: PartialEq + Clone>(
    r: Seq<DiffResult<T>>,
    old: Seq<T>,
    new: Seq<T>,
    i: int,
    j: int,
    i_end: int,
    j_end: int,
)
    requires
        script_between(r, old, new, i, j, i_end, j_end),
    ensures
        removed_count(r) == (i_end - i) - common_count(r),
        added_count(r) == (j_end - j) - common_count(r),
        0 <= common_count(r),
    decreases r.len(),
{
    if r.len() > 0 {
        lemma_counts_between(
            r.drop_first(),
            old,
            new,
            i + old_step(r[0]),
            j + new_step(r[0]),
            i_end,
            j_end,
        );
    }
}

/// How many entries of each kind a valid script holds is fixed by how many
/// elements it keeps: `|Removed|` is `|old| - |Common|` and `|Added|` is
/// `|new| - |Common|`, so the number of edits — removals plus insertions —
/// is `|old| + |new| - 2 * |Common|`.  Minimising the edits and maximising
/// the kept pairs are therefore the same thing.
pub proof fn lemma_edit_counts<T: PartialEq + Clone>(
    r: Seq<DiffResult<T>>,
    old: Seq<T>,
    new: Seq<T>,
)
    requires
        valid_script(r, old, new),
    ensures
        removed_count(r) == old.len() - common_count(r),
        added_count(r) == new.len() - common_count(r),
        removed_count(r) + added_count(r) == old.len() + new.len() - 2 * common_count(r),
        0 <= common_count(r),
{
    lemma_counts_between(r, old, new, 0, 0, old.len() as int, new.len() as int);
}

proof fn lemma_no_common_between<T: PartialEq + Clone>(
    r: Seq<DiffResult<T>>,
    old: Seq<T>,
    new: Seq<T>,
    i: int,
    j: int,
    i_end: int,
    j_end: int,
)
    requires
        script_between(r, old, new, i, j, i_end, j_end),
        T::obeys_eq_spec(),
        forall|x: int, y: int|
            0 <= x < old.len() && 0 <= y < new.len() ==> !(#[trigger] old[x].eq_spec(&new[y])),
    ensures
        common_count(r) == 0,
    decreases r.len(),
{
    if r.len() > 0 {
        lemma_no_common_between(
            r.drop_first(),
            old,
            new,
            i + old_step(r[0]),
            j + new_step(r[0]),
            i_end,
            j_end,
        );
        if r[0] is Common {
            assert(equiv_at(old[i], new[j]));
            assert(false);
        }
    }
}

/// When the two sides share no equivalent element, a valid script keeps
/// nothing: it holds no `Common` entry at all, so it removes every element
/// of `old` and inserts every element of `new`.
pub proof fn lemma_disjoint_keeps_nothing<T: PartialEq + Clone>(
    r: Seq<DiffResult<T>>,
    old: Seq<T>,
    new: Seq<T>,
)
    requires
        valid_script(r, old, new),
        T::obeys_eq_spec(),
        forall|x: int, y: int|
            0 <= x < old.len() && 0 <= y < new.len() ==> !(#[trigger] old[x].eq_spec(&new[y])),
    ensures
        common_count(r) == 0,
        removed_count(r) == old.len(),
        added_count(r) == new.len(),
{
    lemma_no_common_between(r, old, new, 0, 0, old.len() as int, new.len() as int);
    lemma_edit_counts(r, old, new);
}

/// The length of a longest common subsequence of `old[i..]` and `new[j..]`,
/// under the element type's own equivalence.
pub open spec fn lcs_from<T: PartialEq>(old: Seq<T>, new: Seq<T>, i: int, j: int) -> int
    decreases old.len() + new.len() - i - j,
{
    if 0 <= i < old.len() && 0 <= j < new.len() {
        let skip_old = lcs_from(old, new, i + 1, j);
        let skip_new = lcs_from(old, new, i, j + 1);
        let keep = if old[i].eq_spec(&new[j]) {
            1 + lcs_from(old, new, i + 1, j + 1)
        } else {
            0
        };
        let better = if skip_old >= skip_new {
            skip_old
        } else {
            skip_new
        };
        if keep >= better {
            keep
        } else {
            better
        }
    } else {
        0
    }
}

/// The length of a longest common subsequence of `old` and `new`.
pub open spec fn lcs_len<T: PartialEq>(old: Seq<T>, new: Seq<T>) -> int {
    lcs_from(old, new, 0, 0)
}

proof fn lemma_lcs_nonneg<T: PartialEq>(old: Seq<T>, new: Seq<T>, i: int, j: int)
    ensures
        lcs_from(old, new, i, j) >= 0,
    decreases old.len() + new.len() - i - j,
{
    if 0 <= i < old.len() && 0 <= j < new.len() {
        lemma_lcs_nonneg(old, new, i + 1, j);
        lemma_lcs_nonneg(old, new, i, j + 1);
        lemma_lcs_nonneg(old, new, i + 1, j + 1);
    }
}

proof fn lemma_common_le_lcs_from<T: PartialEq + Clone>(
    r: Seq<DiffResult<T>>,
    old: Seq<T>,
    new: Seq<T>,
    i: int,
    j: int,
    i_end: int,
    j_end: int,
)
    requires
        script_between(r, old, new, i, j, i_end, j_end),
        T::obeys_eq_spec(),
        0 <= i,
        0 <= j,
    ensures
        common_count(r) <= lcs_from(old, new, i, j),
    decreases r.len(),
{
    lemma_lcs_nonneg(old, new, i, j);
    if r.len() > 0 {
        let rest = r.drop_first();
        match r[0] {
            DiffResult::Removed(_) => {
                lemma_common_le_lcs_from(rest, old, new, i + 1, j, i_end, j_end);
                if 0 <= j < new.len() {
                    assert(lcs_from(old, new, i, j) >= lcs_from(old, new, i + 1, j));
                } else {
                    assert(lcs_from(old, new, i + 1, j) == 0);
                }
            },
            DiffResult::Added(_) => {
                lemma_common_le_lcs_from(rest, old, new, i, j + 1, i_end, j_end);
                if 0 <= i < old.len() {
                    assert(lcs_from(old, new, i, j) >= lcs_from(old, new, i, j + 1));
                } else {
                    assert(lcs_from(old, new, i, j + 1) == 0);
                }
            },
            DiffResult::Common(_) => {
                lemma_common_le_lcs_from(rest, old, new, i + 1, j + 1, i_end, j_end);
                assert(old[i].eq_spec(&new[j]));
                assert(lcs_from(old, new, i, j) >= 1 + lcs_from(old, new, i + 1, j + 1));
            },
        }
    }
}

/// No valid script keeps more pairs than a longest common subsequence
/// holds, so — by `lemma_edit_counts` — every valid script performs at
/// least `|old| + |new| - 2·lcs` removals and insertions: the delete/insert
/// distance is a lower bound on the edit count of every script, this
/// library's included.
pub proof fn lemma_common_at_most_lcs<T: PartialEq + Clone>(
    r: Seq<DiffResult<T>>,
    old: Seq<T>,
    new: Seq<T>,
)
    requires
        valid_script(r, old, new),
        T::obeys_eq_spec(),
    ensures
        common_count(r) <= lcs_len(old, new),
        removed_count(r) + added_count(r) >= old.len() + new.len() - 2 * lcs_len(old, new),
{
    lemma_common_le_lcs_from(r, old, new, 0, 0, old.len() as int, new.len() as int);
    lemma_edit_counts(r, old, new);
}

/// The two entries are of the same kind.
pub open spec fn same_kind<T>(d1: DiffResult<T>, d2: DiffResult<T>) -> bool {
    &&& (d1 is Removed <==> d2 is Removed)
    &&& (d1 is Common <==> d2 is Common)
    &&& (d1 is Added <==> d2 is Added)
}

/// A script is a function of its kind sequence: two valid scripts for the
/// same cursors whose entries agree kind for kind are equal, entry for
/// entry, whenever cloning hands elements back unchanged.  The cursors walk
/// in lockstep, so each position's indices are forced, and the kind plus
/// the consumed element force the data.
pub proof fn lemma_script_determined<T: PartialEq + Clone>(
    r1: Seq<DiffResult<T>>,
    r2: Seq<DiffResult<T>>,
    old: Seq<T>,
    new: Seq<T>,
    i: int,
    j: int,
    i_end: int,
    j_end: int,
)
    requires
        script_between(r1, old, new, i, j, i_end, j_end),
        script_between(r2, old, new, i, j, i_end, j_end),
        r1.len() == r2.len(),
        forall|idx: int| 0 <= idx < r1.len() ==> #[trigger] same_kind(r1[idx], r2[idx]),
        clone_is_faithful::<T>(),
    ensures
        r1 == r2,
    decreases r1.len(),
{
    if r1.len() == 0 {
        assert(r1 =~= r2);
    } else {
        assert(same_kind(r1[0], r2[0]));
        assert(element_of(r1[0]) == element_of(r2[0]));
        assert(r1[0] == r2[0]);
        let t1 = r1.drop_first();
        let t2 = r2.drop_first();
        assert forall|idx: int| 0 <= idx < t1.len() implies #[trigger] same_kind(
            t1[idx],
            t2[idx],
        ) by {
            assert(t1[idx] == r1[idx + 1]);
            assert(t2[idx] == r2[idx + 1]);
            assert(same_kind(r1[idx + 1], r2[idx + 1]));
        }
        lemma_script_determined(
            t1,
            t2,
            old,
            new,
            i + old_step(r1[0]),
            j + new_step(r1[0]),
            i_end,
            j_end,
        );
        assert forall|idx: int| 0 <= idx < r1.len() implies r1[idx] == r2[idx] by {
            if idx >= 1 {
                assert(r1[idx] == t1[idx - 1]);
                assert(r2[idx] == t2[idx - 1]);
            }
        }
        assert(r1 =~= r2);
    }
}

/// When the element type's equivalence is plain equality, replaying a valid
/// script rebuilds `new` exactly.
pub proof fn lemma_patch_rebuilds_exactly<T: PartialEq + Clone>(
    r: Seq<DiffResult<T>>,
    old: Seq<T>,
    new: Seq<T>,
)
    requires
        valid_script(r, old, new),
        T::obeys_eq_spec(),
        clone_is_faithful::<T>(),
        forall|x: T, y: T| #[trigger] x.eq_spec(&y) <==> x == y,
    ensures
        patched(r) == new,
{
    assert(eq_is_reflexive::<T>());
    lemma_patch_rebuilds(r, old, new);
    assert(patched(r) =~= new);
}

} // verus!
