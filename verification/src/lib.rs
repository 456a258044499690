//! Sequence difference by Wu's O(NP) algorithm.
//!
//! `diff` compares an `old` and a `new` sequence of elements with a decidable
//! equivalence and returns a linear edit script: every element of `old` is
//! either kept (`Common`) or dropped (`Removed`), every element of `new` is
//! either the kept one (`Common`) or inserted (`Added`).  The search walks
//! farthest-reaching points on antidiagonals of the edit grid, records the
//! provenance of every extension in a route arena, and reconstructs the
//! script by backtracing the arena.

use vstd::prelude::*;
use vstd::std_specs::cmp::PartialEqSpec;

mod arena;
mod backtrace;
mod script;
mod search;

use arena::RouteArena;
use backtrace::back_trace;
use search::entry_ok;
use search::lemma_table_ok_grow;
use search::snake;
use search::table_ok;
use search::FarthestPoint;

pub use script::added_count;
pub use script::all_added;
pub use script::all_common;
pub use script::all_removed;
pub use script::clone_is_faithful;
pub use script::common_count;
pub use script::element_of;
pub use script::entry_valid;
pub use script::eq_is_reflexive;
pub use script::equiv_at;
pub use script::index_range;
pub use script::lcs_from;
pub use script::lcs_len;
pub use script::lemma_common_at_most_lcs;
pub use script::lemma_disjoint_keeps_nothing;
pub use script::lemma_edit_counts;
pub use script::lemma_new_index_cover;
pub use script::lemma_old_index_cover;
pub use script::lemma_patch_rebuilds;
pub use script::lemma_patch_rebuilds_exactly;
pub use script::lemma_script_concat;
pub use script::lemma_script_determined;
pub use script::lemma_script_snoc;
pub use script::new_indices;
pub use script::new_step;
pub use script::old_indices;
pub use script::old_step;
pub use script::patched;
pub use script::removed_count;
pub use script::same_kind;
pub use script::script_between;
pub use script::valid_script;

verus! {

/// One entry of the edit script: the position an element holds in `old`
/// (`None` for an insertion), the position it holds in `new` (`None` for a
/// removal), and the element itself.
#[derive(Debug, PartialEq)]
pub struct DiffElement<T> {
    pub old_index: Option<usize>,
    pub new_index: Option<usize>,
    pub data: T,
}

/// A classified entry of the edit script.
#[derive(Debug, PartialEq)]
pub enum DiffResult<T> {
    Removed(DiffElement<T>),
    Common(DiffElement<T>),
    Added(DiffElement<T>),
}

/// How many consecutive pairs are equivalent from position `q` on: the
/// longest common prefix of `old[q..]` and `new[q..]` along equal indices.
pub open spec fn common_prefix_from<T: PartialEq>(old: Seq<T>, new: Seq<T>, q: int) -> int
    decreases old.len() - q,
{
    if 0 <= q < old.len() && q < new.len() && old[q].eq_spec(&new[q]) {
        1 + common_prefix_from(old, new, q + 1)
    } else {
        0
    }
}

/// The length of the longest common prefix of `old` and `new`.
pub open spec fn common_prefix_spec<T: PartialEq>(old: Seq<T>, new: Seq<T>) -> int {
    common_prefix_from(old, new, 0)
}

/// How many consecutive pairs are equivalent from `q` places before the
/// ends of `old` and `new` on.
pub open spec fn common_suffix_from<T: PartialEq>(old: Seq<T>, new: Seq<T>, q: int) -> int
    decreases old.len() - q,
{
    if 0 <= q < old.len() && q < new.len() && old[old.len() - 1 - q].eq_spec(
        &new[new.len() - 1 - q],
    ) {
        1 + common_suffix_from(old, new, q + 1)
    } else {
        0
    }
}

proof fn lemma_suffix_from_nonneg<T: PartialEq>(old: Seq<T>, new: Seq<T>, q: int)
    ensures
        common_suffix_from(old, new, q) >= 0,
    decreases old.len() - q,
{
    if 0 <= q < old.len() && q < new.len() && old[old.len() - 1 - q].eq_spec(
        &new[new.len() - 1 - q],
    ) {
        lemma_suffix_from_nonneg(old, new, q + 1);
    }
}

/// The length of the shared suffix that trimming keeps: the longest common
/// suffix, capped so that it does not overlap the shared prefix.
pub open spec fn common_suffix_spec<T: PartialEq>(old: Seq<T>, new: Seq<T>) -> int {
    let cap = (if old.len() <= new.len() {
        old.len() as int
    } else {
        new.len() as int
    }) - common_prefix_spec(old, new);
    if common_suffix_from(old, new, 0) <= cap {
        common_suffix_from(old, new, 0)
    } else {
        cap
    }
}

/// Entry `q` of the script keeps the shared pair at position `q` of both
/// sequences.
pub open spec fn head_common_at<T: PartialEq + Clone>(
    r: Seq<DiffResult<T>>,
    old: Seq<T>,
    new: Seq<T>,
    q: int,
) -> bool {
    r[q] is Common && entry_valid(r[q], old, new, q, q)
}

/// Entry `q` of the script's final block of `suf` entries keeps the pair
/// `suf - q` places before the ends of both sequences.
pub open spec fn tail_common_at<T: PartialEq + Clone>(
    r: Seq<DiffResult<T>>,
    old: Seq<T>,
    new: Seq<T>,
    suf: int,
    q: int,
) -> bool {
    r[r.len() - suf + q] is Common && entry_valid(
        r[r.len() - suf + q],
        old,
        new,
        old.len() - suf + q,
        new.len() - suf + q,
    )
}

/// Entry `q` of the script's final block of `s` entries keeps the pair at
/// `(off_old + q, off_new + q)`.
spec fn suffix_block_at<T: PartialEq + Clone>(
    r: Seq<DiffResult<T>>,
    old: Seq<T>,
    new: Seq<T>,
    off_old: int,
    off_new: int,
    s: int,
    q: int,
) -> bool {
    r[r.len() - s + q] is Common && entry_valid(
        r[r.len() - s + q],
        old,
        new,
        off_old + q,
        off_new + q,
    )
}

/// Length of the longest common prefix of `old` and `new`.  When it stops
/// short of both sequences, the elements at its end compared unequal.
fn common_prefix_len<T: PartialEq>(old: &[T], new: &[T]) -> (p: usize)
    ensures
        p <= old@.len(),
        p <= new@.len(),
        forall|q: int| 0 <= q < p ==> equiv_at(old@[q], new@[q]),
        (p < old@.len() && p < new@.len() && T::obeys_eq_spec()) ==> !old@[p as int].eq_spec(
            &new@[p as int],
        ),
        T::obeys_eq_spec() ==> p as int == common_prefix_spec(old@, new@),
{
    let mut p: usize = 0;
    while p < old.len() && p < new.len() && old[p] == new[p]
        invariant
            p <= old@.len(),
            p <= new@.len(),
            forall|q: int| 0 <= q < p ==> equiv_at(old@[q], new@[q]),
            T::obeys_eq_spec() ==> common_prefix_from(old@, new@, 0) == p
                + common_prefix_from(old@, new@, p as int),
        decreases old@.len() - p,
    {
        p = p + 1;
    }
    proof {
        if T::obeys_eq_spec() {
            assert(common_prefix_from(old@, new@, p as int) == 0);
        }
    }
    p
}

/// The elements `q` places before the ends of `old` and `new` are
/// equivalent.
spec fn tail_pair_equiv<T: PartialEq>(old: Seq<T>, new: Seq<T>, q: int) -> bool {
    equiv_at(old[old.len() - 1 - q], new[new.len() - 1 - q])
}

/// Length of the longest common suffix of `old` and `new`, capped so that
/// it does not overlap a prefix of length `prefix`.
fn common_suffix_len<T: PartialEq>(old: &[T], new: &[T], prefix: usize) -> (s: usize)
    requires
        prefix <= old@.len(),
        prefix <= new@.len(),
    ensures
        prefix + s <= old@.len(),
        prefix + s <= new@.len(),
        forall|q: int| 0 <= q < s ==> #[trigger] tail_pair_equiv(old@, new@, q),
        (prefix + s < old@.len() && prefix + s < new@.len() && T::obeys_eq_spec())
            ==> !old@[old@.len() - 1 - s as int].eq_spec(&new@[new@.len() - 1 - s as int]),
        (T::obeys_eq_spec() && prefix as int == common_prefix_spec(old@, new@)) ==> s as int
            == common_suffix_spec(old@, new@),
{
    let old_len = old.len();
    let new_len = new.len();
    let cap = if old_len < new_len {
        old_len - prefix
    } else {
        new_len - prefix
    };
    let mut s: usize = 0;
    while s < cap && old[old_len - 1 - s] == new[new_len - 1 - s]
        invariant
            s <= cap,
            old_len == old@.len(),
            new_len == new@.len(),
            prefix + cap <= old@.len(),
            prefix + cap <= new@.len(),
            cap as int == (if old@.len() <= new@.len() {
                old@.len() as int
            } else {
                new@.len() as int
            }) - prefix,
            forall|q: int| 0 <= q < s ==> #[trigger] tail_pair_equiv(old@, new@, q),
            T::obeys_eq_spec() ==> common_suffix_from(old@, new@, 0) == s
                + common_suffix_from(old@, new@, s as int),
        decreases cap - s,
    {
        s = s + 1;
    }
    proof {
        if T::obeys_eq_spec() {
            if s < cap {
                assert(common_suffix_from(old@, new@, s as int) == 0);
            } else {
                lemma_suffix_from_nonneg(old@, new@, s as int);
                assert(common_suffix_from(old@, new@, 0) >= s);
            }
        }
    }
    s
}

/// Compare `old` and `new` and return the edit script that turns `old` into
/// `new`: a shared prefix and suffix are kept as `Common` entries, and the
/// trimmed middles are aligned by Wu's farthest-point search.
///
/// Every returned script is valid in the sense of [`valid_script`]: its
/// `old_index` fields enumerate `0 .. |old|` in order, its `new_index`
/// fields enumerate `0 .. |new|`, each entry carries a clone of the element
/// it consumes, and `Common` entries pair equivalent elements.  When one
/// side is empty the script is exactly the other side's insertions or
/// removals, and two equal sequences — under an equality that obeys its
/// specification and is reflexive — yield nothing but `Common` entries.
/// Under an honest equality the script also starts with the shared prefix
/// and ends with the shared suffix, kept as `Common` entries whose indices
/// are positions in the original, untrimmed sequences.
pub fn diff<T: PartialEq + Clone>(old: &[T], new: &[T]) -> (r: Vec<DiffResult<T>>)
    requires
        old@.len() + new@.len() < usize::MAX,
    ensures
        valid_script(r@, old@, new@),
        old@.len() == 0 ==> all_added(r@, new@),
        new@.len() == 0 ==> all_removed(r@, old@),
        (T::obeys_eq_spec() && eq_is_reflexive::<T>() && old@ == new@) ==> all_common(r@, old@),
        T::obeys_eq_spec() ==> ({
            let pre = common_prefix_spec(old@, new@);
            let suf = common_suffix_spec(old@, new@);
            &&& r@.len() >= pre + suf
            &&& forall|q: int| 0 <= q < pre ==> #[trigger] head_common_at(r@, old@, new@, q)
            &&& forall|q: int| 0 <= q < suf ==> #[trigger] tail_common_at(r@, old@, new@, suf, q)
        }),
{
    let old_len = old.len();
    let new_len = new.len();
    let prefix_size = common_prefix_len(old, new);
    let suffix_size = common_suffix_len(old, new, prefix_size);
    let swapped = old_len < new_len;
    let sliced_old = &old[prefix_size..old_len - suffix_size];
    let sliced_new = &new[prefix_size..new_len - suffix_size];
    let (a, b) = if swapped {
        (sliced_new, sliced_old)
    } else {
        (sliced_old, sliced_new)
    };
    let m = a.len();
    let n = b.len();

    // with two equal sequences the prefix swallows everything: nothing else
    // would survive the tie against reflexivity at the prefix's end
    proof {
        if T::obeys_eq_spec() && eq_is_reflexive::<T>() && old@ == new@ {
            if prefix_size < old_len {
                assert(old@[prefix_size as int].eq_spec(&old@[prefix_size as int]));
                assert(false);
            }
            assert(prefix_size == old_len && suffix_size == 0 && m == 0 && n == 0);
        }
    }

    if m == 0 && n == 0 && prefix_size == 0 && suffix_size == 0 {
        let result: Vec<DiffResult<T>> = Vec::new();
        proof {
            assert(old@.len() == 0 && new@.len() == 0);
            assert(old@ =~= Seq::<T>::empty());
            assert(new@ =~= Seq::<T>::empty());
        }
        return result;
    }

    let mut result: Vec<DiffResult<T>> = Vec::new();

    // the shared prefix, common to both sides
    let mut p: usize = 0;
    while p < prefix_size
        invariant
            p <= prefix_size,
            prefix_size <= old@.len(),
            prefix_size <= new@.len(),
            forall|q: int| 0 <= q < prefix_size ==> equiv_at(old@[q], new@[q]),
            script_between(result@, old@, new@, 0, 0, p as int, p as int),
            result@.len() == p,
            all_common(result@, old@.subrange(0, p as int)),
            forall|q: int| 0 <= q < p ==> #[trigger] head_common_at(result@, old@, new@, q),
        decreases prefix_size - p,
    {
        let ghost prev = result@;
        let e = DiffResult::Common(
            DiffElement { old_index: Some(p), new_index: Some(p), data: old[p].clone() },
        );
        result.push(e);
        proof {
            lemma_script_snoc(prev, old@, new@, 0, 0, p as int, p as int, e);
            assert forall|q: int| 0 <= q < result@.len() implies (#[trigger] result@[q]
                matches DiffResult::Common(ce) && ce.old_index is Some && ce.old_index->0 as int
                == q && ce.new_index is Some && ce.new_index->0 as int == q && cloned(
                old@.subrange(0, p as int + 1)[q],
                ce.data,
            )) by {
                if q < p as int {
                    assert(result@[q] == prev[q]);
                    assert(old@.subrange(0, p as int)[q] == old@[q]);
                }
                assert(old@.subrange(0, p as int + 1)[q] == old@[q]);
            }
            assert forall|q: int| 0 <= q < p + 1 implies #[trigger] head_common_at(
                result@,
                old@,
                new@,
                q,
            ) by {
                if q < p as int {
                    assert(result@[q] == prev[q]);
                    assert(head_common_at(prev, old@, new@, q));
                } else {
                    assert(result@[q] == e);
                }
            }
        }
        p = p + 1;
    }

    if n == 0 {
        // one trimmed side is empty: the other side is pure removals — pure
        // insertions when the sides are swapped — between the shared ends
        let mut o = prefix_size;
        while o < m + prefix_size
            invariant
                prefix_size <= o <= m + prefix_size,
                old_len == old@.len(),
                new_len == new@.len(),
                prefix_size + suffix_size <= old@.len(),
                prefix_size + suffix_size <= new@.len(),
                swapped ==> (m + prefix_size + suffix_size == new@.len() && prefix_size
                    + suffix_size == old@.len()),
                !swapped ==> (m + prefix_size + suffix_size == old@.len() && prefix_size
                    + suffix_size == new@.len()),
                script_between(
                    result@,
                    old@,
                    new@,
                    0,
                    0,
                    if swapped {
                        prefix_size as int
                    } else {
                        o as int
                    },
                    if swapped {
                        o as int
                    } else {
                        prefix_size as int
                    },
                ),
                old@.len() == 0 ==> (swapped && prefix_size == 0 && suffix_size == 0
                    && all_added(result@, new@.subrange(0, o as int))),
                new@.len() == 0 ==> (!swapped && prefix_size == 0 && suffix_size == 0
                    && all_removed(result@, old@.subrange(0, o as int))),
                (T::obeys_eq_spec() && eq_is_reflexive::<T>() && old@ == new@) ==> (m == 0
                    && prefix_size == old_len && suffix_size == 0),
                m == 0 ==> result@.len() == prefix_size && all_common(
                    result@,
                    old@.subrange(0, prefix_size as int),
                ),
                result@.len() >= prefix_size,
                forall|q: int|
                    0 <= q < prefix_size ==> #[trigger] head_common_at(result@, old@, new@, q),
            decreases m + prefix_size - o,
        {
            let ghost prev = result@;
            if swapped {
                let e = DiffResult::Added(
                    DiffElement { old_index: None, new_index: Some(o), data: new[o].clone() },
                );
                result.push(e);
                proof {
                    lemma_script_snoc(
                        prev,
                        old@,
                        new@,
                        0,
                        0,
                        prefix_size as int,
                        o as int,
                        e,
                    );
                    if old@.len() == 0 {
                        assert forall|q: int| 0 <= q < result@.len() implies (
                        #[trigger] result@[q] matches DiffResult::Added(ae) && entry_valid(
                            result@[q],
                            Seq::empty(),
                            new@.subrange(0, o as int + 1),
                            0,
                            q,
                        )) by {
                            if q < o as int {
                                assert(result@[q] == prev[q]);
                                assert(entry_valid(
                                    prev[q],
                                    Seq::empty(),
                                    new@.subrange(0, o as int),
                                    0,
                                    q,
                                ));
                                assert(new@.subrange(0, o as int)[q] == new@[q]);
                            }
                            assert(new@.subrange(0, o as int + 1)[q] == new@[q]);
                        }
                    }
                }
            } else {
                let e = DiffResult::Removed(
                    DiffElement { old_index: Some(o), new_index: None, data: old[o].clone() },
                );
                result.push(e);
                proof {
                    lemma_script_snoc(
                        prev,
                        old@,
                        new@,
                        0,
                        0,
                        o as int,
                        prefix_size as int,
                        e,
                    );
                    if new@.len() == 0 {
                        assert forall|q: int| 0 <= q < result@.len() implies (
                        #[trigger] result@[q] matches DiffResult::Removed(re) && entry_valid(
                            result@[q],
                            old@.subrange(0, o as int + 1),
                            Seq::empty(),
                            q,
                            0,
                        )) by {
                            if q < o as int {
                                assert(result@[q] == prev[q]);
                                assert(entry_valid(
                                    prev[q],
                                    old@.subrange(0, o as int),
                                    Seq::empty(),
                                    q,
                                    0,
                                ));
                                assert(old@.subrange(0, o as int)[q] == old@[q]);
                            }
                            assert(old@.subrange(0, o as int + 1)[q] == old@[q]);
                        }
                    }
                }
            }
            proof {
                assert forall|q: int|
                    0 <= q < prefix_size implies #[trigger] head_common_at(
                    result@,
                    old@,
                    new@,
                    q,
                ) by {
                    assert(result@[q] == prev[q]);
                    assert(head_common_at(prev, old@, new@, q));
                }
            }
            o = o + 1;
        }
        proof {
            if old@.len() == 0 {
                assert(new@.subrange(0, (m + prefix_size) as int) =~= new@);
            }
            if new@.len() == 0 {
                assert(old@.subrange(0, (m + prefix_size) as int) =~= old@);
            }
            if T::obeys_eq_spec() && eq_is_reflexive::<T>() && old@ == new@ {
                assert(old@.subrange(0, prefix_size as int) =~= old@);
            }
        }
    } else {
        proof {
            // neither side can be empty here, and equal sides never get here
            assert(old@.len() > 0 && new@.len() > 0);
            if T::obeys_eq_spec() && eq_is_reflexive::<T>() && old@ == new@ {
                assert(false);
            }
            assert(m >= n);
        }
        // the farthest-point search over the trimmed middles
        let d = m - n;
        let size = m + n + 1;
        let mut fp: Vec<FarthestPoint> = Vec::with_capacity(size);
        let mut i0: usize = 0;
        while i0 < size
            invariant
                i0 <= size,
                fp@.len() == i0,
                forall|bi: int|
                    0 <= bi < i0 ==> !(#[trigger] fp@[bi]).reached && fp@[bi].id == 0
                        && fp@[bi].y == 0,
            decreases size - i0,
        {
            fp.push(FarthestPoint { reached: false, y: 0, id: 0 });
            i0 = i0 + 1;
        }
        let mut ar = RouteArena::new();
        // size the arena up front for the worst case — one entry per grid
        // cell, one per antidiagonal slot, and the sentinel — so the search
        // appends without reallocating; when that product does not fit in
        // usize the reservation itself fails loudly, before any search work
        let room = match m.checked_mul(n) {
            Some(cells) => match cells.checked_add(size) {
                Some(total) => total,
                None => usize::MAX,
            },
            None => usize::MAX,
        };
        ar.reserve(room);
        proof {
            assert(table_ok(fp@, ar, a@, b@, swapped));
        }

        // widen the band one p at a time; within `n` widenings the target
        // antidiagonal has consumed all of `b`
        let mut pb: usize = 0;
        while pb <= n && !(fp[d + n].reached && fp[d + n].y >= n)
            invariant
                fp@.len() == m + n + 1,
                ar.wf(),
                m == a@.len(),
                n == b@.len(),
                n >= 1,
                m >= n,
                d == m - n,
                m + n < usize::MAX,
                pb <= n + 1,
                table_ok(fp@, ar, a@, b@, swapped),
            decreases n + 1 - pb,
        {
            // ascending walk over the antidiagonals below the target
            let mut base = n - pb;
            while base < d + n
                invariant
                    base <= d + n,
                    fp@.len() == m + n + 1,
                    ar.wf(),
                    m == a@.len(),
                    n == b@.len(),
                    n >= 1,
                    m >= n,
                    d == m - n,
                    m + n < usize::MAX,
                    table_ok(fp@, ar, a@, b@, swapped),
                decreases d + n - base,
            {
                let ghost arp = ar;
                let r1 = snake(a, b, &fp, base, &mut ar, swapped);
                proof {
                    lemma_table_ok_grow(fp@, arp, ar, a@, b@, swapped);
                }
                let ghost fpp = fp@;
                fp.set(base, r1);
                proof {
                    assert forall|bi: int| 0 <= bi < fp@.len() implies entry_ok(
                        #[trigger] fp@[bi],
                        bi - b@.len(),
                        ar,
                        a@,
                        b@,
                        swapped,
                    ) by {
                        if bi != base as int {
                            assert(fp@[bi] == fpp[bi]);
                        }
                    }
                }
                base = base + 1;
            }
            // descending walk over the antidiagonals above the target
            let mut base2 = d + pb + n;
            while base2 > d + n
                invariant
                    d + n <= base2 <= m + n,
                    fp@.len() == m + n + 1,
                    ar.wf(),
                    m == a@.len(),
                    n == b@.len(),
                    n >= 1,
                    m >= n,
                    d == m - n,
                    m + n < usize::MAX,
                    table_ok(fp@, ar, a@, b@, swapped),
                decreases base2,
            {
                let ghost arp = ar;
                let r2 = snake(a, b, &fp, base2, &mut ar, swapped);
                proof {
                    lemma_table_ok_grow(fp@, arp, ar, a@, b@, swapped);
                }
                let ghost fpp = fp@;
                fp.set(base2, r2);
                proof {
                    assert forall|bi: int| 0 <= bi < fp@.len() implies entry_ok(
                        #[trigger] fp@[bi],
                        bi - b@.len(),
                        ar,
                        a@,
                        b@,
                        swapped,
                    ) by {
                        if bi != base2 as int {
                            assert(fp@[bi] == fpp[bi]);
                        }
                    }
                }
                base2 = base2 - 1;
            }
            // and last the target antidiagonal itself
            let ghost arp = ar;
            let r3 = snake(a, b, &fp, d + n, &mut ar, swapped);
            proof {
                lemma_table_ok_grow(fp@, arp, ar, a@, b@, swapped);
            }
            let ghost fpp = fp@;
            fp.set(d + n, r3);
            proof {
                assert forall|bi: int| 0 <= bi < fp@.len() implies entry_ok(
                    #[trigger] fp@[bi],
                    bi - b@.len(),
                    ar,
                    a@,
                    b@,
                    swapped,
                ) by {
                    if bi != (d + n) as int {
                        assert(fp@[bi] == fpp[bi]);
                    }
                }
            }
            pb = pb + 1;
        }

        let term = fp[d + n];
        if term.reached && term.y >= n {
            proof {
                assert(term == fp@[(d + n) as int]);
                assert(entry_ok(term, (d + n) as int - b@.len() as int, ar, a@, b@, swapped));
            }
            let mut bt = back_trace(
                a,
                b,
                &term,
                swapped,
                &ar,
                prefix_size,
                Ghost(old@),
                Ghost(new@),
            );
            let ghost pre = result@;
            let ghost btv = bt@;
            result.append(&mut bt);
            proof {
                assert forall|q: int|
                    0 <= q < prefix_size implies #[trigger] head_common_at(
                    result@,
                    old@,
                    new@,
                    q,
                ) by {
                    assert(result@[q] == pre[q]);
                    assert(head_common_at(pre, old@, new@, q));
                }
                lemma_script_concat(
                    pre,
                    btv,
                    old@,
                    new@,
                    0,
                    0,
                    prefix_size as int,
                    prefix_size as int,
                    (old_len - suffix_size) as int,
                    (new_len - suffix_size) as int,
                );
            }
        } else {
            // the band was exhausted without the target consuming all of
            // `b`; fall back to the plain script: every surviving element
            // of `old` removed, every surviving element of `new` inserted
            let mut o = prefix_size;
            while o < old_len - suffix_size
                invariant
                    prefix_size <= o <= old_len - suffix_size,
                    old_len == old@.len(),
                    new_len == new@.len(),
                    prefix_size + suffix_size <= old@.len(),
                    prefix_size + suffix_size <= new@.len(),
                    script_between(result@, old@, new@, 0, 0, o as int, prefix_size as int),
                    result@.len() >= prefix_size,
                    forall|q: int|
                        0 <= q < prefix_size ==> #[trigger] head_common_at(result@, old@, new@, q),
                decreases old_len - suffix_size - o,
            {
                let ghost prev = result@;
                let e = DiffResult::Removed(
                    DiffElement { old_index: Some(o), new_index: None, data: old[o].clone() },
                );
                result.push(e);
                proof {
                    lemma_script_snoc(prev, old@, new@, 0, 0, o as int, prefix_size as int, e);
                    assert forall|q: int|
                        0 <= q < prefix_size implies #[trigger] head_common_at(
                        result@,
                        old@,
                        new@,
                        q,
                    ) by {
                        assert(result@[q] == prev[q]);
                        assert(head_common_at(prev, old@, new@, q));
                    }
                }
                o = o + 1;
            }
            let mut jj = prefix_size;
            while jj < new_len - suffix_size
                invariant
                    prefix_size <= jj <= new_len - suffix_size,
                    old_len == old@.len(),
                    new_len == new@.len(),
                    prefix_size + suffix_size <= old@.len(),
                    prefix_size + suffix_size <= new@.len(),
                    script_between(
                        result@,
                        old@,
                        new@,
                        0,
                        0,
                        old_len - suffix_size,
                        jj as int,
                    ),
                    result@.len() >= prefix_size,
                    forall|q: int|
                        0 <= q < prefix_size ==> #[trigger] head_common_at(result@, old@, new@, q),
                decreases new_len - suffix_size - jj,
            {
                let ghost prev = result@;
                let e = DiffResult::Added(
                    DiffElement { old_index: None, new_index: Some(jj), data: new[jj].clone() },
                );
                result.push(e);
                proof {
                    lemma_script_snoc(
                        prev,
                        old@,
                        new@,
                        0,
                        0,
                        (old_len - suffix_size) as int,
                        jj as int,
                        e,
                    );
                    assert forall|q: int|
                        0 <= q < prefix_size implies #[trigger] head_common_at(
                        result@,
                        old@,
                        new@,
                        q,
                    ) by {
                        assert(result@[q] == prev[q]);
                        assert(head_common_at(prev, old@, new@, q));
                    }
                }
                jj = jj + 1;
            }
        }
    }

    // the shared suffix, common to both sides
    let old_offset = old_len - suffix_size;
    let new_offset = new_len - suffix_size;
    let mut s: usize = 0;
    while s < suffix_size
        invariant
            s <= suffix_size,
            old_len == old@.len(),
            new_len == new@.len(),
            old_offset == old_len - suffix_size,
            new_offset == new_len - suffix_size,
            prefix_size + suffix_size <= old@.len(),
            prefix_size + suffix_size <= new@.len(),
            forall|q: int| 0 <= q < suffix_size ==> #[trigger] tail_pair_equiv(old@, new@, q),
            script_between(
                result@,
                old@,
                new@,
                0,
                0,
                old_offset + s,
                new_offset + s,
            ),
            old@.len() == 0 ==> (suffix_size == 0 && all_added(result@, new@)),
            new@.len() == 0 ==> (suffix_size == 0 && all_removed(result@, old@)),
            (T::obeys_eq_spec() && eq_is_reflexive::<T>() && old@ == new@) ==> (suffix_size == 0
                && all_common(result@, old@)),
            result@.len() >= prefix_size + s,
            forall|q: int|
                0 <= q < prefix_size ==> #[trigger] head_common_at(result@, old@, new@, q),
            forall|q: int|
                0 <= q < s ==> #[trigger] suffix_block_at(
                    result@,
                    old@,
                    new@,
                    old_offset as int,
                    new_offset as int,
                    s as int,
                    q,
                ),
        decreases suffix_size - s,
    {
        let ghost prev = result@;
        let e = DiffResult::Common(
            DiffElement {
                old_index: Some(s + old_offset),
                new_index: Some(s + new_offset),
                data: old[s + old_offset].clone(),
            },
        );
        result.push(e);
        proof {
            assert(tail_pair_equiv(old@, new@, suffix_size - s - 1));
            assert(equiv_at(old@[old_offset + s], new@[new_offset + s]));
            lemma_script_snoc(
                prev,
                old@,
                new@,
                0,
                0,
                old_offset + s,
                new_offset + s,
                e,
            );
            assert forall|q: int|
                0 <= q < prefix_size implies #[trigger] head_common_at(
                result@,
                old@,
                new@,
                q,
            ) by {
                assert(result@[q] == prev[q]);
                assert(head_common_at(prev, old@, new@, q));
            }
            assert forall|q: int|
                0 <= q < s + 1 implies #[trigger] suffix_block_at(
                result@,
                old@,
                new@,
                old_offset as int,
                new_offset as int,
                s as int + 1,
                q,
            ) by {
                if q < s as int {
                    assert(result@[result@.len() - (s + 1) + q] == prev[prev.len() - s as int
                        + q]);
                    assert(suffix_block_at(
                        prev,
                        old@,
                        new@,
                        old_offset as int,
                        new_offset as int,
                        s as int,
                        q,
                    ));
                } else {
                    assert(result@[result@.len() - 1] == e);
                }
            }
        }
        s = s + 1;
    }
    proof {
        if T::obeys_eq_spec() {
            assert(prefix_size as int == common_prefix_spec(old@, new@));
            assert(suffix_size as int == common_suffix_spec(old@, new@));
            assert forall|q: int|
                0 <= q < common_suffix_spec(old@, new@) implies #[trigger] tail_common_at(
                result@,
                old@,
                new@,
                common_suffix_spec(old@, new@),
                q,
            ) by {
                assert(suffix_block_at(
                    result@,
                    old@,
                    new@,
                    old_offset as int,
                    new_offset as int,
                    suffix_size as int,
                    q,
                ));
            }
        }
    }
    result
}

} // verus!
