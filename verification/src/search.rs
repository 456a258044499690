//! The snake engine: advancing one antidiagonal by one edit step.
//!
//! The search works on a pair of sequences `a` (the longer side, length `m`)
//! and `b` (length `n`).  A point on antidiagonal `k` is identified by the
//! number `y` of elements of `b` consumed; the number of elements of `a`
//! consumed is then `x = y + k`.  The farthest-point table has one slot per
//! antidiagonal, indexed by `base = k + n` with `k` in `[-n, m]`.
//!
//! `create_fp` picks the better predecessor (the `slide` neighbour on
//! antidiagonal `k - 1` or the `down` neighbour on `k + 1`) by the fixed
//! tie-break rule, and `snake` then extends the new point through matching
//! element pairs.  Every extension is recorded in the route arena, and the
//! contracts pin the behaviour down: `slot_choice` is the tie-break as one
//! total function of the table, `create_fp` returns exactly its choice and
//! appends exactly one arena entry for it, and `snake` extends the choice
//! by exactly the maximal run of matching pairs, one `Diag` entry each.  A
//! reached table entry always holds an arena path that is a valid walk of
//! the edit grid ending at the entry's coordinates.  An extension that
//! would leave the grid, or would grow out of a slot that is not yet
//! reached, is answered by the not-reached sentinel instead; correct
//! driving never asks for one, but the functions stay total without
//! trusting the driver.

use vstd::prelude::*;
use vstd::std_specs::cmp::PartialEqSpec;

use crate::arena::EditStep;
use crate::arena::RouteArena;
use crate::script::equiv_at;

verus! {

/// How many elements of `a` a path consumes.
pub(crate) open spec fn count_a(p: Seq<EditStep>) -> int
    decreases p.len(),
{
    if p.len() == 0 {
        0
    } else {
        count_a(p.drop_last()) + (if p.last() is Slide || p.last() is Diag {
            1int
        } else {
            0int
        })
    }
}

/// How many elements of `b` a path consumes.
pub(crate) open spec fn count_b(p: Seq<EditStep>) -> int
    decreases p.len(),
{
    if p.len() == 0 {
        0
    } else {
        count_b(p.drop_last()) + (if p.last() is Down || p.last() is Diag {
            1int
        } else {
            0int
        })
    }
}

/// A path is a valid walk of the edit grid over `a` and `b`: every step
/// stays inside the grid and every `Diag` step consumes a pair of elements
/// that compared equal.  The comparison is always performed with the element
/// of the original `old` sequence on the left: that is `a`'s element when
/// the sides are not swapped and `b`'s element when they are.
pub(crate) open spec fn path_valid<T: PartialEq>(
    p: Seq<EditStep>,
    a: Seq<T>,
    b: Seq<T>,
    sw: bool,
) -> bool
    decreases p.len(),
{
    if p.len() == 0 {
        true
    } else {
        let q = p.drop_last();
        &&& path_valid(q, a, b, sw)
        &&& match p.last() {
            EditStep::Slide => count_a(q) < a.len(),
            EditStep::Down => count_b(q) < b.len(),
            EditStep::Diag => {
                &&& count_a(q) < a.len()
                &&& count_b(q) < b.len()
                &&& if sw {
                    equiv_at(b[count_b(q)], a[count_a(q)])
                } else {
                    equiv_at(a[count_a(q)], b[count_b(q)])
                }
            },
            EditStep::Origin => false,
        }
    }
}

/// A valid path consumes between nothing and everything of each side.
pub(crate) proof fn lemma_counts_in_grid<T: PartialEq>(
    p: Seq<EditStep>,
    a: Seq<T>,
    b: Seq<T>,
    sw: bool,
)
    requires
        path_valid(p, a, b, sw),
    ensures
        0 <= count_a(p) <= a.len(),
        0 <= count_b(p) <= b.len(),
    decreases p.len(),
{
    if p.len() > 0 {
        lemma_counts_in_grid(p.drop_last(), a, b, sw);
    }
}

/// Appending one step adds its consumption to the path's counts.
pub(crate) proof fn lemma_counts_push(q: Seq<EditStep>, s: EditStep)
    ensures
        count_a(q.push(s)) == count_a(q) + (if s is Slide || s is Diag {
            1int
        } else {
            0int
        }),
        count_b(q.push(s)) == count_b(q) + (if s is Down || s is Diag {
            1int
        } else {
            0int
        }),
{
    assert(q.push(s).drop_last() =~= q);
}

/// A valid path stays valid under one more step that stays in the grid.
pub(crate) proof fn lemma_path_valid_push<T: PartialEq>(
    q: Seq<EditStep>,
    a: Seq<T>,
    b: Seq<T>,
    sw: bool,
    s: EditStep,
)
    requires
        path_valid(q, a, b, sw),
        match s {
            EditStep::Slide => count_a(q) < a.len(),
            EditStep::Down => count_b(q) < b.len(),
            EditStep::Diag => {
                &&& count_a(q) < a.len()
                &&& count_b(q) < b.len()
                &&& if sw {
                    equiv_at(b[count_b(q)], a[count_a(q)])
                } else {
                    equiv_at(a[count_a(q)], b[count_b(q)])
                }
            },
            EditStep::Origin => false,
        },
    ensures
        path_valid(q.push(s), a, b, sw),
{
    assert(q.push(s).drop_last() =~= q);
}

/// Every prefix of a valid path is valid.
pub(crate) proof fn lemma_path_valid_take<T: PartialEq>(
    p: Seq<EditStep>,
    a: Seq<T>,
    b: Seq<T>,
    sw: bool,
    t: int,
)
    requires
        path_valid(p, a, b, sw),
        0 <= t <= p.len(),
    ensures
        path_valid(p.take(t), a, b, sw),
    decreases p.len() - t,
{
    if t == p.len() {
        assert(p.take(t) =~= p);
    } else {
        lemma_path_valid_take(p, a, b, sw, t + 1);
        assert(p.take(t + 1).drop_last() =~= p.take(t));
    }
}

/// One slot of the farthest-point table.  `reached` false is the
/// "not yet reached" sentinel; a reached slot holds the greatest `y` seen on
/// its antidiagonal and the arena id of the path that got there.
#[derive(Clone, Copy)]
pub(crate) struct FarthestPoint {
    pub(crate) reached: bool,
    pub(crate) y: usize,
    pub(crate) id: usize,
}

/// What a table slot for antidiagonal `k` promises: nothing when not
/// reached (the sentinel is canonical), and otherwise a valid arena path
/// that consumes `y` elements of `b` and `y + k` elements of `a`.
pub(crate) open spec fn entry_ok<T: PartialEq>(
    e: FarthestPoint,
    k: int,
    ar: RouteArena,
    a: Seq<T>,
    b: Seq<T>,
    sw: bool,
) -> bool {
    if e.reached {
        &&& (e.id as int) < ar.size()
        &&& path_valid(ar.path(e.id as int), a, b, sw)
        &&& count_b(ar.path(e.id as int)) == e.y as int
        &&& count_a(ar.path(e.id as int)) == e.y as int + k
        &&& e.y as int <= b.len()
        &&& 0 <= e.y as int + k <= a.len()
    } else {
        e.id == 0 && e.y == 0
    }
}

/// Every slot of the table is in order for its own antidiagonal.
pub(crate) open spec fn table_ok<T: PartialEq>(
    fp: Seq<FarthestPoint>,
    ar: RouteArena,
    a: Seq<T>,
    b: Seq<T>,
    sw: bool,
) -> bool {
    forall|bi: int|
        0 <= bi < fp.len() ==> entry_ok(#[trigger] fp[bi], bi - b.len(), ar, a, b, sw)
}

/// A slot stays in order when the arena only grows.
pub(crate) proof fn lemma_entry_ok_grow<T: PartialEq>(
    e: FarthestPoint,
    k: int,
    ar1: RouteArena,
    ar2: RouteArena,
    a: Seq<T>,
    b: Seq<T>,
    sw: bool,
)
    requires
        entry_ok(e, k, ar1, a, b, sw),
        ar1.size() <= ar2.size(),
        forall|q: int| 0 <= q < ar1.size() ==> ar2.path(q) == ar1.path(q),
    ensures
        entry_ok(e, k, ar2, a, b, sw),
{
}

/// The whole table stays in order when the arena only grows.
pub(crate) proof fn lemma_table_ok_grow<T: PartialEq>(
    fp: Seq<FarthestPoint>,
    ar1: RouteArena,
    ar2: RouteArena,
    a: Seq<T>,
    b: Seq<T>,
    sw: bool,
)
    requires
        table_ok(fp, ar1, a, b, sw),
        ar1.size() <= ar2.size(),
        forall|q: int| 0 <= q < ar1.size() ==> ar2.path(q) == ar1.path(q),
    ensures
        table_ok(fp, ar2, a, b, sw),
{
    assert forall|bi: int| 0 <= bi < fp.len() implies entry_ok(
        #[trigger] fp[bi],
        bi - b.len(),
        ar2,
        a,
        b,
        sw,
    ) by {
        lemma_entry_ok_grow(fp[bi], bi - b.len(), ar1, ar2, a, b, sw);
    }
}

/// The not-reached sentinel.
fn not_reached() -> (r: FarthestPoint)
    ensures
        !r.reached,
        r.id == 0,
        r.y == 0,
{
    FarthestPoint { reached: false, y: 0, id: 0 }
}

/// Whether the elements a `Diag` step through `(x, y)` would consume
/// compare equal, with the element of the original `old` sequence on the
/// left: that is `a`'s element when the sides are not swapped and `b`'s
/// when they are.
pub(crate) open spec fn pair_eq<T: PartialEq>(a: Seq<T>, b: Seq<T>, sw: bool, x: int, y: int) -> bool {
    if sw {
        b[y].eq_spec(&a[x])
    } else {
        a[x].eq_spec(&b[y])
    }
}

/// How many consecutive element pairs match from `(x, y)` on: the length of
/// the maximal snake extension along the antidiagonal.
pub(crate) open spec fn match_run<T: PartialEq>(a: Seq<T>, b: Seq<T>, sw: bool, x: int, y: int) -> int
    decreases a.len() - x,
{
    if 0 <= x < a.len() && 0 <= y < b.len() && pair_eq(a, b, sw, x, y) {
        1 + match_run(a, b, sw, x + 1, y + 1)
    } else {
        0
    }
}

/// `c` consecutive `Diag` steps.
pub(crate) open spec fn diag_run(c: int) -> Seq<EditStep> {
    Seq::new(if c >= 0 {
        c as nat
    } else {
        0
    }, |i: int| EditStep::Diag)
}

/// What the tie-break decides for the slot `base`: whether the slot
/// advances at all, whether it restarts from the true origin, and otherwise
/// which neighbour it grows out of, with which step, to which `y`.
pub(crate) struct SlotChoice {
    pub(crate) advances: bool,
    pub(crate) origin: bool,
    pub(crate) pred: FarthestPoint,
    pub(crate) kind: EditStep,
    pub(crate) y: int,
}

/// The tie-break of `create_fp`, as one total function of the table: at the
/// left edge only the `down` neighbour exists, at the right edge only the
/// `slide` neighbour; in between the true origin serves when neither
/// neighbour is reached (and lies on antidiagonal 0 only), `slide` wins
/// when `down` is not reached or strictly farther behind, and `down` wins
/// otherwise.  A slot does not advance when the needed neighbour is not
/// reached or the step would leave the grid.
pub(crate) open spec fn slot_choice(fp: Seq<FarthestPoint>, base: int, m: int, n: int) -> SlotChoice {
    let none = FarthestPoint { reached: false, y: 0, id: 0 };
    if base == 0 {
        let down = fp[1];
        SlotChoice {
            advances: down.reached && (down.y as int) < n,
            origin: false,
            pred: down,
            kind: EditStep::Down,
            y: down.y as int + 1,
        }
    } else if base + 1 == fp.len() {
        let slide = fp[base - 1];
        SlotChoice {
            advances: slide.reached && slide.y as int + base <= m + n,
            origin: false,
            pred: slide,
            kind: EditStep::Slide,
            y: slide.y as int,
        }
    } else {
        let slide = fp[base - 1];
        let down = fp[base + 1];
        if !slide.reached && !down.reached {
            SlotChoice {
                advances: base == n,
                origin: true,
                pred: none,
                kind: EditStep::Origin,
                y: 0,
            }
        } else if !down.reached || (slide.reached && slide.y > down.y + 1) {
            SlotChoice {
                advances: slide.reached && slide.y as int + base <= m + n,
                origin: false,
                pred: slide,
                kind: EditStep::Slide,
                y: slide.y as int,
            }
        } else {
            SlotChoice {
                advances: (down.y as int) < n,
                origin: false,
                pred: down,
                kind: EditStep::Down,
                y: down.y as int + 1,
            }
        }
    }
}

/// What `create_fp` leaves behind, exactly: when the slot does not advance,
/// the not-reached sentinel and an untouched arena; when it restarts, the
/// origin point and an untouched arena; otherwise the chosen extension,
/// recorded as exactly one new arena entry whose parent is the chosen
/// neighbour's id and whose step is the chosen kind.
pub(crate) open spec fn picked_point(
    fp: Seq<FarthestPoint>,
    base: int,
    m: int,
    n: int,
    ar0: RouteArena,
    ar1: RouteArena,
    r: FarthestPoint,
) -> bool {
    let c = slot_choice(fp, base, m, n);
    if !c.advances {
        &&& !r.reached
        &&& ar1 == ar0
    } else if c.origin {
        &&& r.reached
        &&& r.y == 0
        &&& r.id == 0
        &&& ar1 == ar0
    } else {
        &&& r.reached
        &&& r.y as int == c.y
        &&& r.id as int == ar0.size()
        &&& ar1.size() == ar0.size() + 1
        &&& ar1.parents@[r.id as int] == c.pred.id
        &&& ar1.kinds@[r.id as int] == c.kind
    }
}

/// Compare the pair of elements a `Diag` step through `(x, y)` would
/// consume, with the element of the original `old` sequence on the left.
fn elems_agree<T: PartialEq>(a: &[T], b: &[T], x: usize, y: usize, sw: bool) -> (r: bool)
    requires
        x < a@.len(),
        y < b@.len(),
    ensures
        r ==> (if sw {
            equiv_at(b@[y as int], a@[x as int])
        } else {
            equiv_at(a@[x as int], b@[y as int])
        }),
        T::obeys_eq_spec() ==> r == pair_eq(a@, b@, sw, x as int, y as int),
{
    if sw {
        b[y] == a[x]
    } else {
        a[x] == b[y]
    }
}

/// Choose the predecessor for the slot `base` and take one edit step from
/// it, as Wu's tie-break prescribes: at the left edge only the `down`
/// neighbour exists, at the right edge only the `slide` neighbour; in
/// between, `slide` wins when `down` is not reached or strictly farther
/// behind, and the true origin is used when neither neighbour is reached.
fn create_fp<T: PartialEq>(
    a: &[T],
    b: &[T],
    fp: &Vec<FarthestPoint>,
    base: usize,
    ar: &mut RouteArena,
    sw: bool,
) -> (r: FarthestPoint)
    requires
        old(ar).wf(),
        a@.len() + b@.len() < usize::MAX,
        b@.len() >= 1,
        fp@.len() == a@.len() + b@.len() + 1,
        base < fp@.len(),
        table_ok(fp@, *old(ar), a@, b@, sw),
    ensures
        final(ar).wf(),
        old(ar).size() <= final(ar).size(),
        forall|q: int| 0 <= q < old(ar).size() ==> final(ar).path(q) == old(ar).path(q),
        entry_ok(r, base as int - b@.len() as int, *final(ar), a@, b@, sw),
        picked_point(fp@, base as int, a@.len() as int, b@.len() as int, *old(ar), *final(ar), r),
{
    let m = a.len();
    let n = b.len();
    if base == 0 {
        // left edge: only the down neighbour; the step consumes one of `b`
        let down = fp[1];
        if down.reached && down.y < n {
            let ghost pd = ar.path(down.id as int);
            let id = ar.record(down.id, EditStep::Down);
            proof {
                lemma_counts_push(pd, EditStep::Down);
                lemma_path_valid_push(pd, a@, b@, sw, EditStep::Down);
            }
            FarthestPoint { reached: true, y: down.y + 1, id }
        } else {
            not_reached()
        }
    } else if base + 1 == fp.len() {
        // right edge: only the slide neighbour; the step consumes one of `a`
        let slide = fp[base - 1];
        if slide.reached && slide.y <= (m + n) - base {
            let ghost ps = ar.path(slide.id as int);
            let id = ar.record(slide.id, EditStep::Slide);
            proof {
                lemma_counts_push(ps, EditStep::Slide);
                lemma_path_valid_push(ps, a@, b@, sw, EditStep::Slide);
            }
            FarthestPoint { reached: true, y: slide.y, id }
        } else {
            not_reached()
        }
    } else {
        let slide = fp[base - 1];
        let down = fp[base + 1];
        if !slide.reached && !down.reached {
            // both neighbours untouched: the true origin, which lies on
            // antidiagonal 0 only
            if base == n {
                proof {
                    assert(ar.path(0) =~= Seq::<EditStep>::empty());
                }
                FarthestPoint { reached: true, y: 0, id: 0 }
            } else {
                not_reached()
            }
        } else if !down.reached || (slide.reached && slide.y > down.y + 1) {
            // slide wins when down is not reached or strictly farther
            // behind; the tie-break's third case, antidiagonal m itself,
            // is the right edge and never reaches this branch.
            // keep slide's y and consume one of `a`
            if slide.reached && slide.y <= (m + n) - base {
                let ghost ps = ar.path(slide.id as int);
                let id = ar.record(slide.id, EditStep::Slide);
                proof {
                    lemma_counts_push(ps, EditStep::Slide);
                    lemma_path_valid_push(ps, a@, b@, sw, EditStep::Slide);
                }
                FarthestPoint { reached: true, y: slide.y, id }
            } else {
                not_reached()
            }
        } else {
            // down wins: advance y by one, consume one of `b`
            if down.y < n {
                let ghost pd = ar.path(down.id as int);
                let id = ar.record(down.id, EditStep::Down);
                proof {
                    lemma_counts_push(pd, EditStep::Down);
                    lemma_path_valid_push(pd, a@, b@, sw, EditStep::Down);
                }
                FarthestPoint { reached: true, y: down.y + 1, id }
            } else {
                not_reached()
            }
        }
    }
}

/// One snake: take one edit step on antidiagonal `base - n` and then extend
/// the new farthest point through every pair of matching elements.  The
/// result is pinned down: the slot advances exactly when the tie-break says
/// so, the new path is the chosen neighbour's path, the chosen step, and
/// one `Diag` per matched pair, and — whenever `==` obeys its vstd
/// specification — the extension is exactly the maximal run of matching
/// pairs on the antidiagonal.
pub(crate) fn snake<T: PartialEq>(
    a: &[T],
    b: &[T],
    fp: &Vec<FarthestPoint>,
    base: usize,
    ar: &mut RouteArena,
    sw: bool,
) -> (r: FarthestPoint)
    requires
        old(ar).wf(),
        a@.len() + b@.len() < usize::MAX,
        b@.len() >= 1,
        fp@.len() == a@.len() + b@.len() + 1,
        base < fp@.len(),
        table_ok(fp@, *old(ar), a@, b@, sw),
    ensures
        final(ar).wf(),
        old(ar).size() <= final(ar).size(),
        forall|q: int| 0 <= q < old(ar).size() ==> final(ar).path(q) == old(ar).path(q),
        entry_ok(r, base as int - b@.len() as int, *final(ar), a@, b@, sw),
        r.reached <==> slot_choice(fp@, base as int, a@.len() as int, b@.len() as int).advances,
        !r.reached ==> *final(ar) == *old(ar),
        r.reached ==> ({
            let c = slot_choice(fp@, base as int, a@.len() as int, b@.len() as int);
            let start = if c.origin {
                Seq::<EditStep>::empty()
            } else {
                old(ar).path(c.pred.id as int).push(c.kind)
            };
            &&& r.y as int >= c.y
            &&& final(ar).path(r.id as int) == start + diag_run(r.y as int - c.y)
            &&& final(ar).size() == old(ar).size() + (if c.origin {
                0int
            } else {
                1int
            }) + (r.y as int - c.y)
            &&& T::obeys_eq_spec() ==> r.y as int == c.y + match_run(
                a@,
                b@,
                sw,
                c.y + (base as int - b@.len() as int),
                c.y,
            )
        }),
{
    let m = a.len();
    let n = b.len();
    let ghost c = slot_choice(fp@, base as int, m as int, n as int);
    let mut f = create_fp(a, b, fp, base, ar, sw);
    if !f.reached {
        return f;
    }
    let ghost start_path = if c.origin {
        Seq::<EditStep>::empty()
    } else {
        old(ar).path(c.pred.id as int).push(c.kind)
    };
    let ghost size_mid = old(ar).size() + (if c.origin {
        0int
    } else {
        1int
    });
    let ghost x0 = c.y + (base as int - n as int);
    proof {
        if c.origin {
            assert(ar.path(f.id as int) =~= Seq::<EditStep>::empty());
        }
        assert(ar.path(f.id as int) == start_path);
        assert(start_path + diag_run(0) =~= start_path);
    }
    // x = y + k, the number of elements of `a` consumed so far
    let mut x: usize = if base >= n {
        f.y + (base - n)
    } else {
        f.y - (n - base)
    };
    let mut y = f.y;
    while x < m && y < n && elems_agree(a, b, x, y, sw)
        invariant
            ar.wf(),
            m == a@.len(),
            n == b@.len(),
            m + n < usize::MAX,
            n >= 1,
            base < m + n + 1,
            f.reached,
            y == f.y,
            x as int == f.y as int + (base as int - n as int),
            entry_ok(f, base as int - n as int, *ar, a@, b@, sw),
            old(ar).size() <= ar.size(),
            forall|q: int| 0 <= q < old(ar).size() ==> ar.path(q) == old(ar).path(q),
            c == slot_choice(fp@, base as int, m as int, n as int),
            x0 == c.y + (base as int - n as int),
            size_mid == old(ar).size() + (if c.origin {
                0int
            } else {
                1int
            }),
            y as int >= c.y,
            ar.path(f.id as int) == start_path + diag_run(y as int - c.y),
            ar.size() == size_mid + (y as int - c.y),
            T::obeys_eq_spec() ==> match_run(a@, b@, sw, x0, c.y) == (y as int - c.y)
                + match_run(a@, b@, sw, x as int, y as int),
        decreases m - x,
    {
        let ghost pf = ar.path(f.id as int);
        let ghost before = *ar;
        let id = ar.record(f.id, EditStep::Diag);
        proof {
            lemma_counts_push(pf, EditStep::Diag);
            lemma_path_valid_push(pf, a@, b@, sw, EditStep::Diag);
            assert(diag_run(y as int - c.y).push(EditStep::Diag) =~= diag_run(
                y as int + 1 - c.y,
            ));
            assert((start_path + diag_run(y as int - c.y)).push(EditStep::Diag) =~= start_path
                + diag_run(y as int + 1 - c.y));
        }
        f = FarthestPoint { reached: true, y: y + 1, id };
        y = y + 1;
        x = x + 1;
        proof {
            assert forall|q: int| 0 <= q < old(ar).size() implies ar.path(q) == old(
                ar,
            ).path(q) by {
                assert(ar.path(q) == before.path(q));
            }
        }
    }
    proof {
        if T::obeys_eq_spec() {
            assert(match_run(a@, b@, sw, x as int, y as int) == 0);
        }
    }
    f
}

} // verus!
