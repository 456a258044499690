//! Backtrace: from the terminal farthest point to the edit script.
//!
//! The terminal arena path consumes all of `a` and all of `b`.  Walking the
//! parent chain visits its steps last to first, so every visited step is
//! emitted at the front of the result: a `Slide` becomes the removal or
//! (when the sides are swapped) the insertion of an element of `a`, a `Down`
//! the converse for an element of `b`, and a `Diag` a `Common` entry.  The
//! emitted indices are positions in the original, untrimmed sequences, which
//! the `prefix` offset and the two ghost copies of those sequences supply.

use vstd::prelude::*;

use crate::arena::EditStep;
use crate::arena::RouteArena;
use crate::script::entry_valid;
use crate::script::script_between;
use crate::search::count_a;
use crate::search::count_b;
use crate::search::lemma_counts_push;
use crate::search::lemma_path_valid_take;
use crate::search::path_valid;
use crate::search::FarthestPoint;
use crate::DiffElement;
use crate::DiffResult;

verus! {

/// How one arena step appears in the emitted script: a `Slide` consumed an
/// element of `a` — a removal, or an insertion when the sides are swapped;
/// a `Down` consumed an element of `b` — the converse; a `Diag` is a kept
/// pair, `Common` either way.
pub(crate) open spec fn emits_as<T>(s: EditStep, d: DiffResult<T>, sw: bool) -> bool {
    match s {
        EditStep::Slide => if sw {
            d is Added
        } else {
            d is Removed
        },
        EditStep::Down => if sw {
            d is Removed
        } else {
            d is Added
        },
        EditStep::Diag => d is Common,
        EditStep::Origin => false,
    }
}

/// Walk the arena back from the terminal farthest point and emit the edit
/// script for the trimmed region, in forward order, with indices into the
/// original sequences.  The script mirrors the arena path step for step:
/// entry `idx` of the result renders step `idx` of the path, with the kind
/// mapping of `emits_as`; together with `script_between`, which pins the
/// indices and data of every entry given its kind, this is the whole
/// emission rule, the swapped orientation included.
pub(crate) fn back_trace<T: PartialEq + Clone>(
    a: &[T],
    b: &[T],
    current: &FarthestPoint,
    sw: bool,
    ar: &RouteArena,
    prefix: usize,
    gold: Ghost<Seq<T>>,
    gnew: Ghost<Seq<T>>,
) -> (r: Vec<DiffResult<T>>)
    requires
        ar.wf(),
        current.reached,
        (current.id as int) < ar.size(),
        path_valid(ar.path(current.id as int), a@, b@, sw),
        count_a(ar.path(current.id as int)) == a@.len() as int,
        count_b(ar.path(current.id as int)) == b@.len() as int,
        prefix as int + a@.len() as int <= usize::MAX as int,
        prefix as int + b@.len() as int <= usize::MAX as int,
        if sw {
            &&& prefix as int + a@.len() as int <= gnew@.len() as int
            &&& prefix as int + b@.len() as int <= gold@.len() as int
            &&& a@ == gnew@.subrange(prefix as int, prefix as int + a@.len() as int)
            &&& b@ == gold@.subrange(prefix as int, prefix as int + b@.len() as int)
        } else {
            &&& prefix as int + a@.len() as int <= gold@.len() as int
            &&& prefix as int + b@.len() as int <= gnew@.len() as int
            &&& a@ == gold@.subrange(prefix as int, prefix as int + a@.len() as int)
            &&& b@ == gnew@.subrange(prefix as int, prefix as int + b@.len() as int)
        },
    ensures
        script_between(
            r@,
            gold@,
            gnew@,
            prefix as int,
            prefix as int,
            prefix as int + (if sw {
                b@.len() as int
            } else {
                a@.len() as int
            }),
            prefix as int + (if sw {
                a@.len() as int
            } else {
                b@.len() as int
            }),
        ),
        r@.len() == ar.path(current.id as int).len(),
        forall|idx: int|
            0 <= idx < r@.len() ==> emits_as(
                ar.path(current.id as int)[idx],
                #[trigger] r@[idx],
                sw,
            ),
{
    let ghost q0 = ar.path(current.id as int);
    let ghost i_hi = prefix as int + (if sw {
        b@.len() as int
    } else {
        a@.len() as int
    });
    let ghost j_hi = prefix as int + (if sw {
        a@.len() as int
    } else {
        b@.len() as int
    });
    let mut result: Vec<DiffResult<T>> = Vec::new();
    let mut id = current.id;
    let mut av = a.len();
    let mut bv = b.len();
    let ghost mut t: int = q0.len() as int;
    proof {
        assert(q0.take(t) =~= q0);
    }
    while id != 0
        invariant
            ar.wf(),
            (id as int) < ar.size(),
            0 <= t <= q0.len(),
            ar.path(id as int) == q0.take(t),
            path_valid(q0, a@, b@, sw),
            av as int == count_a(q0.take(t)),
            bv as int == count_b(q0.take(t)),
            av <= a@.len(),
            bv <= b@.len(),
            id == 0 ==> t == 0,
            prefix as int + a@.len() as int <= usize::MAX as int,
            prefix as int + b@.len() as int <= usize::MAX as int,
            if sw {
                &&& prefix as int + a@.len() as int <= gnew@.len() as int
                &&& prefix as int + b@.len() as int <= gold@.len() as int
                &&& a@ == gnew@.subrange(prefix as int, prefix as int + a@.len() as int)
                &&& b@ == gold@.subrange(prefix as int, prefix as int + b@.len() as int)
            } else {
                &&& prefix as int + a@.len() as int <= gold@.len() as int
                &&& prefix as int + b@.len() as int <= gnew@.len() as int
                &&& a@ == gold@.subrange(prefix as int, prefix as int + a@.len() as int)
                &&& b@ == gnew@.subrange(prefix as int, prefix as int + b@.len() as int)
            },
            i_hi == prefix as int + (if sw {
                b@.len() as int
            } else {
                a@.len() as int
            }),
            j_hi == prefix as int + (if sw {
                a@.len() as int
            } else {
                b@.len() as int
            }),
            script_between(
                result@,
                gold@,
                gnew@,
                prefix as int + (if sw {
                    bv as int
                } else {
                    av as int
                }),
                prefix as int + (if sw {
                    av as int
                } else {
                    bv as int
                }),
                i_hi,
                j_hi,
            ),
            result@.len() == q0.len() - t,
            forall|idx: int|
                0 <= idx < result@.len() ==> emits_as(q0[t + idx], #[trigger] result@[idx], sw),
        decreases id,
    {
        let kind = ar.kinds[id];
        let pid = ar.parents[id];
        proof {
            assert((ar.parents@[id as int] as int) < id as int);
            assert(ar.path(id as int) == ar.path(pid as int).push(ar.kinds@[id as int]));
            assert(q0.take(t).len() == ar.path(id as int).len());
            assert(t >= 1);
            assert(q0.take(t).drop_last() =~= q0.take(t - 1));
            assert(ar.path(pid as int) == q0.take(t - 1));
            assert(q0.take(t).last() == kind);
            assert(q0[t - 1] == kind);
            lemma_path_valid_take(q0, a@, b@, sw, t);
            lemma_counts_push(q0.take(t - 1), kind);
            assert(path_valid(q0.take(t - 1), a@, b@, sw));
            crate::search::lemma_counts_in_grid(q0.take(t - 1), a@, b@, sw);
        }
        let ghost prev = result@;
        match kind {
            EditStep::Slide => {
                av = av - 1;
                let e = if sw {
                    DiffResult::Added(
                        DiffElement { old_index: None, new_index: Some(prefix + av), data: a[av].clone() },
                    )
                } else {
                    DiffResult::Removed(
                        DiffElement { old_index: Some(prefix + av), new_index: None, data: a[av].clone() },
                    )
                };
                result.insert(0, e);
                proof {
                    if sw {
                        assert(gnew@[prefix as int + av as int] == a@[av as int]);
                    } else {
                        assert(gold@[prefix as int + av as int] == a@[av as int]);
                    }
                    assert(result@[0] == e);
                    assert(result@.drop_first() =~= prev);
                }
            },
            EditStep::Down => {
                bv = bv - 1;
                let e = if sw {
                    DiffResult::Removed(
                        DiffElement { old_index: Some(prefix + bv), new_index: None, data: b[bv].clone() },
                    )
                } else {
                    DiffResult::Added(
                        DiffElement { old_index: None, new_index: Some(prefix + bv), data: b[bv].clone() },
                    )
                };
                result.insert(0, e);
                proof {
                    if sw {
                        assert(gold@[prefix as int + bv as int] == b@[bv as int]);
                    } else {
                        assert(gnew@[prefix as int + bv as int] == b@[bv as int]);
                    }
                    assert(result@[0] == e);
                    assert(result@.drop_first() =~= prev);
                }
            },
            EditStep::Diag => {
                av = av - 1;
                bv = bv - 1;
                let e = if sw {
                    DiffResult::Common(
                        DiffElement {
                            old_index: Some(prefix + bv),
                            new_index: Some(prefix + av),
                            data: b[bv].clone(),
                        },
                    )
                } else {
                    DiffResult::Common(
                        DiffElement {
                            old_index: Some(prefix + av),
                            new_index: Some(prefix + bv),
                            data: a[av].clone(),
                        },
                    )
                };
                result.insert(0, e);
                proof {
                    if sw {
                        assert(gold@[prefix as int + bv as int] == b@[bv as int]);
                        assert(gnew@[prefix as int + av as int] == a@[av as int]);
                    } else {
                        assert(gold@[prefix as int + av as int] == a@[av as int]);
                        assert(gnew@[prefix as int + bv as int] == b@[bv as int]);
                    }
                    assert(result@[0] == e);
                    assert(result@.drop_first() =~= prev);
                }
            },
            EditStep::Origin => {
                proof {
                    assert(false);
                }
            },
        }
        proof {
            assert forall|idx: int|
                0 <= idx < result@.len() implies emits_as(
                q0[t - 1 + idx],
                #[trigger] result@[idx],
                sw,
            ) by {
                if idx >= 1 {
                    assert(result@.drop_first() == prev);
                    assert(result@[idx] == prev[idx - 1]);
                    assert(emits_as(q0[t + (idx - 1)], prev[idx - 1], sw));
                }
            }
        }
        id = pid;
        proof {
            t = t - 1;
            if id == 0 {
                assert(ar.path(0) =~= Seq::<EditStep>::empty());
                assert(q0.take(t).len() == 0);
            }
        }
    }
    proof {
        assert(q0.take(t) =~= Seq::<EditStep>::empty());
    }
    result
}

} // verus!
