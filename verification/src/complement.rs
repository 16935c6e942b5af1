//! Computation and emission of an orthogonal-complement basis.
//!
//! The complement of the span of a free family is read off a singular value
//! decomposition of the family's coordinate matrix: the right-singular
//! vectors that belong to (near-)zero singular values span the complement,
//! and they are reported in ascending singular-value order. This module
//! carries everything but the scalar arithmetic: with the singular values
//! sorted in descending order, selecting the flagged columns in descending
//! index order visits them by ascending singular value, the visitor may
//! stop the emission early, and `complement_basis` recovers the complement
//! directions themselves by Gram-Schmidt extension of the family with the
//! ambient canonical basis, through the verified orthonormalization
//! driver, for any scalar representation the caller supplies.

use crate::ortho::ambient_dim;
use crate::ortho::corresponds;
use crate::ortho::orthonormalize;
use vstd::prelude::*;

verus! {

/// How many entries of the flag sequence are set.
pub open spec fn count_flagged(s: Seq<bool>) -> int
    decreases s.len(),
{
    if s.len() == 0 {
        0
    } else {
        (if s[0] {
            1int
        } else {
            0int
        }) + count_flagged(s.drop_first())
    }
}

/// Peeling one leading flag off a suffix: the count over the suffix from
/// `i` is the flag at `i` plus the count over the suffix from `i + 1`.
proof fn lemma_count_flagged_step(s: Seq<bool>, i: int)
    requires
        0 <= i < s.len(),
    ensures
        count_flagged(s.skip(i)) == (if s[i] {
            1int
        } else {
            0int
        }) + count_flagged(s.skip(i + 1)),
{
    assert(s.skip(i).drop_first() =~= s.skip(i + 1));
    assert(s.skip(i)[0] == s[i]);
}

/// The indices of the flagged entries of `s` at or above `i`, listed in
/// descending order: the emission order over the suffix that starts at `i`.
pub open spec fn flagged_desc(s: Seq<bool>, i: int) -> Seq<int>
    decreases s.len() - i,
{
    if i < 0 || i >= s.len() {
        Seq::empty()
    } else {
        flagged_desc(s, i + 1) + (if s[i] {
            seq![i]
        } else {
            Seq::empty()
        })
    }
}

/// A sequence of machine-word indices, read as unbounded integers.
pub open spec fn as_ints(s: Seq<usize>) -> Seq<int> {
    s.map_values(|u: usize| u as int)
}

/// Given, for each right-singular vector in descending singular-value
/// order, whether its singular value is (near) zero, returns the indices of
/// the flagged vectors in the order they must be emitted: by ascending
/// singular value, that is, by descending index. The result lists exactly
/// the flagged indices.
pub fn emission_order(near_zero: &Vec<bool>) -> (order: Vec<usize>)
    ensures
        as_ints(order@) == flagged_desc(near_zero@, 0),
        order@.len() == count_flagged(near_zero@),
        forall|a: int, b: int| 0 <= a < b < order@.len() ==> order@[a] > order@[b],
        forall|j: int|
            0 <= j < order@.len() ==> order@[j] < near_zero@.len()
                && near_zero@[#[trigger] order@[j] as int],
        forall|k: int|
            0 <= k < near_zero@.len() && near_zero@[k] ==> exists|j: int|
                0 <= j < order@.len() && #[trigger] order@[j] == k,
{
    let n = near_zero.len();
    let mut order: Vec<usize> = Vec::new();
    let mut i = n;
    proof {
        assert(as_ints(order@) =~= flagged_desc(near_zero@, n as int));
    }
    while i > 0
        invariant
            i <= n,
            n == near_zero@.len(),
            as_ints(order@) == flagged_desc(near_zero@, i as int),
            order@.len() == count_flagged(near_zero@.skip(i as int)),
            forall|a: int, b: int| 0 <= a < b < order@.len() ==> order@[a] > order@[b],
            forall|j: int|
                0 <= j < order@.len() ==> i <= order@[j] < n
                    && near_zero@[#[trigger] order@[j] as int],
            forall|k: int|
                i <= k < n && near_zero@[k] ==> exists|j: int|
                    0 <= j < order@.len() && #[trigger] order@[j] == k,
        decreases i,
    {
        i = i - 1;
        proof {
            lemma_count_flagged_step(near_zero@, i as int);
        }
        if near_zero[i] {
            let ghost prev = order@;
            order.push(i);
            proof {
                assert(order@ == prev.push(i));
                assert(as_ints(order@) =~= as_ints(prev) + seq![i as int]);
                assert(flagged_desc(near_zero@, i as int) == flagged_desc(near_zero@, i as int + 1)
                    + seq![i as int]);
                assert forall|k: int| i <= k < n && near_zero@[k] implies exists|j: int|
                    0 <= j < order@.len() && #[trigger] order@[j] == k by {
                    if k == i {
                        assert(order@[prev.len() as int] == k);
                    } else {
                        let j0 = choose|j: int| 0 <= j < prev.len() && #[trigger] prev[j] == k;
                        assert(order@[j0] == k);
                    }
                }
            }
        } else {
            proof {
                assert(flagged_desc(near_zero@, i as int) =~= flagged_desc(near_zero@, i as int + 1));
            }
        }
    }
    proof {
        assert(near_zero@.skip(0) =~= near_zero@);
    }
    order
}

/// Applies `visitor` to the selected items in the given order, stopping
/// after the first application that returns `false`. Returns how many items
/// were visited: every visited item before the last returned `true`, the
/// last visited item was really passed to the visitor, and if the emission
/// stopped before the end of the order, that last item returned `false`.
pub fn emit_basis<T, F>(items: &Vec<T>, order: &Vec<usize>, visitor: &F) -> (visited: usize) where
    T: Copy,
    F: Fn(T) -> bool,

    requires
        forall|j: int| 0 <= j < order@.len() ==> #[trigger] order@[j] < items@.len(),
        forall|v: T| #[trigger] visitor.requires((v,)),
    ensures
        visited <= order@.len(),
        forall|j: int|
            0 <= j < visited - 1 ==> call_ensures(
                visitor,
                (items@[#[trigger] order@[j] as int],),
                true,
            ),
        visited < order@.len() ==> visited >= 1 && call_ensures(
            visitor,
            (items@[order@[visited - 1] as int],),
            false,
        ),
        visited >= 1 ==> exists|res: bool|
            #[trigger] call_ensures(visitor, (items@[order@[visited - 1] as int],), res),
{
    let mut j: usize = 0;
    while j < order.len()
        invariant
            j <= order@.len(),
            forall|jj: int| 0 <= jj < order@.len() ==> #[trigger] order@[jj] < items@.len(),
            forall|v: T| #[trigger] visitor.requires((v,)),
            forall|jj: int|
                0 <= jj < j ==> call_ensures(visitor, (items@[#[trigger] order@[jj] as int],), true),
            j >= 1 ==> exists|res: bool|
                #[trigger] call_ensures(visitor, (items@[order@[j - 1] as int],), res),
        decreases order@.len() - j,
    {
        let idx = order[j];
        let keep_going = visitor(items[idx]);
        if !keep_going {
            proof {
                assert(call_ensures(visitor, (items@[order@[j as int] as int],), false));
            }
            return j + 1;
        }
        j = j + 1;
        proof {
            assert(call_ensures(visitor, (items@[order@[j - 1] as int],), true));
        }
    }
    j
}

/// The larger of two integers.
pub open spec fn max2(a: int, b: int) -> int {
    if a >= b {
        a
    } else {
        b
    }
}

/// The indices from `hi - 1` down to `lo`, in descending order; empty when
/// `lo >= hi`.
pub open spec fn descending_range(hi: int, lo: int) -> Seq<int> {
    Seq::new(
        if hi >= lo {
            (hi - lo) as nat
        } else {
            0
        },
        |j: int| hi - 1 - j,
    )
}

/// For a flag sequence that is set exactly from `held` on, the emission
/// order over the suffix from `i` is the descending run of indices from
/// the top down to `held` (or to `i`, if the suffix starts above it).
proof fn lemma_flagged_desc_shape(flags: Seq<bool>, held: int, i: int)
    requires
        0 <= held,
        0 <= i <= flags.len(),
        forall|k: int| 0 <= k < flags.len() ==> ((#[trigger] flags[k]) <==> k >= held),
    ensures
        flagged_desc(flags, i) =~= descending_range(flags.len() as int, max2(i, held)),
    decreases flags.len() - i,
{
    let n = flags.len() as int;
    if i < n {
        lemma_flagged_desc_shape(flags, held, i + 1);
        if flags[i] {
            assert(flagged_desc(flags, i) =~= descending_range(n, max2(i + 1, held)) + seq![i]);
        } else {
            assert(flagged_desc(flags, i) =~= flagged_desc(flags, i + 1));
        }
    }
}

/// The emission order over the suffix from `i` has exactly one entry per
/// set flag of that suffix.
proof fn lemma_flagged_desc_len(flags: Seq<bool>, i: int)
    requires
        0 <= i <= flags.len(),
    ensures
        flagged_desc(flags, i).len() == count_flagged(flags.skip(i)),
    decreases flags.len() - i,
{
    if i < flags.len() {
        lemma_flagged_desc_len(flags, i + 1);
        lemma_count_flagged_step(flags, i);
    } else {
        assert(flags.skip(i) =~= Seq::<bool>::empty());
    }
}

/// Applies `visitor` to each element of the orthonormal basis of the
/// orthogonal complement, with early exit. `columns` holds the
/// right-singular vectors of the family's coordinate matrix in descending
/// singular-value order, and `near_zero` marks the ones whose singular
/// value vanishes: exactly those span the complement, and they are visited
/// by ascending singular value until the visitor returns `false`. Returns
/// how many were visited.
pub fn orthonormal_subspace_basis<T, F>(
    columns: &Vec<T>,
    near_zero: &Vec<bool>,
    visitor: &F,
) -> (visited: usize) where
    T: Copy,
    F: Fn(T) -> bool,

    requires
        columns@.len() == near_zero@.len(),
        forall|v: T| #[trigger] visitor.requires((v,)),
    ensures
        visited <= count_flagged(near_zero@),
        forall|j: int|
            0 <= j < visited - 1 ==> call_ensures(
                visitor,
                (columns@[flagged_desc(near_zero@, 0)[j]],),
                true,
            ),
        visited < count_flagged(near_zero@) ==> visited >= 1 && call_ensures(
            visitor,
            (columns@[flagged_desc(near_zero@, 0)[visited - 1]],),
            false,
        ),
        visited >= 1 ==> exists|res: bool|
            #[trigger] call_ensures(visitor, (columns@[flagged_desc(near_zero@, 0)[visited - 1]],), res),
{
    let order = emission_order(near_zero);
    let visited = emit_basis(columns, &order, visitor);
    proof {
        assert forall|j: int| 0 <= j < order@.len() implies #[trigger] order@[j] as int
            == flagged_desc(near_zero@, 0)[j] by {
            assert(as_ints(order@)[j] == order@[j] as int);
        }
    }
    visited
}

/// How many accepted slots the family itself accounts for when it is
/// free: its size, capped by the ambient dimension.
pub open spec fn family_cap(n: int) -> int {
    if n < ambient_dim() {
        n
    } else {
        ambient_dim()
    }
}

/// Computes and emits an orthonormal basis of the orthogonal complement of
/// the span of the free family `family`, visiting each basis vector until
/// `visitor` returns `false`, and returns how many were visited.
///
/// The family is extended by the `ambient` vectors (the caller supplies
/// the ambient space's canonical basis), the extension is orthonormalized
/// in place, and the accepted vectors past the family's own count — for a
/// free family, the first accepted slots account exactly for its span —
/// are emitted back to front: they belong to the vanishing singular
/// values of the family's coordinate matrix, so this is ascending
/// singular-value order. The postcondition exposes the run's
/// `corresponds` witness over the extended family together with the
/// visit order, so for closures that satisfy the exact scalar laws the
/// emitted vectors are provably orthonormal and orthogonal to the
/// accepted span of the family (`lemma_accepted_prefix_orthonormal`). If
/// the family is not free, the result is well defined but carries no
/// complement meaning.
pub fn complement_basis<T, FZ, FP, FS, FN, FV>(
    family: &Vec<T>,
    ambient: &Vec<T>,
    is_zero: &FZ,
    project: &FP,
    diff: &FS,
    unit: &FN,
    visitor: &FV,
) -> (visited: usize) where
    T: Copy,
    FZ: Fn(T) -> bool,
    FP: Fn(T, T) -> T,
    FS: Fn(T, T) -> T,
    FN: Fn(T) -> T,
    FV: Fn(T) -> bool,

    requires
        forall|v: T| #[trigger] is_zero.requires((v,)),
        forall|v: T, b: T| #[trigger] project.requires((v, b)),
        forall|v: T, p: T| #[trigger] diff.requires((v, p)),
        forall|v: T| #[trigger] unit.requires((v,)),
        forall|v: T| #[trigger] visitor.requires((v,)),
    ensures
        exists|src: Seq<T>, out: Seq<T>, chosen: int, d: int|
            #[trigger] corresponds(
                is_zero,
                project,
                diff,
                unit,
                src,
                family@ + ambient@,
                out,
                chosen,
                d,
            ) && chosen <= ambient_dim() && visited <= descending_range(
                chosen,
                family_cap(family@.len() as int),
            ).len() && (forall|k: int|
                chosen - visited < k < chosen ==> call_ensures(visitor, (#[trigger] out[k],), true))
                && (
            visited < descending_range(chosen, family_cap(family@.len() as int)).len()
                ==> visited >= 1 && call_ensures(visitor, (out[chosen - visited],), false)) && (
            visited >= 1 ==> exists|res: bool|
                #[trigger] call_ensures(visitor, (out[chosen - visited],), res)),
{
    let held: usize = if family.len() < 3 {
        family.len()
    } else {
        3
    };
    let mut work: Vec<T> = Vec::new();
    let mut idx: usize = 0;
    while idx < family.len()
        invariant
            idx <= family@.len(),
            work@ == family@.subrange(0, idx as int),
        decreases family@.len() - idx,
    {
        work.push(family[idx]);
        idx = idx + 1;
        proof {
            assert(work@ =~= family@.subrange(0, idx as int));
        }
    }
    proof {
        assert(family@.subrange(0, family@.len() as int) =~= family@);
    }
    let mut idx2: usize = 0;
    while idx2 < ambient.len()
        invariant
            idx2 <= ambient@.len(),
            work@ == family@ + ambient@.subrange(0, idx2 as int),
            forall|v: T| #[trigger] is_zero.requires((v,)),
            forall|v: T, b: T| #[trigger] project.requires((v, b)),
            forall|v: T, p: T| #[trigger] diff.requires((v, p)),
            forall|v: T| #[trigger] unit.requires((v,)),
            forall|v: T| #[trigger] visitor.requires((v,)),
        decreases ambient@.len() - idx2,
    {
        work.push(ambient[idx2]);
        idx2 = idx2 + 1;
        proof {
            assert(work@ =~= family@ + ambient@.subrange(0, idx2 as int));
        }
    }
    proof {
        assert(family@ + ambient@.subrange(0, ambient@.len() as int) =~= family@ + ambient@);
    }
    let ghost inputs = family@ + ambient@;
    let pair = orthonormalize(&mut work, is_zero, project, diff, unit);
    let chosen = pair.0;
    let ghost d = pair.1;
    let ghost out_full = work@;
    let ghost src0 = choose|src: Seq<T>|
        #[trigger] corresponds(
            is_zero,
            project,
            diff,
            unit,
            src,
            inputs,
            out_full,
            chosen as int,
            d as int,
        );
    work.truncate(chosen);
    let mut near_zero: Vec<bool> = Vec::new();
    let mut k: usize = 0;
    while k < chosen
        invariant
            k <= chosen,
            near_zero@.len() == k,
            forall|q: int| 0 <= q < k ==> ((#[trigger] near_zero@[q]) <==> q >= held as int),
            forall|v: T| #[trigger] visitor.requires((v,)),
        decreases chosen - k,
    {
        near_zero.push(k >= held);
        k = k + 1;
    }
    let visited = orthonormal_subspace_basis(&work, &near_zero, visitor);
    proof {
        lemma_flagged_desc_shape(near_zero@, held as int, 0);
        lemma_flagged_desc_len(near_zero@, 0);
        assert(near_zero@.skip(0) =~= near_zero@);
        assert(flagged_desc(near_zero@, 0) =~= descending_range(chosen as int, held as int));
        assert(held as int == family_cap(family@.len() as int));
        let cnt = descending_range(chosen as int, family_cap(family@.len() as int)).len();
        assert(count_flagged(near_zero@) == cnt as int);
        assert forall|k: int|
            chosen - visited < k < chosen implies call_ensures(
            visitor,
            (#[trigger] out_full[k],),
            true,
        ) by {
            let j = chosen - 1 - k;
            assert(0 <= j < visited - 1);
            assert(flagged_desc(near_zero@, 0)[j] == k);
            assert(work@[k] == out_full[k]);
        }
        if visited < cnt {
            assert(flagged_desc(near_zero@, 0)[visited - 1] == chosen - visited);
            assert(work@[chosen - visited as int] == out_full[chosen - visited as int]);
            assert(call_ensures(visitor, (out_full[chosen - visited as int],), false));
        }
        if visited >= 1 {
            assert(flagged_desc(near_zero@, 0)[visited - 1] == chosen - visited);
            let res = choose|res: bool|
                #[trigger] call_ensures(
                    visitor,
                    (work@[flagged_desc(near_zero@, 0)[visited - 1]],),
                    res,
                );
            assert(work@[chosen - visited as int] == out_full[chosen - visited as int]);
            assert(call_ensures(visitor, (out_full[chosen - visited as int],), res));
        }
        assert(corresponds(
            is_zero,
            project,
            diff,
            unit,
            src0,
            family@ + ambient@,
            out_full,
            chosen as int,
            d as int,
        ));
    }
    visited
}

} // verus!
