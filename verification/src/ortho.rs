//! In-place Gram-Schmidt orthonormalization over an arbitrary ordered family
//! of vectors, tolerant of zero and linearly dependent inputs.
//!
//! The routine is generic in the vector representation: the caller supplies
//! the four scalar-level operations (the exact zero test, the projection of
//! one vector onto the line spanned by another, the vector difference, and
//! normalization) as closures, and the algorithm itself — the scan over the
//! working window, the classical projection pass against the accepted
//! prefix, and the swap-and-count partition that moves rejects to the tail —
//! is verified here once, for every representation. The contract ties the
//! final family to the input family slot by slot: a rearrangement of the
//! input assigns each slot the one input vector it consumed, so no input
//! appears twice and none vanishes; every accepted slot is the
//! normalization of its own input's projection-pass residue, every
//! discarded slot is its input or that input's residue after it tested
//! zero, the unclassified middle is its inputs unchanged, and a run that
//! accepts nothing leaves a permutation of the input behind. For closures
//! that satisfy the exact scalar laws, `lemma_accepted_prefix_orthonormal`
//! turns this correspondence into pairwise orthogonality and unit norm of
//! the accepted prefix.

use crate::geometry::dot3;
use crate::geometry::lemma_dot_scale3;
use crate::geometry::lemma_dot_sub3;
use crate::geometry::lemma_scale3_one;
use crate::geometry::scale3;
use crate::geometry::sub3;
use crate::geometry::Vector;
use vstd::prelude::*;

verus! {

broadcast use
    vstd::seq_lib::group_to_multiset_ensures,
    vstd::seq_lib::to_multiset_update,
    vstd::multiset::group_multiset_axioms,
;

/// The ambient dimension: no more than three vectors are ever accepted.
pub open spec fn ambient_dim() -> int {
    3
}

/// One candidate's projection pass, recorded through the closures'
/// contracts: holds when `r` can be the value left of the candidate `c`
/// after subtracting, in index order, a projection of `c` onto each vector
/// of `basis` — each step a pair of results that `project` and `diff`
/// admit. With closures that satisfy the exact scalar laws this is the
/// classical Gram-Schmidt residue `c - sum_j project(c, basis[j])`; see
/// `lemma_residue_orthogonal_to_basis`.
pub open spec fn residue_after<T, FP: Fn(T, T) -> T, FS: Fn(T, T) -> T>(
    project: &FP,
    diff: &FS,
    c: T,
    basis: Seq<T>,
    r: T,
) -> bool
    decreases basis.len(),
{
    if basis.len() == 0 {
        r == c
    } else {
        exists|r_prev: T, p: T|
            residue_after(project, diff, c, basis.drop_last(), r_prev) && call_ensures(
                project,
                (c, basis.last()),
                p,
            ) && #[trigger] call_ensures(diff, (r_prev, p), r)
    }
}

/// An accepted slot consumed the input vector `c`: `c` tested nonzero on
/// arrival, its projection-pass residue against the accepted prefix before
/// the slot tested nonzero too, and the slot holds that residue
/// normalized.
pub open spec fn accepted_slot<
    T,
    FZ: Fn(T) -> bool,
    FP: Fn(T, T) -> T,
    FS: Fn(T, T) -> T,
    FN: Fn(T) -> T,
>(
    is_zero: &FZ,
    project: &FP,
    diff: &FS,
    unit: &FN,
    c: T,
    basis: Seq<T>,
    t: T,
) -> bool {
    call_ensures(is_zero, (c,), false) && exists|r: T|
        #[trigger] residue_after(project, diff, c, basis, r) && call_ensures(is_zero, (r,), false)
            && call_ensures(unit, (r,), t)
}

/// A discarded slot consumed the input vector `c`: either `c` itself
/// tested zero on arrival and the slot holds it unchanged, or `c` tested
/// nonzero and the slot holds a projection-pass residue of `c` — against
/// the prefix of the accepted basis that stood at rejection time — that
/// tested zero.
pub open spec fn discarded_slot<T, FZ: Fn(T) -> bool, FP: Fn(T, T) -> T, FS: Fn(T, T) -> T>(
    is_zero: &FZ,
    project: &FP,
    diff: &FS,
    c: T,
    basis: Seq<T>,
    t: T,
) -> bool {
    ||| (t == c && call_ensures(is_zero, (t,), true))
    ||| (call_ensures(is_zero, (c,), false) && exists|m: int|
        0 <= m <= basis.len() && #[trigger] residue_after(project, diff, c, basis.subrange(0, m), t)
            && call_ensures(is_zero, (t,), true))
}

/// The slot-by-slot correspondence between a run's input and output: some
/// rearrangement `src` of the input family assigns each output slot the
/// one input vector it consumed. Accepted slots hold their input's
/// normalized residue, the unclassified middle holds its inputs unchanged,
/// and discarded slots hold their input, or its residue, after it tested
/// zero. Because `src` is a permutation of the input, no input is consumed
/// twice and none is dropped.
pub open spec fn corresponds<
    T,
    FZ: Fn(T) -> bool,
    FP: Fn(T, T) -> T,
    FS: Fn(T, T) -> T,
    FN: Fn(T) -> T,
>(
    is_zero: &FZ,
    project: &FP,
    diff: &FS,
    unit: &FN,
    src: Seq<T>,
    inputs: Seq<T>,
    out: Seq<T>,
    chosen: int,
    discarded: int,
) -> bool {
    &&& src.len() == out.len()
    &&& src.to_multiset() == inputs.to_multiset()
    &&& 0 <= chosen
    &&& 0 <= discarded
    &&& chosen + discarded <= out.len()
    &&& forall|k: int|
        0 <= k < chosen ==> accepted_slot(
            is_zero,
            project,
            diff,
            unit,
            src[k],
            out.subrange(0, k),
            #[trigger] out[k],
        )
    &&& forall|k: int| chosen <= k < out.len() - discarded ==> #[trigger] out[k] == src[k]
    &&& forall|k: int|
        out.len() - discarded <= k < out.len() ==> discarded_slot(
            is_zero,
            project,
            diff,
            src[k],
            out.subrange(0, chosen),
            #[trigger] out[k],
        )
}

/// The denominator-free projection law: any result of `project(v, b)` is
/// the exact orthogonal projection of `v` onto `b`, stated without the
/// rational quotient: `dot(b, b) * p == dot(v, b) * b`.
pub open spec fn projection_exact<FP: Fn(Vector, Vector) -> Vector>(project: &FP) -> bool {
    forall|v: Vector, b: Vector, p: Vector|
        #[trigger] call_ensures(project, (v, b), p) ==> scale3(dot3(b@, b@), p@) == scale3(
            dot3(v@, b@),
            b@,
        )
}

/// Any result of `diff(v, p)` is the exact component-wise difference.
pub open spec fn difference_exact<FS: Fn(Vector, Vector) -> Vector>(diff: &FS) -> bool {
    forall|v: Vector, p: Vector, r: Vector|
        #[trigger] call_ensures(diff, (v, p), r) ==> r@ == sub3(v@, p@)
}

/// Any result of `unit(v)` is a unit vector collinear with `v`: some pair
/// of nonzero integer scalars witnesses that the two point along one line.
pub open spec fn normalization_exact<FN: Fn(Vector) -> Vector>(unit: &FN) -> bool {
    forall|v: Vector, u: Vector|
        #[trigger] call_ensures(unit, (v,), u) ==> dot3(u@, u@) == 1 && (exists|s: int, t: int|
            #![trigger scale3(s, u@), scale3(t, v@)]
            s != 0 && t != 0 && scale3(s, u@) == scale3(t, v@))
}

/// With exact projection and difference closures, a projection-pass
/// residue against a pairwise-orthogonal, unit-norm basis is orthogonal to
/// every basis vector; and against anything orthogonal to the whole basis,
/// its inner product agrees with the candidate's.
pub proof fn lemma_residue_orthogonal_to_basis<FP: Fn(Vector, Vector) -> Vector, FS: Fn(Vector, Vector) -> Vector>(
    project: &FP,
    diff: &FS,
    c: Vector,
    basis: Seq<Vector>,
    r: Vector,
)
    requires
        projection_exact(project),
        difference_exact(diff),
        residue_after(project, diff, c, basis, r),
        forall|a: int| 0 <= a < basis.len() ==> dot3(#[trigger] basis[a]@, basis[a]@) == 1,
        forall|a: int, b2: int|
            0 <= a < basis.len() && 0 <= b2 < basis.len() && a != b2 ==> dot3(
                #[trigger] basis[a]@,
                #[trigger] basis[b2]@,
            ) == 0,
    ensures
        forall|a: int| 0 <= a < basis.len() ==> dot3(r@, #[trigger] basis[a]@) == 0,
        forall|w: (int, int, int)|
            (forall|a: int| 0 <= a < basis.len() ==> dot3(#[trigger] basis[a]@, w) == 0)
                ==> #[trigger] dot3(r@, w) == dot3(c@, w),
    decreases basis.len(),
{
    if basis.len() == 0 {
    } else {
        let bl = basis.last();
        let small = basis.drop_last();
        let (r_prev, p) = choose|r_prev: Vector, p: Vector|
            residue_after(project, diff, c, basis.drop_last(), r_prev) && call_ensures(
                project,
                (c, basis.last()),
                p,
            ) && #[trigger] call_ensures(diff, (r_prev, p), r);
        assert(forall|a: int| 0 <= a < small.len() ==> #[trigger] small[a] == basis[a]);
        lemma_residue_orthogonal_to_basis(project, diff, c, small, r_prev);
        let k = dot3(c@, bl@);
        assert(r@ == sub3(r_prev@, p@));
        assert(scale3(dot3(bl@, bl@), p@) == scale3(k, bl@));
        assert(dot3(bl@, bl@) == 1);
        lemma_scale3_one(p@);
        assert(p@ == scale3(k, bl@));
        // The component along the newest basis vector is cancelled: the
        // earlier residue agrees with the candidate there, and the
        // subtracted projection carries exactly that amount.
        assert(forall|a: int| 0 <= a < small.len() ==> dot3(#[trigger] small[a]@, bl@) == 0);
        assert(dot3(r_prev@, bl@) == dot3(c@, bl@));
        lemma_dot_sub3(r_prev@, p@, bl@);
        lemma_dot_scale3(k, bl@, bl@);
        assert(k * 1 == k) by (nonlinear_arith);
        assert(dot3(r@, bl@) == 0);
        assert forall|a: int| 0 <= a < basis.len() implies dot3(r@, #[trigger] basis[a]@) == 0 by {
            if a < basis.len() - 1 {
                assert(small[a] == basis[a]);
                assert(dot3(r_prev@, basis[a]@) == 0);
                lemma_dot_sub3(r_prev@, p@, basis[a]@);
                lemma_dot_scale3(k, bl@, basis[a]@);
                assert(dot3(bl@, basis[a]@) == 0);
                assert(k * 0 == 0) by (nonlinear_arith);
            } else {
                assert(basis[a] == bl);
            }
        }
        assert forall|w: (int, int, int)|
            (forall|a: int| 0 <= a < basis.len() ==> dot3(#[trigger] basis[a]@, w) == 0) implies #[trigger] dot3(
            r@,
            w,
        ) == dot3(c@, w) by {
            assert(forall|a: int| 0 <= a < small.len() ==> dot3(#[trigger] small[a]@, w) == 0);
            assert(dot3(r_prev@, w) == dot3(c@, w));
            lemma_dot_sub3(r_prev@, p@, w);
            lemma_dot_scale3(k, bl@, w);
            assert(dot3(bl@, w) == 0);
            assert(k * 0 == 0) by (nonlinear_arith);
        }
    }
}

/// The bridging theorem from the driver's correspondence to the geometry:
/// when the closures satisfy the exact scalar laws, the accepted prefix
/// that `orthonormalize` reports — each slot an `accepted_slot` against
/// the prefix before it, as the `corresponds` clause states — is pairwise
/// orthogonal and unit-norm over the exact coordinate model.
pub proof fn lemma_accepted_prefix_orthonormal<FZ, FP, FS, FN>(
    is_zero: &FZ,
    project: &FP,
    diff: &FS,
    unit: &FN,
    src: Seq<Vector>,
    out: Seq<Vector>,
    chosen: int,
) where
    FZ: Fn(Vector) -> bool,
    FP: Fn(Vector, Vector) -> Vector,
    FS: Fn(Vector, Vector) -> Vector,
    FN: Fn(Vector) -> Vector,

    requires
        projection_exact(project),
        difference_exact(diff),
        normalization_exact(unit),
        0 <= chosen <= out.len(),
        chosen <= src.len(),
        forall|k: int|
            0 <= k < chosen ==> accepted_slot(
                is_zero,
                project,
                diff,
                unit,
                src[k],
                out.subrange(0, k),
                #[trigger] out[k],
            ),
    ensures
        forall|a: int| 0 <= a < chosen ==> dot3(#[trigger] out[a]@, out[a]@) == 1,
        forall|a: int, b2: int|
            0 <= a < chosen && 0 <= b2 < chosen && a != b2 ==> dot3(
                #[trigger] out[a]@,
                #[trigger] out[b2]@,
            ) == 0,
    decreases chosen,
{
    if chosen > 0 {
        lemma_accepted_prefix_orthonormal(is_zero, project, diff, unit, src, out, chosen - 1);
        let j = chosen - 1;
        let basis = out.subrange(0, j);
        assert(forall|a: int| 0 <= a < basis.len() ==> #[trigger] basis[a] == out[a]);
        let r = choose|r: Vector|
            #[trigger] residue_after(project, diff, src[j], basis, r) && call_ensures(
                is_zero,
                (r,),
                false,
            ) && call_ensures(unit, (r,), out[j]);
        lemma_residue_orthogonal_to_basis(project, diff, src[j], basis, r);
        assert(dot3(out[j]@, out[j]@) == 1);
        let (s, t) = choose|s: int, t: int|
            #![trigger scale3(s, out[j]@), scale3(t, r@)]
            s != 0 && t != 0 && scale3(s, out[j]@) == scale3(t, r@);
        assert forall|a: int| 0 <= a < j implies dot3(out[j]@, #[trigger] out[a]@) == 0 by {
            assert(basis[a] == out[a]);
            assert(dot3(r@, out[a]@) == 0);
            lemma_dot_scale3(s, out[j]@, out[a]@);
            lemma_dot_scale3(t, r@, out[a]@);
            assert(s * dot3(out[j]@, out[a]@) == t * dot3(r@, out[a]@));
            assert(t * 0 == 0) by (nonlinear_arith);
            assert(dot3(out[j]@, out[a]@) == 0) by (nonlinear_arith)
                requires
                    s != 0,
                    s * dot3(out[j]@, out[a]@) == 0,
            ;
        }
        assert forall|a: int, b2: int|
            0 <= a < chosen && 0 <= b2 < chosen && a != b2 implies dot3(
            #[trigger] out[a]@,
            #[trigger] out[b2]@,
        ) == 0 by {
            if a == j {
                assert(dot3(out[j]@, out[b2]@) == 0);
            } else if b2 == j {
                crate::geometry::lemma_dot_symmetric(out[a]@, out[j]@);
            }
        }
    }
}

/// Exchanging two positions of a sequence leaves its multiset of elements
/// unchanged.
pub proof fn lemma_swap_preserves_multiset<T>(s: Seq<T>, i: int, j: int)
    requires
        0 <= i < s.len(),
        0 <= j < s.len(),
    ensures
        s.update(i, s[j]).update(j, s[i]).to_multiset() == s.to_multiset(),
{
    let t1 = s.update(i, s[j]);
    let t2 = t1.update(j, s[i]);
    if i == j {
        assert(t2 =~= s);
    } else {
        assert(s.contains(s[i]));
        assert(s.contains(s[j]));
        assert(t1[j] == s[j]);
        assert(t1.to_multiset() == s.to_multiset().insert(s[j]).remove(s[i]));
        assert(t2.to_multiset() == t1.to_multiset().insert(s[i]).remove(t1[j]));
        assert(t2.to_multiset() =~= s.to_multiset());
    }
}

/// Converts the ordered family `vs`, in place, into an orthonormal prefix
/// followed by unclassified candidates (only when three vectors were
/// already accepted) and then the discarded (zero or linearly dependent)
/// vectors. Returns the pair `(chosen, discarded)`: the accepted prefix is
/// `vs[..chosen]`, the discarded tail is `vs[vs.len() - discarded..]`, and
/// unless the ambient dimension was reached first the two exhaust the
/// family.
///
/// Each candidate at the head of the working window is classified in turn:
/// a vector equal to zero is swapped to the end of the window and counted
/// as discarded; otherwise the projections of the original candidate onto
/// each accepted basis vector are subtracted in index order, and the
/// residue is either discarded the same way (it was dependent on the
/// accepted basis) or normalized in place and counted as chosen. The
/// `corresponds` postcondition records that history slot by slot against a
/// rearrangement of the input family, so each input vector is consumed by
/// exactly one slot; when nothing was discarded no rearrangement took
/// place, and the slots consume the inputs in their original order. For
/// closures that satisfy the exact scalar laws,
/// `lemma_accepted_prefix_orthonormal` derives from the correspondence
/// that the accepted prefix is pairwise orthogonal and unit-norm.
///
/// The closures are the caller's scalar arithmetic: `is_zero` is the exact
/// zero test, `project(v, b)` the projection of `v` onto `b` (the caller
/// must make it well defined for the nonzero `b` this routine passes it),
/// `diff` the vector difference, and `unit` the normalization of a
/// nonzero vector.
pub fn orthonormalize<T, FZ, FP, FS, FN>(
    vs: &mut Vec<T>,
    is_zero: &FZ,
    project: &FP,
    diff: &FS,
    unit: &FN,
) -> (r: (usize, usize)) where
    T: Copy,
    FZ: Fn(T) -> bool,
    FP: Fn(T, T) -> T,
    FS: Fn(T, T) -> T,
    FN: Fn(T) -> T,

    requires
        forall|v: T| #[trigger] is_zero.requires((v,)),
        forall|v: T, b: T| #[trigger] project.requires((v, b)),
        forall|v: T, p: T| #[trigger] diff.requires((v, p)),
        forall|v: T| #[trigger] unit.requires((v,)),
    ensures
        final(vs)@.len() == old(vs)@.len(),
        r.0 <= ambient_dim(),
        r.0 + r.1 <= final(vs)@.len(),
        r.0 < ambient_dim() ==> r.0 + r.1 == final(vs)@.len(),
        exists|src: Seq<T>|
            #[trigger] corresponds(
                is_zero,
                project,
                diff,
                unit,
                src,
                old(vs)@,
                final(vs)@,
                r.0 as int,
                r.1 as int,
            ),
        r.0 == 0 ==> final(vs)@.to_multiset() == old(vs)@.to_multiset(),
        r.1 == 0 ==> corresponds(
            is_zero,
            project,
            diff,
            unit,
            old(vs)@,
            old(vs)@,
            final(vs)@,
            r.0 as int,
            0,
        ),
{
    let n = vs.len();
    let mut chosen: usize = 0;
    let mut discarded: usize = 0;
    let ghost mut src_seq: Seq<T> = vs@;
    while chosen < 3 && chosen + discarded < n
        invariant
            vs@.len() == n,
            n == old(vs)@.len(),
            chosen + discarded <= n,
            chosen <= 3,
            forall|v: T| #[trigger] is_zero.requires((v,)),
            forall|v: T, b: T| #[trigger] project.requires((v, b)),
            forall|v: T, p: T| #[trigger] diff.requires((v, p)),
            forall|v: T| #[trigger] unit.requires((v,)),
            src_seq.len() == n,
            src_seq.to_multiset() == old(vs)@.to_multiset(),
            forall|k: int|
                0 <= k < chosen ==> accepted_slot(
                    is_zero,
                    project,
                    diff,
                    unit,
                    src_seq[k],
                    vs@.subrange(0, k),
                    #[trigger] vs@[k],
                ),
            forall|k: int| chosen <= k < n - discarded ==> #[trigger] vs@[k] == src_seq[k],
            forall|k: int|
                n - discarded <= k < n ==> discarded_slot(
                    is_zero,
                    project,
                    diff,
                    src_seq[k],
                    vs@.subrange(0, chosen as int),
                    #[trigger] vs@[k],
                ),
            chosen == 0 ==> vs@.to_multiset() == old(vs)@.to_multiset(),
            discarded == 0 ==> src_seq == old(vs)@,
        decreases vs@.len() - chosen - discarded,
    {
        let ghost basis_snap = vs@.subrange(0, chosen as int);
        let i = chosen;
        let cand = vs[i];
        if is_zero(cand) {
            // An exactly zero input: swap it behind the working window.
            let ghost prev = vs@;
            let ghost prev_src = src_seq;
            let j = n - discarded - 1;
            let tail = vs[j];
            vs[i] = tail;
            vs[j] = cand;
            discarded = discarded + 1;
            proof {
                src_seq = prev_src.update(i as int, prev_src[j as int]).update(
                    j as int,
                    prev_src[i as int],
                );
                lemma_swap_preserves_multiset(prev, i as int, j as int);
                lemma_swap_preserves_multiset(prev_src, i as int, j as int);
                assert(vs@ == prev.update(i as int, prev[j as int]).update(j as int, prev[i as int]));
                assert(vs@.subrange(0, chosen as int) =~= basis_snap);
                assert forall|k: int| 0 <= k < chosen implies accepted_slot(
                    is_zero,
                    project,
                    diff,
                    unit,
                    src_seq[k],
                    vs@.subrange(0, k),
                    #[trigger] vs@[k],
                ) by {
                    assert(vs@[k] == prev[k]);
                    assert(src_seq[k] == prev_src[k]);
                    assert(vs@.subrange(0, k) =~= prev.subrange(0, k));
                }
                assert forall|k: int| n - discarded <= k < n implies discarded_slot(
                    is_zero,
                    project,
                    diff,
                    src_seq[k],
                    vs@.subrange(0, chosen as int),
                    #[trigger] vs@[k],
                ) by {
                    if k == n - discarded {
                        assert(vs@[k] == cand);
                        assert(src_seq[k] == prev_src[i as int]);
                        assert(prev_src[i as int] == prev[i as int]);
                    } else {
                        assert(vs@[k] == prev[k]);
                        assert(src_seq[k] == prev_src[k]);
                    }
                }
            }
        } else {
            // Classical Gram-Schmidt pass: subtract from the candidate its
            // projections onto the accepted basis, each computed against
            // the original candidate.
            let mut residue = cand;
            let mut b: usize = 0;
            proof {
                assert(vs@.subrange(0, 0) =~= Seq::<T>::empty());
            }
            while b < chosen
                invariant
                    b <= chosen,
                    chosen <= vs@.len(),
                    forall|v0: T, b0: T| #[trigger] project.requires((v0, b0)),
                    forall|v0: T, p0: T| #[trigger] diff.requires((v0, p0)),
                    residue_after(project, diff, cand, vs@.subrange(0, b as int), residue),
                    b == 0 ==> residue == cand,
                decreases chosen - b,
            {
                let ghost prev_basis = vs@.subrange(0, b as int);
                let p = project(cand, vs[b]);
                residue = diff(residue, p);
                b = b + 1;
                proof {
                    let basis = vs@.subrange(0, b as int);
                    assert(basis.drop_last() =~= prev_basis);
                    assert(basis.last() == vs@[b - 1]);
                }
            }
            if is_zero(residue) {
                // The candidate was linearly dependent on the accepted
                // basis: its residue joins the discarded tail.
                let ghost prev = vs@;
                let ghost prev_src = src_seq;
                let j = n - discarded - 1;
                let tail = vs[j];
                vs[i] = tail;
                vs[j] = residue;
                discarded = discarded + 1;
                proof {
                    src_seq = prev_src.update(i as int, prev_src[j as int]).update(
                        j as int,
                        prev_src[i as int],
                    );
                    lemma_swap_preserves_multiset(prev_src, i as int, j as int);
                    assert(vs@ == prev.update(i as int, prev[j as int]).update(j as int, residue));
                    assert(vs@.subrange(0, chosen as int) =~= basis_snap);
                    if chosen == 0 {
                        assert(residue == cand);
                        assert(residue == prev[i as int]);
                        lemma_swap_preserves_multiset(prev, i as int, j as int);
                    }
                    assert forall|k: int| 0 <= k < chosen implies accepted_slot(
                        is_zero,
                        project,
                        diff,
                        unit,
                        src_seq[k],
                        vs@.subrange(0, k),
                        #[trigger] vs@[k],
                    ) by {
                        assert(vs@[k] == prev[k]);
                        assert(src_seq[k] == prev_src[k]);
                        assert(vs@.subrange(0, k) =~= prev.subrange(0, k));
                    }
                    assert(basis_snap.subrange(0, chosen as int) =~= basis_snap);
                    assert forall|k: int| n - discarded <= k < n implies discarded_slot(
                        is_zero,
                        project,
                        diff,
                        src_seq[k],
                        vs@.subrange(0, chosen as int),
                        #[trigger] vs@[k],
                    ) by {
                        if k == n - discarded {
                            assert(vs@[k] == residue);
                            assert(src_seq[k] == prev_src[i as int]);
                            assert(prev_src[i as int] == prev[i as int]);
                            assert(prev[i as int] == cand);
                            assert(residue_after(
                                project,
                                diff,
                                cand,
                                basis_snap.subrange(0, chosen as int),
                                residue,
                            ));
                        } else {
                            assert(vs@[k] == prev[k]);
                            assert(src_seq[k] == prev_src[k]);
                        }
                    }
                }
            } else {
                // An independent direction: normalize it into the prefix.
                let ghost prev = vs@;
                let u = unit(residue);
                vs[i] = u;
                chosen = chosen + 1;
                proof {
                    assert(vs@ == prev.update(i as int, u));
                    assert(vs@.subrange(0, i as int) =~= basis_snap);
                    assert forall|k: int| 0 <= k < chosen implies accepted_slot(
                        is_zero,
                        project,
                        diff,
                        unit,
                        src_seq[k],
                        vs@.subrange(0, k),
                        #[trigger] vs@[k],
                    ) by {
                        if k < chosen - 1 {
                            assert(vs@[k] == prev[k]);
                            assert(vs@.subrange(0, k) =~= prev.subrange(0, k));
                        } else {
                            assert(vs@[k] == u);
                            assert(vs@.subrange(0, k) =~= basis_snap);
                            assert(src_seq[k] == prev[i as int]);
                            assert(prev[i as int] == cand);
                            assert(residue_after(project, diff, cand, basis_snap, residue));
                        }
                    }
                    assert forall|k: int| n - discarded <= k < n implies discarded_slot(
                        is_zero,
                        project,
                        diff,
                        src_seq[k],
                        vs@.subrange(0, chosen as int),
                        #[trigger] vs@[k],
                    ) by {
                        assert(vs@[k] == prev[k]);
                        let big = vs@.subrange(0, chosen as int);
                        let small = prev.subrange(0, chosen as int - 1);
                        assert(discarded_slot(is_zero, project, diff, src_seq[k], small, prev[k]));
                        if !(prev[k] == src_seq[k] && call_ensures(is_zero, (prev[k],), true)) {
                            let m = choose|m: int|
                                0 <= m <= small.len() && #[trigger] residue_after(
                                    project,
                                    diff,
                                    src_seq[k],
                                    small.subrange(0, m),
                                    prev[k],
                                ) && call_ensures(is_zero, (prev[k],), true);
                            assert(big.subrange(0, m) =~= small.subrange(0, m));
                            assert(residue_after(
                                project,
                                diff,
                                src_seq[k],
                                big.subrange(0, m),
                                vs@[k],
                            ));
                        }
                    }
                    assert forall|k: int| chosen <= k < n - discarded implies #[trigger] vs@[k]
                        == src_seq[k] by {
                        assert(vs@[k] == prev[k]);
                    }
                }
            }
        }
    }
    proof {
        assert(corresponds(
            is_zero,
            project,
            diff,
            unit,
            src_seq,
            old(vs)@,
            vs@,
            chosen as int,
            discarded as int,
        ));
    }
    (chosen, discarded)
}

} // verus!
