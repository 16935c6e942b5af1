use caddis::geometry::Vector;
use caddis::ortho::orthonormalize;

// The scalar arithmetic handed to the driver, on exact integer vectors. All
// the families below are chosen so that every projection coefficient and
// every norm is an exact integer, so the classical Gram-Schmidt arithmetic
// stays exact and the outcomes can be asserted exactly.

fn is_zero(v: Vector) -> bool {
    v.is_zero()
}

fn project(v: Vector, onto: Vector) -> Vector {
    onto.scale(v.dot(&onto) / onto.dot(&onto))
}

fn diff(v: Vector, p: Vector) -> Vector {
    v.sub(p)
}

fn unit(v: Vector) -> Vector {
    let norm = (v.norm_squared() as f64).sqrt() as i64;
    Vector::from_slice(&[v.x / norm, v.y / norm, v.z / norm])
}

fn e(x: i64, y: i64, z: i64) -> Vector {
    Vector::from_slice(&[x, y, z])
}

#[test]
fn test_orthonormalize_mixed_family() {
    // A duplicate direction and a zero vector are both discarded; the two
    // independent directions come out as an orthonormal pair spanning the
    // xy-plane.
    let mut vs = vec![e(1, 0, 0), e(0, 1, 0), e(2, 0, 0), e(0, 0, 0)];
    let (chosen, discarded) = orthonormalize(&mut vs, &is_zero, &project, &diff, &unit);
    assert_eq!(chosen, 2);
    assert_eq!(discarded, 2);
    assert_eq!(vs.len(), 4);
    assert_eq!(vs[0], e(1, 0, 0));
    assert_eq!(vs[1], e(0, 1, 0));
    assert_eq!(vs[0].dot(&vs[1]), 0);
    assert_eq!(vs[0].norm_squared(), 1);
    assert_eq!(vs[1].norm_squared(), 1);
    assert!(vs[2].is_zero());
    assert!(vs[3].is_zero());
}

#[test]
fn test_orthonormalize_standard_basis() {
    let mut vs = vec![e(1, 0, 0), e(0, 1, 0), e(0, 0, 1)];
    let (chosen, discarded) = orthonormalize(&mut vs, &is_zero, &project, &diff, &unit);
    assert_eq!(chosen, 3);
    assert_eq!(discarded, 0);
    assert_eq!(vs, vec![e(1, 0, 0), e(0, 1, 0), e(0, 0, 1)]);
}

#[test]
fn test_orthonormalize_scales_to_unit() {
    let mut vs = vec![e(2, 0, 0), e(3, 0, 0), e(5, 0, 0), e(0, 7, 0)];
    let (chosen, discarded) = orthonormalize(&mut vs, &is_zero, &project, &diff, &unit);
    assert_eq!(chosen, 2);
    assert_eq!(discarded, 2);
    assert_eq!(vs[0], e(1, 0, 0));
    assert_eq!(vs[1], e(0, 1, 0));
    assert!(vs[2].is_zero());
    assert!(vs[3].is_zero());
}

#[test]
fn test_orthonormalize_all_zero() {
    let mut vs = vec![e(0, 0, 0), e(0, 0, 0), e(0, 0, 0)];
    let (chosen, discarded) = orthonormalize(&mut vs, &is_zero, &project, &diff, &unit);
    assert_eq!(chosen, 0);
    assert_eq!(discarded, 3);
    assert!(vs.iter().all(|v| v.is_zero()));
}

#[test]
fn test_orthonormalize_empty() {
    let mut vs: Vec<Vector> = Vec::new();
    let (chosen, discarded) = orthonormalize(&mut vs, &is_zero, &project, &diff, &unit);
    assert_eq!(chosen, 0);
    assert_eq!(discarded, 0);
    assert!(vs.is_empty());
}

#[test]
fn test_orthonormalize_caps_at_ambient_dimension() {
    // Once three directions are accepted, the remaining candidates are left
    // where they stand: the span is already the whole space.
    let mut vs = vec![e(1, 0, 0), e(0, 1, 0), e(0, 0, 1), e(1, 1, 1)];
    let (chosen, discarded) = orthonormalize(&mut vs, &is_zero, &project, &diff, &unit);
    assert_eq!(chosen, 3);
    // The fourth candidate is never examined: it stays in the middle,
    // unclassified, exactly as it arrived.
    assert_eq!(discarded, 0);
    assert_eq!(vs[3], e(1, 1, 1));
}

#[test]
fn test_orthonormalize_zero_first_swapped_behind() {
    // A leading zero vector moves behind the working window, and the
    // nonzero vector behind it is still examined and accepted.
    let mut vs = vec![e(0, 0, 0), e(3, 0, 0)];
    let (chosen, discarded) = orthonormalize(&mut vs, &is_zero, &project, &diff, &unit);
    assert_eq!(chosen, 1);
    assert_eq!(discarded, 1);
    assert_eq!(vs[0], e(1, 0, 0));
    assert!(vs[1].is_zero());
}

#[test]
fn test_orthonormalize_dependent_pair() {
    let mut vs = vec![e(1, 0, 0), e(1, 0, 0)];
    let (chosen, discarded) = orthonormalize(&mut vs, &is_zero, &project, &diff, &unit);
    assert_eq!(chosen, 1);
    assert_eq!(discarded, 1);
    assert_eq!(vs[0], e(1, 0, 0));
    assert!(vs[1].is_zero());
}

#[test]
fn test_orthonormalize_oblique_pair() {
    // (3,4,0) normalizes to nothing integral, so use a pair whose residue
    // stays exact: (1,0,0) then (1,1,0) reduces to (0,1,0).
    let mut vs = vec![e(1, 0, 0), e(1, 1, 0)];
    let (chosen, discarded) = orthonormalize(&mut vs, &is_zero, &project, &diff, &unit);
    assert_eq!(chosen, 2);
    assert_eq!(discarded, 0);
    assert_eq!(vs[0], e(1, 0, 0));
    assert_eq!(vs[1], e(0, 1, 0));
    assert_eq!(vs[0].dot(&vs[1]), 0);
}
