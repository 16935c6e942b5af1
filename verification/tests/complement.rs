use caddis::complement::complement_basis;
use caddis::complement::emission_order;
use caddis::complement::emit_basis;
use caddis::complement::orthonormal_subspace_basis;
use caddis::geometry::Vector;
use std::cell::Cell;

fn e(x: i64, y: i64, z: i64) -> Vector {
    Vector::from_slice(&[x, y, z])
}

// Exact scalar closures for the complement computation; the families below
// keep every projection coefficient and norm an exact integer.

fn is_zero(v: Vector) -> bool {
    v.is_zero()
}

fn project(v: Vector, onto: Vector) -> Vector {
    onto.scale(v.dot(&onto) / onto.dot(&onto))
}

fn diff(v: Vector, p: Vector) -> Vector {
    v.sub(p)
}

fn unit(v: Vector) -> Vector {
    let norm = (v.norm_squared() as f64).sqrt() as i64;
    Vector::from_slice(&[v.x / norm, v.y / norm, v.z / norm])
}

fn ambient() -> Vec<Vector> {
    vec![e(1, 0, 0), e(0, 1, 0), e(0, 0, 1)]
}

#[test]
fn test_emission_order_descending_flagged() {
    // Singular values come sorted in descending order, so ascending
    // singular value means descending index.
    let order = emission_order(&vec![false, true, true]);
    assert_eq!(order, vec![2, 1]);
}

#[test]
fn test_emission_order_none_flagged() {
    let order = emission_order(&vec![false, false, false]);
    assert!(order.is_empty());
    let order = emission_order(&Vec::new());
    assert!(order.is_empty());
}

#[test]
fn test_emission_order_all_flagged() {
    let order = emission_order(&vec![true, true, true]);
    assert_eq!(order, vec![2, 1, 0]);
}

#[test]
fn test_emit_complement_of_x_axis() {
    // For the single unit vector (1,0,0) the right-singular vectors are the
    // standard basis and only the first singular value is nonzero: the two
    // emitted vectors form an orthonormal basis of the yz-plane, and each is
    // orthogonal to (1,0,0).
    let family = e(1, 0, 0);
    let columns = vec![e(1, 0, 0), e(0, 1, 0), e(0, 0, 1)];
    let order = emission_order(&vec![false, true, true]);
    assert_eq!(order.len(), 2);
    let seen: Cell<i64> = Cell::new(0);
    let visitor = |v: Vector| {
        assert_eq!(v.dot(&family), 0);
        assert_eq!(v.norm_squared(), 1);
        seen.set(seen.get() + 1);
        true
    };
    let visited = emit_basis(&columns, &order, &visitor);
    assert_eq!(visited, 2);
    assert_eq!(seen.get(), 2);
}

#[test]
fn test_emit_basis_early_exit() {
    let columns = vec![e(1, 0, 0), e(0, 1, 0), e(0, 0, 1)];
    let order = vec![2usize, 1, 0];
    let visited = emit_basis(&columns, &order, &|_v: Vector| false);
    assert_eq!(visited, 1);
    let count: Cell<usize> = Cell::new(0);
    let visit_two = |_v: Vector| {
        count.set(count.get() + 1);
        count.get() < 2
    };
    let visited = emit_basis(&columns, &order, &visit_two);
    assert_eq!(visited, 2);
    assert_eq!(count.get(), 2);
}

#[test]
fn test_subspace_basis_visits_ascending_singular_values() {
    // Columns in descending singular-value order; the two flagged columns
    // are visited back to front.
    let columns = vec![e(1, 0, 0), e(0, 1, 0), e(0, 0, 1)];
    let flags = vec![false, true, true];
    let log: Cell<(i64, i64)> = Cell::new((9, 9));
    let visited = orthonormal_subspace_basis(&columns, &flags, &|v: Vector| {
        let (first, _) = log.get();
        if first == 9 {
            log.set((v.index(2), 9));
        } else {
            log.set((first, v.index(1)));
        }
        true
    });
    assert_eq!(visited, 2);
    // First visit saw (0,0,1), second saw (0,1,0).
    assert_eq!(log.get(), (1, 1));
}

#[test]
fn test_subspace_basis_early_exit() {
    let columns = vec![e(1, 0, 0), e(0, 1, 0), e(0, 0, 1)];
    let flags = vec![true, true, true];
    let visited = orthonormal_subspace_basis(&columns, &flags, &|_v: Vector| false);
    assert_eq!(visited, 1);
}

#[test]
fn test_complement_basis_of_x_axis() {
    // The complement of span{(1,0,0)} is the yz-plane: two orthonormal
    // vectors come out, each orthogonal to the family.
    let family = vec![e(1, 0, 0)];
    let count: Cell<usize> = Cell::new(0);
    let visitor = |v: Vector| {
        assert_eq!(v.dot(&e(1, 0, 0)), 0);
        assert_eq!(v.norm_squared(), 1);
        count.set(count.get() + 1);
        true
    };
    let visited = complement_basis(&family, &ambient(), &is_zero, &project, &diff, &unit, &visitor);
    assert_eq!(visited, 2);
    assert_eq!(count.get(), 2);
}

#[test]
fn test_complement_basis_of_full_family() {
    // A family that already spans the whole space has an empty complement.
    let family = vec![e(1, 0, 0), e(0, 1, 0), e(0, 0, 1)];
    let visited =
        complement_basis(&family, &ambient(), &is_zero, &project, &diff, &unit, &|_v| true);
    assert_eq!(visited, 0);
}

#[test]
fn test_complement_basis_of_empty_family() {
    // The complement of the trivial subspace is the whole space.
    let family: Vec<Vector> = Vec::new();
    let count: Cell<usize> = Cell::new(0);
    let visitor = |v: Vector| {
        assert_eq!(v.norm_squared(), 1);
        count.set(count.get() + 1);
        true
    };
    let visited = complement_basis(&family, &ambient(), &is_zero, &project, &diff, &unit, &visitor);
    assert_eq!(visited, 3);
    assert_eq!(count.get(), 3);
}

#[test]
fn test_complement_basis_early_exit() {
    let family = vec![e(1, 0, 0)];
    let visited =
        complement_basis(&family, &ambient(), &is_zero, &project, &diff, &unit, &|_v| false);
    assert_eq!(visited, 1);
}

#[test]
fn test_emit_basis_empty_order() {
    let columns = vec![e(1, 0, 0)];
    let order: Vec<usize> = Vec::new();
    let visited = emit_basis(&columns, &order, &|_v: Vector| true);
    assert_eq!(visited, 0);
}
