use caddis::geometry::Sphere;
use caddis::geometry::SphereSide;
use caddis::geometry::Vector;

#[test]
fn test_new_is_zero() {
    let v = Vector::new();
    assert_eq!(v.x, 0);
    assert_eq!(v.y, 0);
    assert_eq!(v.z, 0);
    assert!(v.is_zero());
    assert_eq!(Vector::zero(), Vector::new());
}

#[test]
fn test_from_slice_and_index() {
    let v = Vector::from_slice(&[2, -3, 5]);
    assert_eq!(v.index(0), 2);
    assert_eq!(v.index(1), -3);
    assert_eq!(v.index(2), 5);
    assert!(!v.is_zero());
}

#[test]
fn test_vector_arithmetic() {
    let u = Vector::from_slice(&[1, 2, 3]);
    let v = Vector::from_slice(&[10, -20, 30]);
    assert_eq!(u.add(v), Vector::from_slice(&[11, -18, 33]));
    assert_eq!(v.sub(u), Vector::from_slice(&[9, -22, 27]));
    assert_eq!(u.neg(), Vector::from_slice(&[-1, -2, -3]));
    assert_eq!(u.scale(-4), Vector::from_slice(&[-4, -8, -12]));
    assert_eq!(u.add(Vector::zero()), u);
}

#[test]
fn test_dot_and_symmetry() {
    let u = Vector::from_slice(&[1, 2, 3]);
    let v = Vector::from_slice(&[4, -5, 6]);
    assert_eq!(u.dot(&v), 4 - 10 + 18);
    assert_eq!(u.dot(&v), v.dot(&u));
}

#[test]
fn test_dot_bilinear_concrete() {
    // dot(a*u + b*v, w) == a*dot(u, w) + b*dot(v, w)
    let u = Vector::from_slice(&[1, 2, 3]);
    let v = Vector::from_slice(&[-2, 0, 7]);
    let w = Vector::from_slice(&[5, 1, -1]);
    let a = 3;
    let b = -4;
    let lhs = u.scale(a).add(v.scale(b)).dot(&w);
    let rhs = a * u.dot(&w) + b * v.dot(&w);
    assert_eq!(lhs, rhs);
}

#[test]
fn test_norm_squared_is_dot() {
    let v = Vector::from_slice(&[3, -4, 12]);
    assert_eq!(v.norm_squared(), v.dot(&v));
    assert_eq!(v.norm_squared(), 9 + 16 + 144);
    assert_eq!(Vector::zero().norm_squared(), 0);
}

#[test]
fn test_canonical_basis() {
    assert_eq!(Vector::dimension(), 3);
    let e0 = Vector::canonical_basis_element(0);
    let e1 = Vector::canonical_basis_element(1);
    let e2 = Vector::canonical_basis_element(2);
    assert_eq!(e0, Vector::from_slice(&[1, 0, 0]));
    assert_eq!(e1, Vector::from_slice(&[0, 1, 0]));
    assert_eq!(e2, Vector::from_slice(&[0, 0, 1]));
    assert_eq!(e0.dot(&e1), 0);
    assert_eq!(e0.dot(&e2), 0);
    assert_eq!(e1.dot(&e2), 0);
    assert_eq!(e0.norm_squared(), 1);
}

#[test]
fn test_sphere_contains_boundary_inclusive() {
    let origin = Vector::new();
    let s = Sphere::from_radius(&origin, 1);
    // A point exactly on the surface counts as contained.
    assert!(s.contains(Vector::from_slice(&[1, 0, 0])));
    assert!(s.contains(Vector::from_slice(&[0, 0, 0])));
    assert!(!s.contains(Vector::from_slice(&[2, 0, 0])));
    assert!(!s.contains(Vector::from_slice(&[1, 1, 0])));
}

#[test]
fn test_sphere_from_radius() {
    let c = Vector::from_slice(&[1, 2, 3]);
    let s = Sphere::from_radius(&c, 2);
    assert_eq!(s.radius_sq, 4);
    assert_eq!(s.center, c);
    assert!(s.nose.is_none());
    assert!(s.contains(Vector::from_slice(&[1, 2, 5])));
    assert!(!s.contains(Vector::from_slice(&[1, 2, 6])));
}

#[test]
fn test_sphere_side_of_trichotomy() {
    let origin = Vector::new();
    let s = Sphere::from_radius(&origin, 2);
    assert_eq!(s.side_of(Vector::from_slice(&[1, 0, 0])), SphereSide::Inside);
    assert_eq!(s.side_of(Vector::from_slice(&[2, 0, 0])), SphereSide::Surface);
    assert_eq!(s.side_of(Vector::from_slice(&[3, 0, 0])), SphereSide::Outside);
}

#[test]
fn test_sphere_side_of_matches_height_sign() {
    // The unit sphere about the origin: (2,0,0) has height 1, positive, so
    // it lies outside; (1,0,0) has height 0, on the surface.
    let origin = Vector::new();
    let s = Sphere::from_radius(&origin, 1);
    assert_eq!(s.side_of(Vector::from_slice(&[2, 0, 0])), SphereSide::Outside);
    assert_eq!(s.side_of(Vector::from_slice(&[1, 0, 0])), SphereSide::Surface);
    assert_eq!(s.side_of(origin), SphereSide::Inside);
    // Containment is boundary-inclusive: everything not outside.
    assert!(s.contains(Vector::from_slice(&[1, 0, 0])));
    assert!(!s.contains(Vector::from_slice(&[2, 0, 0])));
}

#[test]
fn test_sphere_from_nose() {
    let c = Vector::from_slice(&[1, 1, 1]);
    let nose = Vector::from_slice(&[4, 5, 1]);
    // distance from center to nose is 5, so the squared radius is 25
    let s = Sphere::from_nose(&c, &nose);
    assert_eq!(s.radius_sq, 25);
    assert_eq!(s.nose, Some(nose));
    assert!(s.contains(nose));
    assert!(s.contains(Vector::from_slice(&[6, 1, 1])));
    assert!(!s.contains(Vector::from_slice(&[7, 1, 1])));
}
