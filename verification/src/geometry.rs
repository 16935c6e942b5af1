//! Exact-coordinate vectors in three dimensions, and spheres built from them.
//!
//! Coordinates are kept as exact integers, so every arithmetic contract here
//! is stated and proved without rounding. The model of a vector is the triple
//! of its coordinates as unbounded integers; all operations are specified
//! against that model.

use vstd::prelude::*;

verus! {

/// The additive identity triple.
pub open spec fn zero3() -> (int, int, int) {
    (0, 0, 0)
}

/// Component-wise sum of two coordinate triples.
pub open spec fn add3(u: (int, int, int), v: (int, int, int)) -> (int, int, int) {
    (u.0 + v.0, u.1 + v.1, u.2 + v.2)
}

/// Component-wise difference of two coordinate triples.
pub open spec fn sub3(u: (int, int, int), v: (int, int, int)) -> (int, int, int) {
    (u.0 - v.0, u.1 - v.1, u.2 - v.2)
}

/// Component-wise negation of a coordinate triple.
pub open spec fn neg3(u: (int, int, int)) -> (int, int, int) {
    (-u.0, -u.1, -u.2)
}

/// A coordinate triple scaled by `k`.
pub open spec fn scale3(k: int, u: (int, int, int)) -> (int, int, int) {
    (k * u.0, k * u.1, k * u.2)
}

/// The inner product of two coordinate triples: the sum of the
/// component-wise products.
pub open spec fn dot3(u: (int, int, int), v: (int, int, int)) -> int {
    u.0 * v.0 + u.1 * v.1 + u.2 * v.2
}

/// Component `i` of a coordinate triple, for `i` in `{0, 1, 2}`.
pub open spec fn coord3(u: (int, int, int), i: int) -> int {
    if i == 0 {
        u.0
    } else if i == 1 {
        u.1
    } else {
        u.2
    }
}

/// A 3-component coordinate vector. The dimension is fixed at three; a value
/// is freely copied and is only replaced, never shared mutably.
#[derive(Clone, Copy, Debug, PartialEq, Eq, Structural)]
pub struct Vector {
    pub x: i64,
    pub y: i64,
    pub z: i64,
}

impl View for Vector {
    type V = (int, int, int);

    open spec fn view(&self) -> (int, int, int) {
        (self.x as int, self.y as int, self.z as int)
    }
}

impl Vector {
    /// The all-zero vector: the additive identity.
    pub fn new() -> (v: Vector)
        ensures
            v@ == zero3(),
    {
        Vector { x: 0, y: 0, z: 0 }
    }

    /// Builds a vector from exactly three coordinates. Any other count is a
    /// caller contract violation, so it is excluded by precondition.
    pub fn from_slice(s: &[i64]) -> (v: Vector)
        requires
            s@.len() == 3,
        ensures
            v@ == (s@[0] as int, s@[1] as int, s@[2] as int),
    {
        Vector { x: s[0], y: s[1], z: s[2] }
    }

    /// The all-zero vector, under its algebraic name.
    pub fn zero() -> (v: Vector)
        ensures
            v@ == zero3(),
    {
        Vector::new()
    }

    /// Whether this is exactly the zero vector; no tolerance is applied.
    pub fn is_zero(&self) -> (r: bool)
        ensures
            r <==> self@ == zero3(),
    {
        self.x == 0 && self.y == 0 && self.z == 0
    }

    /// Component-wise vector sum.
    pub fn add(self, other: Vector) -> (r: Vector)
        requires
            i64::MIN <= self@.0 + other@.0 <= i64::MAX,
            i64::MIN <= self@.1 + other@.1 <= i64::MAX,
            i64::MIN <= self@.2 + other@.2 <= i64::MAX,
        ensures
            r@ == add3(self@, other@),
    {
        Vector { x: self.x + other.x, y: self.y + other.y, z: self.z + other.z }
    }

    /// Component-wise vector difference.
    pub fn sub(self, other: Vector) -> (r: Vector)
        requires
            i64::MIN <= self@.0 - other@.0 <= i64::MAX,
            i64::MIN <= self@.1 - other@.1 <= i64::MAX,
            i64::MIN <= self@.2 - other@.2 <= i64::MAX,
        ensures
            r@ == sub3(self@, other@),
    {
        Vector { x: self.x - other.x, y: self.y - other.y, z: self.z - other.z }
    }

    /// The additive inverse.
    pub fn neg(self) -> (r: Vector)
        requires
            i64::MIN < self@.0,
            i64::MIN < self@.1,
            i64::MIN < self@.2,
        ensures
            r@ == neg3(self@),
    {
        Vector { x: -self.x, y: -self.y, z: -self.z }
    }

    /// The vector scaled by `k`.
    pub fn scale(self, k: i64) -> (r: Vector)
        requires
            i64::MIN <= k * self@.0 <= i64::MAX,
            i64::MIN <= k * self@.1 <= i64::MAX,
            i64::MIN <= k * self@.2 <= i64::MAX,
        ensures
            r@ == scale3(k as int, self@),
    {
        Vector { x: k * self.x, y: k * self.y, z: k * self.z }
    }

    /// The inner product: the sum of the component-wise products.
    pub fn dot(&self, other: &Vector) -> (r: i64)
        requires
            i64::MIN <= self@.0 * other@.0 <= i64::MAX,
            i64::MIN <= self@.1 * other@.1 <= i64::MAX,
            i64::MIN <= self@.2 * other@.2 <= i64::MAX,
            i64::MIN <= self@.0 * other@.0 + self@.1 * other@.1 <= i64::MAX,
            i64::MIN <= dot3(self@, other@) <= i64::MAX,
        ensures
            r == dot3(self@, other@),
    {
        self.x * other.x + self.y * other.y + self.z * other.z
    }

    /// The squared Euclidean norm. It equals the inner product of the vector
    /// with itself, exactly.
    pub fn norm_squared(&self) -> (r: i64)
        requires
            self@.0 * self@.0 <= i64::MAX,
            self@.1 * self@.1 <= i64::MAX,
            self@.2 * self@.2 <= i64::MAX,
            self@.0 * self@.0 + self@.1 * self@.1 <= i64::MAX,
            dot3(self@, self@) <= i64::MAX,
        ensures
            r == dot3(self@, self@),
    {
        proof {
            lemma_square_nonneg(self@.0);
            lemma_square_nonneg(self@.1);
            lemma_square_nonneg(self@.2);
        }
        self.dot(self)
    }

    /// The fixed ambient dimension.
    pub fn dimension() -> (r: usize)
        ensures
            r == 3,
    {
        3
    }

    /// The `i`-th standard basis vector, for `i` in `{0, 1, 2}`.
    pub fn canonical_basis_element(i: usize) -> (r: Vector)
        requires
            i < 3,
        ensures
            r@ == (if i == 0 {
                (1int, 0int, 0int)
            } else if i == 1 {
                (0int, 1int, 0int)
            } else {
                (0int, 0int, 1int)
            }),
    {
        if i == 0 {
            Vector { x: 1, y: 0, z: 0 }
        } else if i == 1 {
            Vector { x: 0, y: 1, z: 0 }
        } else {
            Vector { x: 0, y: 0, z: 1 }
        }
    }

    /// Component access for an index in `{0, 1, 2}`; anything else is a
    /// caller contract violation and is excluded by precondition.
    pub fn index(&self, i: usize) -> (r: i64)
        requires
            i < 3,
        ensures
            r == coord3(self@, i as int),
    {
        if i == 0 {
            self.x
        } else if i == 1 {
            self.y
        } else {
            self.z
        }
    }
}

/// A square of an integer is never negative.
pub proof fn lemma_square_nonneg(a: int)
    ensures
        0 <= a * a,
{
    assert(0 <= a * a) by (nonlinear_arith);
}

/// The inner product is symmetric.
pub proof fn lemma_dot_symmetric(u: (int, int, int), v: (int, int, int))
    ensures
        dot3(u, v) == dot3(v, u),
{
}

/// The inner product is bilinear: in its first argument it distributes over
/// scaled sums, and by symmetry the same holds in the second.
pub proof fn lemma_dot_bilinear(a: int, b: int, u: (int, int, int), v: (int, int, int), w: (
    int,
    int,
    int,
))
    ensures
        dot3(add3(scale3(a, u), scale3(b, v)), w) == a * dot3(u, w) + b * dot3(v, w),
{
    assert((a * u.0 + b * v.0) * w.0 == a * (u.0 * w.0) + b * (v.0 * w.0)) by (nonlinear_arith);
    assert((a * u.1 + b * v.1) * w.1 == a * (u.1 * w.1) + b * (v.1 * w.1)) by (nonlinear_arith);
    assert((a * u.2 + b * v.2) * w.2 == a * (u.2 * w.2) + b * (v.2 * w.2)) by (nonlinear_arith);
    assert(a * (u.0 * w.0 + u.1 * w.1 + u.2 * w.2) == a * (u.0 * w.0) + a * (u.1 * w.1) + a * (u.2
        * w.2)) by (nonlinear_arith);
    assert(b * (v.0 * w.0 + v.1 * w.1 + v.2 * w.2) == b * (v.0 * w.0) + b * (v.1 * w.1) + b * (v.2
        * w.2)) by (nonlinear_arith);
}

/// The squared norm of any triple is its inner product with itself, and it
/// is never negative.
pub proof fn lemma_norm_squared_is_dot(u: (int, int, int))
    ensures
        dot3(u, u) == u.0 * u.0 + u.1 * u.1 + u.2 * u.2,
        0 <= dot3(u, u),
{
    lemma_square_nonneg(u.0);
    lemma_square_nonneg(u.1);
    lemma_square_nonneg(u.2);
}

/// The inner product distributes over a difference in its first argument.
pub proof fn lemma_dot_sub3(x: (int, int, int), y: (int, int, int), w: (int, int, int))
    ensures
        dot3(sub3(x, y), w) == dot3(x, w) - dot3(y, w),
{
    assert((x.0 - y.0) * w.0 == x.0 * w.0 - y.0 * w.0) by (nonlinear_arith);
    assert((x.1 - y.1) * w.1 == x.1 * w.1 - y.1 * w.1) by (nonlinear_arith);
    assert((x.2 - y.2) * w.2 == x.2 * w.2 - y.2 * w.2) by (nonlinear_arith);
}

/// A scalar factor moves out of the inner product.
pub proof fn lemma_dot_scale3(k: int, b: (int, int, int), w: (int, int, int))
    ensures
        dot3(scale3(k, b), w) == k * dot3(b, w),
{
    assert((k * b.0) * w.0 == k * (b.0 * w.0)) by (nonlinear_arith);
    assert((k * b.1) * w.1 == k * (b.1 * w.1)) by (nonlinear_arith);
    assert((k * b.2) * w.2 == k * (b.2 * w.2)) by (nonlinear_arith);
    assert(k * (b.0 * w.0 + b.1 * w.1 + b.2 * w.2) == k * (b.0 * w.0) + k * (b.1 * w.1) + k * (b.2
        * w.2)) by (nonlinear_arith);
}

/// Scaling by one changes nothing.
pub proof fn lemma_scale3_one(u: (int, int, int))
    ensures
        scale3(1, u) == u,
{
    assert(1 * u.0 == u.0) by (nonlinear_arith);
    assert(1 * u.1 == u.1) by (nonlinear_arith);
    assert(1 * u.2 == u.2) by (nonlinear_arith);
}

/// The algebraic heart of Gram-Schmidt: subtracting from `u` its projection
/// onto `b` leaves a residue orthogonal to `b`. The projection coefficient
/// is the ratio `dot(u, b) / dot(b, b)`, so the statement is made
/// denominator-free by scaling the residue with `dot(b, b)`: the scaled
/// residue `dot(b, b) * u - dot(u, b) * b` has inner product zero with `b`.
pub proof fn lemma_projection_residue_orthogonal(u: (int, int, int), b: (int, int, int))
    ensures
        dot3(sub3(scale3(dot3(b, b), u), scale3(dot3(u, b), b)), b) == 0,
{
    let bb = dot3(b, b);
    let ub = dot3(u, b);
    lemma_dot_bilinear(bb, -ub, u, b, b);
    assert((-ub) * b.0 == -(ub * b.0)) by (nonlinear_arith);
    assert((-ub) * b.1 == -(ub * b.1)) by (nonlinear_arith);
    assert((-ub) * b.2 == -(ub * b.2)) by (nonlinear_arith);
    assert(add3(scale3(bb, u), scale3(-ub, b)) == sub3(scale3(bb, u), scale3(ub, b)));
    assert((-ub) * bb == -(ub * bb)) by (nonlinear_arith);
    assert(bb * ub == ub * bb) by (nonlinear_arith);
}

/// Subtracting any multiple of `b` from `u` does not change the inner
/// product with a vector `w` orthogonal to `b`: orthogonality already
/// achieved against earlier basis vectors survives the later projection
/// subtractions of a Gram-Schmidt pass.
pub proof fn lemma_reduction_preserves_orthogonality(
    c: int,
    u: (int, int, int),
    b: (int, int, int),
    w: (int, int, int),
)
    requires
        dot3(b, w) == 0,
    ensures
        dot3(sub3(u, scale3(c, b)), w) == dot3(u, w),
{
    lemma_dot_bilinear(1, -c, u, b, w);
    assert((-c) * b.0 == -(c * b.0)) by (nonlinear_arith);
    assert((-c) * b.1 == -(c * b.1)) by (nonlinear_arith);
    assert((-c) * b.2 == -(c * b.2)) by (nonlinear_arith);
    assert(add3(scale3(1, u), scale3(-c, b)) == sub3(u, scale3(c, b)));
}

/// The linear combination of the basis triples with the given coefficients,
/// one coefficient per basis vector.
pub open spec fn linear_combo(basis: Seq<(int, int, int)>, coeffs: Seq<int>) -> (int, int, int)
    decreases basis.len(),
{
    if basis.len() == 0 {
        (0, 0, 0)
    } else {
        add3(scale3(coeffs[0], basis[0]), linear_combo(basis.drop_first(), coeffs.drop_first()))
    }
}

/// The sum of the coefficient-weighted inner products of the basis triples
/// with `v`: what `dot3(linear_combo(basis, coeffs), v)` unfolds to.
pub open spec fn combo_dot(basis: Seq<(int, int, int)>, coeffs: Seq<int>, v: (int, int, int)) -> int
    decreases basis.len(),
{
    if basis.len() == 0 {
        0
    } else {
        coeffs[0] * dot3(basis[0], v) + combo_dot(basis.drop_first(), coeffs.drop_first(), v)
    }
}

/// Every pair of distinct vectors in the family has inner product zero.
pub open spec fn pairwise_orthogonal(basis: Seq<(int, int, int)>) -> bool {
    forall|i: int, j: int|
        0 <= i < basis.len() && 0 <= j < basis.len() && i != j ==> dot3(basis[i], basis[j]) == 0
}

/// The inner product distributes over a linear combination.
pub proof fn lemma_combo_dot(basis: Seq<(int, int, int)>, coeffs: Seq<int>, v: (int, int, int))
    requires
        basis.len() <= coeffs.len(),
    ensures
        dot3(linear_combo(basis, coeffs), v) == combo_dot(basis, coeffs, v),
    decreases basis.len(),
{
    if basis.len() == 0 {
        assert(0 * v.0 == 0 && 0 * v.1 == 0 && 0 * v.2 == 0) by (nonlinear_arith);
    } else {
        let c0 = coeffs[0];
        let b0 = basis[0];
        let rest = linear_combo(basis.drop_first(), coeffs.drop_first());
        lemma_combo_dot(basis.drop_first(), coeffs.drop_first(), v);
        lemma_dot_bilinear(c0, 1, b0, rest, v);
        assert(scale3(1, rest) == rest);
        assert(1 * dot3(rest, v) == dot3(rest, v));
    }
}

/// In a pairwise-orthogonal family, only the `i`-th summand of a linear
/// combination contributes to the inner product with the `i`-th vector.
pub proof fn lemma_combo_dot_orthogonal(
    basis: Seq<(int, int, int)>,
    coeffs: Seq<int>,
    i: int,
)
    requires
        basis.len() <= coeffs.len(),
        pairwise_orthogonal(basis),
        0 <= i < basis.len(),
    ensures
        combo_dot(basis, coeffs, basis[i]) == coeffs[i] * dot3(basis[i], basis[i]),
    decreases basis.len(),
{
    let rest = basis.drop_first();
    let crest = coeffs.drop_first();
    if i == 0 {
        lemma_combo_dot_vanishes(rest, crest, basis[0]);
    } else {
        assert(pairwise_orthogonal(rest)) by {
            assert(forall|a: int, b: int|
                0 <= a < rest.len() && 0 <= b < rest.len() && a != b ==> dot3(
                    #[trigger] rest[a],
                    #[trigger] rest[b],
                ) == dot3(basis[a + 1], basis[b + 1]));
        }
        assert(forall|a: int| 0 <= a < rest.len() ==> #[trigger] rest[a] == basis[a + 1]);
        lemma_combo_dot_orthogonal(rest, crest, i - 1);
        assert(dot3(basis[0], basis[i]) == 0);
    }
}

/// A linear combination of vectors each orthogonal to `v` has inner product
/// zero with `v`.
pub proof fn lemma_combo_dot_vanishes(
    basis: Seq<(int, int, int)>,
    coeffs: Seq<int>,
    v: (int, int, int),
)
    requires
        basis.len() <= coeffs.len(),
        forall|a: int| 0 <= a < basis.len() ==> dot3(#[trigger] basis[a], v) == 0,
    ensures
        combo_dot(basis, coeffs, v) == 0,
    decreases basis.len(),
{
    if basis.len() == 0 {
    } else {
        assert(forall|a: int| 0 <= a < basis.drop_first().len() ==> #[trigger] basis.drop_first()[a]
            == basis[a + 1]);
        lemma_combo_dot_vanishes(basis.drop_first(), coeffs.drop_first(), v);
        assert(coeffs[0] * dot3(basis[0], v) == 0) by (nonlinear_arith)
            requires
                dot3(basis[0], v) == 0,
        ;
    }
}

/// The Gram-Schmidt pass against a pairwise-orthogonal accepted basis,
/// stated exactly: subtracting the linear combination `sum c_j * b_j` from
/// `u` changes the component of `u` along each basis vector independently,
/// by `c_i * dot(b_i, b_i)`. In particular, whenever the coefficient `c_i`
/// satisfies `c_i * dot(b_i, b_i) == dot(u, b_i)` — the projection
/// coefficient of `u` onto `b_i` — the residue is orthogonal to `b_i`, so a
/// full pass with projection coefficients leaves a residue orthogonal to
/// every accepted basis vector.
pub proof fn lemma_gram_schmidt_residue(
    u: (int, int, int),
    basis: Seq<(int, int, int)>,
    coeffs: Seq<int>,
    i: int,
)
    requires
        basis.len() <= coeffs.len(),
        pairwise_orthogonal(basis),
        0 <= i < basis.len(),
    ensures
        dot3(sub3(u, linear_combo(basis, coeffs)), basis[i]) == dot3(u, basis[i]) - coeffs[i]
            * dot3(basis[i], basis[i]),
{
    let w = linear_combo(basis, coeffs);
    lemma_dot_bilinear(1, -1, u, w, basis[i]);
    assert(add3(scale3(1, u), scale3(-1, w)) == sub3(u, w));
    lemma_combo_dot(basis, coeffs, basis[i]);
    lemma_combo_dot_orthogonal(basis, coeffs, i);
}

/// Comparing two non-negative reals is the same as comparing their squares,
/// so a distance-to-radius comparison can be carried out exactly on squared
/// quantities. Stated for integers, which is how this crate keeps them.
pub proof fn lemma_square_order(a: int, b: int)
    requires
        0 <= a,
        0 <= b,
    ensures
        a <= b <==> a * a <= b * b,
{
    assert(a <= b ==> a * a <= b * b) by (nonlinear_arith)
        requires
            0 <= a,
            0 <= b,
    ;
    assert(a * a <= b * b ==> a <= b) by (nonlinear_arith)
        requires
            0 <= a,
            0 <= b,
    ;
}

/// A sphere: a center, an optional defining nose point used only to derive
/// the radius, and a non-negative radius kept as its exact square. Storing
/// the square keeps every query below exact: a point lies inside or on the
/// sphere exactly when its squared distance from the center is at most the
/// squared radius.
#[derive(Clone, Copy, Debug)]
pub struct Sphere {
    pub center: Vector,
    pub nose: Option<Vector>,
    pub radius_sq: i64,
}

/// A well-formed sphere never has a negative squared radius.
pub open spec fn sphere_wf(s: Sphere) -> bool {
    0 <= s.radius_sq
}

/// Where a point stands relative to a sphere's surface: the sign of its
/// height over the sphere, which is negative inside, zero on the surface,
/// and positive outside.
#[derive(Clone, Copy, Debug, PartialEq, Eq, Structural)]
pub enum SphereSide {
    Inside,
    Surface,
    Outside,
}

impl Sphere {
    /// A sphere given by its center and radius. A negative radius is a
    /// caller contract violation and is excluded by precondition.
    pub fn from_radius(center: &Vector, radius: i64) -> (s: Sphere)
        requires
            0 <= radius,
            radius * radius <= i64::MAX,
        ensures
            s.center == *center,
            s.nose is None,
            s.radius_sq == radius * radius,
            sphere_wf(s),
    {
        proof {
            lemma_square_nonneg(radius as int);
        }
        Sphere { center: *center, nose: None, radius_sq: radius * radius }
    }

    /// A sphere whose radius is the distance from the center to the given
    /// nose point.
    pub fn from_nose(center: &Vector, nose: &Vector) -> (s: Sphere)
        requires
            i64::MIN <= nose@.0 - center@.0 <= i64::MAX,
            i64::MIN <= nose@.1 - center@.1 <= i64::MAX,
            i64::MIN <= nose@.2 - center@.2 <= i64::MAX,
            dot3(sub3(nose@, center@), sub3(nose@, center@)) <= i64::MAX,
        ensures
            s.center == *center,
            s.nose == Some(*nose),
            s.radius_sq == dot3(sub3(nose@, center@), sub3(nose@, center@)),
            sphere_wf(s),
    {
        let d = nose.sub(*center);
        proof {
            lemma_norm_squared_is_dot(d@);
            lemma_square_nonneg(d@.0);
            lemma_square_nonneg(d@.1);
            lemma_square_nonneg(d@.2);
        }
        let rsq = d.norm_squared();
        Sphere { center: *center, nose: Some(*nose), radius_sq: rsq }
    }

    /// Whether the point lies inside the sphere or on its boundary: its
    /// squared distance from the center is at most the squared radius, which
    /// for non-negative quantities is the same comparison as distance
    /// against radius.
    pub fn contains(self, point: Vector) -> (r: bool)
        requires
            i64::MIN <= point@.0 - self.center@.0 <= i64::MAX,
            i64::MIN <= point@.1 - self.center@.1 <= i64::MAX,
            i64::MIN <= point@.2 - self.center@.2 <= i64::MAX,
            dot3(sub3(point@, self.center@), sub3(point@, self.center@)) <= i64::MAX,
        ensures
            r <==> dot3(sub3(point@, self.center@), sub3(point@, self.center@)) <= self.radius_sq,
    {
        let d = point.sub(self.center);
        proof {
            lemma_norm_squared_is_dot(d@);
            lemma_square_nonneg(d@.0);
            lemma_square_nonneg(d@.1);
            lemma_square_nonneg(d@.2);
        }
        let dist_sq = d.norm_squared();
        dist_sq <= self.radius_sq
    }

    /// The sign of the point's height over the sphere, decided exactly on
    /// squared quantities: the distance from the center compares to the
    /// radius as its square compares to the squared radius (see
    /// `lemma_square_order`). The height's magnitude is a square root and
    /// is not computed here; its sign convention — negative inside, zero
    /// on the surface, positive outside — is this trichotomy.
    pub fn side_of(self, point: Vector) -> (r: SphereSide)
        requires
            i64::MIN <= point@.0 - self.center@.0 <= i64::MAX,
            i64::MIN <= point@.1 - self.center@.1 <= i64::MAX,
            i64::MIN <= point@.2 - self.center@.2 <= i64::MAX,
            dot3(sub3(point@, self.center@), sub3(point@, self.center@)) <= i64::MAX,
        ensures
            r is Inside <==> dot3(sub3(point@, self.center@), sub3(point@, self.center@))
                < self.radius_sq,
            r is Surface <==> dot3(sub3(point@, self.center@), sub3(point@, self.center@))
                == self.radius_sq,
            r is Outside <==> dot3(sub3(point@, self.center@), sub3(point@, self.center@))
                > self.radius_sq,
    {
        let d = point.sub(self.center);
        proof {
            lemma_norm_squared_is_dot(d@);
            lemma_square_nonneg(d@.0);
            lemma_square_nonneg(d@.1);
            lemma_square_nonneg(d@.2);
        }
        let dist_sq = d.norm_squared();
        if dist_sq < self.radius_sq {
            SphereSide::Inside
        } else if dist_sq == self.radius_sq {
            SphereSide::Surface
        } else {
            SphereSide::Outside
        }
    }
}

} // verus!
