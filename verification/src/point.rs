//! Points: fixed-dimensional tuples of coordinate numbers.

use crate::num::{max_inline, min_inline, saturate, RTreeNum};
use vstd::prelude::*;

verus! {

/// A point type that the tree can index.
///
/// Implemented for arrays of two to nine numbers.
pub trait Point: Copy + Sized {
    /// The number type of the coordinates.
    type Scalar: RTreeNum;

    /// The number of dimensions.
    const DIMENSIONS: usize;

    /// The coordinate at `index`.
    spec fn nth_spec(&self, index: int) -> Self::Scalar;

    /// A point type has at least two dimensions.
    proof fn lemma_dimensions()
        ensures
            2 <= Self::DIMENSIONS,
    ;

    /// Two points with the same coordinates are the same point.
    proof fn lemma_extensional(a: Self, b: Self)
        requires
            forall|i: int| 0 <= i < Self::DIMENSIONS ==> a.nth_spec(i) == b.nth_spec(i),
        ensures
            a == b,
    ;

    /// The point with the coordinate at `index` replaced by `value`.
    spec fn with_nth_spec(&self, index: int, value: Self::Scalar) -> Self;

    /// Replacing a coordinate changes that coordinate and no other.
    proof fn lemma_with_nth(p: Self, index: int, value: Self::Scalar)
        requires
            0 <= index < Self::DIMENSIONS,
        ensures
            forall|i: int|
                0 <= i < Self::DIMENSIONS ==> #[trigger] p.with_nth_spec(index, value).nth_spec(i) == if i
                    == index {
                    value
                } else {
                    p.nth_spec(i)
                },
    ;

    /// The point whose coordinate at `i` is `generator(i)`.
    fn generate<F: Fn(usize) -> Self::Scalar>(generator: F) -> (r: Self)
        requires
            forall|i: usize| i < Self::DIMENSIONS ==> call_requires(generator, (i,)),
        ensures
            forall|i: usize|
                i < Self::DIMENSIONS ==> call_ensures(
                    generator,
                    (i,),
                    #[trigger] r.nth_spec(i as int),
                ),
    ;

    /// The coordinate at `index`.
    fn nth(&self, index: usize) -> (r: Self::Scalar)
        requires
            index < Self::DIMENSIONS,
        ensures
            r == self.nth_spec(index as int),
    ;

    /// Write access to the coordinate at `index`.
    fn nth_mut(&mut self, index: usize) -> (r: &mut Self::Scalar)
        requires
            index < Self::DIMENSIONS,
        ensures
            *r == old(self).nth_spec(index as int),
            final(self).nth_spec(index as int) == *final(r),
            forall|j: int|
                0 <= j < Self::DIMENSIONS && j != index ==> final(self).nth_spec(j) == old(
                    self,
                ).nth_spec(j),
    ;
}

impl<S: RTreeNum> Point for [S; 2] {
    type Scalar = S;

    const DIMENSIONS: usize = 2;

    open spec fn nth_spec(&self, index: int) -> S {
        self[index]
    }

    proof fn lemma_dimensions() {
    }

    proof fn lemma_extensional(a: Self, b: Self) {
        assert(a[0] == a.nth_spec(0) && a[1] == a.nth_spec(1));
        assert(b[0] == b.nth_spec(0) && b[1] == b.nth_spec(1));
        assert(a@ =~= b@);
    }

    open spec fn with_nth_spec(&self, index: int, value: S) -> Self {
        vstd::array::spec_array_update(*self, index, value)
    }

    proof fn lemma_with_nth(p: Self, index: int, value: S) {
        broadcast use vstd::array::group_array_axioms;

        let q = vstd::array::spec_array_update(p, index, value);
        assert(q@ == p@.update(index, value));
        assert forall|i: int| 0 <= i < Self::DIMENSIONS implies #[trigger] q.nth_spec(i) == if i == index {
            value
        } else {
            p.nth_spec(i)
        } by {
            assert(q[i] == q@[i]);
            assert(p[i] == p@[i]);
        }
    }

    fn generate<F: Fn(usize) -> S>(generator: F) -> (r: Self) {
        [generator(0), generator(1)]
    }

    fn nth(&self, index: usize) -> (r: S) {
        self[index]
    }

    fn nth_mut(&mut self, index: usize) -> (r: &mut S) {
        &mut self[index]
    }
}

impl<S: RTreeNum> Point for [S; 3] {
    type Scalar = S;

    const DIMENSIONS: usize = 3;

    open spec fn nth_spec(&self, index: int) -> S {
        self[index]
    }

    proof fn lemma_dimensions() {
    }

    proof fn lemma_extensional(a: Self, b: Self) {
        assert(a[0] == a.nth_spec(0) && a[1] == a.nth_spec(1) && a[2] == a.nth_spec(2));
        assert(b[0] == b.nth_spec(0) && b[1] == b.nth_spec(1) && b[2] == b.nth_spec(2));
        assert(a@ =~= b@);
    }

    open spec fn with_nth_spec(&self, index: int, value: S) -> Self {
        vstd::array::spec_array_update(*self, index, value)
    }

    proof fn lemma_with_nth(p: Self, index: int, value: S) {
        broadcast use vstd::array::group_array_axioms;

        let q = vstd::array::spec_array_update(p, index, value);
        assert(q@ == p@.update(index, value));
        assert forall|i: int| 0 <= i < Self::DIMENSIONS implies #[trigger] q.nth_spec(i) == if i == index {
            value
        } else {
            p.nth_spec(i)
        } by {
            assert(q[i] == q@[i]);
            assert(p[i] == p@[i]);
        }
    }

    fn generate<F: Fn(usize) -> S>(generator: F) -> (r: Self) {
        [generator(0), generator(1), generator(2)]
    }

    fn nth(&self, index: usize) -> (r: S) {
        self[index]
    }

    fn nth_mut(&mut self, index: usize) -> (r: &mut S) {
        &mut self[index]
    }
}

impl<S: RTreeNum> Point for [S; 4] {
    type Scalar = S;

    const DIMENSIONS: usize = 4;

    open spec fn nth_spec(&self, index: int) -> S {
        self[index]
    }

    proof fn lemma_dimensions() {
    }

    proof fn lemma_extensional(a: Self, b: Self) {
        assert(a[0] == a.nth_spec(0) && a[1] == a.nth_spec(1) && a[2] == a.nth_spec(2) && a[3] == a.nth_spec(3));
        assert(b[0] == b.nth_spec(0) && b[1] == b.nth_spec(1) && b[2] == b.nth_spec(2) && b[3] == b.nth_spec(3));
        assert(a@ =~= b@);
    }

    open spec fn with_nth_spec(&self, index: int, value: S) -> Self {
        vstd::array::spec_array_update(*self, index, value)
    }

    proof fn lemma_with_nth(p: Self, index: int, value: S) {
        broadcast use vstd::array::group_array_axioms;

        let q = vstd::array::spec_array_update(p, index, value);
        assert(q@ == p@.update(index, value));
        assert forall|i: int| 0 <= i < Self::DIMENSIONS implies #[trigger] q.nth_spec(i) == if i == index {
            value
        } else {
            p.nth_spec(i)
        } by {
            assert(q[i] == q@[i]);
            assert(p[i] == p@[i]);
        }
    }

    fn generate<F: Fn(usize) -> S>(generator: F) -> (r: Self) {
        [generator(0), generator(1), generator(2), generator(3)]
    }

    fn nth(&self, index: usize) -> (r: S) {
        self[index]
    }

    fn nth_mut(&mut self, index: usize) -> (r: &mut S) {
        &mut self[index]
    }
}

impl<S: RTreeNum> Point for [S; 5] {
    type Scalar = S;

    const DIMENSIONS: usize = 5;

    open spec fn nth_spec(&self, index: int) -> S {
        self[index]
    }

    proof fn lemma_dimensions() {
    }

    proof fn lemma_extensional(a: Self, b: Self) {
        assert forall|i: int| 0 <= i < 5 implies a[i] == b[i] by {
            assert(a[i] == a.nth_spec(i) && b[i] == b.nth_spec(i));
        }
        assert(a@ =~= b@);
    }

    open spec fn with_nth_spec(&self, index: int, value: S) -> Self {
        vstd::array::spec_array_update(*self, index, value)
    }

    proof fn lemma_with_nth(p: Self, index: int, value: S) {
        broadcast use vstd::array::group_array_axioms;

        let q = vstd::array::spec_array_update(p, index, value);
        assert(q@ == p@.update(index, value));
        assert forall|i: int| 0 <= i < Self::DIMENSIONS implies #[trigger] q.nth_spec(i) == if i == index {
            value
        } else {
            p.nth_spec(i)
        } by {
            assert(q[i] == q@[i]);
            assert(p[i] == p@[i]);
        }
    }

    fn generate<F: Fn(usize) -> S>(generator: F) -> (r: Self) {
        [
            generator(0), generator(1), generator(2), generator(3), generator(4),
        ]
    }

    fn nth(&self, index: usize) -> (r: S) {
        self[index]
    }

    fn nth_mut(&mut self, index: usize) -> (r: &mut S) {
        &mut self[index]
    }
}

impl<S: RTreeNum> Point for [S; 6] {
    type Scalar = S;

    const DIMENSIONS: usize = 6;

    open spec fn nth_spec(&self, index: int) -> S {
        self[index]
    }

    proof fn lemma_dimensions() {
    }

    proof fn lemma_extensional(a: Self, b: Self) {
        assert forall|i: int| 0 <= i < 6 implies a[i] == b[i] by {
            assert(a[i] == a.nth_spec(i) && b[i] == b.nth_spec(i));
        }
        assert(a@ =~= b@);
    }

    open spec fn with_nth_spec(&self, index: int, value: S) -> Self {
        vstd::array::spec_array_update(*self, index, value)
    }

    proof fn lemma_with_nth(p: Self, index: int, value: S) {
        broadcast use vstd::array::group_array_axioms;

        let q = vstd::array::spec_array_update(p, index, value);
        assert(q@ == p@.update(index, value));
        assert forall|i: int| 0 <= i < Self::DIMENSIONS implies #[trigger] q.nth_spec(i) == if i == index {
            value
        } else {
            p.nth_spec(i)
        } by {
            assert(q[i] == q@[i]);
            assert(p[i] == p@[i]);
        }
    }

    fn generate<F: Fn(usize) -> S>(generator: F) -> (r: Self) {
        [
            generator(0), generator(1), generator(2), generator(3), generator(4), generator(5),
        ]
    }

    fn nth(&self, index: usize) -> (r: S) {
        self[index]
    }

    fn nth_mut(&mut self, index: usize) -> (r: &mut S) {
        &mut self[index]
    }
}

impl<S: RTreeNum> Point for [S; 7] {
    type Scalar = S;

    const DIMENSIONS: usize = 7;

    open spec fn nth_spec(&self, index: int) -> S {
        self[index]
    }

    proof fn lemma_dimensions() {
    }

    proof fn lemma_extensional(a: Self, b: Self) {
        assert forall|i: int| 0 <= i < 7 implies a[i] == b[i] by {
            assert(a[i] == a.nth_spec(i) && b[i] == b.nth_spec(i));
        }
        assert(a@ =~= b@);
    }

    open spec fn with_nth_spec(&self, index: int, value: S) -> Self {
        vstd::array::spec_array_update(*self, index, value)
    }

    proof fn lemma_with_nth(p: Self, index: int, value: S) {
        broadcast use vstd::array::group_array_axioms;

        let q = vstd::array::spec_array_update(p, index, value);
        assert(q@ == p@.update(index, value));
        assert forall|i: int| 0 <= i < Self::DIMENSIONS implies #[trigger] q.nth_spec(i) == if i == index {
            value
        } else {
            p.nth_spec(i)
        } by {
            assert(q[i] == q@[i]);
            assert(p[i] == p@[i]);
        }
    }

    fn generate<F: Fn(usize) -> S>(generator: F) -> (r: Self) {
        [
            generator(0), generator(1), generator(2), generator(3), generator(4), generator(5), generator(6),
        ]
    }

    fn nth(&self, index: usize) -> (r: S) {
        self[index]
    }

    fn nth_mut(&mut self, index: usize) -> (r: &mut S) {
        &mut self[index]
    }
}

impl<S: RTreeNum> Point for [S; 8] {
    type Scalar = S;

    const DIMENSIONS: usize = 8;

    open spec fn nth_spec(&self, index: int) -> S {
        self[index]
    }

    proof fn lemma_dimensions() {
    }

    proof fn lemma_extensional(a: Self, b: Self) {
        assert forall|i: int| 0 <= i < 8 implies a[i] == b[i] by {
            assert(a[i] == a.nth_spec(i) && b[i] == b.nth_spec(i));
        }
        assert(a@ =~= b@);
    }

    open spec fn with_nth_spec(&self, index: int, value: S) -> Self {
        vstd::array::spec_array_update(*self, index, value)
    }

    proof fn lemma_with_nth(p: Self, index: int, value: S) {
        broadcast use vstd::array::group_array_axioms;

        let q = vstd::array::spec_array_update(p, index, value);
        assert(q@ == p@.update(index, value));
        assert forall|i: int| 0 <= i < Self::DIMENSIONS implies #[trigger] q.nth_spec(i) == if i == index {
            value
        } else {
            p.nth_spec(i)
        } by {
            assert(q[i] == q@[i]);
            assert(p[i] == p@[i]);
        }
    }

    fn generate<F: Fn(usize) -> S>(generator: F) -> (r: Self) {
        [
            generator(0), generator(1), generator(2), generator(3), generator(4), generator(5), generator(6), generator(7),
        ]
    }

    fn nth(&self, index: usize) -> (r: S) {
        self[index]
    }

    fn nth_mut(&mut self, index: usize) -> (r: &mut S) {
        &mut self[index]
    }
}

impl<S: RTreeNum> Point for [S; 9] {
    type Scalar = S;

    const DIMENSIONS: usize = 9;

    open spec fn nth_spec(&self, index: int) -> S {
        self[index]
    }

    proof fn lemma_dimensions() {
    }

    proof fn lemma_extensional(a: Self, b: Self) {
        assert forall|i: int| 0 <= i < 9 implies a[i] == b[i] by {
            assert(a[i] == a.nth_spec(i) && b[i] == b.nth_spec(i));
        }
        assert(a@ =~= b@);
    }

    open spec fn with_nth_spec(&self, index: int, value: S) -> Self {
        vstd::array::spec_array_update(*self, index, value)
    }

    proof fn lemma_with_nth(p: Self, index: int, value: S) {
        broadcast use vstd::array::group_array_axioms;

        let q = vstd::array::spec_array_update(p, index, value);
        assert(q@ == p@.update(index, value));
        assert forall|i: int| 0 <= i < Self::DIMENSIONS implies #[trigger] q.nth_spec(i) == if i == index {
            value
        } else {
            p.nth_spec(i)
        } by {
            assert(q[i] == q@[i]);
            assert(p[i] == p@[i]);
        }
    }

    fn generate<F: Fn(usize) -> S>(generator: F) -> (r: Self) {
        [
            generator(0), generator(1), generator(2), generator(3), generator(4), generator(5), generator(6), generator(7), generator(8),
        ]
    }

    fn nth(&self, index: usize) -> (r: S) {
        self[index]
    }

    fn nth_mut(&mut self, index: usize) -> (r: &mut S) {
        &mut self[index]
    }
}

/// An array of two numbers has two dimensions.
pub proof fn lemma_dimensions_2<S: RTreeNum>()
    ensures
        <[S; 2] as Point>::DIMENSIONS == 2,
{
}

/// An array of three numbers has three dimensions.
pub proof fn lemma_dimensions_3<S: RTreeNum>()
    ensures
        <[S; 3] as Point>::DIMENSIONS == 3,
{
}

/// An array of four numbers has four dimensions.
pub proof fn lemma_dimensions_4<S: RTreeNum>()
    ensures
        <[S; 4] as Point>::DIMENSIONS == 4,
{
}

/// An array of five numbers has five dimensions.
pub proof fn lemma_dimensions_5<S: RTreeNum>()
    ensures
        <[S; 5] as Point>::DIMENSIONS == 5,
{
}

/// An array of six numbers has six dimensions.
pub proof fn lemma_dimensions_6<S: RTreeNum>()
    ensures
        <[S; 6] as Point>::DIMENSIONS == 6,
{
}

/// An array of seven numbers has seven dimensions.
pub proof fn lemma_dimensions_7<S: RTreeNum>()
    ensures
        <[S; 7] as Point>::DIMENSIONS == 7,
{
}

/// An array of eight numbers has eight dimensions.
pub proof fn lemma_dimensions_8<S: RTreeNum>()
    ensures
        <[S; 8] as Point>::DIMENSIONS == 8,
{
}

/// An array of nine numbers has nine dimensions.
pub proof fn lemma_dimensions_9<S: RTreeNum>()
    ensures
        <[S; 9] as Point>::DIMENSIONS == 9,
{
}

/// The value of the coordinate of `p` at `index`.
pub open spec fn coord<P: Point>(p: P, index: int) -> int {
    p.nth_spec(index).value()
}

/// The sum of the squares of the first `n` coordinates of `p`.
pub open spec fn sum_squares<P: Point>(p: P, n: int) -> int
    decreases n,
{
    if n <= 0 {
        0
    } else {
        sum_squares(p, n - 1) + coord(p, n - 1) * coord(p, n - 1)
    }
}

/// The squared euclidean distance of `a` and `b`, over the first `n` axes.
pub open spec fn distance_2_upto<P: Point>(a: P, b: P, n: int) -> int
    decreases n,
{
    if n <= 0 {
        0
    } else {
        distance_2_upto(a, b, n - 1) + (coord(a, n - 1) - coord(b, n - 1)) * (coord(a, n - 1)
            - coord(b, n - 1))
    }
}

/// The squared euclidean distance of `a` and `b`.
pub open spec fn point_distance_2<P: Point>(a: P, b: P) -> int {
    distance_2_upto(a, b, P::DIMENSIONS as int)
}

/// The dot product of `a` and `b` over the first `n` axes, each step saturating.
pub open spec fn dot_upto<P: Point>(a: P, b: P, n: int) -> int
    decreases n,
{
    if n <= 0 {
        0
    } else {
        saturate::<P::Scalar>(
            dot_upto(a, b, n - 1) + saturate::<P::Scalar>(coord(a, n - 1) * coord(b, n - 1)),
        )
    }
}

/// `a` and `b` have the same coordinates.
pub open spec fn same_point<P: Point>(a: P, b: P) -> bool {
    forall|i: int| 0 <= i < P::DIMENSIONS ==> coord(a, i) == coord(b, i)
}

/// Points with the same coordinates are equal.
pub proof fn lemma_same_point<P: Point>(a: P, b: P)
    requires
        same_point(a, b),
    ensures
        a == b,
{
    assert forall|i: int| 0 <= i < P::DIMENSIONS implies a.nth_spec(i) == b.nth_spec(i) by {
        assert(coord(a, i) == coord(b, i));
        P::Scalar::lemma_value_injective(a.nth_spec(i), b.nth_spec(i));
    }
    P::lemma_extensional(a, b);
}

/// Whether `a` and `b` are the same point.
pub fn points_equal<P: Point>(a: &P, b: &P) -> (r: bool)
    ensures
        r == (*a == *b),
{
    let mut i: usize = 0;
    while i < P::DIMENSIONS
        invariant
            i <= P::DIMENSIONS,
            forall|k: int| 0 <= k < i ==> #[trigger] coord(*a, k) == coord(*b, k),
        decreases P::DIMENSIONS - i,
    {
        if a.nth(i).less(b.nth(i)) || b.nth(i).less(a.nth(i)) {
            assert(coord(*a, i as int) != coord(*b, i as int));
            return false;
        }
        i = i + 1;
    }
    proof {
        assert(same_point(*a, *b));
        lemma_same_point(*a, *b);
    }
    true
}

/// Squares are not negative.
pub proof fn lemma_square_nonnegative(x: int)
    ensures
        x * x >= 0,
{
    assert(x * x >= 0) by (nonlinear_arith);
}

/// A square is at least as large as the square of a number that is no
/// further from zero.
pub proof fn lemma_square_monotone(x: int, y: int)
    requires
        (0 <= x <= y) || (y <= x <= 0),
    ensures
        x * x <= y * y,
{
    assert(((0 <= x <= y) || (y <= x <= 0)) ==> x * x <= y * y) by (nonlinear_arith);
}

/// A sum of squares is not negative.
pub proof fn lemma_sum_squares_nonnegative<P: Point>(p: P, n: int)
    ensures
        sum_squares(p, n) >= 0,
    decreases n,
{
    if n > 0 {
        lemma_sum_squares_nonnegative(p, n - 1);
        lemma_square_nonnegative(coord(p, n - 1));
    }
}

/// A squared distance is not negative.
pub proof fn lemma_distance_2_nonnegative<P: Point>(a: P, b: P, n: int)
    ensures
        distance_2_upto(a, b, n) >= 0,
    decreases n,
{
    if n > 0 {
        lemma_distance_2_nonnegative(a, b, n - 1);
        lemma_square_nonnegative(coord(a, n - 1) - coord(b, n - 1));
    }
}

/// Adding the saturated square of a saturated number to a saturated sum of
/// squares gives the saturated sum.
pub proof fn lemma_saturated_square_sum<S: RTreeNum>(d: int, s: int, witness: S)
    requires
        s >= 0,
    ensures
        saturate::<S>(saturate::<S>(saturate::<S>(d) * saturate::<S>(d)) + saturate::<S>(s))
            == saturate::<S>(d * d + s),
{
    S::lemma_limits(witness);
    let hi = S::upper_limit();
    let lo = S::lower_limit();
    let c = saturate::<S>(d);
    lemma_square_nonnegative(d);
    lemma_square_nonnegative(c);
    if lo <= d <= hi {
    } else if d > hi {
        lemma_square_monotone(hi, d);
        assert(hi * hi >= hi) by (nonlinear_arith)
            requires
                hi >= 1,
        ;
    } else {
        lemma_square_monotone(lo, d);
        assert(lo * lo >= hi) by (nonlinear_arith)
            requires
                lo == -hi - 1,
                hi >= 1,
        ;
    }
}

/// `steps` are the values that a fold of the coordinates of `p` with `f`
/// passes through: it starts with `start_value`, and each step is what `f`
/// returns for the step before it and the next coordinate.
pub open spec fn is_fold<P: Point, T, F: Fn(T, P::Scalar) -> T>(
    p: P,
    start_value: T,
    f: F,
    steps: Seq<T>,
) -> bool {
    &&& steps.len() == P::DIMENSIONS + 1
    &&& steps[0] == start_value
    &&& forall|k: int|
        0 <= k < P::DIMENSIONS ==> call_ensures(f, (#[trigger] steps[k], p.nth_spec(k)), steps[k + 1])
}

/// Operations on points that follow from reading and generating coordinates.
pub trait PointExt: Point {
    /// The point with all coordinates zero.
    fn new() -> (r: Self)
        ensures
            forall|i: int| 0 <= i < Self::DIMENSIONS ==> #[trigger] coord(r, i) == 0,
    {
        Self::from_value(Self::Scalar::zero())
    }

    /// The point with every coordinate `value`.
    fn from_value(value: Self::Scalar) -> (r: Self)
        ensures
            forall|i: int| 0 <= i < Self::DIMENSIONS ==> #[trigger] r.nth_spec(i) == value,
    {
        let f = |i: usize| -> (s: Self::Scalar)
            ensures
                s == value,
            { value };
        let r = Self::generate(f);
        assert forall|i: int| 0 <= i < Self::DIMENSIONS implies #[trigger] r.nth_spec(i)
            == value by {
            assert(call_ensures(f, (i as usize,), r.nth_spec(i as usize as int)));
        }
        r
    }

    /// The componentwise saturating difference.
    fn sub(&self, other: &Self) -> (r: Self)
        ensures
            forall|i: int|
                0 <= i < Self::DIMENSIONS ==> #[trigger] coord(r, i) == saturate::<Self::Scalar>(
                    coord(*self, i) - coord(*other, i),
                ),
    {
        let f = |i: usize| -> (s: Self::Scalar)
            requires
                i < Self::DIMENSIONS,
            ensures
                s.value() == saturate::<Self::Scalar>(coord(*self, i as int) - coord(*other, i as int)),
            { self.nth(i).sub(other.nth(i)) };
        let r = Self::generate(f);
        assert forall|i: int| 0 <= i < Self::DIMENSIONS implies #[trigger] coord(r, i) == saturate::<
            Self::Scalar,
        >(coord(*self, i) - coord(*other, i)) by {
            assert(call_ensures(f, (i as usize,), r.nth_spec(i as usize as int)));
        }
        r
    }

    /// The point whose coordinates are `f` of the coordinates of `self` and `other`.
    fn component_wise<F: Fn(Self::Scalar, Self::Scalar) -> Self::Scalar>(
        &self,
        other: &Self,
        f: F,
    ) -> (r: Self)
        requires
            forall|i: int|
                0 <= i < Self::DIMENSIONS ==> call_requires(
                    f,
                    (#[trigger] self.nth_spec(i), other.nth_spec(i)),
                ),
        ensures
            forall|i: int|
                0 <= i < Self::DIMENSIONS ==> call_ensures(
                    f,
                    (self.nth_spec(i), other.nth_spec(i)),
                    #[trigger] r.nth_spec(i),
                ),
    {
        let mut r = *self;
        let mut i: usize = 0;
        while i < Self::DIMENSIONS
            invariant
                i <= Self::DIMENSIONS,
                forall|k: int|
                    0 <= k < Self::DIMENSIONS ==> call_requires(
                        f,
                        (#[trigger] self.nth_spec(k), other.nth_spec(k)),
                    ),
                forall|k: int|
                    0 <= k < i ==> call_ensures(
                        f,
                        (self.nth_spec(k), other.nth_spec(k)),
                        #[trigger] r.nth_spec(k),
                    ),
            decreases Self::DIMENSIONS - i,
        {
            assert(call_requires(f, (self.nth_spec(i as int), other.nth_spec(i as int))));
            let v = f(self.nth(i), other.nth(i));
            *r.nth_mut(i) = v;
            i = i + 1;
        }
        r
    }

    /// Folds the coordinates with `f`, from the first to the last: starting
    /// with `start_value`, each call of `f` gets what the call before it
    /// returned and the next coordinate, and the last of them returns the
    /// result.
    fn fold<T, F: Fn(T, Self::Scalar) -> T>(&self, start_value: T, f: F) -> (r: T)
        requires
            forall|accumulated: T, i: int|
                0 <= i < Self::DIMENSIONS ==> #[trigger] call_requires(
                    f,
                    (accumulated, self.nth_spec(i)),
                ),
        ensures
            exists|steps: Seq<T>| #[trigger]
                is_fold(*self, start_value, f, steps) && r == steps[Self::DIMENSIONS as int],
    {
        let mut accumulated = start_value;
        let ghost mut steps: Seq<T> = seq![start_value];
        let mut i: usize = 0;
        while i < Self::DIMENSIONS
            invariant
                i <= Self::DIMENSIONS,
                steps.len() == i + 1,
                steps[0] == start_value,
                steps[i as int] == accumulated,
                forall|accumulated: T, k: int|
                    0 <= k < Self::DIMENSIONS ==> #[trigger] call_requires(
                        f,
                        (accumulated, self.nth_spec(k)),
                    ),
                forall|k: int|
                    0 <= k < i ==> call_ensures(
                        f,
                        (#[trigger] steps[k], self.nth_spec(k)),
                        steps[k + 1],
                    ),
            decreases Self::DIMENSIONS - i,
        {
            let ghost before = steps;
            let ghost given = accumulated;
            assert(call_requires(f, (accumulated, self.nth_spec(i as int))));
            accumulated = f(accumulated, self.nth(i));
            proof {
                steps = steps.push(accumulated);
                assert forall|k: int| 0 <= k < i + 1 implies call_ensures(
                    f,
                    (#[trigger] steps[k], self.nth_spec(k)),
                    steps[k + 1],
                ) by {
                    if k < i {
                        assert(steps[k] == before[k]);
                        assert(steps[k + 1] == before[k + 1]);
                    } else {
                        assert(steps[k] == given);
                    }
                }
            }
            i = i + 1;
        }
        proof {
            assert(is_fold(*self, start_value, f, steps));
        }
        accumulated
    }

    /// Whether `f` holds of every pair of coordinates of `self` and `other`.
    /// Stops at the first pair of which it does not.
    fn all_component_wise<F: Fn(Self::Scalar, Self::Scalar) -> bool>(
        &self,
        other: &Self,
        f: F,
    ) -> (r: bool)
        requires
            forall|i: int|
                0 <= i < Self::DIMENSIONS ==> call_requires(
                    f,
                    (#[trigger] self.nth_spec(i), other.nth_spec(i)),
                ),
        ensures
            r ==> forall|i: int|
                0 <= i < Self::DIMENSIONS ==> call_ensures(
                    f,
                    (#[trigger] self.nth_spec(i), other.nth_spec(i)),
                    true,
                ),
            !r ==> exists|i: int|
                0 <= i < Self::DIMENSIONS && call_ensures(
                    f,
                    (#[trigger] self.nth_spec(i), other.nth_spec(i)),
                    false,
                ),
    {
        let mut i: usize = 0;
        while i < Self::DIMENSIONS
            invariant
                i <= Self::DIMENSIONS,
                forall|k: int|
                    0 <= k < Self::DIMENSIONS ==> call_requires(
                        f,
                        (#[trigger] self.nth_spec(k), other.nth_spec(k)),
                    ),
                forall|k: int|
                    0 <= k < i ==> call_ensures(
                        f,
                        (#[trigger] self.nth_spec(k), other.nth_spec(k)),
                        true,
                    ),
            decreases Self::DIMENSIONS - i,
        {
            assert(call_requires(f, (self.nth_spec(i as int), other.nth_spec(i as int))));
            if !f(self.nth(i), other.nth(i)) {
                assert(call_ensures(f, (self.nth_spec(i as int), other.nth_spec(i as int)), false));
                return false;
            }
            i = i + 1;
        }
        true
    }

    /// The point whose coordinates are `f` of the coordinates of `self`.
    fn map<F: Fn(Self::Scalar) -> Self::Scalar>(&self, f: F) -> (r: Self)
        requires
            forall|i: int|
                0 <= i < Self::DIMENSIONS ==> call_requires(f, (#[trigger] self.nth_spec(i),)),
        ensures
            forall|i: int|
                0 <= i < Self::DIMENSIONS ==> call_ensures(
                    f,
                    (self.nth_spec(i),),
                    #[trigger] r.nth_spec(i),
                ),
    {
        let mut r = *self;
        let mut i: usize = 0;
        while i < Self::DIMENSIONS
            invariant
                i <= Self::DIMENSIONS,
                forall|k: int|
                    0 <= k < Self::DIMENSIONS ==> call_requires(f, (#[trigger] self.nth_spec(k),)),
                forall|k: int|
                    0 <= k < i ==> call_ensures(f, (self.nth_spec(k),), #[trigger] r.nth_spec(k)),
            decreases Self::DIMENSIONS - i,
        {
            assert(call_requires(f, (self.nth_spec(i as int),)));
            let v = f(self.nth(i));
            *r.nth_mut(i) = v;
            i = i + 1;
        }
        r
    }

    /// The componentwise minimum.
    fn min_point(&self, other: &Self) -> (r: Self)
        ensures
            forall|i: int|
                0 <= i < Self::DIMENSIONS ==> #[trigger] r.nth_spec(i) == if coord(*self, i)
                    < coord(*other, i) {
                    self.nth_spec(i)
                } else {
                    other.nth_spec(i)
                },
    {
        let f = |i: usize| -> (s: Self::Scalar)
            requires
                i < Self::DIMENSIONS,
            ensures
                s == if coord(*self, i as int) < coord(*other, i as int) {
                    self.nth_spec(i as int)
                } else {
                    other.nth_spec(i as int)
                },
            { min_inline(self.nth(i), other.nth(i)) };
        let r = Self::generate(f);
        assert forall|i: int| 0 <= i < Self::DIMENSIONS implies #[trigger] r.nth_spec(i) == if coord(
            *self,
            i,
        ) < coord(*other, i) {
            self.nth_spec(i)
        } else {
            other.nth_spec(i)
        } by {
            assert(call_ensures(f, (i as usize,), r.nth_spec(i as usize as int)));
        }
        r
    }

    /// The componentwise maximum.
    fn max_point(&self, other: &Self) -> (r: Self)
        ensures
            forall|i: int|
                0 <= i < Self::DIMENSIONS ==> #[trigger] r.nth_spec(i) == if coord(*self, i)
                    > coord(*other, i) {
                    self.nth_spec(i)
                } else {
                    other.nth_spec(i)
                },
    {
        let f = |i: usize| -> (s: Self::Scalar)
            requires
                i < Self::DIMENSIONS,
            ensures
                s == if coord(*self, i as int) > coord(*other, i as int) {
                    self.nth_spec(i as int)
                } else {
                    other.nth_spec(i as int)
                },
            { max_inline(self.nth(i), other.nth(i)) };
        let r = Self::generate(f);
        assert forall|i: int| 0 <= i < Self::DIMENSIONS implies #[trigger] r.nth_spec(i) == if coord(
            *self,
            i,
        ) > coord(*other, i) {
            self.nth_spec(i)
        } else {
            other.nth_spec(i)
        } by {
            assert(call_ensures(f, (i as usize,), r.nth_spec(i as usize as int)));
        }
        r
    }

    /// The componentwise saturating sum.
    fn add(&self, other: &Self) -> (r: Self)
        ensures
            forall|i: int|
                0 <= i < Self::DIMENSIONS ==> #[trigger] coord(r, i) == saturate::<Self::Scalar>(
                    coord(*self, i) + coord(*other, i),
                ),
    {
        let f = |i: usize| -> (s: Self::Scalar)
            requires
                i < Self::DIMENSIONS,
            ensures
                s.value() == saturate::<Self::Scalar>(coord(*self, i as int) + coord(*other, i as int)),
            { self.nth(i).add(other.nth(i)) };
        let r = Self::generate(f);
        assert forall|i: int| 0 <= i < Self::DIMENSIONS implies #[trigger] coord(r, i) == saturate::<
            Self::Scalar,
        >(coord(*self, i) + coord(*other, i)) by {
            assert(call_ensures(f, (i as usize,), r.nth_spec(i as usize as int)));
        }
        r
    }

    /// Every coordinate multiplied by `scalar`, saturating.
    fn mul(&self, scalar: Self::Scalar) -> (r: Self)
        ensures
            forall|i: int|
                0 <= i < Self::DIMENSIONS ==> #[trigger] coord(r, i) == saturate::<Self::Scalar>(
                    coord(*self, i) * scalar.value(),
                ),
    {
        let f = |i: usize| -> (s: Self::Scalar)
            requires
                i < Self::DIMENSIONS,
            ensures
                s.value() == saturate::<Self::Scalar>(coord(*self, i as int) * scalar.value()),
            { self.nth(i).mul(scalar) };
        let r = Self::generate(f);
        assert forall|i: int| 0 <= i < Self::DIMENSIONS implies #[trigger] coord(r, i) == saturate::<
            Self::Scalar,
        >(coord(*self, i) * scalar.value()) by {
            assert(call_ensures(f, (i as usize,), r.nth_spec(i as usize as int)));
        }
        r
    }

    /// The dot product, each step saturating.
    fn dot(&self, rhs: &Self) -> (r: Self::Scalar)
        ensures
            r.value() == dot_upto(*self, *rhs, Self::DIMENSIONS as int),
    {
        let mut acc = Self::Scalar::zero();
        let mut i: usize = 0;
        while i < Self::DIMENSIONS
            invariant
                i <= Self::DIMENSIONS,
                acc.value() == dot_upto(*self, *rhs, i as int),
            decreases Self::DIMENSIONS - i,
        {
            acc = acc.add(self.nth(i).mul(rhs.nth(i)));
            i = i + 1;
        }
        acc
    }

    /// The squared length of the point as a vector, saturating.
    fn length_2(&self) -> (r: Self::Scalar)
        ensures
            r.value() == saturate::<Self::Scalar>(sum_squares(*self, Self::DIMENSIONS as int)),
    {
        let mut acc = Self::Scalar::zero();
        let mut i: usize = 0;
        proof {
            Self::Scalar::lemma_limits(acc);
        }
        while i < Self::DIMENSIONS
            invariant
                i <= Self::DIMENSIONS,
                acc.value() == saturate::<Self::Scalar>(sum_squares(*self, i as int)),
            decreases Self::DIMENSIONS - i,
        {
            let cur = self.nth(i);
            proof {
                Self::Scalar::lemma_limits(cur);
                lemma_sum_squares_nonnegative(*self, i as int);
                lemma_saturated_square_sum::<Self::Scalar>(cur.value(), sum_squares(*self, i as int), cur);
            }
            acc = cur.mul(cur).add(acc);
            i = i + 1;
        }
        acc
    }

    /// The squared euclidean distance to `other`, saturating.
    fn distance_2(&self, other: &Self) -> (r: Self::Scalar)
        ensures
            r.value() == saturate::<Self::Scalar>(point_distance_2(*self, *other)),
    {
        let mut acc = Self::Scalar::zero();
        let mut i: usize = 0;
        proof {
            Self::Scalar::lemma_limits(acc);
        }
        while i < Self::DIMENSIONS
            invariant
                i <= Self::DIMENSIONS,
                acc.value() == saturate::<Self::Scalar>(distance_2_upto(*self, *other, i as int)),
            decreases Self::DIMENSIONS - i,
        {
            let d = self.nth(i).sub(other.nth(i));
            proof {
                lemma_distance_2_nonnegative(*self, *other, i as int);
                lemma_saturated_square_sum::<Self::Scalar>(
                    coord(*self, i as int) - coord(*other, i as int),
                    distance_2_upto(*self, *other, i as int),
                    d,
                );
            }
            acc = d.mul(d).add(acc);
            i = i + 1;
        }
        acc
    }
}

impl<P: Point> PointExt for P {

}

} // verus!
