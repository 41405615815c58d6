//! Algebra on vectors of three components.
use vstd::prelude::*;
use crate::scalar::obeys;
use crate::scalar::Arithmetic;
use crate::scalar::Scalar;

verus! {

impl<T> Arithmetic<T> {
    /// The sum of two vectors, component by component.
    pub open spec fn v_sum(self, a: [T; 3], b: [T; 3]) -> [T; 3] {
        [(self.sum)(a[0], b[0]), (self.sum)(a[1], b[1]), (self.sum)(a[2], b[2])]
    }

    /// The vector `a - b`, component by component.
    pub open spec fn v_difference(self, a: [T; 3], b: [T; 3]) -> [T; 3] {
        [
            (self.difference)(a[0], b[0]),
            (self.difference)(a[1], b[1]),
            (self.difference)(a[2], b[2]),
        ]
    }

    /// The vector `v` with each component multiplied by `s`.
    pub open spec fn v_scaled(self, v: [T; 3], s: T) -> [T; 3] {
        [(self.product)(s, v[0]), (self.product)(s, v[1]), (self.product)(s, v[2])]
    }

    /// The vector of three zeros.
    pub open spec fn v_zero(self) -> [T; 3] {
        [self.zero, self.zero, self.zero]
    }

    /// The square of the distance between `a` and `b`: the squares of the
    /// three component differences, added up from zero in order.
    pub open spec fn squared_distance(self, a: [T; 3], b: [T; 3]) -> T {
        let d = self.v_difference(a, b);
        (self.sum)(
            (self.sum)(
                (self.sum)(self.zero, (self.product)(d[0], d[0])),
                (self.product)(d[1], d[1]),
            ),
            (self.product)(d[2], d[2]),
        )
    }

    /// The vector from `a` to `b` divided by the square root of `dist_sq`:
    /// the unit vector from `a` towards `b` when `dist_sq` is the square of
    /// their distance.
    pub open spec fn unit_direction(self, a: [T; 3], b: [T; 3], dist_sq: T) -> [T; 3] {
        self.v_scaled(
            self.v_difference(b, a),
            (self.quotient)((self.count)(1), (self.square_root)(dist_sq)),
        )
    }
}

/// Adds two vectors, or subtracts the second from the first.
pub fn vec_add<T: Scalar>(vec1: &[T; 3], vec2: &[T; 3], subtract: bool) -> (new_vec: [T; 3])
    ensures
        forall|arith: Arithmetic<T>| #[trigger]
            obeys(arith) ==> new_vec == if subtract {
                arith.v_difference(*vec1, *vec2)
            } else {
                arith.v_sum(*vec1, *vec2)
            },
{
    let new_vec = if subtract {
        [vec1[0].minus(vec2[0]), vec1[1].minus(vec2[1]), vec1[2].minus(vec2[2])]
    } else {
        [vec1[0].plus(vec2[0]), vec1[1].plus(vec2[1]), vec1[2].plus(vec2[2])]
    };
    proof {
        assert forall|arith: Arithmetic<T>| #[trigger] obeys(arith) implies new_vec == if subtract {
            arith.v_difference(*vec1, *vec2)
        } else {
            arith.v_sum(*vec1, *vec2)
        } by {
            if subtract {
                assert(new_vec =~= arith.v_difference(*vec1, *vec2));
            } else {
                assert(new_vec =~= arith.v_sum(*vec1, *vec2));
            }
        }
    }
    new_vec
}

/// Multiplies each component of a vector by `scalar`.
pub fn scalar_mult<T: Scalar>(vec: &[T; 3], scalar: T) -> (new_vec: [T; 3])
    ensures
        forall|arith: Arithmetic<T>| #[trigger]
            obeys(arith) ==> new_vec == arith.v_scaled(*vec, scalar),
{
    let new_vec = [scalar.times(vec[0]), scalar.times(vec[1]), scalar.times(vec[2])];
    proof {
        assert forall|arith: Arithmetic<T>| #[trigger] obeys(arith) implies new_vec
            == arith.v_scaled(*vec, scalar) by {
            assert(new_vec =~= arith.v_scaled(*vec, scalar));
        }
    }
    new_vec
}

/// The square of the distance between two positions.
pub fn dist_sq<T: Scalar>(pos1: &[T; 3], pos2: &[T; 3]) -> (total: T)
    ensures
        forall|arith: Arithmetic<T>| #[trigger]
            obeys(arith) ==> total == arith.squared_distance(*pos1, *pos2),
{
    let d = vec_add(pos1, pos2, true);
    let mut total = T::default();
    total = total.plus(d[0].times(d[0]));
    total = total.plus(d[1].times(d[1]));
    total = total.plus(d[2].times(d[2]));
    total
}

/// The unit vector that points from `pos1` to `pos2`, given the square of
/// their distance.
pub fn norm_dist<T: Scalar>(pos1: &[T; 3], pos2: &[T; 3], dist_sq: T) -> (unit: [T; 3])
    ensures
        forall|arith: Arithmetic<T>| #[trigger]
            obeys(arith) ==> unit == arith.unit_direction(*pos1, *pos2, dist_sq),
{
    let norm_fact = T::from_count(1).over(dist_sq.root());
    let dist_vec = vec_add(pos2, pos1, true);
    scalar_mult(&dist_vec, norm_fact)
}

} // verus!
