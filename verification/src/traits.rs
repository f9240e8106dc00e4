use vstd::prelude::*;

verus! {

/// The absolute difference of two integers.
pub open spec fn abs_diff(x: int, y: int) -> int {
    if x >= y {
        x - y
    } else {
        y - x
    }
}

/// An arbitrary distance between two objects, together with its
/// mathematical statement: an implementation promises that `distance`
/// computes exactly `spec_distance`.
pub trait Distance<O> {
    /// The value `distance` returns, as a function of the two objects.
    spec fn spec_distance(&self, other: &Self) -> O;

    /// Distance between `self` and `other`.
    fn distance(&self, other: &Self) -> (r: O)
        ensures
            r == self.spec_distance(other),
    ;
}

/// The default metric: the absolute difference, which always fits in
/// `u64` for 64-bit signed values.
impl Distance<u64> for i64 {
    open spec fn spec_distance(&self, other: &Self) -> u64 {
        abs_diff(*self as int, *other as int) as u64
    }

    fn distance(&self, other: &Self) -> (r: u64) {
        let x: i128 = *self as i128;
        let y: i128 = *other as i128;
        if x >= y {
            proof {
                assert(0 <= x - y <= u64::MAX);
            }
            (x - y) as u64
        } else {
            proof {
                assert(0 <= y - x <= u64::MAX);
            }
            (y - x) as u64
        }
    }
}

/// The grid of local distances between every pair of elements of `a` and
/// `b`, under the elements' own metric.
pub open spec fn dist_grid<T: Distance<u64>>(a: Seq<T>, b: Seq<T>) -> Seq<Seq<int>> {
    Seq::new(a.len(), |i: int| Seq::new(b.len(), |j: int| a[i].spec_distance(&b[j]) as int))
}

} // verus!
