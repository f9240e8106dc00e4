use vstd::prelude::*;

verus! {

use vstd::arithmetic::div_mod::{
    lemma_div_is_ordered,
    lemma_div_multiples_vanish_fancy,
    lemma_div_pos_is_pos,
};

/// The policy that decides which matrix cells may take part in a warping
/// path: either the whole grid, or a Sakoe-Chiba band of the given radius
/// around the interpolated diagonal.
#[derive(Debug, PartialEq, Eq, Structural, Clone, Copy, Default)]
pub enum Restriction {
    #[default]
    Unrestricted,
    Band(usize),
}

/// The integer nearest to `p / q`, ties rounded down (`q > 0`, `p >= 0`).
pub open spec fn round_ratio(p: int, q: int) -> int {
    (2 * p + q - 1) / (2 * q)
}

/// The column where the diagonal interpolated from `(0, 0)` to
/// `(n - 1, m - 1)` crosses row `i`, for `n >= 2`.
pub open spec fn band_center(n: int, m: int, i: int) -> int
    recommends
        n >= 2,
        m >= 1,
{
    round_ratio(i * (m - 1), n - 1)
}

/// First admissible column of row `i` for shape `(n, m)`.
pub open spec fn row_lo(rest: Restriction, n: int, m: int, i: int) -> int {
    match rest {
        Restriction::Unrestricted => 0,
        Restriction::Band(radius) => {
            if n <= 1 {
                0
            } else {
                let c = band_center(n, m, i);
                if c - radius > 0 {
                    c - radius
                } else {
                    0
                }
            }
        },
    }
}

/// One past the last admissible column of row `i` for shape `(n, m)`.
pub open spec fn row_hi(rest: Restriction, n: int, m: int, i: int) -> int {
    match rest {
        Restriction::Unrestricted => m,
        Restriction::Band(radius) => {
            let c = if n <= 1 {
                0
            } else {
                band_center(n, m, i)
            };
            if c + radius + 1 < m {
                c + radius + 1
            } else {
                m
            }
        },
    }
}

/// A cell `(i, j)` of a matrix of shape `(n, m)` may take part in the
/// dynamic-programming pass.
pub open spec fn admissible(rest: Restriction, n: int, m: int, i: int, j: int) -> bool {
    &&& 0 <= i < n
    &&& row_lo(rest, n, m, i) <= j < row_hi(rest, n, m, i)
}

/// Strict row-major order on cell indices.
pub open spec fn index_lt(p: (usize, usize), q: (usize, usize)) -> bool {
    p.0 < q.0 || (p.0 == q.0 && p.1 < q.1)
}

/// The band center lies on the grid: `0 <= center <= m - 1`.
pub(crate) proof fn lemma_center_bounds(n: int, m: int, i: int)
    requires
        n >= 2,
        m >= 1,
        0 <= i <= n - 1,
    ensures
        0 <= band_center(n, m, i) <= m - 1,
{
    let q = n - 1;
    let p = i * (m - 1);
    assert(0 <= p <= q * (m - 1)) by (nonlinear_arith)
        requires
            p == i * (m - 1),
            q == n - 1,
            0 <= i <= q,
            m >= 1,
    ;
    lemma_div_pos_is_pos(2 * p + q - 1, 2 * q);
    assert(2 * p + q - 1 <= 2 * q * (m - 1) + q - 1) by (nonlinear_arith)
        requires
            p <= q * (m - 1),
    ;
    lemma_div_is_ordered(2 * p + q - 1, 2 * q * (m - 1) + q - 1, 2 * q);
    assert(2 * q * (m - 1) + q - 1 == (2 * q) * (m - 1) + (q - 1)) by (nonlinear_arith)
        requires
            q >= 1,
    ;
    lemma_div_multiples_vanish_fancy(m - 1, q - 1, 2 * q);
    assert(((2 * q) * (m - 1) + (q - 1)) / (2 * q) == m - 1);
}

/// Admissible column ranges are well formed: `0 <= lo <= hi <= m`.
pub(crate) proof fn lemma_row_range(rest: Restriction, n: int, m: int, i: int)
    requires
        n >= 1,
        m >= 1,
        0 <= i < n,
    ensures
        0 <= row_lo(rest, n, m, i),
        row_lo(rest, n, m, i) <= row_hi(rest, n, m, i),
        row_hi(rest, n, m, i) <= m,
{
    match rest {
        Restriction::Unrestricted => {},
        Restriction::Band(_) => {
            if n >= 2 {
                lemma_center_bounds(n, m, i);
            }
        },
    }
}

impl Restriction {
    /// Whether the cell `index` is admissible in a matrix of shape `shape`.
    pub fn contains(&self, index: (usize, usize), shape: (usize, usize)) -> (r: bool)
        requires
            shape.0 * shape.1 <= usize::MAX,
        ensures
            r == admissible(
                *self,
                shape.0 as int,
                shape.1 as int,
                index.0 as int,
                index.1 as int,
            ),
    {
        let (i, j) = index;
        let (n, m) = shape;
        if i >= n || m == 0 {
            proof {
                if m == 0 {
                    assert(row_hi(*self, n as int, m as int, i as int) <= 0);
                }
            }
            false
        } else {
            let (lo, hi) = self.range(shape, i);
            lo <= j && j < hi
        }
    }

    /// Every admissible cell of a matrix of shape `shape`, in row-major
    /// order, each cell after all of its possible predecessors.
    pub fn iter(&self, shape: (usize, usize)) -> (r: Vec<(usize, usize)>)
        requires
            shape.0 * shape.1 <= usize::MAX,
        ensures
            forall|k: int|
                0 <= k < r@.len() ==> admissible(
                    *self,
                    shape.0 as int,
                    shape.1 as int,
                    r@[k].0 as int,
                    r@[k].1 as int,
                ),
            forall|p: (usize, usize)|
                admissible(*self, shape.0 as int, shape.1 as int, p.0 as int, p.1 as int)
                    ==> r@.contains(p),
            forall|k1: int, k2: int|
                0 <= k1 < k2 < r@.len() ==> index_lt(r@[k1], r@[k2]),
    {
        let (n, m) = shape;
        let ghost gn = n as int;
        let ghost gm = m as int;
        let mut r: Vec<(usize, usize)> = Vec::new();
        if m == 0 {
            proof {
                assert forall|p: (usize, usize)|
                    !admissible(*self, gn, gm, p.0 as int, p.1 as int) by {
                    assert(row_hi(*self, gn, gm, p.0 as int) <= 0);
                }
            }
            return r;
        }
        let mut i: usize = 0;
        while i < n
            invariant
                i <= n,
                m >= 1,
                n as int == gn,
                m as int == gm,
                shape == (n, m),
                shape.0 * shape.1 <= usize::MAX,
                forall|k: int|
                    0 <= k < r@.len() ==> admissible(
                        *self,
                        gn,
                        gm,
                        r@[k].0 as int,
                        r@[k].1 as int,
                    ),
                forall|p: (usize, usize)|
                    admissible(*self, gn, gm, p.0 as int, p.1 as int) && p.0 < i ==> r@.contains(
                        p,
                    ),
                forall|k: int| 0 <= k < r@.len() ==> (r@[k].0 as int) < i as int,
                forall|k1: int, k2: int| 0 <= k1 < k2 < r@.len() ==> index_lt(r@[k1], r@[k2]),
            decreases n - i,
        {
            let (lo, hi) = self.range(shape, i);
            let mut j: usize = lo;
            while j < hi
                invariant
                    m >= 1,
                    i < n,
                    n as int == gn,
                    m as int == gm,
                    shape == (n, m),
                    shape.0 * shape.1 <= usize::MAX,
                    lo as int == row_lo(*self, gn, gm, i as int),
                    hi as int == row_hi(*self, gn, gm, i as int),
                    lo <= j <= hi,
                    forall|k: int|
                        0 <= k < r@.len() ==> admissible(
                            *self,
                            gn,
                            gm,
                            r@[k].0 as int,
                            r@[k].1 as int,
                        ),
                    forall|p: (usize, usize)|
                        admissible(*self, gn, gm, p.0 as int, p.1 as int) && (p.0 < i || (p.0 == i
                            && (p.1 as int) < j as int)) ==> r@.contains(p),
                    forall|k: int| 0 <= k < r@.len() ==> index_lt(r@[k], (i, j)),
                    forall|k1: int, k2: int| 0 <= k1 < k2 < r@.len() ==> index_lt(r@[k1], r@[k2]),
                decreases hi - j,
            {
                let ghost r0 = r@;
                r.push((i, j));
                proof {
                    assert(r@ == r0.push((i, j)));
                    assert forall|p: (usize, usize)|
                        admissible(*self, gn, gm, p.0 as int, p.1 as int) && (p.0 < i || (p.0 == i
                            && (p.1 as int) < j as int + 1)) implies r@.contains(p) by {
                        if p.0 < i || (p.0 == i && (p.1 as int) < j as int) {
                            assert(r0.contains(p));
                            let k = choose|k: int| 0 <= k < r0.len() && r0[k] == p;
                            assert(r@[k] == p);
                        } else {
                            assert(p == (i, j));
                            assert(r@[r0.len() as int] == (i, j));
                        }
                    }
                    assert forall|k1: int, k2: int| 0 <= k1 < k2 < r@.len() implies index_lt(
                        r@[k1],
                        r@[k2],
                    ) by {
                        if k2 < r0.len() {
                            assert(r@[k1] == r0[k1] && r@[k2] == r0[k2]);
                        } else {
                            assert(r@[k2] == (i, j));
                            assert(r@[k1] == r0[k1]);
                            assert(index_lt(r0[k1], (i, j)));
                        }
                    }
                }
                j = j + 1;
            }
            proof {
                assert forall|p: (usize, usize)|
                    admissible(*self, gn, gm, p.0 as int, p.1 as int) && p.0 < i + 1 implies r@
                    .contains(p) by {
                    if p.0 == i {
                        assert((p.1 as int) < row_hi(*self, gn, gm, i as int));
                    }
                }
            }
            i = i + 1;
        }
        r
    }

    /// The half-open admissible column range `[lo, hi)` of row `i`.
    pub(crate) fn range(&self, shape: (usize, usize), i: usize) -> (r: (usize, usize))
        requires
            shape.0 * shape.1 <= usize::MAX,
            shape.1 >= 1,
            i < shape.0,
        ensures
            r.0 as int == row_lo(*self, shape.0 as int, shape.1 as int, i as int),
            r.1 as int == row_hi(*self, shape.0 as int, shape.1 as int, i as int),
            r.0 <= r.1 <= shape.1,
    {
        let (n, m) = shape;
        proof {
            lemma_row_range(*self, n as int, m as int, i as int);
        }
        match self {
            Restriction::Unrestricted => (0, m),
            Restriction::Band(radius) => {
                let radius = *radius;
                let c: usize = if n == 1 {
                    0
                } else {
                    band_center_at(n, m, i)
                };
                let lo: usize = if c > radius {
                    c - radius
                } else {
                    0
                };
                let hi: usize = if radius >= m - c {
                    m
                } else {
                    c + radius + 1
                };
                (lo, hi)
            },
        }
    }
}

/// Computes `band_center` exactly, in 128-bit arithmetic.
fn band_center_at(n: usize, m: usize, i: usize) -> (c: usize)
    requires
        n >= 2,
        m >= 1,
        i < n,
        n * m <= usize::MAX,
    ensures
        c as int == band_center(n as int, m as int, i as int),
        c < m,
{
    proof {
        lemma_center_bounds(n as int, m as int, i as int);
        assert((i as int) * ((m - 1) as int) <= ((n - 1) as int) * ((m - 1) as int))
            by (nonlinear_arith)
            requires (i as int) <= (n - 1) as int && m >= 1;
        assert(((n - 1) as int) * ((m - 1) as int) < (n as int) * (m as int))
            by (nonlinear_arith)
            requires n >= 1 && m >= 1;
    }
    let p: u128 = (i as u128) * ((m - 1) as u128);
    let num: u128 = 2 * p + ((n - 1) as u128) - 1;
    let den: u128 = 2 * ((n - 1) as u128);
    let c: u128 = num / den;
    proof {
        assert(c as int == band_center(n as int, m as int, i as int));
    }
    c as usize
}

} // verus!
