use vstd::prelude::*;

verus! {

use crate::element::Element;
use crate::matrix::{lemma_row_major_index_bound, Matrix};
use crate::model::{back_path, cell_cost, cost_grid, elem_gt, elem_min, elem_plus, lemma_back_path_last, lemma_cost_bound, lift, local_grid, path_view, step_back};
use crate::restriction::{admissible, row_hi, row_lo, Restriction};
use crate::traits::{dist_grid, Distance};

/// Why a query on a dynamic time warping computation failed.
#[derive(Debug, PartialEq, Eq, Structural, Clone, Copy)]
pub enum Error {
    /// A requested cell lies at or beyond the matrix shape.
    IndexOutOfBounds,
    /// An input sequence is empty.
    InvalidDimensions,
    /// The restriction cuts every path to the requested cell.
    InfeasibleBand,
}

/// Compares two machine costs in the cost order.
fn elem_gt_exec(a: &Element<u128>, b: &Element<u128>) -> (r: bool)
    ensures
        r == elem_gt(lift(*a), lift(*b)),
{
    match (a, b) {
        (Element::Inf, Element::Value(_)) => true,
        (Element::Value(x), Element::Value(y)) => *x > *y,
        _ => false,
    }
}

/// Index of the cheapest of `a` (diagonal), `b` (up), `c` (left), ties
/// resolved in that order: the first strictly smaller candidate wins.
fn arg_min(a: &Element<u128>, b: &Element<u128>, c: &Element<u128>) -> (k: usize)
    ensures
        k == (if elem_gt(lift(*a), lift(*b)) {
            if elem_gt(lift(*b), lift(*c)) {
                2int
            } else {
                1int
            }
        } else {
            if elem_gt(lift(*a), lift(*c)) {
                2int
            } else {
                0int
            }
        }),
{
    if elem_gt_exec(a, b) {
        if elem_gt_exec(b, c) {
            2
        } else {
            1
        }
    } else {
        if elem_gt_exec(a, c) {
            2
        } else {
            0
        }
    }
}

/// The predecessor of `index` under the local minimum rule, or `None` at
/// the origin: the cheapest of the diagonal, up and left cells, ties
/// resolved in that order.
fn preceeding_cost(matrix: &Matrix<Element<u128>>, index: (usize, usize)) -> (r: Option<
    (usize, usize),
>)
    requires
        matrix.wf(),
        index.0 < matrix.rows(),
        index.1 < matrix.cols(),
    ensures
        ({
            let i = index.0 as int;
            let j = index.1 as int;
            if i == 0 && j == 0 {
                r is None
            } else {
                r matches Some(p) && (p.0 as int, p.1 as int) == crate::model::step_back(
                    cost_grid(*matrix),
                    i,
                    j,
                )
            }
        }),
{
    let (i, j) = index;
    if i != 0 && j != 0 {
        let diag = matrix.get(i - 1, j - 1);
        let up = matrix.get(i - 1, j);
        let left = matrix.get(i, j - 1);
        let k = arg_min(diag, up, left);
        if k == 0 {
            Some((i - 1, j - 1))
        } else if k == 1 {
            Some((i - 1, j))
        } else {
            Some((i, j - 1))
        }
    } else if i != 0 {
        Some((i - 1, j))
    } else if j != 0 {
        Some((i, j - 1))
    } else {
        None
    }
}

/// The addition `d + w` of a fill step stays inside `u128`.
proof fn lemma_fill_no_overflow(n: int, m: int, i: int, j: int, d: int, w: int)
    requires
        1 <= n,
        1 <= m,
        0 <= i < n,
        0 <= j < m,
        n * m <= usize::MAX,
        0 <= d <= u64::MAX,
        0 <= w <= (i + j) * (u64::MAX as int),
    ensures
        d + w <= u128::MAX,
{
    let u = u64::MAX as int;
    assert(usize::MAX <= u);
    assert(n + m - 1 <= n * m) by (nonlinear_arith)
        requires
            1 <= n,
            1 <= m,
    ;
    assert(d + w <= (i + j + 1) * u) by (nonlinear_arith)
        requires
            d <= u,
            w <= (i + j) * u,
    ;
    assert((i + j + 1) * u <= (n * m) * u) by (nonlinear_arith)
        requires
            i + j + 1 <= n * m,
            0 <= u,
    ;
    assert((n * m) * u <= u * u) by (nonlinear_arith)
        requires
            0 <= n * m <= u,
            0 <= u,
    ;
    assert(u * u <= u128::MAX);
}

/// The dynamic-programming pass: fills a cost matrix of the shape of
/// `local` from the local distances in `local`, visiting exactly the cells
/// the restriction admits, in row-major order.
pub fn optimize_matrix(local: &Matrix<u64>, restriction: Restriction) -> (mat: Matrix<
    Element<u128>,
>)
    requires
        local.wf(),
        local.rows() >= 1,
        local.cols() >= 1,
    ensures
        mat.wf(),
        mat.rows() == local.rows(),
        mat.cols() == local.cols(),
        forall|x: int, y: int|
            0 <= x < mat.rows() && 0 <= y < mat.cols() ==> lift(#[trigger] mat.cell(x, y))
                == cell_cost(
                local_grid(*local),
                restriction,
                local.rows(),
                local.cols(),
                x,
                y,
            ),
{
    let (n, m) = local.shape();
    let ghost g = local_grid(*local);
    let ghost gn = n as int;
    let ghost gm = m as int;
    proof {
        local.lemma_shape_bound();
    }
    let mut mat: Matrix<Element<u128>> = Matrix::fill(Element::Inf, n, m);
    let mut i: usize = 0;
    while i < n
        invariant
            local.wf(),
            local.rows() == gn,
            local.cols() == gm,
            g == local_grid(*local),
            1 <= gn,
            1 <= gm,
            gn * gm <= usize::MAX,
            n as int == gn,
            m as int == gm,
            i <= n,
            mat.wf(),
            mat.rows() == gn,
            mat.cols() == gm,
            forall|x: int, y: int|
                0 <= x < gn && 0 <= y < gm && x < i ==> lift(#[trigger] mat.cell(x, y))
                    == cell_cost(g, restriction, gn, gm, x, y),
            forall|x: int, y: int|
                0 <= x < gn && 0 <= y < gm && x >= i ==> #[trigger] mat.cell(x, y)
                    == Element::<u128>::Inf,
        decreases n - i,
    {
        let (lo, hi) = restriction.range((n, m), i);
        let mut j: usize = lo;
        while j < hi
            invariant
                local.wf(),
                local.rows() == gn,
                local.cols() == gm,
                g == local_grid(*local),
                1 <= gn,
                1 <= gm,
                gn * gm <= usize::MAX,
                n as int == gn,
                m as int == gm,
                i < n,
                lo as int == row_lo(restriction, gn, gm, i as int),
                hi as int == row_hi(restriction, gn, gm, i as int),
                lo <= j <= hi,
                hi <= m,
                mat.wf(),
                mat.rows() == gn,
                mat.cols() == gm,
                forall|x: int, y: int|
                    0 <= x < gn && 0 <= y < gm && x < i ==> lift(#[trigger] mat.cell(x, y))
                        == cell_cost(g, restriction, gn, gm, x, y),
                forall|y: int|
                    lo <= y < j ==> lift(#[trigger] mat.cell(i as int, y)) == cell_cost(
                        g,
                        restriction,
                        gn,
                        gm,
                        i as int,
                        y,
                    ),
                forall|x: int, y: int|
                    0 <= x < gn && 0 <= y < gm && x >= i && !(x == i && lo <= y < j)
                        ==> #[trigger] mat.cell(x, y) == Element::<u128>::Inf,
            decreases hi - j,
        {
            let ghost ci = i as int;
            let ghost cj = j as int;
            proof {
                assert(admissible(restriction, gn, gm, ci, cj));
            }
            let d: u64 = *local.get(i, j);
            let cur: Element<u128>;
            if i == 0 && j == 0 {
                cur = Element::Value(d as u128);
                proof {
                    assert(g[0][0] == d as int);
                    assert(lift(cur) == cell_cost(g, restriction, gn, gm, 0, 0));
                }
            } else {
                let diag: Element<u128> = if i > 0 && j > 0 {
                    *mat.get(i - 1, j - 1)
                } else {
                    Element::Inf
                };
                let up: Element<u128> = if i > 0 {
                    *mat.get(i - 1, j)
                } else {
                    Element::Inf
                };
                let left: Element<u128> = if j > 0 {
                    *mat.get(i, j - 1)
                } else {
                    Element::Inf
                };
                proof {
                    // Each gathered value equals the spec cost of the
                    // corresponding predecessor: already-filled cells by the
                    // invariant, skipped cells because both are `Inf`.
                    if cj > 0 && cj - 1 < lo as int {
                        assert(!admissible(restriction, gn, gm, ci, cj - 1));
                    }
                    assert(lift(diag) == (if ci > 0 && cj > 0 {
                        cell_cost(g, restriction, gn, gm, ci - 1, cj - 1)
                    } else {
                        Element::<int>::Inf
                    }));
                    assert(lift(up) == (if ci > 0 {
                        cell_cost(g, restriction, gn, gm, ci - 1, cj)
                    } else {
                        Element::<int>::Inf
                    }));
                    assert(lift(left) == (if cj > 0 {
                        cell_cost(g, restriction, gn, gm, ci, cj - 1)
                    } else {
                        Element::<int>::Inf
                    }));
                }
                let best = min3(&diag, &up, &left);
                match best {
                    Element::Inf => {
                        cur = Element::Inf;
                    },
                    Element::Value(w) => {
                        proof {
                            lemma_cost_bound(g, restriction, gn, gm, ci - 1, cj - 1, u64::MAX as int);
                            lemma_cost_bound(g, restriction, gn, gm, ci - 1, cj, u64::MAX as int);
                            lemma_cost_bound(g, restriction, gn, gm, ci, cj - 1, u64::MAX as int);
                            assert((ci - 1) + (cj - 1) + 1 <= ci + cj);
                            lemma_fill_no_overflow(gn, gm, ci, cj, d as int, w as int);
                        }
                        cur = Element::Value(d as u128 + w);
                    },
                }
                proof {
                    assert(g[ci][cj] == d as int);
                    assert(lift(cur) == elem_plus(
                        g[ci][cj],
                        elem_min(lift(diag), elem_min(lift(up), lift(left))),
                    ));
                    assert(lift(cur) == cell_cost(g, restriction, gn, gm, ci, cj));
                }
            }
            mat.set(i, j, cur);
            j = j + 1;
        }
        proof {
            // Columns of row `i` outside `[lo, hi)` are inadmissible, so
            // their cells, still `Inf`, already match the spec cost.
            assert forall|y: int|
                0 <= y < gm && !(lo <= y < hi) implies lift(#[trigger] mat.cell(i as int, y))
                == cell_cost(g, restriction, gn, gm, i as int, y) by {
                assert(!admissible(restriction, gn, gm, i as int, y));
            }
        }
        i = i + 1;
    }
    mat
}

/// Walks one optimal warping path backwards through a filled cost matrix,
/// from `(i, j)` to the origin, and returns it in origin-to-terminal order.
pub fn compute_path(matrix: &Matrix<Element<u128>>, i: usize, j: usize) -> (r: Vec<(usize, usize)>)
    requires
        matrix.wf(),
        i < matrix.rows(),
        j < matrix.cols(),
    ensures
        path_view(r@) == back_path(cost_grid(*matrix), i as int, j as int),
{
    let ghost c = cost_grid(*matrix);
    let ghost ti = i as int;
    let ghost tj = j as int;
    let mut i = i;
    let mut j = j;
    let mut v: Vec<(usize, usize)> = Vec::new();
    v.push((i, j));
    proof {
        lemma_back_path_last(c, ti, tj);
        assert(path_view(v@) =~= seq![(ti, tj)]);
        assert(path_view(v@).reverse() =~= seq![(ti, tj)]);
        assert(back_path(c, ti, tj).drop_last() + path_view(v@).reverse() =~= back_path(
            c,
            ti,
            tj,
        ));
    }
    while i != 0 || j != 0
        invariant
            matrix.wf(),
            c == cost_grid(*matrix),
            (i as int) < matrix.rows(),
            (j as int) < matrix.cols(),
            back_path(c, ti, tj) == back_path(c, i as int, j as int).drop_last() + path_view(
                v@,
            ).reverse(),
        decreases i + j,
    {
        let ghost ci = i as int;
        let ghost cj = j as int;
        let ghost v0 = v@;
        match preceeding_cost(matrix, (i, j)) {
            Some(q) => {
                proof {
                    assert((q.0 as int, q.1 as int) == step_back(c, ci, cj));
                    assert(back_path(c, ci, cj) == back_path(c, q.0 as int, q.1 as int).push(
                        (ci, cj),
                    ));
                }
                v.push(q);
                i = q.0;
                j = q.1;
                proof {
                    let qi = i as int;
                    let qj = j as int;
                    lemma_back_path_last(c, qi, qj);
                    assert(back_path(c, ci, cj).drop_last() =~= back_path(c, qi, qj));
                    assert(path_view(v@) =~= path_view(v0).push((qi, qj)));
                    assert(path_view(v@).reverse() =~= seq![(qi, qj)] + path_view(v0).reverse());
                    assert(back_path(c, qi, qj).drop_last() + path_view(v@).reverse() =~= (
                    back_path(c, qi, qj).drop_last().push((qi, qj))) + path_view(v0).reverse());
                    assert(back_path(c, qi, qj).drop_last().push((qi, qj)) =~= back_path(
                        c,
                        qi,
                        qj,
                    ));
                    assert(back_path(c, qi, qj) + path_view(v0).reverse() == back_path(
                        c,
                        ci,
                        cj,
                    ).drop_last() + path_view(v0).reverse());
                }
            },
            None => {
                proof {
                    assert(false);
                }
            },
        }
    }
    proof {
        assert(back_path(c, 0, 0) == seq![(0int, 0int)]);
        assert(back_path(c, 0, 0).drop_last() =~= Seq::<(int, int)>::empty());
        assert(back_path(c, ti, tj) =~= path_view(v@).reverse());
    }
    let mut r: Vec<(usize, usize)> = Vec::new();
    let mut k: usize = v.len();
    while k > 0
        invariant
            k <= v@.len(),
            r@.len() == v@.len() - k,
            forall|q: int| 0 <= q < r@.len() ==> r@[q] == v@[v@.len() - 1 - q],
        decreases k,
    {
        k = k - 1;
        let p = v[k];
        r.push(p);
    }
    proof {
        assert(path_view(r@) =~= path_view(v@).reverse());
    }
    r
}

/// A finished dynamic time warping computation between two sequences:
/// the filled cumulative-cost matrix, ready to be queried for the warping
/// distance and for optimal warping paths.
#[derive(Debug, PartialEq, Clone)]
pub struct DynamicTimeWarping {
    matrix: Matrix<Element<u128>>,
}

impl DynamicTimeWarping {
    /// Length of the first sequence.
    pub closed spec fn rows(&self) -> int {
        self.matrix.rows()
    }

    /// Length of the second sequence.
    pub closed spec fn cols(&self) -> int {
        self.matrix.cols()
    }

    /// The recorded cumulative cost of cell `(i, j)`.
    pub closed spec fn cell(&self, i: int, j: int) -> Element<int> {
        lift(self.matrix.cell(i, j))
    }

    /// The whole recorded cost grid.
    pub closed spec fn costs(&self) -> Seq<Seq<Element<int>>> {
        cost_grid(self.matrix)
    }

    /// A computation holds one cost per cell and covers at least one
    /// element of each sequence.
    pub closed spec fn wf(&self) -> bool {
        &&& self.matrix.wf()
        &&& self.matrix.rows() >= 1
        &&& self.matrix.cols() >= 1
    }

    /// The cost grid agrees with the cells, row by row.
    pub proof fn lemma_costs_agree(&self)
        ensures
            self.costs().len() == self.rows(),
            forall|i: int| 0 <= i < self.rows() ==> (#[trigger] self.costs()[i]).len()
                == self.cols(),
            forall|i: int, j: int|
                0 <= i < self.rows() && 0 <= j < self.cols() ==> #[trigger] self.costs()[i][j]
                    == self.cell(i, j),
    {
        self.matrix.lemma_dims();
        assert(self.costs() == cost_grid(self.matrix));
        assert(cost_grid(self.matrix).len() == self.matrix.rows());
        assert forall|i: int| 0 <= i < self.rows() implies (#[trigger] self.costs()[i]).len()
            == self.cols() by {
            assert(cost_grid(self.matrix)[i] == Seq::new(
                self.matrix.cols() as nat,
                |j: int| lift(self.matrix.cell(i, j)),
            ));
        }
    }

    /// A computation that records exactly the dynamic-programming costs of
    /// a grid has that grid's cost table: what `path` and `path_from`
    /// backtrack over is the table the laws about `cell_cost` speak of.
    pub proof fn lemma_costs_table(&self, g: Seq<Seq<int>>, rest: Restriction)
        requires
            forall|x: int, y: int|
                0 <= x < self.rows() && 0 <= y < self.cols() ==> #[trigger] self.cell(x, y)
                    == cell_cost(g, rest, self.rows(), self.cols(), x, y),
        ensures
            self.costs() == crate::model::cost_table(g, rest, self.rows(), self.cols()),
    {
        self.matrix.lemma_dims();
        self.lemma_costs_agree();
        let t = crate::model::cost_table(g, rest, self.rows(), self.cols());
        assert forall|x: int| 0 <= x < self.rows() implies self.costs()[x] =~= t[x] by {
            assert(t[x] == Seq::new(
                self.cols() as nat,
                |y: int| cell_cost(g, rest, self.rows(), self.cols(), x, y),
            ));
        }
        assert(self.costs() =~= t);
    }

    /// Dynamic time warping between `a` and `b` under the elements' own
    /// metric, with no restriction.
    pub fn between<T: Distance<u64>>(a: &Vec<T>, b: &Vec<T>) -> (r: Result<Self, Error>)
        requires
            a@.len() * b@.len() <= usize::MAX,
        ensures
            is_warping_of(r, dist_grid(a@, b@), Restriction::Unrestricted, a@.len() as int, b@.len() as int),
    {
        Self::with_param(a, b, Restriction::Unrestricted)
    }

    /// Dynamic time warping between `a` and `b` under the distance closure
    /// `distance`, with no restriction.
    pub fn with_closure<T: Copy, F: Fn(T, T) -> u64>(a: &Vec<T>, b: &Vec<T>, distance: F) -> (r:
        Result<Self, Error>)
        requires
            a@.len() * b@.len() <= usize::MAX,
            forall|x: int, y: int|
                0 <= x < a@.len() && 0 <= y < b@.len() ==> call_requires(
                    distance,
                    (a@[x], b@[y]),
                ),
        ensures
            exists|g: Seq<Seq<int>>|
                closure_grid(g, distance, a@, b@) && is_warping_of(
                    r,
                    g,
                    Restriction::Unrestricted,
                    a@.len() as int,
                    b@.len() as int,
                ),
    {
        Self::with_closure_and_param(a, b, distance, Restriction::Unrestricted)
    }

    /// Dynamic time warping between `a` and `b` under the elements' own
    /// metric and the restriction `param`.
    pub fn with_param<T: Distance<u64>>(a: &Vec<T>, b: &Vec<T>, param: Restriction) -> (r: Result<
        Self,
        Error,
    >)
        requires
            a@.len() * b@.len() <= usize::MAX,
        ensures
            is_warping_of(r, dist_grid(a@, b@), param, a@.len() as int, b@.len() as int),
    {
        let n = a.len();
        let m = b.len();
        if n == 0 || m == 0 {
            return Err(Error::InvalidDimensions);
        }
        let mut data: Vec<u64> = Vec::new();
        let mut i: usize = 0;
        while i < n
            invariant
                n == a@.len(),
                m == b@.len(),
                1 <= n,
                1 <= m,
                n * m <= usize::MAX,
                i <= n,
                data@.len() == i * m,
                forall|x: int, y: int|
                    0 <= x < i && 0 <= y < m ==> #[trigger] data@[x * (m as int) + y]
                        == a@[x].spec_distance(&b@[y]),
            decreases n - i,
        {
            let mut j: usize = 0;
            proof {
                lemma_row_major_mul(i as int, m as int, n as int);
            }
            while j < m
                invariant
                    n == a@.len(),
                    m == b@.len(),
                    1 <= n,
                    1 <= m,
                    n * m <= usize::MAX,
                    i < n,
                    j <= m,
                    data@.len() == i * m + j,
                    forall|x: int, y: int|
                        0 <= x < i && 0 <= y < m ==> #[trigger] data@[x * (m as int) + y]
                            == a@[x].spec_distance(&b@[y]),
                    forall|y: int|
                        0 <= y < j ==> #[trigger] data@[(i as int) * (m as int) + y]
                            == a@[i as int].spec_distance(&b@[y]),
                decreases m - j,
            {
                let d = a[i].distance(&b[j]);
                let ghost data0 = data@;
                data.push(d);
                proof {
                    assert forall|x: int, y: int| 0 <= x < i && 0 <= y < m implies #[trigger] data@[x
                        * (m as int) + y] == a@[x].spec_distance(&b@[y]) by {
                        lemma_row_major_index_bound(x, y, i as int, m as int);
                        assert(data@[x * (m as int) + y] == data0[x * (m as int) + y]);
                    }
                }
                j = j + 1;
            }
            proof {
                assert((i as int) * (m as int) + (m as int) == (i as int + 1) * (m as int))
                    by (nonlinear_arith);
            }
            i = i + 1;
        }
        let local = Matrix::from(data, n, m);
        proof {
            assert forall|x: int, y: int| 0 <= x < n && 0 <= y < m implies #[trigger] local.cell(
                x,
                y,
            ) as int == dist_grid(a@, b@)[x][y] by {}
            assert(local_grid(local) =~= dist_grid(a@, b@)) by {
                assert forall|x: int| 0 <= x < n implies local_grid(local)[x] =~= dist_grid(
                    a@,
                    b@,
                )[x] by {}
            }
        }
        let mat = optimize_matrix(&local, param);
        Ok(DynamicTimeWarping { matrix: mat })
    }

    /// Dynamic time warping between `a` and `b` under the distance closure
    /// `distance` and the restriction `param`.
    pub fn with_closure_and_param<T: Copy, F: Fn(T, T) -> u64>(
        a: &Vec<T>,
        b: &Vec<T>,
        distance: F,
        param: Restriction,
    ) -> (r: Result<Self, Error>)
        requires
            a@.len() * b@.len() <= usize::MAX,
            forall|x: int, y: int|
                0 <= x < a@.len() && 0 <= y < b@.len() ==> call_requires(
                    distance,
                    (a@[x], b@[y]),
                ),
        ensures
            exists|g: Seq<Seq<int>>|
                closure_grid(g, distance, a@, b@) && is_warping_of(
                    r,
                    g,
                    param,
                    a@.len() as int,
                    b@.len() as int,
                ),
    {
        let n = a.len();
        let m = b.len();
        if n == 0 || m == 0 {
            proof {
                let g = Seq::<Seq<int>>::new(n as nat, |x: int| Seq::new(m as nat, |y: int| 0));
                assert(closure_grid(g, distance, a@, b@));
            }
            return Err(Error::InvalidDimensions);
        }
        let mut data: Vec<u64> = Vec::new();
        let mut i: usize = 0;
        while i < n
            invariant
                n == a@.len(),
                m == b@.len(),
                1 <= n,
                1 <= m,
                n * m <= usize::MAX,
                i <= n,
                data@.len() == i * m,
                forall|x: int, y: int|
                    0 <= x < a@.len() && 0 <= y < b@.len() ==> call_requires(
                        distance,
                        (a@[x], b@[y]),
                    ),
                forall|x: int, y: int|
                    0 <= x < i && 0 <= y < m ==> call_ensures(
                        distance,
                        (a@[x], b@[y]),
                        #[trigger] data@[x * (m as int) + y],
                    ),
            decreases n - i,
        {
            let mut j: usize = 0;
            proof {
                lemma_row_major_mul(i as int, m as int, n as int);
            }
            while j < m
                invariant
                    n == a@.len(),
                    m == b@.len(),
                    1 <= n,
                    1 <= m,
                    n * m <= usize::MAX,
                    i < n,
                    j <= m,
                    data@.len() == i * m + j,
                    forall|x: int, y: int|
                        0 <= x < a@.len() && 0 <= y < b@.len() ==> call_requires(
                            distance,
                            (a@[x], b@[y]),
                        ),
                    forall|x: int, y: int|
                        0 <= x < i && 0 <= y < m ==> call_ensures(
                            distance,
                            (a@[x], b@[y]),
                            #[trigger] data@[x * (m as int) + y],
                        ),
                    forall|y: int|
                        0 <= y < j ==> call_ensures(
                            distance,
                            (a@[i as int], b@[y]),
                            #[trigger] data@[(i as int) * (m as int) + y],
                        ),
                decreases m - j,
            {
                let d = distance(a[i], b[j]);
                let ghost data0 = data@;
                data.push(d);
                proof {
                    assert forall|x: int, y: int| 0 <= x < i && 0 <= y < m implies call_ensures(
                        distance,
                        (a@[x], b@[y]),
                        #[trigger] data@[x * (m as int) + y],
                    ) by {
                        lemma_row_major_index_bound(x, y, i as int, m as int);
                        assert(data@[x * (m as int) + y] == data0[x * (m as int) + y]);
                    }
                }
                j = j + 1;
            }
            proof {
                assert((i as int) * (m as int) + (m as int) == (i as int + 1) * (m as int))
                    by (nonlinear_arith);
            }
            i = i + 1;
        }
        let local = Matrix::from(data, n, m);
        let ghost g = local_grid(local);
        proof {
            assert forall|x: int, y: int| 0 <= x < n && 0 <= y < m implies {
                &&& 0 <= #[trigger] g[x][y] <= u64::MAX
                &&& call_ensures(distance, (a@[x], b@[y]), g[x][y] as u64)
            } by {
                assert(local.cell(x, y) as int == g[x][y]);
            }
            assert(closure_grid(g, distance, a@, b@));
        }
        let mat = optimize_matrix(&local, param);
        let d = DynamicTimeWarping { matrix: mat };
        proof {
            assert(is_warping_of(
                Ok::<DynamicTimeWarping, Error>(d),
                g,
                param,
                n as int,
                m as int,
            ));
        }
        Ok(d)
    }

    /// The warping distance: the cumulative cost recorded at the terminal
    /// cell, or `InfeasibleBand` when the restriction cut every path to it.
    pub fn distance(&self) -> (r: Result<u128, Error>)
        requires
            self.wf(),
        ensures
            match r {
                Ok(v) => self.cell(self.rows() - 1, self.cols() - 1) == Element::<int>::Value(
                    v as int,
                ),
                Err(e) => e == Error::InfeasibleBand && self.cell(
                    self.rows() - 1,
                    self.cols() - 1,
                ) is Inf,
            },
    {
        let (n, m) = self.matrix.shape();
        match self.matrix.get(n - 1, m - 1) {
            Element::Inf => Err(Error::InfeasibleBand),
            Element::Value(v) => Ok(*v),
        }
    }

    /// The optimal warping path from the origin to the terminal cell.
    pub fn path(&self) -> (r: Result<Vec<(usize, usize)>, Error>)
        requires
            self.wf(),
        ensures
            match r {
                Ok(p) => self.cell(self.rows() - 1, self.cols() - 1) is Value && path_view(p@)
                    == back_path(self.costs(), self.rows() - 1, self.cols() - 1),
                Err(e) => e == Error::InfeasibleBand && self.cell(
                    self.rows() - 1,
                    self.cols() - 1,
                ) is Inf,
            },
    {
        let (n, m) = self.matrix.shape();
        self.path_from(n - 1, m - 1)
    }

    /// The optimal warping path from the origin to the cell `(i, j)`:
    /// `IndexOutOfBounds` when `(i, j)` lies beyond the shape,
    /// `InfeasibleBand` when no path reaches the cell.
    pub fn path_from(&self, i: usize, j: usize) -> (r: Result<Vec<(usize, usize)>, Error>)
        requires
            self.wf(),
        ensures
            match r {
                Ok(p) => i < self.rows() && j < self.cols() && self.cell(i as int, j as int)
                    is Value && path_view(p@) == back_path(self.costs(), i as int, j as int),
                Err(Error::IndexOutOfBounds) => i >= self.rows() || j >= self.cols(),
                Err(Error::InvalidDimensions) => false,
                Err(Error::InfeasibleBand) => i < self.rows() && j < self.cols() && self.cell(
                    i as int,
                    j as int,
                ) is Inf,
            },
    {
        let (n, m) = self.matrix.shape();
        if i >= n || j >= m {
            return Err(Error::IndexOutOfBounds);
        }
        match self.matrix.get(i, j) {
            Element::Inf => Err(Error::InfeasibleBand),
            Element::Value(_) => Ok(compute_path(&self.matrix, i, j)),
        }
    }
}

/// What a constructor returns: either the sequences were empty and the
/// computation was rejected, or the matrix holds exactly the
/// dynamic-programming costs of the grid `g` under the restriction.
pub open spec fn is_warping_of(
    r: Result<DynamicTimeWarping, Error>,
    g: Seq<Seq<int>>,
    rest: Restriction,
    n: int,
    m: int,
) -> bool {
    match r {
        Ok(d) => {
            &&& n >= 1
            &&& m >= 1
            &&& d.wf()
            &&& d.rows() == n
            &&& d.cols() == m
            &&& forall|x: int, y: int|
                0 <= x < n && 0 <= y < m ==> #[trigger] d.cell(x, y) == cell_cost(
                    g,
                    rest,
                    n,
                    m,
                    x,
                    y,
                )
        },
        Err(e) => e == Error::InvalidDimensions && (n == 0 || m == 0),
    }
}

/// The grid `g` records, entry by entry, one possible answer of the
/// distance closure on the corresponding pair of elements.
pub open spec fn closure_grid<T, F: Fn(T, T) -> u64>(
    g: Seq<Seq<int>>,
    distance: F,
    a: Seq<T>,
    b: Seq<T>,
) -> bool {
    &&& crate::model::grid_wf(g, a.len() as int, b.len() as int)
    &&& forall|x: int, y: int|
        0 <= x < a.len() && 0 <= y < b.len() ==> {
            &&& 0 <= #[trigger] g[x][y] <= u64::MAX
            &&& call_ensures(distance, (a[x], b[y]), g[x][y] as u64)
        }
}

/// Stepping one row down in a row-major buffer stays within the grid.
proof fn lemma_row_major_mul(i: int, m: int, n: int)
    requires
        0 <= i < n,
        0 <= m,
    ensures
        i * m + m <= n * m,
        0 <= i * m,
{
    assert(i * m + m <= n * m && 0 <= i * m) by (nonlinear_arith)
        requires
            0 <= i < n,
            0 <= m,
    ;
}

/// The cheapest of three machine costs, in the value order of `elem_min`.
fn min3(a: &Element<u128>, b: &Element<u128>, c: &Element<u128>) -> (r: Element<u128>)
    ensures
        lift(r) == elem_min(lift(*a), elem_min(lift(*b), lift(*c))),
{
    let bc: &Element<u128> = match (b, c) {
        (Element::Inf, _) => c,
        (_, Element::Inf) => b,
        (Element::Value(x), Element::Value(y)) => if *x <= *y {
            b
        } else {
            c
        },
    };
    match (a, bc) {
        (Element::Inf, _) => *bc,
        (_, Element::Inf) => *a,
        (Element::Value(x), Element::Value(y)) => if *x <= *y {
            *a
        } else {
            *bc
        },
    }
}

} // verus!
