use vstd::prelude::*;

verus! {

use crate::element::Element;
use crate::matrix::Matrix;
use crate::restriction::{admissible, Restriction};
use vstd::math::max;

/// The smaller of two costs; `Inf` never wins against a finite value.
pub open spec fn elem_min(a: Element<int>, b: Element<int>) -> Element<int> {
    match (a, b) {
        (Element::Inf, _) => b,
        (_, Element::Inf) => a,
        (Element::Value(x), Element::Value(y)) => if x <= y {
            Element::Value(x)
        } else {
            Element::Value(y)
        },
    }
}

/// Adds a local distance to a cumulative cost; `Inf` absorbs everything.
pub open spec fn elem_plus(d: int, e: Element<int>) -> Element<int> {
    match e {
        Element::Inf => Element::Inf,
        Element::Value(v) => Element::Value(d + v),
    }
}

/// Strictly greater in the cost order: finite values compare as integers,
/// `Inf` is above every finite value, and two `Inf`s are incomparable.
pub open spec fn elem_gt(a: Element<int>, b: Element<int>) -> bool {
    match (a, b) {
        (Element::Inf, Element::Value(_)) => true,
        (Element::Value(x), Element::Value(y)) => x > y,
        _ => false,
    }
}

/// `a` is reachable at no greater cost than `b`: every cost is below `Inf`,
/// and finite costs compare as integers.
pub open spec fn elem_le(a: Element<int>, b: Element<int>) -> bool {
    match (a, b) {
        (_, Element::Inf) => true,
        (Element::Value(x), Element::Value(y)) => x <= y,
        (Element::Inf, Element::Value(_)) => false,
    }
}

/// A grid of local distances with `n` rows of `m` entries each.
pub open spec fn grid_wf(g: Seq<Seq<int>>, n: int, m: int) -> bool {
    &&& g.len() == n
    &&& forall|i: int| 0 <= i < n ==> (#[trigger] g[i]).len() == m
}

/// The cumulative cost of cell `(i, j)` of the dynamic-programming matrix
/// for local distances `g`, shape `(n, m)` and restriction `rest`:
/// `Inf` outside the admissible region; the local distance at the origin;
/// elsewhere the local distance plus the cheapest admissible predecessor
/// among diagonal, up and left, `Inf` if no predecessor is reachable.
pub open spec fn cell_cost(
    g: Seq<Seq<int>>,
    rest: Restriction,
    n: int,
    m: int,
    i: int,
    j: int,
) -> Element<int>
    decreases i + j,
{
    if !admissible(rest, n, m, i, j) {
        Element::Inf
    } else if i == 0 && j == 0 {
        Element::Value(g[0][0])
    } else {
        let diag = if i > 0 && j > 0 {
            cell_cost(g, rest, n, m, i - 1, j - 1)
        } else {
            Element::Inf
        };
        let up = if i > 0 {
            cell_cost(g, rest, n, m, i - 1, j)
        } else {
            Element::Inf
        };
        let left = if j > 0 {
            cell_cost(g, rest, n, m, i, j - 1)
        } else {
            Element::Inf
        };
        elem_plus(g[i][j], elem_min(diag, elem_min(up, left)))
    }
}

/// The predecessor the backtracker steps to from `(i, j)`: the cheapest of
/// diagonal, up and left among the recorded costs, ties resolved in the
/// order diagonal, up, left.
pub open spec fn step_back(c: Seq<Seq<Element<int>>>, i: int, j: int) -> (int, int) {
    if i > 0 && j > 0 {
        let diag = c[i - 1][j - 1];
        let up = c[i - 1][j];
        let left = c[i][j - 1];
        if elem_gt(diag, up) {
            if elem_gt(up, left) {
                (i, j - 1)
            } else {
                (i - 1, j)
            }
        } else {
            if elem_gt(diag, left) {
                (i, j - 1)
            } else {
                (i - 1, j - 1)
            }
        }
    } else if i > 0 {
        (i - 1, j)
    } else {
        (i, j - 1)
    }
}

/// The path the backtracker yields from cell `(i, j)` back to the origin,
/// in origin-to-terminal order.
pub open spec fn back_path(c: Seq<Seq<Element<int>>>, i: int, j: int) -> Seq<(int, int)>
    decreases max(i, 0) + max(j, 0),
{
    if i <= 0 && j <= 0 {
        seq![(i, j)]
    } else {
        let p = step_back(c, i, j);
        back_path(c, p.0, p.1).push((i, j))
    }
}

/// One warping step: one cell right, down, or diagonally.
pub open spec fn is_step(p: (int, int), q: (int, int)) -> bool {
    &&& q.0 == p.0 || q.0 == p.0 + 1
    &&& q.1 == p.1 || q.1 == p.1 + 1
    &&& !(q.0 == p.0 && q.1 == p.1)
}

/// A warping path admissible under `rest`: it starts at the origin, every
/// cell is admissible, and consecutive cells are one warping step apart.
pub open spec fn valid_path(rest: Restriction, n: int, m: int, q: Seq<(int, int)>) -> bool {
    &&& q.len() >= 1
    &&& q.first() == (0int, 0int)
    &&& forall|k: int|
        0 <= k < q.len() ==> admissible(rest, n, m, (#[trigger] q[k]).0, q[k].1)
    &&& forall|k: int| 0 <= k < q.len() - 1 ==> is_step(#[trigger] q[k], q[k + 1])
}

/// The total cost of a path: the sum of the local distances of its cells.
pub open spec fn path_cost(g: Seq<Seq<int>>, q: Seq<(int, int)>) -> int
    decreases q.len(),
{
    if q.len() == 0 {
        0
    } else {
        path_cost(g, q.drop_last()) + g[q.last().0][q.last().1]
    }
}

/// The full table of cumulative costs of a computation, row by row.
pub open spec fn cost_table(g: Seq<Seq<int>>, rest: Restriction, n: int, m: int) -> Seq<
    Seq<Element<int>>,
> {
    Seq::new(n as nat, |i: int| Seq::new(m as nat, |j: int| cell_cost(g, rest, n, m, i, j)))
}

/// The mathematical view of a vector of cell indices.
pub open spec fn path_view(v: Seq<(usize, usize)>) -> Seq<(int, int)> {
    v.map_values(|p: (usize, usize)| (p.0 as int, p.1 as int))
}

/// A backtracked path is never empty and ends at its terminal cell.
pub proof fn lemma_back_path_last(c: Seq<Seq<Element<int>>>, i: int, j: int)
    ensures
        back_path(c, i, j).len() >= 1,
        back_path(c, i, j).last() == (i, j),
{
    if i <= 0 && j <= 0 {
        assert(back_path(c, i, j) == seq![(i, j)]);
    } else {
        let p = step_back(c, i, j);
        assert(back_path(c, i, j) == back_path(c, p.0, p.1).push((i, j)));
    }
}

/// A backtracked path from an in-grid cell is a warping path: it starts
/// at the origin, ends at the cell, stays inside the rectangle the cell
/// spans, and each consecutive step moves one cell right, down, or
/// diagonally.
pub proof fn lemma_back_path_shape(c: Seq<Seq<Element<int>>>, i: int, j: int)
    requires
        i >= 0,
        j >= 0,
    ensures
        back_path(c, i, j).len() >= 1,
        back_path(c, i, j).first() == (0int, 0int),
        back_path(c, i, j).last() == (i, j),
        forall|k: int|
            0 <= k < back_path(c, i, j).len() ==> {
                let p = #[trigger] back_path(c, i, j)[k];
                0 <= p.0 <= i && 0 <= p.1 <= j
            },
        forall|k: int|
            0 <= k < back_path(c, i, j).len() - 1 ==> {
                let p = #[trigger] back_path(c, i, j)[k];
                let q = back_path(c, i, j)[k + 1];
                &&& q.0 == p.0 || q.0 == p.0 + 1
                &&& q.1 == p.1 || q.1 == p.1 + 1
                &&& p.0 + p.1 < q.0 + q.1
            },
    decreases i + j,
{
    if i == 0 && j == 0 {
        assert(back_path(c, i, j) == seq![(0int, 0int)]);
    } else {
        let p = step_back(c, i, j);
        lemma_back_path_shape(c, p.0, p.1);
        let sub = back_path(c, p.0, p.1);
        let s = back_path(c, i, j);
        assert(s == sub.push((i, j)));
        assert forall|k: int| 0 <= k < s.len() - 1 implies {
            let a = #[trigger] s[k];
            let b = s[k + 1];
            &&& b.0 == a.0 || b.0 == a.0 + 1
            &&& b.1 == a.1 || b.1 == a.1 + 1
            &&& a.0 + a.1 < b.0 + b.1
        } by {
            if k < sub.len() - 1 {
                assert(s[k] == sub[k] && s[k + 1] == sub[k + 1]);
            } else {
                assert(s[k] == sub.last() && s[k + 1] == (i, j));
            }
        }
    }
}

/// A machine cost as a mathematical cost.
pub open spec fn lift(e: Element<u128>) -> Element<int> {
    match e {
        Element::Inf => Element::Inf,
        Element::Value(v) => Element::Value(v as int),
    }
}

/// The grid of local distances a matrix of machine values stands for.
pub open spec fn local_grid(local: Matrix<u64>) -> Seq<Seq<int>> {
    Seq::new(
        local.rows() as nat,
        |i: int| Seq::new(local.cols() as nat, |j: int| local.cell(i, j) as int),
    )
}

/// The grid of cumulative costs a matrix of machine costs stands for.
pub open spec fn cost_grid(mat: Matrix<Element<u128>>) -> Seq<Seq<Element<int>>> {
    Seq::new(
        mat.rows() as nat,
        |i: int| Seq::new(mat.cols() as nat, |j: int| lift(mat.cell(i, j))),
    )
}

/// Every finite cumulative cost is non-negative and at most `(i + j + 1)`
/// times a bound on the local distances.
pub proof fn lemma_cost_bound(
    g: Seq<Seq<int>>,
    rest: Restriction,
    n: int,
    m: int,
    i: int,
    j: int,
    dmax: int,
)
    requires
        forall|x: int, y: int| 0 <= x < n && 0 <= y < m ==> 0 <= #[trigger] g[x][y] <= dmax,
    ensures
        cell_cost(g, rest, n, m, i, j) matches Element::Value(v) ==> 0 <= v <= (i + j + 1) * dmax,
    decreases max(i, 0) + max(j, 0),
{
    if !admissible(rest, n, m, i, j) {
    } else if i == 0 && j == 0 {
        assert(cell_cost(g, rest, n, m, i, j) == Element::Value(g[0][0]));
        assert((i + j + 1) * dmax == dmax) by (nonlinear_arith)
            requires
                i == 0,
                j == 0,
        ;
    } else {
        assert(0 <= i < n);
        assert(0 <= j < m);
        assert(0 <= g[i][j] <= dmax);
        if i > 0 && j > 0 {
            lemma_cost_bound(g, rest, n, m, i - 1, j - 1, dmax);
        }
        if i > 0 {
            lemma_cost_bound(g, rest, n, m, i - 1, j, dmax);
        }
        if j > 0 {
            lemma_cost_bound(g, rest, n, m, i, j - 1, dmax);
        }
        match cell_cost(g, rest, n, m, i, j) {
            Element::Inf => {},
            Element::Value(v) => {
                assert((i + j - 1) * dmax <= (i + j) * dmax && (i + j) * dmax + dmax == (i + j
                    + 1) * dmax) by (nonlinear_arith)
                    requires
                        dmax >= 0,
                        i + j >= 1,
                ;
                assert(v <= dmax + (i + j) * dmax);
            },
        }
    }
}

} // verus!
