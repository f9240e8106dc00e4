use vstd::prelude::*;

verus! {

use crate::element::Element;
use crate::model::{back_path, cell_cost, cost_table, elem_le, elem_min, is_step, path_cost, step_back, valid_path};
use crate::restriction::{admissible, band_center, lemma_center_bounds, Restriction};
use vstd::arithmetic::div_mod::lemma_div_multiples_vanish_fancy;
use vstd::math::max;

/// Every finite cumulative cost of a grid of non-negative local distances
/// is non-negative.
pub proof fn lemma_cost_nonneg(
    g: Seq<Seq<int>>,
    rest: Restriction,
    n: int,
    m: int,
    i: int,
    j: int,
)
    requires
        forall|x: int, y: int| 0 <= x < n && 0 <= y < m ==> 0 <= #[trigger] g[x][y],
    ensures
        cell_cost(g, rest, n, m, i, j) matches Element::Value(v) ==> 0 <= v,
    decreases max(i, 0) + max(j, 0),
{
    if admissible(rest, n, m, i, j) && !(i == 0 && j == 0) {
        if i > 0 && j > 0 {
            lemma_cost_nonneg(g, rest, n, m, i - 1, j - 1);
        }
        if i > 0 {
            lemma_cost_nonneg(g, rest, n, m, i - 1, j);
        }
        if j > 0 {
            lemma_cost_nonneg(g, rest, n, m, i, j - 1);
        }
    }
}

/// Widening the admissible region never increases any cumulative cost:
/// whatever was reachable stays reachable, at the same cost or cheaper.
pub proof fn lemma_restriction_le(
    g: Seq<Seq<int>>,
    r1: Restriction,
    r2: Restriction,
    n: int,
    m: int,
    i: int,
    j: int,
)
    requires
        forall|x: int, y: int| #[trigger] admissible(r1, n, m, x, y) ==> admissible(r2, n, m, x, y),
    ensures
        elem_le(cell_cost(g, r2, n, m, i, j), cell_cost(g, r1, n, m, i, j)),
    decreases max(i, 0) + max(j, 0),
{
    if !admissible(r1, n, m, i, j) {
    } else {
        assert(admissible(r2, n, m, i, j));
        if i == 0 && j == 0 {
        } else {
            if i > 0 && j > 0 {
                lemma_restriction_le(g, r1, r2, n, m, i - 1, j - 1);
            }
            if i > 0 {
                lemma_restriction_le(g, r1, r2, n, m, i - 1, j);
            }
            if j > 0 {
                lemma_restriction_le(g, r1, r2, n, m, i, j - 1);
            }
        }
    }
}

/// Monotonicity in the band radius: for a fixed grid, the cumulative cost
/// of every cell under `Band(k2)` is at most its cost under `Band(k1)`
/// whenever `k1 <= k2`. In particular the warping distance is
/// non-increasing as the radius grows.
pub proof fn lemma_band_radius_monotone(
    g: Seq<Seq<int>>,
    k1: usize,
    k2: usize,
    n: int,
    m: int,
    i: int,
    j: int,
)
    requires
        k1 <= k2,
    ensures
        elem_le(
            cell_cost(g, Restriction::Band(k2), n, m, i, j),
            cell_cost(g, Restriction::Band(k1), n, m, i, j),
        ),
{
    assert forall|x: int, y: int| #[trigger] admissible(
        Restriction::Band(k1),
        n,
        m,
        x,
        y,
    ) implies admissible(Restriction::Band(k2), n, m, x, y) by {}
    lemma_restriction_le(g, Restriction::Band(k1), Restriction::Band(k2), n, m, i, j);
}

/// Restricting to a band can only increase or preserve the cumulative
/// cost: the unrestricted cost of every cell is at most its cost under
/// `Band(k)`. In particular the unrestricted warping distance is a lower
/// bound for every banded one.
pub proof fn lemma_unrestricted_le_band(
    g: Seq<Seq<int>>,
    k: usize,
    n: int,
    m: int,
    i: int,
    j: int,
)
    ensures
        elem_le(
            cell_cost(g, Restriction::Unrestricted, n, m, i, j),
            cell_cost(g, Restriction::Band(k), n, m, i, j),
        ),
{
    assert forall|x: int, y: int| #[trigger] admissible(
        Restriction::Band(k),
        n,
        m,
        x,
        y,
    ) implies admissible(Restriction::Unrestricted, n, m, x, y) by {}
    lemma_restriction_le(g, Restriction::Band(k), Restriction::Unrestricted, n, m, i, j);
}

/// Two restrictions that admit exactly the same cells give every cell the
/// same cumulative cost.
pub proof fn lemma_same_admissible_same_cost(
    g: Seq<Seq<int>>,
    r1: Restriction,
    r2: Restriction,
    n: int,
    m: int,
    i: int,
    j: int,
)
    requires
        forall|x: int, y: int| #[trigger] admissible(r1, n, m, x, y) == admissible(r2, n, m, x, y),
    ensures
        cell_cost(g, r1, n, m, i, j) == cell_cost(g, r2, n, m, i, j),
    decreases max(i, 0) + max(j, 0),
{
    assert(admissible(r1, n, m, i, j) == admissible(r2, n, m, i, j));
    if !admissible(r1, n, m, i, j) {
    } else if i == 0 && j == 0 {
    } else {
        if i > 0 && j > 0 {
            lemma_same_admissible_same_cost(g, r1, r2, n, m, i - 1, j - 1);
        }
        if i > 0 {
            lemma_same_admissible_same_cost(g, r1, r2, n, m, i - 1, j);
        }
        if j > 0 {
            lemma_same_admissible_same_cost(g, r1, r2, n, m, i, j - 1);
        }
    }
}

/// A band whose radius covers the whole second sequence admits every cell,
/// so its costs converge to the unrestricted ones; in particular the
/// distance under `Band(k)` equals the unrestricted distance for every
/// `k >= max(n, m)`.
pub proof fn lemma_band_converges(g: Seq<Seq<int>>, k: usize, n: int, m: int, i: int, j: int)
    requires
        m <= k,
    ensures
        cell_cost(g, Restriction::Band(k), n, m, i, j) == cell_cost(
            g,
            Restriction::Unrestricted,
            n,
            m,
            i,
            j,
        ),
{
    assert forall|x: int, y: int| #[trigger] admissible(Restriction::Band(k), n, m, x, y)
        == admissible(Restriction::Unrestricted, n, m, x, y) by {
        if 0 <= x < n {
            if n >= 2 && m >= 1 {
                lemma_center_bounds(n, m, x);
            }
        }
    }
    lemma_same_admissible_same_cost(
        g,
        Restriction::Band(k),
        Restriction::Unrestricted,
        n,
        m,
        i,
        j,
    );
}

/// On a square grid the diagonal always lies inside the band: the
/// interpolated diagonal of a square shape is the diagonal itself.
proof fn lemma_square_center(n: int, i: int)
    requires
        n >= 2,
        0 <= i < n,
    ensures
        band_center(n, n, i) == i,
{
    let q = n - 1;
    assert(2 * (i * q) + q - 1 == (2 * q) * i + (q - 1)) by (nonlinear_arith)
        requires
            q >= 1,
    ;
    lemma_div_multiples_vanish_fancy(i, q - 1, 2 * q);
}

/// Self-alignment: over a square grid whose diagonal distances are zero
/// and whose entries are non-negative — the grid of `DTW(a, a)` for any
/// metric with `distance(x, x) == 0` — every diagonal cell costs zero
/// under every restriction, so the warping distance is zero.
pub proof fn lemma_self_alignment(g: Seq<Seq<int>>, rest: Restriction, n: int, i: int)
    requires
        n >= 1,
        0 <= i < n,
        forall|x: int| 0 <= x < n ==> #[trigger] g[x][x] == 0,
        forall|x: int, y: int| 0 <= x < n && 0 <= y < n ==> 0 <= #[trigger] g[x][y],
    ensures
        cell_cost(g, rest, n, n, i, i) == Element::<int>::Value(0),
    decreases i,
{
    assert(admissible(rest, n, n, i, i)) by {
        if n >= 2 {
            lemma_square_center(n, i);
        }
    }
    if i == 0 {
    } else {
        lemma_self_alignment(g, rest, n, i - 1);
        lemma_cost_nonneg(g, rest, n, n, i - 1, i);
        lemma_cost_nonneg(g, rest, n, n, i, i - 1);
    }
}

/// Self-alignment, path part: backtracking from any diagonal cell of a
/// cost table whose diagonal is cheapest walks the pure diagonal
/// `[(0, 0), (1, 1), ..., (i, i)]`.
pub proof fn lemma_self_alignment_path(g: Seq<Seq<int>>, rest: Restriction, n: int, i: int)
    requires
        n >= 1,
        0 <= i < n,
        forall|x: int| 0 <= x < n ==> #[trigger] g[x][x] == 0,
        forall|x: int, y: int| 0 <= x < n && 0 <= y < n ==> 0 <= #[trigger] g[x][y],
    ensures
        back_path(cost_table(g, rest, n, n), i, i) =~= Seq::new((i + 1) as nat, |k: int| (k, k)),
    decreases i,
{
    let c = cost_table(g, rest, n, n);
    if i == 0 {
        assert(back_path(c, 0, 0) == seq![(0int, 0int)]);
    } else {
        lemma_self_alignment(g, rest, n, i - 1);
        lemma_cost_nonneg(g, rest, n, n, i - 1, i);
        lemma_cost_nonneg(g, rest, n, n, i, i - 1);
        assert(c[i - 1][i - 1] == cell_cost(g, rest, n, n, i - 1, i - 1));
        assert(c[i - 1][i] == cell_cost(g, rest, n, n, i - 1, i));
        assert(c[i][i - 1] == cell_cost(g, rest, n, n, i, i - 1));
        assert(step_back(c, i, i) == (i - 1, i - 1));
        lemma_self_alignment_path(g, rest, n, i - 1);
        assert(back_path(c, i, i) == back_path(c, i - 1, i - 1).push((i, i)));
    }
}

/// The backtracking step from a non-origin cell lands on one of its three
/// predecessors, and that predecessor's cost is the cheapest of the three
/// — the same minimum the fill rule used.
proof fn lemma_step_back_min(g: Seq<Seq<int>>, rest: Restriction, n: int, m: int, i: int, j: int)
    requires
        0 <= i < n,
        0 <= j < m,
        i > 0 || j > 0,
    ensures
        ({
            let c = cost_table(g, rest, n, m);
            let sb = step_back(c, i, j);
            let diag = if i > 0 && j > 0 {
                cell_cost(g, rest, n, m, i - 1, j - 1)
            } else {
                Element::<int>::Inf
            };
            let up = if i > 0 {
                cell_cost(g, rest, n, m, i - 1, j)
            } else {
                Element::<int>::Inf
            };
            let left = if j > 0 {
                cell_cost(g, rest, n, m, i, j - 1)
            } else {
                Element::<int>::Inf
            };
            &&& sb == (i - 1, j - 1) || sb == (i - 1, j) || sb == (i, j - 1)
            &&& 0 <= sb.0 < n && 0 <= sb.1 < m
            &&& cell_cost(g, rest, n, m, sb.0, sb.1) == elem_min(diag, elem_min(up, left))
            &&& admissible(rest, n, m, i, j) ==> cell_cost(g, rest, n, m, i, j)
                == crate::model::elem_plus(g[i][j], cell_cost(g, rest, n, m, sb.0, sb.1))
        }),
{
    let c = cost_table(g, rest, n, m);
    if i > 0 && j > 0 {
        assert(c[i - 1][j - 1] == cell_cost(g, rest, n, m, i - 1, j - 1));
        assert(c[i - 1][j] == cell_cost(g, rest, n, m, i - 1, j));
        assert(c[i][j - 1] == cell_cost(g, rest, n, m, i, j - 1));
    } else if i > 0 {
        assert(c[i - 1][j] == cell_cost(g, rest, n, m, i - 1, j));
    } else {
        assert(c[i][j - 1] == cell_cost(g, rest, n, m, i, j - 1));
    }
}

/// Appending one admissible warping step to a warping path yields a
/// warping path.
proof fn lemma_valid_path_extend(
    rest: Restriction,
    n: int,
    m: int,
    q: Seq<(int, int)>,
    cell: (int, int),
)
    requires
        valid_path(rest, n, m, q),
        is_step(q.last(), cell),
        admissible(rest, n, m, cell.0, cell.1),
    ensures
        valid_path(rest, n, m, q.push(cell)),
{
    let s = q.push(cell);
    assert(s.first() == q.first());
    assert forall|k: int| 0 <= k < s.len() implies admissible(
        rest,
        n,
        m,
        (#[trigger] s[k]).0,
        s[k].1,
    ) by {
        if k < q.len() {
            assert(s[k] == q[k]);
        } else {
            assert(s[k] == cell);
        }
    }
    assert forall|k: int| 0 <= k < s.len() - 1 implies is_step(#[trigger] s[k], s[k + 1]) by {
        if k < q.len() - 1 {
            assert(s[k] == q[k] && s[k + 1] == q[k + 1]);
        } else {
            assert(s[k] == q.last() && s[k + 1] == cell);
        }
    }
}

/// Dropping the last cell of a warping path of two or more cells yields a
/// warping path.
proof fn lemma_valid_path_shrink(rest: Restriction, n: int, m: int, q: Seq<(int, int)>)
    requires
        valid_path(rest, n, m, q),
        q.len() >= 2,
    ensures
        valid_path(rest, n, m, q.drop_last()),
        is_step(q.drop_last().last(), q.last()),
{
    let sub = q.drop_last();
    assert(sub.first() == q.first());
    assert forall|k: int| 0 <= k < sub.len() implies admissible(
        rest,
        n,
        m,
        (#[trigger] sub[k]).0,
        sub[k].1,
    ) by {
        assert(sub[k] == q[k]);
    }
    assert forall|k: int| 0 <= k < sub.len() - 1 implies is_step(#[trigger] sub[k], sub[k + 1]) by {
        assert(sub[k] == q[k] && sub[k + 1] == q[k + 1]);
    }
    assert(sub.last() == q[q.len() - 2]);
    assert(is_step(q[q.len() - 2], q[q.len() - 1]));
}

/// The cost of a path grown by one cell is the path's cost plus the
/// cell's local distance.
proof fn lemma_path_cost_push(g: Seq<Seq<int>>, q: Seq<(int, int)>, cell: (int, int))
    ensures
        path_cost(g, q.push(cell)) == path_cost(g, q) + g[cell.0][cell.1],
{
    let s = q.push(cell);
    assert(s.drop_last() =~= q);
    assert(s.last() == cell);
}

/// The backtracker is consistent with the filler: from any cell the fill
/// pass could reach, the backtracked path is an admissible warping path
/// whose total cost is exactly the recorded cumulative cost.
pub proof fn lemma_back_path_cost(g: Seq<Seq<int>>, rest: Restriction, n: int, m: int, i: int, j: int)
    requires
        cell_cost(g, rest, n, m, i, j) is Value,
    ensures
        valid_path(rest, n, m, back_path(cost_table(g, rest, n, m), i, j)),
        Element::<int>::Value(
            path_cost(g, back_path(cost_table(g, rest, n, m), i, j)),
        ) == cell_cost(g, rest, n, m, i, j),
    decreases max(i, 0) + max(j, 0),
{
    let c = cost_table(g, rest, n, m);
    assert(admissible(rest, n, m, i, j));
    if i == 0 && j == 0 {
        let q = back_path(c, 0, 0);
        assert(q == seq![(0int, 0int)]);
        assert(q.drop_last().len() == 0);
        assert(path_cost(g, q.drop_last()) == 0);
        assert(q.last() == (0int, 0int));
        assert(path_cost(g, q) == g[0][0]);
    } else {
        lemma_step_back_min(g, rest, n, m, i, j);
        let sb = step_back(c, i, j);
        let fill = cell_cost(g, rest, n, m, i, j);
        let pred = cell_cost(g, rest, n, m, sb.0, sb.1);
        assert(fill == crate::model::elem_plus(g[i][j], pred));
        assert(pred is Value);
        lemma_back_path_cost(g, rest, n, m, sb.0, sb.1);
        let sub = back_path(c, sb.0, sb.1);
        let q = back_path(c, i, j);
        assert(q == sub.push((i, j)));
        crate::model::lemma_back_path_last(c, sb.0, sb.1);
        assert(sub.last() == sb);
        assert(is_step(sb, (i, j)));
        lemma_valid_path_extend(rest, n, m, sub, (i, j));
        lemma_path_cost_push(g, sub, (i, j));
        assert(path_cost(g, q) == path_cost(g, sub) + g[i][j]);
        assert(Element::<int>::Value(path_cost(g, q)) == fill);
    }
}

/// The filler records true minima: no admissible warping path reaches a
/// cell more cheaply than the cumulative cost the fill rule gives it.
/// With the previous law, the backtracked path is a globally optimal
/// alignment.
pub proof fn lemma_cost_minimal(g: Seq<Seq<int>>, rest: Restriction, n: int, m: int, q: Seq<(int, int)>)
    requires
        valid_path(rest, n, m, q),
    ensures
        elem_le(
            cell_cost(g, rest, n, m, q.last().0, q.last().1),
            Element::<int>::Value(path_cost(g, q)),
        ),
    decreases q.len(),
{
    let i = q.last().0;
    let j = q.last().1;
    assert(admissible(rest, n, m, i, j));
    if q.len() == 1 {
        assert(q.last() == q.first());
        assert(q.drop_last().len() == 0);
        assert(path_cost(g, q.drop_last()) == 0);
        assert(path_cost(g, q) == g[0][0]);
    } else {
        let sub = q.drop_last();
        let prev = q[q.len() - 2];
        assert(sub.last() == prev);
        lemma_valid_path_shrink(rest, n, m, q);
        lemma_cost_minimal(g, rest, n, m, sub);
        assert(is_step(prev, (i, j)));
        assert(!(i == 0 && j == 0)) by {
            assert(admissible(rest, n, m, prev.0, prev.1));
        }
        let diag = if i > 0 && j > 0 {
            cell_cost(g, rest, n, m, i - 1, j - 1)
        } else {
            Element::<int>::Inf
        };
        let up = if i > 0 {
            cell_cost(g, rest, n, m, i - 1, j)
        } else {
            Element::<int>::Inf
        };
        let left = if j > 0 {
            cell_cost(g, rest, n, m, i, j - 1)
        } else {
            Element::<int>::Inf
        };
        let best = elem_min(diag, elem_min(up, left));
        assert(cell_cost(g, rest, n, m, i, j) == crate::model::elem_plus(g[i][j], best));
        assert(elem_le(best, cell_cost(g, rest, n, m, prev.0, prev.1))) by {
            if prev == (i - 1, j - 1) {
            } else if prev == (i - 1, j) {
            } else {
                assert(prev == (i, j - 1));
            }
        }
        assert(path_cost(g, q) == path_cost(g, sub) + g[i][j]);
    }
}

/// Wherever some admissible warping path ends, the fill rule records a
/// finite cost. Read the other way round: a cell whose cumulative cost is
/// `Inf` is truly unreachable, so an `InfeasibleBand` outcome is a fact
/// about the restriction, not an artifact of the algorithm.
pub proof fn lemma_reachable_is_finite(
    g: Seq<Seq<int>>,
    rest: Restriction,
    n: int,
    m: int,
    q: Seq<(int, int)>,
)
    requires
        valid_path(rest, n, m, q),
    ensures
        cell_cost(g, rest, n, m, q.last().0, q.last().1) is Value,
{
    lemma_cost_minimal(g, rest, n, m, q);
}

/// The backtracked path is a globally optimal alignment: wherever the
/// fill pass recorded a finite cost, backtracking yields an admissible
/// warping path to that cell, and no admissible warping path to the same
/// cell costs less.
pub proof fn lemma_back_path_optimal(
    g: Seq<Seq<int>>,
    rest: Restriction,
    n: int,
    m: int,
    i: int,
    j: int,
    q: Seq<(int, int)>,
)
    requires
        cell_cost(g, rest, n, m, i, j) is Value,
        valid_path(rest, n, m, q),
        q.last() == (i, j),
    ensures
        valid_path(rest, n, m, back_path(cost_table(g, rest, n, m), i, j)),
        back_path(cost_table(g, rest, n, m), i, j).last() == (i, j),
        Element::<int>::Value(path_cost(g, back_path(cost_table(g, rest, n, m), i, j)))
            == cell_cost(g, rest, n, m, i, j),
        path_cost(g, back_path(cost_table(g, rest, n, m), i, j)) <= path_cost(g, q),
{
    lemma_back_path_cost(g, rest, n, m, i, j);
    lemma_cost_minimal(g, rest, n, m, q);
    crate::model::lemma_back_path_last(cost_table(g, rest, n, m), i, j);
}

/// Singleton boundary: over a one-by-one grid the only cell is admissible
/// under every restriction — the degenerate single-row band included — its
/// cost is the one local distance, and the path is the single cell.
pub proof fn lemma_singleton(g: Seq<Seq<int>>, rest: Restriction, c: Seq<Seq<Element<int>>>)
    ensures
        cell_cost(g, rest, 1, 1, 0, 0) == Element::<int>::Value(g[0][0]),
        back_path(c, 0, 0) == seq![(0int, 0int)],
{
    assert(admissible(rest, 1, 1, 0, 0));
}

} // verus!
