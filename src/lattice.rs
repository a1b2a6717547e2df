//! The lattice that carving works on: cells an even number of rows and
//! columns away from the entrance, joined through the cells between them.
use crate::grid::{in_grid, on_edge, with_cell, PASSAGE, WALL};
use crate::point::{opposite_cell, Point};
use crate::carving::{
    approves, carve_result, carving_state, is_exit_candidate, neighbor_points, point_if_inside, point_rooted,
};
use vstd::prelude::*;

verus! {

/// `x` lies an even number of rows and an even number of columns from `s`.
pub open spec fn on_lattice(x: (int, int), s: (int, int)) -> bool {
    (x.0 - s.0) % 2 == 0 && (x.1 - s.1) % 2 == 0
}

/// A ring cell of a `rows` by `cols` grid other than `s`, on the lattice of `s`.
pub open spec fn far_ring_cell(rows: int, cols: int, s: (int, int), x: (int, int)) -> bool {
    &&& in_grid(x.0, x.1, rows, cols)
    &&& on_edge(x.0, x.1, rows, cols)
    &&& x != s
    &&& on_lattice(x, s)
}

/// Some ring cell other than `s` lies on its lattice.
pub open spec fn has_far_ring_cell(rows: int, cols: int, s: (int, int)) -> bool {
    exists|x: (int, int)| far_ring_cell(rows, cols, s, x)
}

/// The carved cell `x` sits off the lattice, between two carved cells on a
/// line along its odd coordinate.
pub open spec fn bridged(g: Seq<Seq<char>>, x: (int, int), s: (int, int), rows: int, cols: int) -> bool {
    ||| {
        &&& (x.0 - s.0) % 2 != 0
        &&& (x.1 - s.1) % 2 == 0
        &&& in_grid(x.0 - 1, x.1, rows, cols) && in_grid(x.0 + 1, x.1, rows, cols)
        &&& g[x.0 - 1][x.1] != WALL && g[x.0 + 1][x.1] != WALL
    }
    ||| {
        &&& (x.1 - s.1) % 2 != 0
        &&& (x.0 - s.0) % 2 == 0
        &&& in_grid(x.0, x.1 - 1, rows, cols) && in_grid(x.0, x.1 + 1, rows, cols)
        &&& g[x.0][x.1 - 1] != WALL && g[x.0][x.1 + 1] != WALL
    }
}

/// `(dr, dc)` is one step up, down, left or right.
pub open spec fn unit_step(dr: int, dc: int) -> bool {
    (dr == 0 && (dc == 1 || dc == -1)) || (dc == 0 && (dr == 1 || dr == -1))
}

/// The candidate one step from `(r, c)` in direction `(dr, dc)`, reached
/// from `(r, c)`.
pub open spec fn candidate_from(r: int, c: int, dr: int, dc: int) -> Point {
    Point { r: (r + dr) as usize, c: (c + dc) as usize, parent: Some((r as usize, c as usize)) }
}

/// From the carved lattice cell `(r, c)`, the lattice cell two steps away in
/// direction `(dr, dc)` is carved, or the candidate towards it waits in the
/// frontier.
pub open spec fn closed_at(
    g: Seq<Seq<char>>,
    f: Seq<Point>,
    s: (int, int),
    rows: int,
    cols: int,
    r: int,
    c: int,
    dr: int,
    dc: int,
) -> bool {
    (in_grid(r, c, rows, cols) && on_lattice((r, c), s) && g[r][c] != WALL && unit_step(dr, dc) && in_grid(
        r + 2 * dr,
        c + 2 * dc,
        rows,
        cols,
    )) ==> (g[r + 2 * dr][c + 2 * dc] != WALL || f.contains(candidate_from(r, c, dr, dc)))
}

/// The parent of a candidate, as a pair of integers.
pub open spec fn parent_cell(p: Point) -> (int, int) {
    (p.parent->Some_0.0 as int, p.parent->Some_0.1 as int)
}

/// What carving keeps about the lattice: candidates come from lattice cells,
/// every carved cell is on the lattice or bridged, and every carved lattice
/// cell is closed in each direction.
pub open spec fn carving_closure(g: Seq<Seq<char>>, f: Seq<Point>, rows: int, cols: int, start: (usize, usize)) -> bool {
    let s = (start.0 as int, start.1 as int);
    &&& forall|i: int| 0 <= i < f.len() ==> on_lattice(parent_cell(#[trigger] f[i]), s)
    &&& forall|r: int, c: int|
        in_grid(r, c, rows, cols) && #[trigger] g[r][c] != WALL ==> on_lattice((r, c), s) || bridged(g, (r, c), s, rows, cols)
    &&& forall|r: int, c: int, dr: int, dc: int| #[trigger] closed_at(g, f, s, rows, cols, r, c, dr, dc)
}

/// The candidate at `pick` is the step `(dr, dc)` from its lattice parent,
/// and the cell past it is two steps from the parent.
proof fn lemma_candidate_shape(
    g: Seq<Seq<char>>,
    f: Seq<Point>,
    e: Seq<(usize, usize)>,
    rows: int,
    cols: int,
    start: (usize, usize),
    pick: int,
)
    requires
        carving_state(g, f, e, rows, cols, start),
        carving_closure(g, f, rows, cols, start),
        0 <= pick < f.len(),
    ensures
        ({
            let cur = f[pick];
            let pp = parent_cell(cur);
            let dr = cur.r as int - pp.0;
            let dc = cur.c as int - pp.1;
            &&& unit_step(dr, dc)
            &&& in_grid(pp.0, pp.1, rows, cols)
            &&& g[pp.0][pp.1] != WALL
            &&& on_lattice(pp, (start.0 as int, start.1 as int))
            &&& cur == candidate_from(pp.0, pp.1, dr, dc)
            &&& opposite_cell(cur, rows, cols) == if in_grid(pp.0 + 2 * dr, pp.1 + 2 * dc, rows, cols) {
                Some((pp.0 + 2 * dr, pp.1 + 2 * dc))
            } else {
                None::<(int, int)>
            }
        }),
{
    let cur = f[pick];
    assert(point_rooted(g, cur, rows, cols));
    assert(on_lattice(parent_cell(f[pick]), (start.0 as int, start.1 as int)));
}

/// A candidate that was recorded from `(r, c)` in direction `(dr, dc)` is
/// that one candidate.
proof fn lemma_candidate_unique(r: int, c: int, dr: int, dc: int, r2: int, c2: int, dr2: int, dc2: int, rows: int, cols: int)
    requires
        rows <= usize::MAX && cols <= usize::MAX,
        in_grid(r, c, rows, cols),
        in_grid(r2, c2, rows, cols),
        in_grid(r + dr, c + dc, rows, cols),
        in_grid(r2 + dr2, c2 + dc2, rows, cols),
        candidate_from(r, c, dr, dc) == candidate_from(r2, c2, dr2, dc2),
    ensures
        r == r2 && c == c2 && dr == dr2 && dc == dc2,
{
    let a = candidate_from(r, c, dr, dc);
    let b = candidate_from(r2, c2, dr2, dc2);
    assert(a.parent->Some_0 == b.parent->Some_0);
    assert(a.r == b.r && a.c == b.c);
}

/// A round of carving keeps the closure of the lattice.
pub proof fn lemma_carve_keeps_closure(
    g: Seq<Seq<char>>,
    f: Seq<Point>,
    e: Seq<(usize, usize)>,
    rows: int,
    cols: int,
    start: (usize, usize),
    pick: int,
)
    requires
        carving_state(g, f, e, rows, cols, start),
        carving_closure(g, f, rows, cols, start),
        0 <= pick < f.len(),
    ensures
        carving_closure(carve_result(g, f, e, start, pick).0, carve_result(g, f, e, start, pick).1, rows, cols, start),
{
    let s = (start.0 as int, start.1 as int);
    let cur = f[pick];
    let rest = f.remove(pick);
    let cp = (cur.r as int, cur.c as int);
    lemma_candidate_shape(g, f, e, rows, cols, start, pick);
    let pp = parent_cell(cur);
    let dr = cp.0 - pp.0;
    let dc = cp.1 - pp.1;
    assert(g[0].len() == cols);
    assert forall|q: Point| #[trigger] f.contains(q) && q != cur implies rest.contains(q) by {
        let k = choose|k: int| 0 <= k < f.len() && f[k] == q;
        if k < pick {
            assert(rest[k] == q);
        } else {
            assert(k != pick);
            assert(rest[k - 1] == q);
        }
    }
    assert forall|i: int| 0 <= i < rest.len() implies on_lattice(parent_cell(#[trigger] rest[i]), s) by {
        if i >= pick {
            assert(rest[i] == f[i + 1]);
        } else {
            assert(rest[i] == f[i]);
        }
    }
    let (g2, f2, e2) = carve_result(g, f, e, start, pick);
    match opposite_cell(cur, rows, cols) {
        None => {
            assert forall|r: int, c: int, dr2: int, dc2: int| #[trigger] closed_at(g2, f2, s, rows, cols, r, c, dr2, dc2) by {
                assert(closed_at(g, f, s, rows, cols, r, c, dr2, dc2));
                if in_grid(r, c, rows, cols) && on_lattice((r, c), s) && g[r][c] != WALL && unit_step(dr2, dc2)
                    && in_grid(r + 2 * dr2, c + 2 * dc2, rows, cols) && g[r + 2 * dr2][c + 2 * dc2] == WALL {
                    let q = candidate_from(r, c, dr2, dc2);
                    if q == cur {
                        lemma_candidate_unique(r, c, dr2, dc2, pp.0, pp.1, dr, dc, rows, cols);
                    }
                }
            }
        },
        Some(o) => {
            if approves(cp, o, rows, cols, start) && g[cp.0][cp.1] == WALL && g[o.0][o.1] == WALL {
                lemma_carve_pair_keeps_closure(g, f, rows, cols, start, cur, rest, pp, dr, dc);
            } else {
                assert(g[o.0][o.1] != WALL) by {
                    if g[o.0][o.1] == WALL {
                        if g[cp.0][cp.1] == WALL {
                            assert(cp != s && o != s);
                        } else {
                            assert(on_lattice(cp, s) || bridged(g, cp, s, rows, cols));
                        }
                    }
                }
                assert forall|r: int, c: int, dr2: int, dc2: int|
                    #[trigger] closed_at(g2, f2, s, rows, cols, r, c, dr2, dc2) by {
                    assert(closed_at(g, f, s, rows, cols, r, c, dr2, dc2));
                    if in_grid(r, c, rows, cols) && on_lattice((r, c), s) && g[r][c] != WALL && unit_step(dr2, dc2)
                        && in_grid(r + 2 * dr2, c + 2 * dc2, rows, cols) && g[r + 2 * dr2][c + 2 * dc2] == WALL {
                        let q = candidate_from(r, c, dr2, dc2);
                        if q == cur {
                            lemma_candidate_unique(r, c, dr2, dc2, pp.0, pp.1, dr, dc, rows, cols);
                        }
                    }
                }
            }
        },
    }
}

/// Carving the candidate `cur` and the cell past it keeps the closure.
proof fn lemma_carve_pair_keeps_closure(
    g: Seq<Seq<char>>,
    f: Seq<Point>,
    rows: int,
    cols: int,
    start: (usize, usize),
    cur: Point,
    rest: Seq<Point>,
    pp: (int, int),
    dr: int,
    dc: int,
)
    requires
        1 <= rows <= usize::MAX && 1 <= cols <= usize::MAX,
        g.len() == rows,
        forall|r: int| 0 <= r < rows ==> #[trigger] g[r].len() == cols,
        carving_closure(g, f, rows, cols, start),
        forall|i: int| 0 <= i < rest.len() ==> on_lattice(parent_cell(#[trigger] rest[i]), (start.0 as int, start.1 as int)),
        forall|q: Point| #[trigger] f.contains(q) && q != cur ==> rest.contains(q),
        unit_step(dr, dc),
        in_grid(pp.0, pp.1, rows, cols),
        g[pp.0][pp.1] != WALL,
        on_lattice(pp, (start.0 as int, start.1 as int)),
        cur == candidate_from(pp.0, pp.1, dr, dc),
        in_grid(pp.0 + 2 * dr, pp.1 + 2 * dc, rows, cols),
        g[pp.0 + dr][pp.1 + dc] == WALL,
        g[pp.0 + 2 * dr][pp.1 + 2 * dc] == WALL,
    ensures
        ({
            let cp = (pp.0 + dr, pp.1 + dc);
            let o = (pp.0 + 2 * dr, pp.1 + 2 * dc);
            let g2 = with_cell(with_cell(g, cp.0, cp.1, PASSAGE), o.0, o.1, PASSAGE);
            let f2 = rest + neighbor_points(o.0, o.1, rows, cols, (o.0 as usize, o.1 as usize));
            carving_closure(g2, f2, rows, cols, start)
        }),
{
    let s = (start.0 as int, start.1 as int);
    let cp = (pp.0 + dr, pp.1 + dc);
    let o = (pp.0 + 2 * dr, pp.1 + 2 * dc);
    let g2 = with_cell(with_cell(g, cp.0, cp.1, PASSAGE), o.0, o.1, PASSAGE);
    let nb = neighbor_points(o.0, o.1, rows, cols, (o.0 as usize, o.1 as usize));
    let f2 = rest + nb;
    assert(in_grid(cp.0, cp.1, rows, cols));
    assert forall|r: int, c: int| in_grid(r, c, rows, cols) implies #[trigger] g2[r][c] == if (r, c) == cp || (r, c)
        == o {
        PASSAGE
    } else {
        g[r][c]
    } by {}
    assert(on_lattice(o, s));
    assert(!on_lattice(cp, s));
    assert forall|i: int| 0 <= i < f2.len() implies on_lattice(parent_cell(#[trigger] f2[i]), s) by {
        if i < rest.len() {
            assert(f2[i] == rest[i]);
        } else {
            assert(f2[i] == nb[i - rest.len()]);
        }
    }
    assert forall|q: Point| #[trigger] rest.contains(q) implies f2.contains(q) by {
        let k = choose|k: int| 0 <= k < rest.len() && rest[k] == q;
        assert(f2[k] == q);
    }
    assert forall|r: int, c: int| in_grid(r, c, rows, cols) && #[trigger] g2[r][c] != WALL implies on_lattice((r, c), s)
        || bridged(g2, (r, c), s, rows, cols) by {
        if (r, c) == cp {
            assert(g2[pp.0][pp.1] != WALL);
            assert(g2[o.0][o.1] != WALL);
        } else if (r, c) != o {
            assert(g[r][c] != WALL);
            assert(on_lattice((r, c), s) || bridged(g, (r, c), s, rows, cols));
            if !on_lattice((r, c), s) {
                if in_grid(r - 1, c, rows, cols) && in_grid(r + 1, c, rows, cols) && g[r - 1][c] != WALL && g[r + 1][c]
                    != WALL {
                    assert(g2[r - 1][c] != WALL && g2[r + 1][c] != WALL);
                }
                if in_grid(r, c - 1, rows, cols) && in_grid(r, c + 1, rows, cols) && g[r][c - 1] != WALL && g[r][c + 1]
                    != WALL {
                    assert(g2[r][c - 1] != WALL && g2[r][c + 1] != WALL);
                }
            }
        }
    }
    assert forall|r: int, c: int, dr2: int, dc2: int| #[trigger] closed_at(g2, f2, s, rows, cols, r, c, dr2, dc2) by {
        if in_grid(r, c, rows, cols) && on_lattice((r, c), s) && g2[r][c] != WALL && unit_step(dr2, dc2) && in_grid(
            r + 2 * dr2,
            c + 2 * dc2,
            rows,
            cols,
        ) && g2[r + 2 * dr2][c + 2 * dc2] == WALL {
            let q = candidate_from(r, c, dr2, dc2);
            if (r, c) == o {
                lemma_neighbors_contain(o, rows, cols, dr2, dc2);
                let k = choose|k: int| 0 <= k < nb.len() && nb[k] == q;
                assert(f2[rest.len() + k] == q);
            } else {
                assert((r, c) != cp);
                assert(g[r][c] != WALL);
                assert(closed_at(g, f, s, rows, cols, r, c, dr2, dc2));
                assert(g[r + 2 * dr2][c + 2 * dc2] == WALL);
                assert(f.contains(q));
                if q == cur {
                    lemma_candidate_unique(r, c, dr2, dc2, pp.0, pp.1, dr, dc, rows, cols);
                } else {
                    assert(rest.contains(q));
                }
            }
        }
    }
}

/// Wherever the entrance lies on the ring, another ring cell lies an even
/// number of rows and columns away from it.
pub open spec fn exit_for_every_entrance(rows: int, cols: int) -> bool {
    forall|s: (int, int)|
        in_grid(s.0, s.1, rows, cols) && on_edge(s.0, s.1, rows, cols) ==> #[trigger] has_far_ring_cell(rows, cols, s)
}

/// In a grid with an odd number of rows and of columns, both at least
/// three, every entrance on the ring has another ring cell on its lattice,
/// so generation never fails there.
pub proof fn lemma_odd_grids_always_have_exit(rows: int, cols: int)
    requires
        rows >= 3,
        cols >= 3,
        rows % 2 == 1,
        cols % 2 == 1,
    ensures
        exit_for_every_entrance(rows, cols),
{
    assert forall|s: (int, int)|
        in_grid(s.0, s.1, rows, cols) && on_edge(s.0, s.1, rows, cols) implies #[trigger] has_far_ring_cell(
        rows,
        cols,
        s,
    ) by {
        if s.0 == 0 || s.0 == rows - 1 {
            let other = if s.0 == 0 { rows - 1 } else { 0 };
            if s.1 % 2 == 0 {
                let c = if s.1 + 2 <= cols - 1 { s.1 + 2 } else { s.1 - 2 };
                assert(far_ring_cell(rows, cols, s, (s.0, c)));
            } else {
                assert(far_ring_cell(rows, cols, s, (other, s.1)));
            }
        } else {
            let other = if s.1 == 0 { cols - 1 } else { 0 };
            if s.0 % 2 == 0 {
                let r = if s.0 + 2 <= rows - 1 { s.0 + 2 } else { s.0 - 2 };
                assert(far_ring_cell(rows, cols, s, (r, s.1)));
            } else {
                assert(far_ring_cell(rows, cols, s, (s.0, other)));
            }
        }
    }
}

/// In a grid under three rows and under three columns no other cell lies an
/// even number of rows and columns from the entrance, so generation always
/// fails there.
pub proof fn lemma_small_grids_have_no_exit(rows: int, cols: int, s: (int, int))
    requires
        rows < 3,
        cols < 3,
        in_grid(s.0, s.1, rows, cols),
    ensures
        !has_far_ring_cell(rows, cols, s),
{
    assert forall|x: (int, int)| !far_ring_cell(rows, cols, s, x) by {
        if far_ring_cell(rows, cols, s, x) {
            assert(x.0 == s.0 && x.1 == s.1);
        }
    }
}

/// The neighbours recorded from `o` include the candidate towards each
/// in-grid neighbour.
pub proof fn lemma_neighbors_contain(o: (int, int), rows: int, cols: int, dr: int, dc: int)
    requires
        in_grid(o.0, o.1, rows, cols),
        in_grid(o.0 + dr, o.1 + dc, rows, cols),
        unit_step(dr, dc),
    ensures
        neighbor_points(o.0, o.1, rows, cols, (o.0 as usize, o.1 as usize)).contains(candidate_from(o.0, o.1, dr, dc)),
{
    let base = (o.0 as usize, o.1 as usize);
    let nb = neighbor_points(o.0, o.1, rows, cols, base);
    let q = candidate_from(o.0, o.1, dr, dc);
    let a = point_if_inside(o.0 - 1, o.1, rows, cols, base);
    let b = point_if_inside(o.0 + 1, o.1, rows, cols, base);
    let cc = point_if_inside(o.0, o.1 - 1, rows, cols, base);
    let d = point_if_inside(o.0, o.1 + 1, rows, cols, base);
    assert(nb == a + b + cc + d);
    if dr == -1 {
        assert(nb[0] == q);
    } else if dr == 1 {
        assert(nb[a.len() as int] == q);
    } else if dc == -1 {
        assert(nb[(a.len() + b.len()) as int] == q);
    } else {
        assert(nb[(a.len() + b.len() + cc.len()) as int] == q);
    }
}

/// With an empty frontier, the carved lattice cell `p` reaches along its
/// column: the lattice cell `2 * k` rows away is carved too.
proof fn lemma_carved_along_rows(
    g: Seq<Seq<char>>,
    s: (int, int),
    rows: int,
    cols: int,
    p: (int, int),
    k: int,
)
    requires
        forall|r: int, c: int, dr: int, dc: int| #[trigger] closed_at(g, seq![], s, rows, cols, r, c, dr, dc),
        in_grid(p.0, p.1, rows, cols),
        on_lattice(p, s),
        g[p.0][p.1] != WALL,
        in_grid(p.0 + 2 * k, p.1, rows, cols),
    ensures
        g[p.0 + 2 * k][p.1] != WALL,
    decreases
            if k >= 0 {
                k
            } else {
                -k
            },
{
    if k > 0 {
        lemma_carved_along_rows(g, s, rows, cols, p, k - 1);
        let q = (p.0 + 2 * (k - 1), p.1);
        assert(on_lattice(q, s)) by {
            assert((q.0 - s.0) == (p.0 - s.0) + 2 * (k - 1));
        }
        assert(closed_at(g, seq![], s, rows, cols, q.0, q.1, 1, 0));
        let empty: Seq<Point> = seq![];
        assert(!empty.contains(candidate_from(q.0, q.1, 1, 0)));
    } else if k < 0 {
        lemma_carved_along_rows(g, s, rows, cols, p, k + 1);
        let q = (p.0 + 2 * (k + 1), p.1);
        assert(on_lattice(q, s)) by {
            assert((q.0 - s.0) == (p.0 - s.0) + 2 * (k + 1));
        }
        assert(closed_at(g, seq![], s, rows, cols, q.0, q.1, -1, 0));
        let empty: Seq<Point> = seq![];
        assert(!empty.contains(candidate_from(q.0, q.1, -1, 0)));
    }
}

/// With an empty frontier, the carved lattice cell `p` reaches along its
/// row: the lattice cell `2 * k` columns away is carved too.
proof fn lemma_carved_along_cols(
    g: Seq<Seq<char>>,
    s: (int, int),
    rows: int,
    cols: int,
    p: (int, int),
    k: int,
)
    requires
        forall|r: int, c: int, dr: int, dc: int| #[trigger] closed_at(g, seq![], s, rows, cols, r, c, dr, dc),
        in_grid(p.0, p.1, rows, cols),
        on_lattice(p, s),
        g[p.0][p.1] != WALL,
        in_grid(p.0, p.1 + 2 * k, rows, cols),
    ensures
        g[p.0][p.1 + 2 * k] != WALL,
    decreases
            if k >= 0 {
                k
            } else {
                -k
            },
{
    if k > 0 {
        lemma_carved_along_cols(g, s, rows, cols, p, k - 1);
        let q = (p.0, p.1 + 2 * (k - 1));
        assert(on_lattice(q, s)) by {
            assert((q.1 - s.1) == (p.1 - s.1) + 2 * (k - 1));
        }
        assert(closed_at(g, seq![], s, rows, cols, q.0, q.1, 0, 1));
        let empty: Seq<Point> = seq![];
        assert(!empty.contains(candidate_from(q.0, q.1, 0, 1)));
    } else if k < 0 {
        lemma_carved_along_cols(g, s, rows, cols, p, k + 1);
        let q = (p.0, p.1 + 2 * (k + 1));
        assert(on_lattice(q, s)) by {
            assert((q.1 - s.1) == (p.1 - s.1) + 2 * (k + 1));
        }
        assert(closed_at(g, seq![], s, rows, cols, q.0, q.1, 0, -1));
        let empty: Seq<Point> = seq![];
        assert(!empty.contains(candidate_from(q.0, q.1, 0, -1)));
    }
}

/// A carved ring cell other than the entrance means a ring cell on the
/// entrance's lattice.
proof fn lemma_exit_gives_far_cell(
    g: Seq<Seq<char>>,
    rows: int,
    cols: int,
    start: (usize, usize),
    x: (int, int),
)
    requires
        1 <= rows && 1 <= cols,
        g.len() == rows,
        g[0].len() == cols,
        is_exit_candidate(g, x.0, x.1, start),
        on_lattice(x, (start.0 as int, start.1 as int)) || bridged(g, x, (start.0 as int, start.1 as int), rows, cols),
    ensures
        has_far_ring_cell(rows, cols, (start.0 as int, start.1 as int)),
{
    let s = (start.0 as int, start.1 as int);
    if on_lattice(x, s) {
        assert(far_ring_cell(rows, cols, s, x));
    } else if (x.0 - s.0) % 2 != 0 {
        let y = if (x.0 - 1, x.1) != s { (x.0 - 1, x.1) } else { (x.0 + 1, x.1) };
        assert(far_ring_cell(rows, cols, s, y));
    } else {
        let y = if (x.0, x.1 - 1) != s { (x.0, x.1 - 1) } else { (x.0, x.1 + 1) };
        assert(far_ring_cell(rows, cols, s, y));
    }
}

/// With an empty frontier, a ring cell on the entrance's lattice is carved.
proof fn lemma_far_cell_is_carved(
    g: Seq<Seq<char>>,
    rows: int,
    cols: int,
    s: (int, int),
    x: (int, int),
)
    requires
        forall|r: int, c: int, dr: int, dc: int| #[trigger] closed_at(g, seq![], s, rows, cols, r, c, dr, dc),
        in_grid(s.0, s.1, rows, cols),
        g[s.0][s.1] != WALL,
        far_ring_cell(rows, cols, s, x),
    ensures
        g[x.0][x.1] != WALL,
{
    let a = (x.0 - s.0) / 2;
    let b = (x.1 - s.1) / 2;
    assert(x.0 == s.0 + 2 * a && x.1 == s.1 + 2 * b);
    assert(on_lattice(s, s));
    lemma_carved_along_rows(g, s, rows, cols, s, a);
    let m = (s.0 + 2 * a, s.1);
    assert(on_lattice(m, s));
    lemma_carved_along_cols(g, s, rows, cols, m, b);
}

/// When carving ends, exit candidates exist exactly when a ring cell other
/// than the entrance lies on its lattice.
pub proof fn lemma_carving_finds_exit(
    g: Seq<Seq<char>>,
    e: Seq<(usize, usize)>,
    rows: int,
    cols: int,
    start: (usize, usize),
)
    requires
        carving_state(g, seq![], e, rows, cols, start),
        carving_closure(g, seq![], rows, cols, start),
    ensures
        e.len() > 0 <==> has_far_ring_cell(rows, cols, (start.0 as int, start.1 as int)),
{
    let s = (start.0 as int, start.1 as int);
    assert(g[0].len() == cols);
    if e.len() > 0 {
        let x = (e[0].0 as int, e[0].1 as int);
        assert(is_exit_candidate(g, x.0, x.1, start));
        assert(g[x.0][x.1] != WALL);
        lemma_exit_gives_far_cell(g, rows, cols, start, x);
    }
    if has_far_ring_cell(rows, cols, s) {
        let x = choose|x: (int, int)| far_ring_cell(rows, cols, s, x);
        lemma_far_cell_is_carved(g, rows, cols, s, x);
        assert(g[x.0][x.1] == WALL || g[x.0][x.1] == PASSAGE);
        assert(is_exit_candidate(g, x.0, x.1, start));
        assert(e.contains((x.0 as usize, x.1 as usize)));
    }
}

} // verus!
