//! The state that carving moves through, one round at a time, and what each
//! round keeps of it.
use crate::grid::{
    adjacent, grid_walls, in_grid, is_grid, is_maze, is_maze_with, is_walk, lemma_grid_walls_update, lemma_walk_push,
    on_edge, reachable, sealed, sealed_cell, with_cell, END, PASSAGE, START, WALL,
};
use crate::point::{opposite_cell, Point};
use vstd::prelude::*;

verus! {

/// The in-grid cell `(nr, nc)` as a one-element sequence, or nothing.
pub open spec fn point_if_inside(nr: int, nc: int, max_r: int, max_c: int, parent: (usize, usize)) -> Seq<Point> {
    if in_grid(nr, nc, max_r, max_c) {
        seq![Point { r: nr as usize, c: nc as usize, parent: Some(parent) }]
    } else {
        seq![]
    }
}

/// The four neighbours of `(r, c)` that lie inside the grid, above, below,
/// left and right in that order, each recorded with `parent`.
pub open spec fn neighbor_points(r: int, c: int, max_r: int, max_c: int, parent: (usize, usize)) -> Seq<Point> {
    point_if_inside(r - 1, c, max_r, max_c, parent) + point_if_inside(r + 1, c, max_r, max_c, parent)
        + point_if_inside(r, c - 1, max_r, max_c, parent) + point_if_inside(r, c + 1, max_r, max_c, parent)
}

/// The carve between a candidate `cur` and the cell `opp` past it is allowed
/// when neither lies on the outer ring, or when a ring cell among them is not
/// the entrance.
pub open spec fn approves(cur: (int, int), opp: (int, int), rows: int, cols: int, start: (usize, usize)) -> bool {
    let s = (start.0 as int, start.1 as int);
    let ce = on_edge(cur.0, cur.1, rows, cols);
    let oe = on_edge(opp.0, opp.1, rows, cols);
    (!ce && !oe) || (ce && cur != s) || (oe && opp != s)
}

/// The ring cells among a carved pair that become candidates for the exit.
pub open spec fn new_exit_candidates(
    cur: (int, int),
    opp: (int, int),
    rows: int,
    cols: int,
    start: (usize, usize),
) -> Seq<(usize, usize)> {
    let s = (start.0 as int, start.1 as int);
    (if on_edge(cur.0, cur.1, rows, cols) && cur != s { seq![(cur.0 as usize, cur.1 as usize)] } else { seq![] })
        + (if on_edge(opp.0, opp.1, rows, cols) && opp != s { seq![(opp.0 as usize, opp.1 as usize)] } else { seq![] })
}

/// One round of carving: the candidate at index `pick` leaves the frontier;
/// if the cell past it is inside the grid, the carve is allowed and both cells
/// are still walls, both become passages, ring cells among them become exit
/// candidates, and the neighbours of the far cell join the frontier.
pub open spec fn carve_result(
    g: Seq<Seq<char>>,
    frontier: Seq<Point>,
    ends: Seq<(usize, usize)>,
    start: (usize, usize),
    pick: int,
) -> (Seq<Seq<char>>, Seq<Point>, Seq<(usize, usize)>) {
    let rows = g.len() as int;
    let cols = g[0].len() as int;
    let cur = frontier[pick];
    let rest = frontier.remove(pick);
    let cp = (cur.r as int, cur.c as int);
    match opposite_cell(cur, rows, cols) {
        None => (g, rest, ends),
        Some(o) => if approves(cp, o, rows, cols, start) && g[cp.0][cp.1] == WALL && g[o.0][o.1] == WALL {
            (
                with_cell(with_cell(g, cp.0, cp.1, PASSAGE), o.0, o.1, PASSAGE),
                rest + neighbor_points(o.0, o.1, rows, cols, (o.0 as usize, o.1 as usize)),
                ends + new_exit_candidates(cp, o, rows, cols, start),
            )
        } else {
            (g, rest, ends)
        },
    }
}

/// Every candidate of the frontier lies inside the grid.
pub open spec fn frontier_inside(frontier: Seq<Point>, rows: int, cols: int) -> bool {
    forall|i: int| 0 <= i < frontier.len() ==> in_grid(#[trigger] frontier[i].r as int, frontier[i].c as int, rows, cols)
}

/// The candidate was reached from a carved neighbour inside the grid.
pub open spec fn point_rooted(g: Seq<Seq<char>>, p: Point, rows: int, cols: int) -> bool {
    &&& p.parent is Some
    &&& in_grid(p.parent->Some_0.0 as int, p.parent->Some_0.1 as int, rows, cols)
    &&& g[p.parent->Some_0.0 as int][p.parent->Some_0.1 as int] != WALL
    &&& adjacent((p.parent->Some_0.0 as int, p.parent->Some_0.1 as int), (p.r as int, p.c as int))
}

/// The characters that a walk in a maze may step onto.
pub open spec fn open_cells() -> Set<char> {
    set![PASSAGE, START, END]
}

/// `walks` holds, for every cell that is not a wall, a walk to it from the
/// entrance over cells that are not walls.
pub open spec fn walks_reach(g: Seq<Seq<char>>, start: (usize, usize), walks: Map<(int, int), Seq<(int, int)>>) -> bool {
    forall|r: int, c: int|
        in_grid(r, c, g.len() as int, g[0].len() as int) && #[trigger] g[r][c] != WALL ==> {
            &&& walks.contains_key((r, c))
            &&& is_walk(g, walks[(r, c)], open_cells())
            &&& walks[(r, c)][0] == (start.0 as int, start.1 as int)
            &&& walks[(r, c)].last() == (r, c)
        }
}

/// A walk stays a walk when cells of the grid only open up.
pub proof fn lemma_walk_grows(g: Seq<Seq<char>>, g2: Seq<Seq<char>>, p: Seq<(int, int)>, open: Set<char>)
    requires
        is_walk(g, p, open),
        g.len() == g2.len(),
        g.len() > 0,
        g[0].len() == g2[0].len(),
        forall|r: int, c: int|
            in_grid(r, c, g.len() as int, g[0].len() as int) && open.contains(#[trigger] g[r][c]) ==> open.contains(
                g2[r][c],
            ),
    ensures
        is_walk(g2, p, open),
{
    assert forall|i: int| 1 <= i < p.len() implies open.contains(g2[#[trigger] p[i].0][p[i].1]) by {
        assert(in_grid(p[i].0, p[i].1, g.len() as int, g[0].len() as int));
        assert(open.contains(g[p[i].0][p[i].1]));
    }
}

/// The cell past a candidate shares a side with it.
proof fn lemma_opposite_adjacent(p: Point, rows: int, cols: int)
    requires
        opposite_cell(p, rows, cols) is Some,
    ensures
        adjacent((p.r as int, p.c as int), opposite_cell(p, rows, cols)->Some_0),
{
}

/// A round of carving keeps a walk from the entrance to every open cell.
pub proof fn lemma_carve_keeps_walks(
    g: Seq<Seq<char>>,
    f: Seq<Point>,
    e: Seq<(usize, usize)>,
    rows: int,
    cols: int,
    start: (usize, usize),
    pick: int,
    walks: Map<(int, int), Seq<(int, int)>>,
) -> (w2: Map<(int, int), Seq<(int, int)>>)
    requires
        carving_state(g, f, e, rows, cols, start),
        0 <= pick < f.len(),
        walks_reach(g, start, walks),
    ensures
        walks_reach(carve_result(g, f, e, start, pick).0, start, w2),
{
    let cur = f[pick];
    let cp = (cur.r as int, cur.c as int);
    assert(g[0].len() == cols);
    assert(in_grid(cp.0, cp.1, rows, cols));
    match opposite_cell(cur, rows, cols) {
        None => walks,
        Some(o) => {
            if approves(cp, o, rows, cols, start) && g[cp.0][cp.1] == WALL && g[o.0][o.1] == WALL {
                let g1 = with_cell(g, cp.0, cp.1, PASSAGE);
                let g2 = with_cell(g1, o.0, o.1, PASSAGE);
                lemma_opposite_adjacent(cur, rows, cols);
                assert(point_rooted(g, cur, rows, cols));
                let par = cur.parent->Some_0;
                let pp = (par.0 as int, par.1 as int);
                assert(g2.len() == g.len() && g2[0].len() == g[0].len());
                assert forall|r: int, c: int| in_grid(r, c, rows, cols) implies #[trigger] g2[r][c] == if (r, c) == cp
                    || (r, c) == o {
                    PASSAGE
                } else {
                    g[r][c]
                } by {}
                assert forall|r: int, c: int|
                    in_grid(r, c, rows, cols) && open_cells().contains(#[trigger] g[r][c]) implies open_cells().contains(
                    g2[r][c],
                ) by {}
                let wp = walks[pp];
                lemma_walk_grows(g, g2, wp, open_cells());
                let wq = wp.push(cp);
                lemma_walk_push(g2, wp, cp, open_cells());
                let wo = wq.push(o);
                lemma_walk_push(g2, wq, o, open_cells());
                let w2 = walks.insert(cp, wq).insert(o, wo);
                assert forall|r: int, c: int| in_grid(r, c, rows, cols) && #[trigger] g2[r][c] != WALL implies {
                    &&& w2.contains_key((r, c))
                    &&& is_walk(g2, w2[(r, c)], open_cells())
                    &&& w2[(r, c)][0] == (start.0 as int, start.1 as int)
                    &&& w2[(r, c)].last() == (r, c)
                } by {
                    if (r, c) != cp && (r, c) != o {
                        assert(g[r][c] != WALL);
                        lemma_walk_grows(g, g2, walks[(r, c)], open_cells());
                    }
                }
                w2
            } else {
                walks
            }
        },
    }
}

/// A ring cell other than the entrance that has been carved.
pub open spec fn is_exit_candidate(g: Seq<Seq<char>>, r: int, c: int, start: (usize, usize)) -> bool {
    &&& in_grid(r, c, g.len() as int, g[0].len() as int)
    &&& on_edge(r, c, g.len() as int, g[0].len() as int)
    &&& (r, c) != (start.0 as int, start.1 as int)
    &&& g[r][c] == PASSAGE
}

/// What holds between rounds of carving: the entrance is the one `START`
/// cell, on the ring; every other cell is a wall or a passage; the frontier
/// stays inside the grid; and `ends` lists exactly the carved ring cells
/// other than the entrance.
pub open spec fn carving_state(
    g: Seq<Seq<char>>,
    frontier: Seq<Point>,
    ends: Seq<(usize, usize)>,
    rows: int,
    cols: int,
    start: (usize, usize),
) -> bool {
    &&& 1 <= rows <= usize::MAX && 1 <= cols <= usize::MAX
    &&& is_grid(g, rows, cols)
    &&& in_grid(start.0 as int, start.1 as int, rows, cols)
    &&& on_edge(start.0 as int, start.1 as int, rows, cols)
    &&& g[start.0 as int][start.1 as int] == START
    &&& forall|r: int, c: int|
        in_grid(r, c, rows, cols) && (r, c) != (start.0 as int, start.1 as int) ==> #[trigger] g[r][c] == WALL
            || g[r][c] == PASSAGE
    &&& frontier_inside(frontier, rows, cols)
    &&& forall|i: int| 0 <= i < frontier.len() ==> #[trigger] point_rooted(g, frontier[i], rows, cols)
    &&& forall|i: int| 0 <= i < ends.len() ==> is_exit_candidate(g, #[trigger] ends[i].0 as int, ends[i].1 as int, start)
    &&& forall|r: int, c: int| #[trigger] is_exit_candidate(g, r, c, start) ==> ends.contains((r as usize, c as usize))
}

/// A round of carving keeps the carving state, and lowers the number of
/// walls (counted four times) plus the length of the frontier.
pub proof fn lemma_carve_keeps_state(
    g: Seq<Seq<char>>,
    f: Seq<Point>,
    e: Seq<(usize, usize)>,
    rows: int,
    cols: int,
    start: (usize, usize),
    pick: int,
)
    requires
        carving_state(g, f, e, rows, cols, start),
        0 <= pick < f.len(),
    ensures
        ({
            let (g2, f2, e2) = carve_result(g, f, e, start, pick);
            &&& carving_state(g2, f2, e2, rows, cols, start)
            &&& grid_walls(g2) * 4 + f2.len() < grid_walls(g) * 4 + f.len()
        }),
{
    let (g2, f2, e2) = carve_result(g, f, e, start, pick);
    let cur = f[pick];
    let rest = f.remove(pick);
    let cp = (cur.r as int, cur.c as int);
    assert(g[0].len() == cols);
    assert(in_grid(cp.0, cp.1, rows, cols));
    assert forall|i: int| 0 <= i < rest.len() implies #[trigger] point_rooted(g, rest[i], rows, cols) by {
        if i >= pick {
            assert(rest[i] == f[i + 1]);
        } else {
            assert(rest[i] == f[i]);
        }
    }
    assert(frontier_inside(rest, rows, cols)) by {
        assert forall|i: int| 0 <= i < rest.len() implies in_grid(
            #[trigger] rest[i].r as int,
            rest[i].c as int,
            rows,
            cols,
        ) by {
            if i >= pick {
                assert(rest[i] == f[i + 1]);
            } else {
                assert(rest[i] == f[i]);
            }
        }
    }
    match opposite_cell(cur, rows, cols) {
        None => {},
        Some(o) => {
            if approves(cp, o, rows, cols, start) && g[cp.0][cp.1] == WALL && g[o.0][o.1] == WALL {
                lemma_carve_pair_keeps_state(g, rest, e, rows, cols, start, cp, o);
            }
        },
    }
}

/// Carving two walls `cp` and `o` keeps the carving state.
proof fn lemma_carve_pair_keeps_state(
    g: Seq<Seq<char>>,
    rest: Seq<Point>,
    e: Seq<(usize, usize)>,
    rows: int,
    cols: int,
    start: (usize, usize),
    cp: (int, int),
    o: (int, int),
)
    requires
        carving_state(g, rest, e, rows, cols, start),
        in_grid(cp.0, cp.1, rows, cols),
        in_grid(o.0, o.1, rows, cols),
        g[cp.0][cp.1] == WALL,
        g[o.0][o.1] == WALL,
        cp != o,
    ensures
        ({
            let g2 = with_cell(with_cell(g, cp.0, cp.1, PASSAGE), o.0, o.1, PASSAGE);
            let f2 = rest + neighbor_points(o.0, o.1, rows, cols, (o.0 as usize, o.1 as usize));
            let e2 = e + new_exit_candidates(cp, o, rows, cols, start);
            &&& carving_state(g2, f2, e2, rows, cols, start)
            &&& grid_walls(g2) * 4 + f2.len() < grid_walls(g) * 4 + rest.len() + 1
        }),
{
    let s = (start.0 as int, start.1 as int);
    let g1 = with_cell(g, cp.0, cp.1, PASSAGE);
    let g2 = with_cell(g1, o.0, o.1, PASSAGE);
    let nb = neighbor_points(o.0, o.1, rows, cols, (o.0 as usize, o.1 as usize));
    let f2 = rest + nb;
    let added = new_exit_candidates(cp, o, rows, cols, start);
    let e2 = e + added;
    lemma_grid_walls_update(g, cp.0, cp.1, PASSAGE);
    lemma_grid_walls_update(g1, o.0, o.1, PASSAGE);
    assert(nb.len() <= 4);
    assert(is_grid(g2, rows, cols));
    assert(g2[0].len() == cols);
    assert forall|r: int, c: int| in_grid(r, c, rows, cols) implies #[trigger] g2[r][c] == if (r, c) == cp || (r, c)
        == o {
        PASSAGE
    } else {
        g[r][c]
    } by {}
    assert forall|r: int, c: int| in_grid(r, c, rows, cols) && (r, c) != s implies #[trigger] g2[r][c] == WALL
        || g2[r][c] == PASSAGE by {
        assert(g[r][c] == WALL || g[r][c] == PASSAGE);
    }
    assert forall|i: int| 0 <= i < f2.len() implies #[trigger] point_rooted(g2, f2[i], rows, cols) by {
        if i >= rest.len() {
            assert(f2[i] == nb[i - rest.len()]);
        } else {
            assert(f2[i] == rest[i]);
            assert(point_rooted(g, rest[i], rows, cols));
            let par = rest[i].parent->Some_0;
            assert(g[par.0 as int][par.1 as int] != WALL);
        }
    }
    assert(frontier_inside(f2, rows, cols)) by {
        assert forall|i: int| 0 <= i < f2.len() implies in_grid(
            #[trigger] f2[i].r as int,
            f2[i].c as int,
            rows,
            cols,
        ) by {
            if i >= rest.len() {
                assert(f2[i] == nb[i - rest.len()]);
            } else {
                assert(f2[i] == rest[i]);
            }
        }
    }
    assert(g2[cp.0][cp.1] == PASSAGE);
    assert(g2[o.0][o.1] == PASSAGE);
    let ca = if on_edge(cp.0, cp.1, rows, cols) && cp != s { seq![(cp.0 as usize, cp.1 as usize)] } else { seq![] };
    let oa = if on_edge(o.0, o.1, rows, cols) && o != s { seq![(o.0 as usize, o.1 as usize)] } else { seq![] };
    assert(added == ca + oa);
    assert forall|j: int| 0 <= j < ca.len() implies is_exit_candidate(g2, #[trigger] ca[j].0 as int, ca[j].1 as int, start) by {
        assert(ca[j] == (cp.0 as usize, cp.1 as usize));
    }
    assert forall|j: int| 0 <= j < oa.len() implies is_exit_candidate(g2, #[trigger] oa[j].0 as int, oa[j].1 as int, start) by {
        assert(oa[j] == (o.0 as usize, o.1 as usize));
    }
    assert forall|i: int| 0 <= i < e2.len() implies is_exit_candidate(
        g2,
        #[trigger] e2[i].0 as int,
        e2[i].1 as int,
        start,
    ) by {
        if i < e.len() {
            assert(e2[i] == e[i]);
            assert(is_exit_candidate(g, e[i].0 as int, e[i].1 as int, start));
            assert(g2[e[i].0 as int][e[i].1 as int] == PASSAGE);
        } else if i < e.len() + ca.len() {
            assert(e2[i] == ca[i - e.len()]);
        } else {
            assert(e2[i] == oa[i - e.len() - ca.len()]);
        }
    }
    assert forall|r: int, c: int| #[trigger] is_exit_candidate(g2, r, c, start) implies e2.contains(
        (r as usize, c as usize),
    ) by {
        if (r, c) == cp {
            assert(e2[e.len() as int] == (r as usize, c as usize));
        } else if (r, c) == o {
            assert(e2.last() == (r as usize, c as usize));
        } else {
            assert(g2[r][c] == g[r][c]);
            assert(is_exit_candidate(g, r, c, start));
            let k = choose|k: int| 0 <= k < e.len() && e[k] == (r as usize, c as usize);
            assert(e2[k] == e[k]);
        }
    }
}

/// Marking a carved ring cell as the exit and sealing the ring finishes the
/// maze.
pub proof fn lemma_sealed_exit_is_maze(
    g: Seq<Seq<char>>,
    ends: Seq<(usize, usize)>,
    rows: int,
    cols: int,
    start: (usize, usize),
    er: int,
    ec: int,
)
    requires
        carving_state(g, seq![], ends, rows, cols, start),
        is_exit_candidate(g, er, ec, start),
    ensures
        is_maze_with(
            sealed(with_cell(g, er, ec, END)),
            rows,
            cols,
            (start.0 as int, start.1 as int),
            (er, ec),
        ),
        is_maze(sealed(with_cell(g, er, ec, END)), rows, cols),
{
    let h = with_cell(g, er, ec, END);
    let m = sealed(h);
    let s = (start.0 as int, start.1 as int);
    assert(g[0].len() == cols);
    assert(h[0].len() == cols);
    assert forall|r: int, c: int| in_grid(r, c, rows, cols) implies #[trigger] h[r][c] == if (r, c) == (er, ec) {
        END
    } else {
        g[r][c]
    } by {}
    assert forall|r: int, c: int| in_grid(r, c, rows, cols) implies #[trigger] m[r][c] == sealed_cell(h, r, c) by {}
    assert forall|r: int, c: int| in_grid(r, c, rows, cols) implies {
        &&& (#[trigger] m[r][c] == START <==> (r, c) == s)
        &&& (m[r][c] == END <==> (r, c) == (er, ec))
        &&& on_edge(r, c, rows, cols) && (r, c) != s && (r, c) != (er, ec) ==> m[r][c] == WALL
        &&& !on_edge(r, c, rows, cols) ==> m[r][c] == WALL || m[r][c] == PASSAGE
    } by {
        assert(h[r][c] == if (r, c) == (er, ec) { END } else { g[r][c] });
        if (r, c) != s {
            assert(g[r][c] == WALL || g[r][c] == PASSAGE);
        }
    }
    assert(is_maze_with(m, rows, cols, s, (er, ec)));
}

/// When the exit is the only carved ring cell besides the entrance, sealing
/// the ring cuts no walk: every cell of the finished maze that is not a wall
/// is reachable from the entrance over cells that are not walls.
pub proof fn lemma_lone_ring_exit_keeps_maze_connected(
    g: Seq<Seq<char>>,
    ends: Seq<(usize, usize)>,
    rows: int,
    cols: int,
    start: (usize, usize),
    er: int,
    ec: int,
)
    requires
        carving_state(g, seq![], ends, rows, cols, start),
        forall|r: int, c: int|
            in_grid(r, c, rows, cols) && #[trigger] g[r][c] != WALL ==> reachable(
                g,
                (start.0 as int, start.1 as int),
                (r, c),
                open_cells(),
            ),
        is_exit_candidate(g, er, ec, start),
        forall|r: int, c: int| #[trigger] is_exit_candidate(g, r, c, start) ==> r == er && c == ec,
    ensures
        ({
            let m = sealed(with_cell(g, er, ec, END));
            forall|r: int, c: int|
                in_grid(r, c, rows, cols) && #[trigger] m[r][c] != WALL ==> reachable(
                    m,
                    (start.0 as int, start.1 as int),
                    (r, c),
                    open_cells(),
                )
        }),
{
    let s = (start.0 as int, start.1 as int);
    let h = with_cell(g, er, ec, END);
    let m = sealed(h);
    assert(g[0].len() == cols);
    assert(h[0].len() == cols);
    assert forall|r: int, c: int| in_grid(r, c, rows, cols) implies #[trigger] h[r][c] == if (r, c) == (er, ec) {
        END
    } else {
        g[r][c]
    } by {}
    assert forall|r: int, c: int| in_grid(r, c, rows, cols) && open_cells().contains(#[trigger] g[r][c]) implies open_cells().contains(
        m[r][c],
    ) by {
        assert(m[r][c] == sealed_cell(h, r, c));
        if (r, c) != s && (r, c) != (er, ec) && on_edge(r, c, rows, cols) {
            assert(g[r][c] == WALL || g[r][c] == PASSAGE);
            assert(g[r][c] == PASSAGE ==> is_exit_candidate(g, r, c, start));
        }
    }
    assert forall|r: int, c: int| in_grid(r, c, rows, cols) && #[trigger] m[r][c] != WALL implies reachable(
        m,
        s,
        (r, c),
        open_cells(),
    ) by {
        assert(m[r][c] == sealed_cell(h, r, c));
        assert(g[r][c] != WALL);
        let p = choose|p: Seq<(int, int)>| is_walk(g, p, open_cells()) && p[0] == s && p.last() == (r, c);
        lemma_walk_grows(g, m, p, open_cells());
    }
}

} // verus!
