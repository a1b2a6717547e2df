//! Maze carving in the manner of Prim's algorithm.
use crate::carving::{
    carve_result, carving_state, frontier_inside, is_exit_candidate, lemma_carve_keeps_state, lemma_carve_keeps_walks,
    lemma_sealed_exit_is_maze, neighbor_points, new_exit_candidates, open_cells, point_if_inside, walks_reach,
};
use crate::grid::{
    cells, grid_walls, in_grid, is_grid, is_maze, is_maze_from, is_maze_with, is_rectangular, is_walk, on_edge,
    reachable, sealed, with_cell, END, PASSAGE, START, WALL,
};
use crate::lattice::{
    carving_closure, closed_at, exit_for_every_entrance, has_far_ring_cell, lemma_carve_keeps_closure,
    lemma_carving_finds_exit, lemma_neighbors_contain, lemma_small_grids_have_no_exit, on_lattice, parent_cell, unit_step,
};
use crate::point::Point;
use crate::rng::{choose_cell, draw_below};
use rand::rngs::StdRng;
use vstd::prelude::*;

verus! {

/// Why a maze could not be generated.
#[derive(Debug, Clone, Copy, PartialEq, Eq)]
pub enum MazeError {
    /// The grid has no rows or no columns, or more ring cells than a `usize`
    /// counts.
    InvalidDimensions,
    /// No ring cell other than the entrance could be connected to it.
    NoExitFound,
}

/// The maze generator.
#[derive(Debug, Default, Clone, Copy)]
pub struct Prim;

/// Writes `x` into the cell `(r, c)`.
fn set_cell(maz: &mut Vec<Vec<char>>, r: usize, c: usize, x: char)
    requires
        r < old(maz)@.len(),
        c < old(maz)@[r as int]@.len(),
    ensures
        final(maz)@.len() == old(maz)@.len(),
        cells(final(maz)) == cells(old(maz)).update(r as int, cells(old(maz))[r as int].update(c as int, x)),
{
    maz[r][c] = x;
    assert(cells(maz)[r as int] =~= cells(old(maz))[r as int].update(c as int, x));
    assert(cells(maz) =~= cells(old(maz)).update(r as int, cells(old(maz))[r as int].update(c as int, x)));
}

/// The number of cells on the outer ring of a `row` by `col` grid.
pub open spec fn ring_count(row: int, col: int) -> int {
    if row == 1 {
        col
    } else if col == 1 {
        row
    } else {
        2 * col + 2 * (row - 2)
    }
}

/// The ring cells numbered from 0: the top row from left to right, then the
/// bottom row, then the left column and the right column between them, each
/// from top to bottom.
pub open spec fn ring_cell(k: int, row: int, col: int) -> (int, int) {
    if row == 1 {
        (0, k)
    } else if col == 1 {
        (k, 0)
    } else if k < col {
        (0, k)
    } else if k < 2 * col {
        (row - 1, k - col)
    } else if k < 2 * col + (row - 2) {
        (k - 2 * col + 1, 0)
    } else {
        (k - 2 * col - (row - 2) + 1, col - 1)
    }
}

/// The numbering of the ring is one to one: each number below the ring's
/// size names a ring cell, no two numbers name the same cell, and every ring
/// cell has a number.
pub proof fn lemma_ring_numbering(row: int, col: int)
    requires
        row >= 1,
        col >= 1,
    ensures
        forall|k: int|
            0 <= k < ring_count(row, col) ==> in_grid(#[trigger] ring_cell(k, row, col).0, ring_cell(k, row, col).1, row, col)
                && on_edge(ring_cell(k, row, col).0, ring_cell(k, row, col).1, row, col),
        forall|k1: int, k2: int|
            0 <= k1 < ring_count(row, col) && 0 <= k2 < ring_count(row, col) && k1 != k2 ==> #[trigger] ring_cell(
                k1,
                row,
                col,
            ) != #[trigger] ring_cell(k2, row, col),
        forall|r: int, c: int|
            in_grid(r, c, row, col) && #[trigger] on_edge(r, c, row, col) ==> exists|k: int|
                0 <= k < ring_count(row, col) && #[trigger] ring_cell(k, row, col) == (r, c),
{
    assert forall|r: int, c: int| in_grid(r, c, row, col) && #[trigger] on_edge(r, c, row, col) implies exists|k: int|
        0 <= k < ring_count(row, col) && #[trigger] ring_cell(k, row, col) == (r, c) by {
        let k = if row == 1 {
            c
        } else if col == 1 {
            r
        } else if r == 0 {
            c
        } else if r == row - 1 {
            col + c
        } else if c == 0 {
            2 * col + r - 1
        } else {
            2 * col + (row - 2) + r - 1
        };
        assert(ring_cell(k, row, col) == (r, c));
    }
}

/// A grid of `row` rows of `col` walls.
pub open spec fn all_walls(row: int, col: int) -> Seq<Seq<char>> {
    Seq::new(row as nat, |r: int| Seq::new(col as nat, |c: int| WALL))
}

/// A `row` by `col` grid of walls.
fn walled(row: usize, col: usize) -> (maz: Vec<Vec<char>>)
    ensures
        maz@.len() == row,
        cells(&maz) == all_walls(row as int, col as int),
{
    let mut maz: Vec<Vec<char>> = Vec::new();
    let mut r: usize = 0;
    while r < row
        invariant
            r <= row,
            maz@.len() == r,
            cells(&maz) == all_walls(r as int, col as int),
        decreases row - r,
    {
        let mut line: Vec<char> = Vec::new();
        let mut c: usize = 0;
        while c < col
            invariant
                c <= col,
                line@ == Seq::new(c as nat, |j: int| WALL),
            decreases col - c,
        {
            line.push(WALL);
            c += 1;
            assert(line@ =~= Seq::new(c as nat, |j: int| WALL));
        }
        let ghost before = cells(&maz);
        maz.push(line);
        assert(cells(&maz) =~= before.push(line@));
        assert(cells(&maz) =~= all_walls(r + 1, col as int));
        r += 1;
    }
    maz
}

impl Prim {
    /// Marks `(er, ec)` as the exit, then seals the outer ring.
    pub fn place_exit(maz: &mut Vec<Vec<char>>, er: usize, ec: usize)
        requires
            old(maz)@.len() >= 1,
            is_rectangular(cells(old(maz))),
            in_grid(er as int, ec as int, old(maz)@.len() as int, cells(old(maz))[0].len() as int),
        ensures
            cells(final(maz)) == sealed(with_cell(cells(old(maz)), er as int, ec as int, END)),
    {
        assert(cells(maz)[er as int] == maz@[er as int]@);
        set_cell(maz, er, ec, END);
        assert(cells(maz)[0].len() == cells(old(maz))[0].len());
        Self::enforce_edge_walls(maz);
    }

    /// Generates a `row` by `col` maze with its entrance at the ring cell
    /// `(sr, sc)`, drawing the other random choices from `rng`. It fails
    /// exactly when no other ring cell lies an even number of rows and
    /// columns away from the entrance. Carving may run along the ring; the
    /// final seal walls off every carved ring cell but the exit, which can cut
    /// such walks, so passages are not always all reachable from the entrance.
    pub fn generate_from(row: usize, col: usize, sr: usize, sc: usize, rng: &mut StdRng) -> (res: Result<
        Vec<Vec<char>>,
        MazeError,
    >)
        requires
            row >= 1,
            col >= 1,
            in_grid(sr as int, sc as int, row as int, col as int),
            on_edge(sr as int, sc as int, row as int, col as int),
        ensures
            res is Ok <==> has_far_ring_cell(row as int, col as int, (sr as int, sc as int)),
            res is Err ==> res == Err::<Vec<Vec<char>>, MazeError>(MazeError::NoExitFound),
            res matches Ok(m) ==> is_maze_from(cells(&m), row as int, col as int, (sr as int, sc as int)),
    {
        let (mut maz, potential_ends) = Self::carve(row, col, sr, sc, rng);
        let ghost g = cells(&maz);
        let exit = match choose_cell(&potential_ends, rng) {
            Some(x) => {
                assert(is_exit_candidate(g, x.0 as int, x.1 as int, (sr, sc)));
                x
            },
            None => match Self::find_connected_end_point(&maz, sr, sc, rng) {
                Some(x) => {
                    assert(is_exit_candidate(g, x.0 as int, x.1 as int, (sr, sc)));
                    assert(potential_ends@.contains((x.0, x.1)));
                    x
                },
                None => {
                    return Err(MazeError::NoExitFound);
                },
            },
        };
        Self::place_exit(&mut maz, exit.0, exit.1);
        proof {
            lemma_sealed_exit_is_maze(g, potential_ends@, row as int, col as int, (sr, sc), exit.0 as int, exit.1 as int);
            assert(is_maze_with(cells(&maz), row as int, col as int, (sr as int, sc as int), (exit.0 as int, exit.1 as int)));
            assert(is_maze_from(cells(&maz), row as int, col as int, (sr as int, sc as int)));
        }
        Ok(maz)
    }

    /// Generates a `row` by `col` maze, drawing every random choice from
    /// `rng`. It succeeds whenever every ring cell has another ring cell an
    /// even number of rows and columns away.
    pub fn new(row: usize, col: usize, rng: &mut StdRng) -> (res: Result<Vec<Vec<char>>, MazeError>)
        ensures
            res == Err::<Vec<Vec<char>>, MazeError>(MazeError::InvalidDimensions) <==> (row == 0 || col == 0
                || ring_count(row as int, col as int) > usize::MAX),
            res matches Ok(m) ==> is_maze(cells(&m), row as int, col as int),
            row >= 1 && col >= 1 && ring_count(row as int, col as int) <= usize::MAX && exit_for_every_entrance(
                row as int,
                col as int,
            ) ==> res is Ok,
            row >= 1 && col >= 1 && row < 3 && col < 3 ==> res == Err::<Vec<Vec<char>>, MazeError>(
                MazeError::NoExitFound,
            ),
    {
        if row == 0 || col == 0 {
            return Err(MazeError::InvalidDimensions);
        }
        if Self::ring_size(row, col).is_none() {
            return Err(MazeError::InvalidDimensions);
        }
        let (sr, sc) = Self::random_edge_point(row, col, rng);
        let res = Self::generate_from(row, col, sr, sc, rng);
        proof {
            if row < 3 && col < 3 {
                lemma_small_grids_have_no_exit(row as int, col as int, (sr as int, sc as int));
            }
        }
        assert(exit_for_every_entrance(row as int, col as int) ==> has_far_ring_cell(
            row as int,
            col as int,
            (sr as int, sc as int),
        ));
        res
    }

    /// The number of ring cells of a `row` by `col` grid, or `None` when it
    /// does not fit in a `usize`.
    pub fn ring_size(row: usize, col: usize) -> (n: Option<usize>)
        requires
            row >= 1,
            col >= 1,
        ensures
            n is None <==> ring_count(row as int, col as int) > usize::MAX,
            n matches Some(m) ==> m == ring_count(row as int, col as int),
    {
        if row == 1 {
            Some(col)
        } else if col == 1 {
            Some(row)
        } else if col > usize::MAX / 2 {
            None
        } else {
            let inner = row - 2;
            let top = 2 * col;
            if inner > (usize::MAX - top) / 2 {
                None
            } else {
                Some(top + 2 * inner)
            }
        }
    }

    /// The ring cell numbered `k`, in the numbering of `ring_cell`.
    pub fn ring_point(k: usize, row: usize, col: usize) -> (p: (usize, usize))
        requires
            row >= 1,
            col >= 1,
            k < ring_count(row as int, col as int),
        ensures
            (p.0 as int, p.1 as int) == ring_cell(k as int, row as int, col as int),
            in_grid(p.0 as int, p.1 as int, row as int, col as int),
            on_edge(p.0 as int, p.1 as int, row as int, col as int),
    {
        proof {
            lemma_ring_numbering(row as int, col as int);
        }
        if row == 1 {
            (0, k)
        } else if col == 1 {
            (k, 0)
        } else if k < col {
            (0, k)
        } else if k - col < col {
            (row - 1, k - col)
        } else if k - 2 * col < row - 2 {
            (k - 2 * col + 1, 0)
        } else {
            (k - 2 * col - (row - 2) + 1, col - 1)
        }
    }

    /// A ring cell drawn at random, every ring cell alike: a number below
    /// the ring's size, mapped one to one onto the ring.
    pub fn random_edge_point(row: usize, col: usize, rng: &mut StdRng) -> (p: (usize, usize))
        requires
            row >= 1,
            col >= 1,
            ring_count(row as int, col as int) <= usize::MAX,
        ensures
            in_grid(p.0 as int, p.1 as int, row as int, col as int),
            on_edge(p.0 as int, p.1 as int, row as int, col as int),
            exists|k: int| 0 <= k < ring_count(row as int, col as int) && ring_cell(k, row as int, col as int) == (p.0 as int, p.1 as int),
    {
        let n = Self::ring_size(row, col).unwrap();
        let k = draw_below(rng, n);
        Self::ring_point(k, row, col)
    }

    /// Carves a maze into a `row` by `col` grid of walls from the entrance
    /// `(sr, sc)`, drawing each candidate from the frontier at random. Returns
    /// the grid and the carved ring cells other than the entrance.
    pub fn carve(row: usize, col: usize, sr: usize, sc: usize, rng: &mut StdRng) -> (res: (
        Vec<Vec<char>>,
        Vec<(usize, usize)>,
    ))
        requires
            row >= 1,
            col >= 1,
            in_grid(sr as int, sc as int, row as int, col as int),
            on_edge(sr as int, sc as int, row as int, col as int),
        ensures
            carving_state(cells(&res.0), seq![], res.1@, row as int, col as int, (sr, sc)),
            forall|r: int, c: int|
                in_grid(r, c, row as int, col as int) && #[trigger] cells(&res.0)[r][c] != WALL ==> reachable(
                    cells(&res.0),
                    (sr as int, sc as int),
                    (r, c),
                    open_cells(),
                ),
            res.1@.len() > 0 <==> has_far_ring_cell(row as int, col as int, (sr as int, sc as int)),
    {
        let mut maz = walled(row, col);
        assert(cells(&maz)[sr as int] == maz@[sr as int]@);
        set_cell(&mut maz, sr, sc, START);
        let s = Point::new(sr, sc, None);
        let mut frontier: Vec<Point> = Vec::new();
        Self::add_neighbors(sr, sc, row, col, &mut frontier, &s);
        let mut potential_ends: Vec<(usize, usize)> = Vec::new();
        proof {
            let g = cells(&maz);
            let nb = neighbor_points(sr as int, sc as int, row as int, col as int, (sr, sc));
            assert(is_grid(g, row as int, col as int));
            assert forall|r: int, c: int| in_grid(r, c, row as int, col as int) implies #[trigger] g[r][c] == if (r, c)
                == (sr as int, sc as int) {
                START
            } else {
                WALL
            } by {}
            assert forall|i: int| 0 <= i < frontier@.len() implies in_grid(
                #[trigger] frontier@[i].r as int,
                frontier@[i].c as int,
                row as int,
                col as int,
            ) by {
                assert(frontier@[i] == nb[i]);
            }
            assert(is_walk(g, seq![(sr as int, sc as int)], open_cells()));
            let st = (sr as int, sc as int);
            assert forall|i: int| 0 <= i < frontier@.len() implies on_lattice(parent_cell(#[trigger] frontier@[i]), st) by {
                assert(frontier@[i] == nb[i]);
            }
            assert forall|r: int, c: int, dr: int, dc: int| #[trigger] closed_at(
                g,
                frontier@,
                st,
                row as int,
                col as int,
                r,
                c,
                dr,
                dc,
            ) by {
                if in_grid(r, c, row as int, col as int) && g[r][c] != WALL && unit_step(dr, dc) && in_grid(
                    r + 2 * dr,
                    c + 2 * dc,
                    row as int,
                    col as int,
                ) {
                    lemma_neighbors_contain(st, row as int, col as int, dr, dc);
                }
            }
            assert(carving_closure(g, frontier@, row as int, col as int, (sr, sc)));
        }
        let ghost mut walks: Map<(int, int), Seq<(int, int)>> = map![(sr as int, sc as int) => seq![(sr as int, sc as int)]];
        while frontier.len() > 0
            invariant
                carving_state(cells(&maz), frontier@, potential_ends@, row as int, col as int, (sr, sc)),
                walks_reach(cells(&maz), (sr, sc), walks),
                carving_closure(cells(&maz), frontier@, row as int, col as int, (sr, sc)),
                maz@.len() == row,
            decreases grid_walls(cells(&maz)) * 4 + frontier@.len(),
        {
            let pick = draw_below(rng, frontier.len());
            proof {
                lemma_carve_keeps_closure(
                    cells(&maz),
                    frontier@,
                    potential_ends@,
                    row as int,
                    col as int,
                    (sr, sc),
                    pick as int,
                );
                walks = lemma_carve_keeps_walks(
                    cells(&maz),
                    frontier@,
                    potential_ends@,
                    row as int,
                    col as int,
                    (sr, sc),
                    pick as int,
                    walks,
                );
                lemma_carve_keeps_state(
                    cells(&maz),
                    frontier@,
                    potential_ends@,
                    row as int,
                    col as int,
                    (sr, sc),
                    pick as int,
                );
            }
            Self::carve_step(&mut maz, &mut frontier, &mut potential_ends, sr, sc, pick);
            assert(maz@.len() == cells(&maz).len());
        }
        assert(frontier@ =~= seq![]);
        proof {
            let g = cells(&maz);
            lemma_carving_finds_exit(g, potential_ends@, row as int, col as int, (sr, sc));
            assert forall|r: int, c: int| in_grid(r, c, row as int, col as int) && #[trigger] g[r][c] != WALL implies reachable(
                g,
                (sr as int, sc as int),
                (r, c),
                open_cells(),
            ) by {
                assert(is_walk(g, walks[(r, c)], open_cells()));
            }
        }
        (maz, potential_ends)
    }

    /// Whether `(r, c)` lies on the outer ring of a `row` by `col` grid.
    pub fn is_edge_point(r: usize, c: usize, row: usize, col: usize) -> (b: bool)
        requires
            row >= 1,
            col >= 1,
        ensures
            b == on_edge(r as int, c as int, row as int, col as int),
    {
        r == 0 || r == row - 1 || c == 0 || c == col - 1
    }

    /// Whether `point` may become the exit: it is not the entrance.
    pub fn is_valid_end_location(point: &Point, start_r: usize, start_c: usize) -> (b: bool)
        ensures
            b == (point.r != start_r || point.c != start_c),
    {
        point.r != start_r || point.c != start_c
    }

    /// Appends the in-grid neighbours of `(r, c)` to `frontier`, each with
    /// `parent` as the cell it came from.
    pub fn add_neighbors(r: usize, c: usize, max_r: usize, max_c: usize, frontier: &mut Vec<Point>, parent: &Point)
        ensures
            final(frontier)@ == old(frontier)@ + neighbor_points(
                r as int,
                c as int,
                max_r as int,
                max_c as int,
                (parent.r, parent.c),
            ),
    {
        let p = (parent.r, parent.c);
        let ghost (ri, ci, mr, mc) = (r as int, c as int, max_r as int, max_c as int);
        if r > 0 && r - 1 < max_r && c < max_c {
            frontier.push(Point::new(r - 1, c, Some(p)));
        }
        assert(frontier@ =~= old(frontier)@ + point_if_inside(ri - 1, ci, mr, mc, p));
        if max_r > 0 && r < max_r - 1 && c < max_c {
            frontier.push(Point::new(r + 1, c, Some(p)));
        }
        assert(frontier@ =~= old(frontier)@ + point_if_inside(ri - 1, ci, mr, mc, p)
            + point_if_inside(ri + 1, ci, mr, mc, p));
        if c > 0 && c - 1 < max_c && r < max_r {
            frontier.push(Point::new(r, c - 1, Some(p)));
        }
        assert(frontier@ =~= old(frontier)@ + point_if_inside(ri - 1, ci, mr, mc, p)
            + point_if_inside(ri + 1, ci, mr, mc, p) + point_if_inside(ri, ci - 1, mr, mc, p));
        if max_c > 0 && c < max_c - 1 && r < max_r {
            frontier.push(Point::new(r, c + 1, Some(p)));
        }
        assert(frontier@ =~= old(frontier)@ + neighbor_points(ri, ci, mr, mc, p));
    }

    /// One round of carving, with `pick` as the index of the candidate that
    /// leaves the frontier.
    pub fn carve_step(
        maz: &mut Vec<Vec<char>>,
        frontier: &mut Vec<Point>,
        potential_ends: &mut Vec<(usize, usize)>,
        sr: usize,
        sc: usize,
        pick: usize,
    )
        requires
            pick < old(frontier)@.len(),
            old(maz)@.len() >= 1,
            is_rectangular(cells(old(maz))),
            frontier_inside(old(frontier)@, old(maz)@.len() as int, cells(old(maz))[0].len() as int),
        ensures
            (cells(final(maz)), final(frontier)@, final(potential_ends)@) == carve_result(
                cells(old(maz)),
                old(frontier)@,
                old(potential_ends)@,
                (sr, sc),
                pick as int,
            ),
    {
        let ghost g = cells(maz);
        let ghost start = (sr, sc);
        let row = maz.len();
        let col = maz[0].len();
        assert(g[0].len() == col);
        let curr = frontier.remove(pick);
        assert(curr == old(frontier)@[pick as int]);
        assert(in_grid(curr.r as int, curr.c as int, row as int, col as int));
        assert(cells(maz)[curr.r as int] == maz@[curr.r as int]@);
        if let Some(opposite) = curr.opposite(row, col) {
            assert(cells(maz)[opposite.r as int] == maz@[opposite.r as int]@);
            let curr_is_edge = Self::is_edge_point(curr.r, curr.c, row, col);
            let opposite_is_edge = Self::is_edge_point(opposite.r, opposite.c, row, col);
            if (!curr_is_edge && !opposite_is_edge) || (curr_is_edge && Self::is_valid_end_location(&curr, sr, sc))
                || (opposite_is_edge && Self::is_valid_end_location(&opposite, sr, sc)) {
                if maz[curr.r][curr.c] == WALL && maz[opposite.r][opposite.c] == WALL {
                    let ghost cp = (curr.r as int, curr.c as int);
                    let ghost o = (opposite.r as int, opposite.c as int);
                    set_cell(maz, curr.r, curr.c, PASSAGE);
                    assert(cells(maz)[opposite.r as int] == maz@[opposite.r as int]@);
                    set_cell(maz, opposite.r, opposite.c, PASSAGE);
                    let ghost e0 = potential_ends@;
                    if curr_is_edge && Self::is_valid_end_location(&curr, sr, sc) {
                        potential_ends.push((curr.r, curr.c));
                    }
                    if opposite_is_edge && Self::is_valid_end_location(&opposite, sr, sc) {
                        potential_ends.push((opposite.r, opposite.c));
                    }
                    assert(potential_ends@ =~= e0 + new_exit_candidates(cp, o, row as int, col as int, start));
                    Self::add_neighbors(opposite.r, opposite.c, row, col, frontier, &opposite);
                }
            }
        }
    }

    /// Turns every cell of the outer ring into a wall, but for the entrance
    /// and the exit.
    pub fn enforce_edge_walls(maz: &mut Vec<Vec<char>>)
        requires
            is_rectangular(cells(old(maz))),
        ensures
            cells(final(maz)) == sealed(cells(old(maz))),
    {
        let ghost g = cells(maz);
        let row = maz.len();
        if row == 0 {
            assert(cells(maz) =~= sealed(g));
            return;
        }
        let col = maz[0].len();
        let mut r: usize = 0;
        while r < row
            invariant
                0 <= r <= row,
                row == g.len(),
                col == g[0].len(),
                is_rectangular(g),
                cells(maz).len() == row,
                forall|i: int| 0 <= i < r ==> #[trigger] cells(maz)[i] == sealed(g)[i],
                forall|i: int| r <= i < row ==> #[trigger] cells(maz)[i] == g[i],
            decreases row - r,
        {
            let mut c: usize = 0;
            while c < col
                invariant
                    0 <= r < row,
                    0 <= c <= col,
                    row == g.len(),
                    col == g[0].len(),
                    is_rectangular(g),
                    cells(maz).len() == row,
                    cells(maz)[r as int].len() == col,
                    forall|i: int| 0 <= i < r ==> #[trigger] cells(maz)[i] == sealed(g)[i],
                    forall|i: int| r < i < row ==> #[trigger] cells(maz)[i] == g[i],
                    forall|j: int| 0 <= j < c ==> #[trigger] cells(maz)[r as int][j] == sealed(g)[r as int][j],
                    forall|j: int| c <= j < col ==> #[trigger] cells(maz)[r as int][j] == g[r as int][j],
                decreases col - c,
            {
                if r == 0 || r == row - 1 || c == 0 || c == col - 1 {
                    if maz[r][c] != START && maz[r][c] != END {
                        set_cell(maz, r, c, WALL);
                    }
                }
                c += 1;
            }
            assert(cells(maz)[r as int] =~= sealed(g)[r as int]);
            r += 1;
        }
        assert(cells(maz) =~= sealed(g));
    }
}

} // verus!
