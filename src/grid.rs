//! The character grid that a maze is drawn on, and the seal on its outer ring.
use vstd::prelude::*;

verus! {

/// A cell that cannot be walked through.
pub const WALL: char = '#';

/// A carved cell.
pub const PASSAGE: char = '.';

/// The entrance of the maze.
pub const START: char = 'S';

/// The exit of the maze.
pub const END: char = 'E';

/// The grid as rows of characters.
pub open spec fn cells(g: &Vec<Vec<char>>) -> Seq<Seq<char>> {
    g@.map_values(|row: Vec<char>| row@)
}

/// `g` has `rows` rows of `cols` cells each.
pub open spec fn is_grid(g: Seq<Seq<char>>, rows: int, cols: int) -> bool {
    &&& g.len() == rows
    &&& forall|r: int| 0 <= r < rows ==> #[trigger] g[r].len() == cols
}

/// Every row of `g` is as long as the first one.
pub open spec fn is_rectangular(g: Seq<Seq<char>>) -> bool {
    g.len() > 0 ==> is_grid(g, g.len() as int, g[0].len() as int)
}

pub open spec fn in_grid(r: int, c: int, rows: int, cols: int) -> bool {
    0 <= r < rows && 0 <= c < cols
}

/// The cell lies on the outer ring of a `rows` by `cols` grid.
pub open spec fn on_edge(r: int, c: int, rows: int, cols: int) -> bool {
    r == 0 || r == rows - 1 || c == 0 || c == cols - 1
}

/// What a cell becomes when the outer ring is sealed: every ring cell but
/// the entrance and the exit turns into a wall.
pub open spec fn sealed_cell(g: Seq<Seq<char>>, r: int, c: int) -> char {
    if on_edge(r, c, g.len() as int, g[0].len() as int) && g[r][c] != START && g[r][c] != END {
        WALL
    } else {
        g[r][c]
    }
}

/// The grid with its outer ring sealed.
pub open spec fn sealed(g: Seq<Seq<char>>) -> Seq<Seq<char>> {
    Seq::new(g.len(), |r: int| Seq::new(g[r].len(), |c: int| sealed_cell(g, r, c)))
}

/// The two cells share a side.
pub open spec fn adjacent(a: (int, int), b: (int, int)) -> bool {
    (a.0 == b.0 && (a.1 - b.1 == 1 || b.1 - a.1 == 1)) || (a.1 == b.1 && (a.0 - b.0 == 1 || b.0 - a.0 == 1))
}

/// `p` walks between side-sharing cells of `g`, and every cell that it steps
/// onto after the first holds a character of `open`.
pub open spec fn is_walk(g: Seq<Seq<char>>, p: Seq<(int, int)>, open: Set<char>) -> bool {
    &&& p.len() >= 1
    &&& forall|i: int| 0 <= i < p.len() ==> in_grid(#[trigger] p[i].0, p[i].1, g.len() as int, g[0].len() as int)
    &&& forall|i: int| 1 <= i < p.len() ==> open.contains(g[#[trigger] p[i].0][p[i].1])
    &&& forall|i: int| 0 <= i < p.len() - 1 ==> adjacent(#[trigger] p[i], p[i + 1])
}

/// Some walk through cells of `open` leads from `from` to `to`.
pub open spec fn reachable(g: Seq<Seq<char>>, from: (int, int), to: (int, int), open: Set<char>) -> bool {
    exists|p: Seq<(int, int)>| is_walk(g, p, open) && p[0] == from && p.last() == to
}

/// A walk extended by one step onto an open neighbour is a walk.
pub proof fn lemma_walk_push(g: Seq<Seq<char>>, p: Seq<(int, int)>, y: (int, int), open: Set<char>)
    requires
        is_walk(g, p, open),
        in_grid(y.0, y.1, g.len() as int, g[0].len() as int),
        adjacent(p.last(), y),
        open.contains(g[y.0][y.1]),
    ensures
        is_walk(g, p.push(y), open),
{
    let q = p.push(y);
    assert forall|i: int| 0 <= i < q.len() - 1 implies adjacent(#[trigger] q[i], q[i + 1]) by {
        if i < p.len() - 1 {
            assert(q[i] == p[i] && q[i + 1] == p[i + 1]);
        }
    }
    assert forall|i: int| 0 <= i < q.len() implies in_grid(#[trigger] q[i].0, q[i].1, g.len() as int, g[0].len() as int) by {
        if i < p.len() {
            assert(q[i] == p[i]);
        }
    }
    assert forall|i: int| 1 <= i < q.len() implies open.contains(g[#[trigger] q[i].0][q[i].1]) by {
        if i < p.len() {
            assert(q[i] == p[i]);
        }
    }
}

/// `g` is a finished `rows` by `cols` maze with entrance `s` and exit `e`:
/// they are distinct ring cells and the only `START` and `END` cells, every
/// other ring cell is a wall, and every inner cell a wall or a passage.
pub open spec fn is_maze_with(g: Seq<Seq<char>>, rows: int, cols: int, s: (int, int), e: (int, int)) -> bool {
    &&& is_grid(g, rows, cols)
    &&& in_grid(s.0, s.1, rows, cols) && on_edge(s.0, s.1, rows, cols)
    &&& in_grid(e.0, e.1, rows, cols) && on_edge(e.0, e.1, rows, cols)
    &&& s != e
    &&& forall|r: int, c: int|
        in_grid(r, c, rows, cols) ==> {
            &&& (#[trigger] g[r][c] == START <==> (r, c) == s)
            &&& (g[r][c] == END <==> (r, c) == e)
            &&& on_edge(r, c, rows, cols) && (r, c) != s && (r, c) != e ==> g[r][c] == WALL
            &&& !on_edge(r, c, rows, cols) ==> g[r][c] == WALL || g[r][c] == PASSAGE
        }
}

/// `g` is a finished `rows` by `cols` maze with entrance `s`.
pub open spec fn is_maze_from(g: Seq<Seq<char>>, rows: int, cols: int, s: (int, int)) -> bool {
    exists|e: (int, int)| is_maze_with(g, rows, cols, s, e)
}

/// `g` is a finished `rows` by `cols` maze.
pub open spec fn is_maze(g: Seq<Seq<char>>, rows: int, cols: int) -> bool {
    exists|s: (int, int), e: (int, int)| is_maze_with(g, rows, cols, s, e)
}

/// `g` with the cell `(r, c)` set to `x`.
pub open spec fn with_cell(g: Seq<Seq<char>>, r: int, c: int, x: char) -> Seq<Seq<char>> {
    g.update(r, g[r].update(c, x))
}

/// How many entries of `s` equal `x`.
pub open spec fn row_count<T>(s: Seq<T>, x: T) -> nat
    decreases s.len(),
{
    if s.len() == 0 {
        0
    } else {
        row_count(s.drop_last(), x) + if s.last() == x { 1nat } else { 0nat }
    }
}

/// How many cells of `g` equal `x`.
pub open spec fn grid_count<T>(g: Seq<Seq<T>>, x: T) -> nat
    decreases g.len(),
{
    if g.len() == 0 {
        0
    } else {
        grid_count(g.drop_last(), x) + row_count(g.last(), x)
    }
}

/// The number of walls in a grid.
pub open spec fn grid_walls(g: Seq<Seq<char>>) -> nat {
    grid_count(g, WALL)
}

proof fn lemma_row_count_update<T>(s: Seq<T>, i: int, x: T, y: T)
    requires
        0 <= i < s.len(),
        s[i] == x,
        y != x,
    ensures
        row_count(s.update(i, y), x) + 1 == row_count(s, x),
    decreases s.len(),
{
    let t = s.update(i, y);
    if i < s.len() - 1 {
        lemma_row_count_update(s.drop_last(), i, x, y);
        assert(t.drop_last() =~= s.drop_last().update(i, y));
    } else {
        assert(t.drop_last() =~= s.drop_last());
    }
}

/// Changing one cell away from `x` lowers the count of `x` by one.
pub proof fn lemma_grid_count_update<T>(g: Seq<Seq<T>>, r: int, c: int, x: T, y: T)
    requires
        0 <= r < g.len(),
        0 <= c < g[r].len(),
        g[r][c] == x,
        y != x,
    ensures
        grid_count(g.update(r, g[r].update(c, y)), x) + 1 == grid_count(g, x),
    decreases g.len(),
{
    let h = g.update(r, g[r].update(c, y));
    if r < g.len() - 1 {
        lemma_grid_count_update(g.drop_last(), r, c, x, y);
        assert(h.drop_last() =~= g.drop_last().update(r, g[r].update(c, y)));
    } else {
        lemma_row_count_update(g[r], c, x, y);
        assert(h.drop_last() =~= g.drop_last());
    }
}

pub proof fn lemma_grid_walls_update(g: Seq<Seq<char>>, r: int, c: int, x: char)
    requires
        0 <= r < g.len(),
        0 <= c < g[r].len(),
        g[r][c] == WALL,
        x != WALL,
    ensures
        grid_walls(with_cell(g, r, c, x)) + 1 == grid_walls(g),
{
    lemma_grid_count_update(g, r, c, WALL, x);
}

/// Sealing the ring a second time changes nothing.
pub proof fn lemma_sealing_is_idempotent(g: Seq<Seq<char>>)
    requires
        is_rectangular(g),
    ensures
        sealed(sealed(g)) == sealed(g),
{
    let s = sealed(g);
    if g.len() > 0 {
        assert(s[0].len() == g[0].len());
    }
    assert forall|r: int| 0 <= r < s.len() implies #[trigger] sealed(s)[r] == s[r] by {
        assert(sealed(s)[r] =~= s[r]);
    }
    assert(sealed(s) =~= s);
}

} // verus!
