//! Finding the exit by a search over the carved cells.
use crate::grid::{
    adjacent, cells, grid_count, in_grid, is_rectangular, is_walk, lemma_grid_count_update, lemma_walk_push, on_edge,
    reachable, PASSAGE, WALL,
};
use crate::prim::Prim;
use crate::rng::draw_below;
use rand::rngs::StdRng;
use vstd::prelude::*;

verus! {

/// The marks as rows of booleans.
pub open spec fn marks(v: &Vec<Vec<bool>>) -> Seq<Seq<bool>> {
    v@.map_values(|row: Vec<bool>| row@)
}

/// A ring cell other than `start` that a walk over passages reaches from
/// `start`: where the search may place the exit.
pub open spec fn reachable_exit(g: Seq<Seq<char>>, r: int, c: int, start: (usize, usize)) -> bool {
    let s = (start.0 as int, start.1 as int);
    &&& in_grid(r, c, g.len() as int, g[0].len() as int)
    &&& on_edge(r, c, g.len() as int, g[0].len() as int)
    &&& (r, c) != s
    &&& g[r][c] == PASSAGE
    &&& reachable(g, s, (r, c), set![PASSAGE])
}

/// What holds between rounds of the search: marks and stack stay inside the
/// grid, each marked cell is the start or a passage with a walk to it kept in
/// `walks`, stacked cells are marked and distinct, a marked cell off the stack
/// has all its passage neighbours marked (but for `hold`, the cell whose
/// neighbours are being visited), and `found` lists the exits among
/// marked cells off the stack, each once.
#[verifier::opaque]
pub open spec fn search_state(
    g: Seq<Seq<char>>,
    v: Seq<Seq<bool>>,
    stack: Seq<(usize, usize)>,
    found: Seq<(usize, usize)>,
    start: (usize, usize),
    walks: Map<(int, int), Seq<(int, int)>>,
    hold: (int, int),
) -> bool {
    let rows = g.len() as int;
    let cols = g[0].len() as int;
    let s = (start.0 as int, start.1 as int);
    &&& 1 <= rows <= usize::MAX && 1 <= cols <= usize::MAX
    &&& is_rectangular(g)
    &&& in_grid(s.0, s.1, rows, cols)
    &&& v.len() == rows
    &&& forall|r: int| 0 <= r < rows ==> #[trigger] v[r].len() == cols
    &&& v[s.0][s.1]
    &&& forall|r: int, c: int| in_grid(r, c, rows, cols) && #[trigger] v[r][c] ==> {
        &&& (r, c) == s || g[r][c] == PASSAGE
        &&& walks.contains_key((r, c))
        &&& is_walk(g, walks[(r, c)], set![PASSAGE])
        &&& walks[(r, c)][0] == s
        &&& walks[(r, c)].last() == (r, c)
    }
    &&& forall|i: int| 0 <= i < stack.len() ==> in_grid(#[trigger] stack[i].0 as int, stack[i].1 as int, rows, cols)
    &&& forall|i: int| 0 <= i < stack.len() ==> v[#[trigger] stack[i].0 as int][stack[i].1 as int]
    &&& forall|i: int, j: int| 0 <= i < j < stack.len() ==> #[trigger] stack[i] != #[trigger] stack[j]
    &&& forall|r: int, c: int, r2: int, c2: int|
        in_grid(r, c, rows, cols) && #[trigger] v[r][c] && !stack.contains((r as usize, c as usize)) && (r, c) != hold
            && in_grid(
            r2,
            c2,
            rows,
            cols,
        ) && adjacent((r, c), (r2, c2)) && #[trigger] g[r2][c2] == PASSAGE ==> v[r2][c2]
    &&& forall|i: int| 0 <= i < found.len() ==> #[trigger] reachable_exit(g, found[i].0 as int, found[i].1 as int, start)
    &&& found.no_duplicates()
    &&& forall|i: int|
        0 <= i < found.len() ==> v[#[trigger] found[i].0 as int][found[i].1 as int] && !stack.contains(found[i])
    &&& forall|r: int, c: int|
        in_grid(r, c, rows, cols) && #[trigger] v[r][c] && !stack.contains((r as usize, c as usize)) && (r, c) != hold
            && reachable_exit(
            g,
            r,
            c,
            start,
        ) ==> found.contains((r as usize, c as usize))
}

/// Once the stack is empty, every cell along a walk over passages from the
/// start is marked.
proof fn lemma_walk_marked(
    g: Seq<Seq<char>>,
    v: Seq<Seq<bool>>,
    found: Seq<(usize, usize)>,
    start: (usize, usize),
    walks: Map<(int, int), Seq<(int, int)>>,
    p: Seq<(int, int)>,
    i: int,
)
    requires
        search_state(g, v, seq![], found, start, walks, (-1, -1)),
        is_walk(g, p, set![PASSAGE]),
        p[0] == (start.0 as int, start.1 as int),
        0 <= i < p.len(),
    ensures
        v[p[i].0][p[i].1],
    decreases i,
{
    reveal(search_state);
    if i > 0 {
        lemma_walk_marked(g, v, found, start, walks, p, i - 1);
        let a = p[i - 1];
        let b = p[i];
        assert(adjacent(p[i - 1], p[i]));
        assert(in_grid(a.0, a.1, g.len() as int, g[0].len() as int));
        assert(in_grid(b.0, b.1, g.len() as int, g[0].len() as int));
        assert(set![PASSAGE].contains(g[b.0][b.1]));
        let empty: Seq<(usize, usize)> = seq![];
        assert(!empty.contains((a.0 as usize, a.1 as usize)));
    }
}

/// Popping the top of the stack, and recording it when it is an exit, keeps
/// the search state with the popped cell on hold.
proof fn lemma_after_pop(
    g: Seq<Seq<char>>,
    v: Seq<Seq<bool>>,
    st0: Seq<(usize, usize)>,
    f0: Seq<(usize, usize)>,
    start: (usize, usize),
    walks: Map<(int, int), Seq<(int, int)>>,
)
    requires
        search_state(g, v, st0, f0, start, walks, (-1, -1)),
        st0.len() > 0,
    ensures
        ({
            let top = st0.last();
            let x = (top.0 as int, top.1 as int);
            let s = (start.0 as int, start.1 as int);
            let f1 = f0 + if reachable_exit(g, x.0, x.1, start) { seq![top] } else { seq![] };
            &&& in_grid(x.0, x.1, g.len() as int, g[0].len() as int)
            &&& v[x.0][x.1]
            &&& reachable_exit(g, x.0, x.1, start) <==> (on_edge(x.0, x.1, g.len() as int, g[0].len() as int) && x
                != s && (g[x.0][x.1] == PASSAGE || g[x.0][x.1] == WALL))
            &&& search_state(g, v, st0.drop_last(), f1, start, walks, x)
        }),
{
    reveal(search_state);
    let top = st0.last();
    let x = (top.0 as int, top.1 as int);
    let stack = st0.drop_last();
    let f1 = f0 + if reachable_exit(g, x.0, x.1, start) { seq![top] } else { seq![] };
    assert(st0[st0.len() - 1] == top);
    assert(is_walk(g, walks[x], set![PASSAGE]));
    assert forall|q: (usize, usize)| #[trigger] stack.contains(q) implies st0.contains(q) by {
        let k = choose|k: int| 0 <= k < stack.len() && stack[k] == q;
        assert(st0[k] == stack[k]);
    }
    assert forall|q: (usize, usize)| q != top && #[trigger] st0.contains(q) implies stack.contains(q) by {
        let k = choose|k: int| 0 <= k < st0.len() && st0[k] == q;
        assert(k != st0.len() - 1);
        assert(st0[k] == stack[k]);
    }
    assert forall|q: (usize, usize)| #[trigger] f0.contains(q) implies f1.contains(q) by {
        let k = choose|k: int| 0 <= k < f0.len() && f0[k] == q;
        assert(f1[k] == f0[k]);
    }
    assert(reachable_exit(g, x.0, x.1, start) ==> f1[f0.len() as int] == top);
    assert forall|i: int| 0 <= i < f1.len() implies #[trigger] reachable_exit(g, f1[i].0 as int, f1[i].1 as int, start) by {
        if i < f0.len() {
            assert(f1[i] == f0[i]);
        }
    }
    assert forall|i: int| 0 <= i < stack.len() implies {
        &&& in_grid(#[trigger] stack[i].0 as int, stack[i].1 as int, g.len() as int, g[0].len() as int)
        &&& v[stack[i].0 as int][stack[i].1 as int]
    } by {
        assert(stack[i] == st0[i]);
    }
    assert forall|i: int, j: int| 0 <= i < j < stack.len() implies #[trigger] stack[i] != #[trigger] stack[j] by {
        assert(stack[i] == st0[i] && stack[j] == st0[j]);
    }
}

/// Once every passage neighbour of the cell on hold is marked, the hold ends.
proof fn lemma_after_visits(
    g: Seq<Seq<char>>,
    v: Seq<Seq<bool>>,
    stack: Seq<(usize, usize)>,
    found: Seq<(usize, usize)>,
    start: (usize, usize),
    walks: Map<(int, int), Seq<(int, int)>>,
    x: (int, int),
)
    requires
        search_state(g, v, stack, found, start, walks, x),
        in_grid(x.0, x.1, g.len() as int, g[0].len() as int),
        reachable_exit(g, x.0, x.1, start) ==> found.contains((x.0 as usize, x.1 as usize)),
        forall|r2: int, c2: int|
            in_grid(r2, c2, g.len() as int, g[0].len() as int) && adjacent(x, (r2, c2)) && #[trigger] g[r2][c2]
                == PASSAGE ==> v[r2][c2],
    ensures
        search_state(g, v, stack, found, start, walks, (-1, -1)),
{
    reveal(search_state);
}

/// Marks and stacks the neighbour `(nr, nc)` of `x` when it is an unmarked
/// passage, and returns the walks extended to it.
#[verifier::rlimit(40)]
fn visit(
    maz: &Vec<Vec<char>>,
    v: &mut Vec<Vec<bool>>,
    stack: &mut Vec<(usize, usize)>,
    nr: usize,
    nc: usize,
    found: Ghost<Seq<(usize, usize)>>,
    start: Ghost<(usize, usize)>,
    x: Ghost<(int, int)>,
    walks: Ghost<Map<(int, int), Seq<(int, int)>>>,
) -> (w: Ghost<Map<(int, int), Seq<(int, int)>>>)
    requires
        search_state(cells(maz), marks(old(v)), old(stack)@, found@, start@, walks@, x@),
        in_grid(nr as int, nc as int, maz@.len() as int, cells(maz)[0].len() as int),
        in_grid(x@.0, x@.1, maz@.len() as int, cells(maz)[0].len() as int),
        adjacent(x@, (nr as int, nc as int)),
        marks(old(v))[x@.0][x@.1],
    ensures
        search_state(cells(maz), marks(final(v)), final(stack)@, found@, start@, w@, x@),
        final(v)@.len() == old(v)@.len(),
        forall|r: int, c: int|
            in_grid(r, c, maz@.len() as int, cells(maz)[0].len() as int) && #[trigger] marks(old(v))[r][c]
                ==> marks(final(v))[r][c],
        cells(maz)[nr as int][nc as int] == PASSAGE ==> marks(final(v))[nr as int][nc as int],
        grid_count(marks(final(v)), false) + final(stack)@.len() == grid_count(marks(old(v)), false)
            + old(stack)@.len(),
        final(stack)@.len() >= old(stack)@.len(),
{
    let ghost g = cells(maz);
    let ghost v0 = marks(v);
    let ghost y = (nr as int, nc as int);
    proof {
        reveal(search_state);
    }
    assert(g[nr as int] == maz@[nr as int]@);
    assert(v0[nr as int] == v@[nr as int]@);
    if !v[nr][nc] && maz[nr][nc] == PASSAGE {
        let ghost st0 = stack@;
        stack.push((nr, nc));
        set_mark(v, nr, nc);
        let ghost nw = walks@.insert(y, walks@[x@].push(y));
        proof {
            let v1 = marks(v);
            let rows = g.len() as int;
            let cols = g[0].len() as int;
            let s = (start@.0 as int, start@.1 as int);
            lemma_grid_count_update(v0, y.0, y.1, false, true);
            lemma_walk_push(g, walks@[x@], y, set![PASSAGE]);
            assert forall|r: int, c: int| in_grid(r, c, rows, cols) implies #[trigger] v1[r][c] == (v0[r][c] || (r, c) == y) by {}
            assert forall|r: int, c: int| in_grid(r, c, rows, cols) && #[trigger] v1[r][c] implies {
                &&& (r, c) == s || g[r][c] == PASSAGE
                &&& nw.contains_key((r, c))
                &&& is_walk(g, nw[(r, c)], set![PASSAGE])
                &&& nw[(r, c)][0] == s
                &&& nw[(r, c)].last() == (r, c)
            } by {
                if (r, c) != y {
                    assert(v0[r][c]);
                }
            }
            assert forall|i: int| 0 <= i < stack@.len() implies v1[#[trigger] stack@[i].0 as int][stack@[i].1 as int] by {
                if i < st0.len() {
                    assert(stack@[i] == st0[i]);
                }
            }
            assert forall|i: int| 0 <= i < stack@.len() implies in_grid(
                #[trigger] stack@[i].0 as int,
                stack@[i].1 as int,
                rows,
                cols,
            ) by {
                if i < st0.len() {
                    assert(stack@[i] == st0[i]);
                }
            }
            assert forall|i: int, j: int| 0 <= i < j < stack@.len() implies #[trigger] stack@[i] != #[trigger] stack@[j] by {
                if j == st0.len() {
                    assert(stack@[i] == st0[i]);
                    assert(v0[st0[i].0 as int][st0[i].1 as int]);
                } else {
                    assert(stack@[i] == st0[i] && stack@[j] == st0[j]);
                }
            }
            assert forall|i: int| 0 <= i < found@.len() implies v1[#[trigger] found@[i].0 as int][found@[i].1 as int]
                && !stack@.contains(found@[i]) by {
                assert(v0[found@[i].0 as int][found@[i].1 as int]);
                assert(reachable_exit(g, found@[i].0 as int, found@[i].1 as int, start@));
                assert(!st0.contains(found@[i]));
                if stack@.contains(found@[i]) {
                    let k = choose|k: int| 0 <= k < stack@.len() && stack@[k] == found@[i];
                    if k < st0.len() {
                        assert(st0[k] == stack@[k]);
                    }
                }
            }
            assert forall|r: int, c: int| in_grid(r, c, rows, cols) && #[trigger] v1[r][c] && !stack@.contains(
                (r as usize, c as usize),
            ) implies v0[r][c] && !st0.contains((r as usize, c as usize)) by {
                if (r, c) == y {
                    assert(stack@.last() == (r as usize, c as usize));
                }
                if st0.contains((r as usize, c as usize)) {
                    let k = choose|k: int| 0 <= k < st0.len() && st0[k] == (r as usize, c as usize);
                    assert(stack@[k] == st0[k]);
                }
            }
        }
        Ghost(nw)
    } else {
        walks
    }
}

impl Prim {
    /// The ring cells other than the entrance that a search over passages
    /// reaches from the entrance `(start_r, start_c)`.
    #[verifier::rlimit(60)]
    pub fn reachable_edge_cells(maz: &Vec<Vec<char>>, start_r: usize, start_c: usize) -> (found: Vec<(usize, usize)>)
        requires
            maz@.len() >= 1,
            is_rectangular(cells(maz)),
            in_grid(start_r as int, start_c as int, maz@.len() as int, cells(maz)[0].len() as int),
        ensures
            forall|i: int| 0 <= i < found@.len() ==> #[trigger] reachable_exit(
                cells(maz),
                found@[i].0 as int,
                found@[i].1 as int,
                (start_r, start_c),
            ),
            forall|r: int, c: int| #[trigger] reachable_exit(cells(maz), r, c, (start_r, start_c))
                ==> found@.contains((r as usize, c as usize)),
            found@.no_duplicates(),
    {
        let ghost g = cells(maz);
        let ghost start = (start_r, start_c);
        let ghost s = (start_r as int, start_c as int);
        let row = maz.len();
        let col = maz[0].len();
        assert(g[0].len() == col);
        let mut visited = unmarked(row, col);
        let mut reachable_edges: Vec<(usize, usize)> = Vec::new();
        let mut stack: Vec<(usize, usize)> = Vec::new();
        stack.push((start_r, start_c));
        assert(marks(&visited)[start_r as int] == visited@[start_r as int]@);
        set_mark(&mut visited, start_r, start_c);
        let ghost mut walks: Map<(int, int), Seq<(int, int)>> = map![s => seq![s]];
        proof {
            reveal(search_state);
            let v = marks(&visited);
            assert forall|r: int, c: int| in_grid(r, c, row as int, col as int) implies #[trigger] v[r][c] == ((r, c)
                == s) by {}
            assert(is_walk(g, seq![s], set![PASSAGE]));
            assert forall|r: int, c: int| in_grid(r, c, row as int, col as int) && #[trigger] v[r][c] && !stack@.contains(
                (r as usize, c as usize),
            ) implies false by {
                assert(stack@[0] == (r as usize, c as usize));
            }
        }
        while stack.len() > 0
            invariant
                search_state(g, marks(&visited), stack@, reachable_edges@, start, walks, (-1, -1)),
                visited@.len() == row,
                g == cells(maz),
                row == g.len(),
                col == g[0].len(),
                is_rectangular(g),
                start == (start_r, start_c),
                row >= 1,
                in_grid(start_r as int, start_c as int, row as int, col as int),
            decreases grid_count(marks(&visited), false) * 5 + stack@.len(),
        {
            let ghost st0 = stack@;
            let top = stack.pop();
            if let Some((r, c)) = top {
                let ghost x = (r as int, c as int);
                let ghost f0 = reachable_edges@;
                assert(st0.last() == (r, c));
                proof {
                    lemma_after_pop(g, marks(&visited), st0, f0, start, walks);
                }
                assert(g[r as int] == maz@[r as int]@);
                let is_exit = (r == 0 || r == row - 1 || c == 0 || c == col - 1) && (r != start_r || c != start_c)
                    && (maz[r][c] == PASSAGE || maz[r][c] == WALL);
                assert(is_exit == reachable_exit(g, x.0, x.1, start));
                if is_exit {
                    reachable_edges.push((r, c));
                    assert(reachable_edges@[f0.len() as int] == (r, c));
                }
                assert(reachable_edges@ =~= f0 + if reachable_exit(g, x.0, x.1, start) {
                    seq![(r, c)]
                } else {
                    seq![]
                });
                assert(reachable_exit(g, x.0, x.1, start) ==> reachable_edges@.contains((r, c)));
                if r > 0 {
                    let w = visit(
                        maz,
                        &mut visited,
                        &mut stack,
                        r - 1,
                        c,
                        Ghost(reachable_edges@),
                        Ghost(start),
                        Ghost(x),
                        Ghost(walks),
                    );
                    proof {
                        walks = w@;
                    }
                }
                if r + 1 < row {
                    let w = visit(
                        maz,
                        &mut visited,
                        &mut stack,
                        r + 1,
                        c,
                        Ghost(reachable_edges@),
                        Ghost(start),
                        Ghost(x),
                        Ghost(walks),
                    );
                    proof {
                        walks = w@;
                    }
                }
                if c > 0 {
                    let w = visit(
                        maz,
                        &mut visited,
                        &mut stack,
                        r,
                        c - 1,
                        Ghost(reachable_edges@),
                        Ghost(start),
                        Ghost(x),
                        Ghost(walks),
                    );
                    proof {
                        walks = w@;
                    }
                }
                if c + 1 < col {
                    let w = visit(
                        maz,
                        &mut visited,
                        &mut stack,
                        r,
                        c + 1,
                        Ghost(reachable_edges@),
                        Ghost(start),
                        Ghost(x),
                        Ghost(walks),
                    );
                    proof {
                        walks = w@;
                    }
                }
                proof {
                    let v = marks(&visited);
                    assert forall|r2: int, c2: int| in_grid(r2, c2, row as int, col as int) && adjacent(x, (r2, c2))
                        && #[trigger] g[r2][c2] == PASSAGE implies v[r2][c2] by {}
                    lemma_after_visits(g, v, stack@, reachable_edges@, start, walks, x);
                }
            }
        }
        proof {
            assert forall|r: int, c: int| #[trigger] reachable_exit(g, r, c, start) implies reachable_edges@.contains(
                (r as usize, c as usize),
            ) by {
                let p = choose|p: Seq<(int, int)>| is_walk(g, p, set![PASSAGE]) && p[0] == s && p.last() == (r, c);
                lemma_walk_marked(g, marks(&visited), reachable_edges@, start, walks, p, p.len() - 1);
                let empty: Seq<(usize, usize)> = seq![];
                assert(stack@ == empty);
                assert(!empty.contains((r as usize, c as usize)));
            }
            reveal(search_state);
        }
        reachable_edges
    }

    /// A ring cell other than the entrance, reached from the entrance over
    /// passages, drawn at random; `None` when there is none.
    pub fn find_connected_end_point(maz: &Vec<Vec<char>>, start_r: usize, start_c: usize, rng: &mut StdRng) -> (e: Option<
        (usize, usize),
    >)
        requires
            maz@.len() >= 1,
            is_rectangular(cells(maz)),
            in_grid(start_r as int, start_c as int, maz@.len() as int, cells(maz)[0].len() as int),
        ensures
            e is None <==> forall|r: int, c: int| !#[trigger] reachable_exit(cells(maz), r, c, (start_r, start_c)),
            e matches Some(x) ==> reachable_exit(cells(maz), x.0 as int, x.1 as int, (start_r, start_c)),
    {
        let reachable_edges = Self::reachable_edge_cells(maz, start_r, start_c);
        if reachable_edges.len() > 0 {
            let idx = draw_below(rng, reachable_edges.len());
            let x = reachable_edges[idx];
            assert(reachable_exit(cells(maz), x.0 as int, x.1 as int, (start_r, start_c)));
            Some(x)
        } else {
            assert forall|r: int, c: int| !#[trigger] reachable_exit(cells(maz), r, c, (start_r, start_c)) by {
                if reachable_exit(cells(maz), r, c, (start_r, start_c)) {
                    assert(reachable_edges@.contains((r as usize, c as usize)));
                }
            }
            None
        }
    }
}

/// All marks cleared.
pub open spec fn no_marks(row: int, col: int) -> Seq<Seq<bool>> {
    Seq::new(row as nat, |r: int| Seq::new(col as nat, |c: int| false))
}

fn unmarked(row: usize, col: usize) -> (v: Vec<Vec<bool>>)
    ensures
        v@.len() == row,
        marks(&v) == no_marks(row as int, col as int),
{
    let mut v: Vec<Vec<bool>> = Vec::new();
    let mut r: usize = 0;
    while r < row
        invariant
            r <= row,
            v@.len() == r,
            marks(&v) == no_marks(r as int, col as int),
        decreases row - r,
    {
        let mut line: Vec<bool> = Vec::new();
        let mut c: usize = 0;
        while c < col
            invariant
                c <= col,
                line@ == Seq::new(c as nat, |j: int| false),
            decreases col - c,
        {
            line.push(false);
            c += 1;
            assert(line@ =~= Seq::new(c as nat, |j: int| false));
        }
        let ghost before = marks(&v);
        v.push(line);
        assert(marks(&v) =~= before.push(line@));
        assert(marks(&v) =~= no_marks(r + 1, col as int));
        r += 1;
    }
    v
}

fn set_mark(v: &mut Vec<Vec<bool>>, r: usize, c: usize)
    requires
        r < old(v)@.len(),
        c < old(v)@[r as int]@.len(),
    ensures
        final(v)@.len() == old(v)@.len(),
        marks(final(v)) == marks(old(v)).update(r as int, marks(old(v))[r as int].update(c as int, true)),
{
    v[r][c] = true;
    assert(marks(v)[r as int] =~= marks(old(v))[r as int].update(c as int, true));
    assert(marks(v) =~= marks(old(v)).update(r as int, marks(old(v))[r as int].update(c as int, true)));
}

} // verus!
