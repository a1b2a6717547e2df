//! A cell together with the cell it was reached from.
use vstd::prelude::*;

verus! {

/// A cell of the grid, with the neighbour it was discovered from.
#[derive(Debug, Clone, Copy, Default)]
pub struct Point {
    pub r: usize,
    pub c: usize,
    pub parent: Option<(usize, usize)>,
}

/// One step further along `x` in the direction from `from` to `x`
/// (meaningful when the two differ).
pub open spec fn step_past(x: int, from: int) -> int {
    if x > from {
        x + 1
    } else {
        x - 1
    }
}

/// The cell past `p` on the line from its parent to `p`, if it lies within a
/// `max_r` by `max_c` grid (in both coordinates). A move along the rows is
/// tried first, then one along the columns.
pub open spec fn opposite_cell(p: Point, max_r: int, max_c: int) -> Option<(int, int)> {
    match p.parent {
        None => None,
        Some((pr, pc)) => {
            let nr = step_past(p.r as int, pr as int);
            let nc = step_past(p.c as int, pc as int);
            if p.r != pr && 0 <= nr < max_r && p.c < max_c {
                Some((nr, p.c as int))
            } else if p.c != pc && 0 <= nc < max_c && p.r < max_r {
                Some((p.r as int, nc))
            } else {
                None
            }
        },
    }
}

impl Point {
    pub fn new(x: usize, y: usize, parent: Option<(usize, usize)>) -> (p: Point)
        ensures
            p.r == x,
            p.c == y,
            p.parent == parent,
    {
        Point { r: x, c: y, parent }
    }

    /// The cell past this one, seen from its parent, within a `max_r` by
    /// `max_c` grid; its parent is this cell.
    pub fn opposite(&self, max_r: usize, max_c: usize) -> (o: Option<Point>)
        ensures
            match opposite_cell(*self, max_r as int, max_c as int) {
                None => o.is_none(),
                Some((nr, nc)) => o == Some(
                    Point { r: nr as usize, c: nc as usize, parent: Some((self.r, self.c)) },
                ),
            },
    {
        if let Some((pr, pc)) = self.parent {
            if self.r != pr {
                if self.r > pr {
                    if self.r < max_r && self.r + 1 < max_r && self.c < max_c {
                        return Some(Point::new(self.r + 1, self.c, Some((self.r, self.c))));
                    }
                } else if self.r > 0 && self.r - 1 < max_r && self.c < max_c {
                    return Some(Point::new(self.r - 1, self.c, Some((self.r, self.c))));
                }
            }
            if self.c != pc {
                if self.c > pc {
                    if self.c < max_c && self.c + 1 < max_c && self.r < max_r {
                        return Some(Point::new(self.r, self.c + 1, Some((self.r, self.c))));
                    }
                } else if self.c > 0 && self.c - 1 < max_c && self.r < max_r {
                    return Some(Point::new(self.r, self.c - 1, Some((self.r, self.c))));
                }
            }
        }
        None
    }
}

} // verus!
