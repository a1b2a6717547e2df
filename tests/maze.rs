use prim_maze::{MazeError, Point, Prim};
use rand::rngs::StdRng;
use rand::SeedableRng;

fn on_edge(r: usize, c: usize, rows: usize, cols: usize) -> bool {
    r == 0 || r == rows - 1 || c == 0 || c == cols - 1
}

fn positions(m: &[Vec<char>], ch: char) -> Vec<(usize, usize)> {
    let mut out = Vec::new();
    for (r, row) in m.iter().enumerate() {
        for (c, &x) in row.iter().enumerate() {
            if x == ch {
                out.push((r, c));
            }
        }
    }
    out
}

/// Cells reachable from `from` through cells other than walls.
fn reach(m: &[Vec<char>], from: (usize, usize)) -> Vec<Vec<bool>> {
    let rows = m.len();
    let cols = m[0].len();
    let mut seen = vec![vec![false; cols]; rows];
    let mut stack = vec![from];
    seen[from.0][from.1] = true;
    while let Some((r, c)) = stack.pop() {
        let mut next = Vec::new();
        if r > 0 {
            next.push((r - 1, c));
        }
        if r + 1 < rows {
            next.push((r + 1, c));
        }
        if c > 0 {
            next.push((r, c - 1));
        }
        if c + 1 < cols {
            next.push((r, c + 1));
        }
        for (nr, nc) in next {
            if !seen[nr][nc] && m[nr][nc] != '#' {
                seen[nr][nc] = true;
                stack.push((nr, nc));
            }
        }
    }
    seen
}

fn check_maze(m: &[Vec<char>], rows: usize, cols: usize) {
    assert_eq!(m.len(), rows);
    for row in m {
        assert_eq!(row.len(), cols);
    }
    let s = positions(m, 'S');
    let e = positions(m, 'E');
    assert_eq!(s.len(), 1);
    assert_eq!(e.len(), 1);
    assert!(on_edge(s[0].0, s[0].1, rows, cols));
    assert!(on_edge(e[0].0, e[0].1, rows, cols));
    for r in 0..rows {
        for c in 0..cols {
            let x = m[r][c];
            if on_edge(r, c, rows, cols) {
                assert!(x == '#' || x == 'S' || x == 'E', "open ring cell at {} {}", r, c);
            } else {
                assert!(x == '#' || x == '.');
            }
        }
    }
}

fn render(m: &[Vec<char>]) -> Vec<String> {
    m.iter().map(|row| row.iter().collect::<String>()).collect()
}

#[test]
fn generated_mazes_have_one_entrance_and_one_exit_on_the_ring() {
    for seed in 0..40u64 {
        for &(rows, cols) in &[(5usize, 5usize), (7, 9), (3, 3), (1, 6), (6, 1), (4, 4), (11, 8)] {
            let mut rng = StdRng::seed_from_u64(seed);
            let m = Prim::new(rows, cols, &mut rng).unwrap();
            check_maze(&m, rows, cols);
        }
    }
}

#[test]
fn carved_cells_are_all_connected_to_the_entrance() {
    for seed in 0..40u64 {
        let rows = 9;
        let cols = 11;
        let mut rng = StdRng::seed_from_u64(seed);
        let (sr, sc) = Prim::random_edge_point(rows, cols, &mut rng);
        let (m, ends) = Prim::carve(rows, cols, sr, sc, &mut rng);
        assert_eq!(m[sr][sc], 'S');
        let seen = reach(&m, (sr, sc));
        for r in 0..rows {
            for c in 0..cols {
                if m[r][c] != '#' {
                    assert!(seen[r][c]);
                }
                let candidate = m[r][c] == '.' && on_edge(r, c, rows, cols);
                assert_eq!(candidate, ends.contains(&(r, c)));
            }
        }
        assert!(!ends.is_empty());
    }
}

#[test]
fn sealing_twice_equals_sealing_once() {
    let mut g: Vec<Vec<char>> = vec![
        "..S..".chars().collect(),
        ".#.#.".chars().collect(),
        ".....".chars().collect(),
        "E.#..".chars().collect(),
    ];
    Prim::enforce_edge_walls(&mut g);
    let once = g.clone();
    assert_eq!(render(&once), vec!["##S##", "##.##", "#...#", "E####"]);
    Prim::enforce_edge_walls(&mut g);
    assert_eq!(g, once);
}

#[test]
fn sealing_an_empty_grid_does_nothing() {
    let mut g: Vec<Vec<char>> = Vec::new();
    Prim::enforce_edge_walls(&mut g);
    assert!(g.is_empty());
}

#[test]
fn same_seed_gives_the_same_maze() {
    for seed in 0..10u64 {
        let a = Prim::new(9, 13, &mut StdRng::seed_from_u64(seed)).unwrap();
        let b = Prim::new(9, 13, &mut StdRng::seed_from_u64(seed)).unwrap();
        assert_eq!(a, b);
    }
}

#[test]
fn grids_without_a_second_ring_cell_in_reach_fail() {
    for &(rows, cols) in &[(1usize, 1usize), (1, 2), (2, 1), (2, 2)] {
        for seed in 0..10u64 {
            let r = Prim::new(rows, cols, &mut StdRng::seed_from_u64(seed));
            assert_eq!(r, Err(MazeError::NoExitFound));
        }
    }
}

#[test]
fn empty_dimensions_are_rejected() {
    let mut rng = StdRng::seed_from_u64(1);
    assert_eq!(Prim::new(3, usize::MAX, &mut rng), Err(MazeError::InvalidDimensions));
    assert_eq!(Prim::new(0, 5, &mut rng), Err(MazeError::InvalidDimensions));
    assert_eq!(Prim::new(5, 0, &mut rng), Err(MazeError::InvalidDimensions));
    assert_eq!(Prim::new(0, 0, &mut rng), Err(MazeError::InvalidDimensions));
}

#[test]
fn thin_grids_never_lack_an_exit() {
    for seed in 0..20u64 {
        for &(rows, cols) in &[(1usize, 3usize), (1, 8), (2, 3), (3, 1), (9, 2)] {
            match Prim::new(rows, cols, &mut StdRng::seed_from_u64(seed)) {
                Ok(m) => check_maze(&m, rows, cols),
                Err(e) => assert_eq!(e, MazeError::NoExitFound),
            }
        }
    }
}

#[test]
fn three_by_three_gets_an_entrance_and_an_exit() {
    for seed in 0..20u64 {
        let m = Prim::new(3, 3, &mut StdRng::seed_from_u64(seed)).unwrap();
        check_maze(&m, 3, 3);
    }
}

#[test]
fn five_by_five_golden_maze() {
    let m = Prim::new(5, 5, &mut StdRng::seed_from_u64(0)).unwrap();
    check_maze(&m, 5, 5);
    assert_eq!(render(&m), vec!["#####", "##..#", "##.##", "S...E", "#####"]);
    let seen = reach(&m, positions(&m, 'S')[0]);
    for r in 0..5 {
        for c in 0..5 {
            if m[r][c] != '#' {
                assert!(seen[r][c]);
            }
        }
    }
}

#[test]
fn sealing_can_cut_the_entrance_off() {
    let m = Prim::new(5, 5, &mut StdRng::seed_from_u64(4)).unwrap();
    check_maze(&m, 5, 5);
    assert_eq!(render(&m), vec!["####E", "#####", "#..##", "#####", "####S"]);
}

#[test]
fn odd_grids_always_succeed() {
    for seed in 0..30u64 {
        for &(rows, cols) in &[(3usize, 5usize), (5, 3), (7, 7), (9, 15), (3, 3)] {
            let m = Prim::new(rows, cols, &mut StdRng::seed_from_u64(seed)).unwrap();
            check_maze(&m, rows, cols);
        }
    }
}

#[test]
fn generation_from_an_entrance_without_a_lattice_partner_fails() {
    let mut rng = StdRng::seed_from_u64(5);
    assert_eq!(Prim::generate_from(4, 3, 0, 1, &mut rng), Err(MazeError::NoExitFound));
    let (m, ends) = Prim::carve(4, 3, 0, 1, &mut rng);
    assert!(ends.is_empty());
    assert_eq!(render(&m), vec!["#S#", "#.#", "#.#", "###"]);
    assert_eq!(Prim::generate_from(1, 3, 0, 1, &mut rng), Err(MazeError::NoExitFound));
}

#[test]
fn generation_from_a_corner_entrance_succeeds() {
    for seed in 0..20u64 {
        let mut rng = StdRng::seed_from_u64(seed);
        let m = Prim::generate_from(4, 3, 0, 0, &mut rng).unwrap();
        check_maze(&m, 4, 3);
        assert_eq!(m[0][0], 'S');
        let m = Prim::generate_from(1, 3, 0, 0, &mut rng).unwrap();
        let line = render(&m);
        assert!(line == vec!["S#E"] || line == vec!["SE#"]);
    }
}

#[test]
fn a_lone_ring_exit_keeps_the_maze_connected() {
    let mut rng = StdRng::seed_from_u64(9);
    let (mut m, ends) = Prim::carve(3, 3, 0, 1, &mut rng);
    assert_eq!(ends, vec![(2, 1)]);
    Prim::place_exit(&mut m, 2, 1);
    assert_eq!(render(&m), vec!["#S#", "#.#", "#E#"]);
    let seen = reach(&m, (0, 1));
    assert!(seen[2][1]);
}

#[test]
fn large_grids_are_generated() {
    let mut rng = StdRng::seed_from_u64(11);
    let m = Prim::new(61, 81, &mut rng).unwrap();
    check_maze(&m, 61, 81);
}
