use prim_maze::{Point, Prim};
use rand::rngs::StdRng;
use rand::SeedableRng;

#[test]
fn opposite_continues_past_the_candidate() {
    let p = Point::new(2, 3, Some((1, 3)));
    let o = p.opposite(5, 5).unwrap();
    assert_eq!((o.r, o.c, o.parent), (3, 3, Some((2, 3))));
    let p = Point::new(2, 3, Some((2, 4)));
    let o = p.opposite(5, 5).unwrap();
    assert_eq!((o.r, o.c, o.parent), (2, 2, Some((2, 3))));
}

#[test]
fn opposite_outside_the_grid_is_none() {
    assert!(Point::new(4, 2, Some((3, 2))).opposite(5, 5).is_none());
    assert!(Point::new(0, 2, Some((1, 2))).opposite(5, 5).is_none());
    assert!(Point::new(2, 0, Some((2, 1))).opposite(5, 5).is_none());
    assert!(Point::new(2, 2, None).opposite(5, 5).is_none());
    assert!(Point::new(1, 5, Some((0, 5))).opposite(3, 3).is_none());
    assert!(Point::new(5, 1, Some((5, 0))).opposite(3, 3).is_none());
}

#[test]
fn neighbours_are_added_in_order_inside_the_grid() {
    let parent = Point::new(0, 0, None);
    let mut f = Vec::new();
    Prim::add_neighbors(0, 0, 3, 3, &mut f, &parent);
    let got: Vec<(usize, usize, Option<(usize, usize)>)> = f.iter().map(|p| (p.r, p.c, p.parent)).collect();
    assert_eq!(got, vec![(1, 0, Some((0, 0))), (0, 1, Some((0, 0)))]);
    let mid = Point::new(1, 1, None);
    let mut f = Vec::new();
    Prim::add_neighbors(1, 1, 3, 3, &mut f, &mid);
    let got: Vec<(usize, usize)> = f.iter().map(|p| (p.r, p.c)).collect();
    assert_eq!(got, vec![(0, 1), (2, 1), (1, 0), (1, 2)]);
}

#[test]
fn edge_points_and_end_locations() {
    assert!(Prim::is_edge_point(0, 2, 5, 5));
    assert!(Prim::is_edge_point(2, 4, 5, 5));
    assert!(!Prim::is_edge_point(2, 2, 5, 5));
    assert_eq!(Prim::ring_size(5, 6), Some(18));
    assert_eq!(Prim::ring_size(1, 6), Some(6));
    assert_eq!(Prim::ring_size(7, 1), Some(7));
    assert_eq!(Prim::ring_size(2, 2), Some(4));
    assert_eq!(Prim::ring_size(3, usize::MAX), None);
    assert_eq!(Prim::ring_point(3, 5, 6), (0, 3));
    assert_eq!(Prim::ring_point(9, 5, 6), (4, 3));
    assert_eq!(Prim::ring_point(12, 5, 6), (1, 0));
    assert_eq!(Prim::ring_point(17, 5, 6), (3, 5));
    assert_eq!(Prim::ring_point(4, 1, 6), (0, 4));
    assert_eq!(Prim::ring_point(4, 6, 1), (4, 0));
    let p = Point::new(0, 1, None);
    assert!(Prim::is_valid_end_location(&p, 0, 2));
    assert!(!Prim::is_valid_end_location(&p, 0, 1));
}

#[test]
fn ring_numbering_covers_each_ring_cell_once() {
    for &(rows, cols) in &[(1usize, 1usize), (1, 5), (5, 1), (2, 2), (3, 3), (4, 7)] {
        let n = Prim::ring_size(rows, cols).unwrap();
        let mut seen = vec![vec![false; cols]; rows];
        for k in 0..n {
            let (r, c) = Prim::ring_point(k, rows, cols);
            assert!(r == 0 || r == rows - 1 || c == 0 || c == cols - 1);
            assert!(!seen[r][c]);
            seen[r][c] = true;
        }
        for r in 0..rows {
            for c in 0..cols {
                assert_eq!(seen[r][c], r == 0 || r == rows - 1 || c == 0 || c == cols - 1);
            }
        }
    }
}

#[test]
fn random_edge_points_lie_on_the_ring() {
    let mut rng = StdRng::seed_from_u64(7);
    let mut sides = [false; 4];
    for _ in 0..200 {
        let (r, c) = Prim::random_edge_point(6, 9, &mut rng);
        assert!(r < 6 && c < 9);
        assert!(r == 0 || r == 5 || c == 0 || c == 8);
        if r == 0 {
            sides[0] = true;
        }
        if r == 5 {
            sides[1] = true;
        }
        if c == 0 {
            sides[2] = true;
        }
        if c == 8 {
            sides[3] = true;
        }
    }
    assert_eq!(sides, [true; 4]);
}

#[test]
fn carve_step_carves_a_pair_and_records_ring_cells() {
    let mut g: Vec<Vec<char>> = vec![vec!['#'; 5]; 5];
    g[0][2] = 'S';
    let mut frontier = vec![Point::new(1, 2, Some((0, 2)))];
    let mut ends = Vec::new();
    Prim::carve_step(&mut g, &mut frontier, &mut ends, 0, 2, 0);
    assert_eq!(g[1][2], '.');
    assert_eq!(g[2][2], '.');
    assert!(ends.is_empty());
    let got: Vec<(usize, usize)> = frontier.iter().map(|p| (p.r, p.c)).collect();
    assert_eq!(got, vec![(1, 2), (3, 2), (2, 1), (2, 3)]);
    let mut frontier = vec![Point::new(2, 1, Some((2, 2)))];
    Prim::carve_step(&mut g, &mut frontier, &mut ends, 0, 2, 0);
    assert_eq!(g[2][0], '.');
    assert_eq!(ends, vec![(2, 0)]);
}

#[test]
fn carve_step_skips_carved_cells() {
    let mut g: Vec<Vec<char>> = vec![vec!['#'; 5]; 5];
    g[0][2] = 'S';
    g[2][2] = '.';
    let mut frontier = vec![Point::new(1, 2, Some((0, 2))), Point::new(0, 1, Some((0, 2)))];
    let mut ends = Vec::new();
    Prim::carve_step(&mut g, &mut frontier, &mut ends, 0, 2, 0);
    assert_eq!(g[1][2], '#');
    assert_eq!(frontier.len(), 1);
    assert!(ends.is_empty());
}

#[test]
fn search_finds_reachable_ring_passages_only() {
    let g: Vec<Vec<char>> = vec![
        "#S###".chars().collect(),
        "#.#.#".chars().collect(),
        "#...#".chars().collect(),
        "###.#".chars().collect(),
        "#.#.#".chars().collect(),
    ];
    let found = Prim::reachable_edge_cells(&g, 0, 1);
    assert_eq!(found, vec![(4, 3)]);
    let mut rng = StdRng::seed_from_u64(3);
    assert_eq!(Prim::find_connected_end_point(&g, 0, 1, &mut rng), Some((4, 3)));
    let closed: Vec<Vec<char>> = vec!["#S#".chars().collect(), "#.#".chars().collect(), "###".chars().collect()];
    assert!(Prim::reachable_edge_cells(&closed, 0, 1).is_empty());
    assert_eq!(Prim::find_connected_end_point(&closed, 0, 1, &mut rng), None);
}

#[test]
fn placing_the_exit_seals_the_rest_of_the_ring() {
    let mut g: Vec<Vec<char>> = vec![
        "#S.#".chars().collect(),
        "#..#".chars().collect(),
        "..#.".chars().collect(),
    ];
    Prim::place_exit(&mut g, 2, 3);
    let out: Vec<String> = g.iter().map(|r| r.iter().collect()).collect();
    assert_eq!(out, vec!["#S##", "#..#", "###E"]);
}
