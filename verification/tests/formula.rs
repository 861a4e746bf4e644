use flowrs::sat::{solve_sat, Layout};
use flowrs::{Cell, Colour, Endpoints, Grid, Point};
use varisat::Lit;

fn pt(x: usize, y: usize) -> Point {
    Point::new(x, y)
}

fn board(width: usize, height: usize, pairs: &[(Colour, (usize, usize), (usize, usize))]) -> (Grid, Endpoints) {
    let mut endpoints = Endpoints::new();
    for &(colour, a, b) in pairs {
        endpoints.insert(colour, (pt(a.0, a.1), pt(b.0, b.1)));
    }
    (Grid::new(width, height, &endpoints), endpoints)
}

fn clauses(layout: &Layout, grid: &Grid, endpoints: &Endpoints) -> Vec<Vec<isize>> {
    let formula = layout.encode(grid, &endpoints.entries());
    formula.iter().map(|clause| clause.iter().map(|lit: &Lit| lit.to_dimacs()).collect()).collect()
}

#[test]
fn variable_numbers() {
    let layout = Layout::plan(3, 2, 2).unwrap();
    assert_eq!(layout.count_variables(), 48);
    assert_eq!(layout.colour_lit(pt(0, 0), 0), 1);
    assert_eq!(layout.colour_lit(pt(0, 0), 1), 2);
    assert_eq!(layout.colour_lit(pt(1, 1), 1), 10);
    assert_eq!(layout.colour_lit(pt(2, 1), 1), 12);
    assert_eq!(layout.turn_lit(pt(0, 0), 0), 13);
    assert_eq!(layout.turn_lit(pt(2, 0), 5), 30);
    assert_eq!(layout.turn_lit(pt(2, 1), 5), 48);
}

#[test]
fn layouts_that_do_not_fit() {
    assert!(Layout::plan(1 << 14, 1 << 14, 1).is_none());
    assert!(Layout::plan(usize::MAX, usize::MAX, 16).is_none());
    assert!(Layout::plan(1, 1, usize::MAX).is_none());
    assert!(Layout::plan(1 << 12, 1 << 12, 10).is_some());
    assert!(Layout::plan(1 << 12, 1 << 12, 11).is_none());
    assert!(Layout::plan(0, 5, usize::MAX).is_some());
}

#[test]
fn turn_neighbours() {
    let layout = Layout::plan(3, 3, 1).unwrap();
    let p = pt(1, 1);
    assert_eq!(layout.turn_points(p, 0), Some((pt(0, 1), pt(2, 1))));
    assert_eq!(layout.turn_points(p, 1), Some((pt(1, 0), pt(1, 2))));
    assert_eq!(layout.turn_points(p, 2), Some((pt(0, 1), pt(1, 0))));
    assert_eq!(layout.turn_points(p, 3), Some((pt(2, 1), pt(1, 0))));
    assert_eq!(layout.turn_points(p, 4), Some((pt(0, 1), pt(1, 2))));
    assert_eq!(layout.turn_points(p, 5), Some((pt(2, 1), pt(1, 2))));
    let corner = pt(0, 0);
    for t in 0..5 {
        assert_eq!(layout.turn_points(corner, t), None);
    }
    assert_eq!(layout.turn_points(corner, 5), Some((pt(1, 0), pt(0, 1))));
    assert_eq!(layout.neighbour(corner, 0), None);
    assert_eq!(layout.neighbour(corner, 1), Some(pt(1, 0)));
    assert_eq!(layout.neighbour(corner, 2), None);
    assert_eq!(layout.neighbour(corner, 3), Some(pt(0, 1)));
}

#[test]
fn formula_of_two_neighbouring_endpoints() {
    let (grid, endpoints) = board(2, 1, &[(Colour::Red, (0, 0), (1, 0))]);
    let layout = Layout::plan(2, 1, 1).unwrap();
    assert_eq!(
        clauses(&layout, &grid, &endpoints),
        vec![vec![1], vec![2], vec![1], vec![2], vec![2], vec![1]]
    );
}

#[test]
fn formula_of_a_row_of_three() {
    let (grid, endpoints) = board(3, 1, &[(Colour::Red, (0, 0), (2, 0))]);
    let layout = Layout::plan(3, 1, 1).unwrap();
    assert_eq!(
        clauses(&layout, &grid, &endpoints),
        vec![
            vec![1],
            vec![2],
            vec![3],
            vec![1],
            vec![3],
            vec![2],
            vec![2],
            vec![10],
            vec![-10, -2, 1],
            vec![-10, 2, -1],
            vec![-10, -2, 3],
            vec![-10, 2, -3],
        ]
    );
}

#[test]
fn formula_with_two_colours() {
    let (grid, endpoints) =
        board(2, 2, &[(Colour::Red, (0, 0), (1, 0)), (Colour::Blue, (0, 1), (1, 1))]);
    let layout = Layout::plan(2, 2, 2).unwrap();
    let all = clauses(&layout, &grid, &endpoints);
    assert_eq!(all.len(), 8 + 2 * (2 + 2 + 2 + 2));
    assert_eq!(all[0], vec![1, 2]);
    assert_eq!(all[1], vec![-1, -2]);
    assert_eq!(all[8], vec![1]);
    assert_eq!(all[9], vec![3]);
    assert_eq!(all[10], vec![-2]);
    assert_eq!(all[11], vec![-4]);
    assert_eq!(all[12], vec![3, 5]);
    assert_eq!(all[13], vec![-3, -5]);
}

#[test]
fn formula_keeps_other_neighbours_apart() {
    let (grid, endpoints) = board(3, 3, &[(Colour::Red, (0, 0), (2, 2))]);
    let layout = Layout::plan(3, 3, 1).unwrap();
    let all = clauses(&layout, &grid, &endpoints);
    // The centre with the way from left to right: the squares above and
    // below must not have the colour of the centre.
    let turn = layout.turn_lit(pt(1, 1), 0);
    let centre = layout.colour_lit(pt(1, 1), 0);
    let above = layout.colour_lit(pt(1, 0), 0);
    let below = layout.colour_lit(pt(1, 2), 0);
    let left = layout.colour_lit(pt(0, 1), 0);
    assert!(all.contains(&vec![-turn, -centre, -above]));
    assert!(all.contains(&vec![-turn, -centre, -below]));
    assert!(all.contains(&vec![-turn, -centre, left]));
    assert!(all.contains(&vec![-turn, centre, -left]));
    assert!(!all.contains(&vec![-turn, -centre, -left]));
    // No way is offered that leaves the board.
    let corner_turn = layout.turn_lit(pt(0, 2), 0);
    assert!(all.iter().all(|clause| !clause.contains(&corner_turn) && !clause.contains(&-corner_turn)));
}

#[test]
fn decode_reads_the_first_colour_of_every_square() {
    let (grid, endpoints) =
        board(3, 1, &[(Colour::Red, (0, 0), (2, 0)), (Colour::Blue, (1, 0), (1, 0))]);
    let mut plain = grid.duplicate();
    plain.cells[0][1] = Cell::Empty;
    let layout = Layout::plan(3, 1, 2).unwrap();
    let entries = endpoints.entries();
    let board = layout.decode(&plain, &entries, &vec![-1, 2, 3, 4, 5, -6]).unwrap();
    assert_eq!(board.get(pt(0, 0)), Cell::Endpoint { colour: Colour::Blue });
    assert_eq!(board.get(pt(1, 0)), Cell::Path { colour: Colour::Red });
    assert_eq!(board.get(pt(2, 0)), Cell::Endpoint { colour: Colour::Red });
    assert_eq!(board.width, 3);
    assert_eq!(board.height, 1);
}

#[test]
fn decode_fails_on_a_square_without_colour() {
    let (grid, endpoints) = board(2, 1, &[(Colour::Red, (0, 0), (1, 0))]);
    let layout = Layout::plan(2, 1, 1).unwrap();
    let entries = endpoints.entries();
    assert!(layout.decode(&grid, &entries, &vec![1, -2]).is_none());
    assert!(layout.decode(&grid, &entries, &vec![1]).is_none());
    assert!(layout.decode(&grid, &entries, &vec![2, 1]).is_some());
    assert!(layout.decode(&grid, &entries, &vec![1, 2, 99, -99, 0]).is_some());
}

#[test]
fn sat_overwrites_what_was_painted() {
    let (mut grid, endpoints) = board(3, 1, &[(Colour::Red, (0, 0), (2, 0))]);
    grid.cells[0][1] = Cell::Path { colour: Colour::Blue };
    let solution = solve_sat(&grid).unwrap();
    assert_eq!(solution.get(pt(1, 0)), Cell::Path { colour: Colour::Red });
    assert!(solution.is_solved(&endpoints));
}

#[test]
fn sat_finds_the_only_solution() {
    let (grid, endpoints) =
        board(3, 2, &[(Colour::Red, (0, 0), (2, 0)), (Colour::Green, (0, 1), (2, 1))]);
    let solution = solve_sat(&grid).unwrap();
    assert_eq!(solution.get(pt(1, 0)), Cell::Path { colour: Colour::Red });
    assert_eq!(solution.get(pt(1, 1)), Cell::Path { colour: Colour::Green });
    assert!(solution.is_solved(&endpoints));
}

#[test]
fn sat_has_no_answer_for_an_unsatisfiable_formula() {
    let (grid, _) = board(2, 2, &[(Colour::Red, (0, 0), (1, 1)), (Colour::Blue, (1, 0), (0, 1))]);
    assert!(solve_sat(&grid).is_none());
}
