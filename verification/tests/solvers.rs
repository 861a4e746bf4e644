use flowrs::astar::solve_astar;
use flowrs::backtracking::brute_force;
use flowrs::sat::solve_sat;
use flowrs::{Cell, Colour, Endpoints, Grid, Point};

fn board(width: usize, height: usize, pairs: &[(Colour, (usize, usize), (usize, usize))]) -> (Grid, Endpoints) {
    let mut endpoints = Endpoints::new();
    for &(colour, a, b) in pairs {
        endpoints.insert(colour, (Point::new(a.0, a.1), Point::new(b.0, b.1)));
    }
    (Grid::new(width, height, &endpoints), endpoints)
}

fn five_by_five() -> (Grid, Endpoints) {
    board(
        5,
        5,
        &[
            (Colour::Red, (0, 0), (1, 4)),
            (Colour::Green, (2, 0), (1, 3)),
            (Colour::Blue, (2, 1), (2, 4)),
            (Colour::Yellow, (4, 0), (3, 3)),
            (Colour::Magenta, (3, 4), (4, 1)),
        ],
    )
}

fn show(grid: &Grid) -> String {
    let mut text = String::new();
    for y in 0..grid.height {
        for x in 0..grid.width {
            let cell = grid.get(Point::new(x, y));
            let letter = match cell.colour() {
                None => '.',
                Some(Colour::Red) => 'R',
                Some(Colour::Green) => 'G',
                Some(Colour::Blue) => 'B',
                Some(Colour::Yellow) => 'Y',
                Some(Colour::Magenta) => 'M',
                Some(_) => '?',
            };
            text.push(letter);
        }
        text.push('\n');
    }
    text
}

#[test]
fn five_by_five_brute_force_solves() {
    let (mut grid, endpoints) = five_by_five();
    assert!(brute_force(&mut grid));
    assert!(grid.is_solved(&endpoints));
    println!("{}", show(&grid));
}

#[test]
fn five_by_five_astar_solves() {
    let (grid, endpoints) = five_by_five();
    let solution = solve_astar(grid);
    assert!(solution.is_some());
    let solution = solution.unwrap();
    println!("{}", show(&solution));
    assert!(solution.is_solved(&endpoints));
}

#[test]
fn five_by_five_sat_solves() {
    let (grid, endpoints) = five_by_five();
    let solution = solve_sat(&grid);
    assert!(solution.is_some());
    let solution = solution.unwrap();
    println!("{}", show(&solution));
    assert!(solution.is_solved(&endpoints));
}

fn solved_by_all(width: usize, height: usize, pairs: &[(Colour, (usize, usize), (usize, usize))]) -> [bool; 3] {
    let (mut grid, endpoints) = board(width, height, pairs);
    let start = grid.duplicate();
    let brute = brute_force(&mut grid);
    if brute {
        assert!(grid.is_solved(&endpoints));
    }
    let astar = solve_astar(start.duplicate());
    if let Some(solution) = &astar {
        assert!(solution.is_solved(&endpoints));
    }
    let sat = solve_sat(&start);
    if let Some(solution) = &sat {
        assert!(solution.is_solved(&endpoints));
    }
    [brute, astar.is_some(), sat.is_some()]
}

#[test]
fn two_by_two_crossing_is_unsolvable() {
    let answers = solved_by_all(
        2,
        2,
        &[(Colour::Red, (0, 0), (1, 1)), (Colour::Blue, (1, 0), (0, 1))],
    );
    assert_eq!(answers, [false, false, false]);
}

#[test]
fn three_by_three_crossing_corners_are_unsolvable() {
    let answers = solved_by_all(
        3,
        3,
        &[(Colour::Red, (0, 0), (2, 2)), (Colour::Green, (2, 0), (0, 2))],
    );
    assert_eq!(answers, [false, false, false]);
}

// One pair in opposite corners of a 3x3 board: the only way to cover the board
// is a path that winds through it like an S, so squares of the path that are
// not consecutive lie side by side. The enumeration of simple paths finds it;
// the formula of the satisfiability solver forbids such a path, and the
// pruning of the best-first search cuts it off.
#[test]
fn three_by_three_single_pair_needs_a_winding_path() {
    let answers = solved_by_all(3, 3, &[(Colour::Red, (0, 0), (2, 2))]);
    assert_eq!(answers, [true, false, false]);
}

#[test]
fn three_by_three_single_pair_winding_solution() {
    let (mut grid, endpoints) = board(3, 3, &[(Colour::Red, (0, 0), (2, 2))]);
    assert!(brute_force(&mut grid));
    assert!(grid.is_solved(&endpoints));
    for y in 0..3 {
        for x in 0..3 {
            assert_eq!(grid.get(Point::new(x, y)).colour(), Some(Colour::Red));
        }
    }
    assert_eq!(grid.get(Point::new(0, 0)), Cell::Endpoint { colour: Colour::Red });
    assert_eq!(grid.get(Point::new(2, 2)), Cell::Endpoint { colour: Colour::Red });
    assert_eq!(grid.get(Point::new(1, 1)), Cell::Path { colour: Colour::Red });
}

#[test]
fn one_by_five_chain_is_solved_by_all() {
    let answers = solved_by_all(5, 1, &[(Colour::Red, (0, 0), (4, 0))]);
    assert_eq!(answers, [true, true, true]);
}

#[test]
fn solvers_keep_the_endpoints() {
    let (grid, endpoints) = five_by_five();
    let mut brute = grid.duplicate();
    assert!(brute_force(&mut brute));
    let astar = solve_astar(grid.duplicate()).unwrap();
    let sat = solve_sat(&grid).unwrap();
    for solution in [&brute, &astar, &sat] {
        let found = solution.get_endpoints().unwrap();
        for colour in [Colour::Red, Colour::Green, Colour::Blue, Colour::Yellow, Colour::Magenta] {
            assert_eq!(found.get(colour), grid.get_endpoints().unwrap().get(colour));
            let (a, b) = endpoints.get(colour).unwrap();
            assert_eq!(solution.get(a), Cell::Endpoint { colour });
            assert_eq!(solution.get(b), Cell::Endpoint { colour });
        }
        assert_eq!(found.len(), 5);
    }
}

#[test]
fn solvers_agree_on_the_five_by_five() {
    let (grid, _) = five_by_five();
    let mut brute = grid.duplicate();
    assert!(brute_force(&mut brute));
    let astar = solve_astar(grid.duplicate()).unwrap();
    let sat = solve_sat(&grid).unwrap();
    assert_eq!(show(&brute), show(&astar));
    assert_eq!(show(&brute), show(&sat));
    assert_eq!(show(&brute), "RGGYY\nRGBYM\nRGBYM\nRGBYM\nRRBMM\n");
}

#[test]
fn brute_force_failure_leaves_the_board_as_it_was() {
    let (mut grid, _) = board(
        2,
        2,
        &[(Colour::Red, (0, 0), (1, 1)), (Colour::Blue, (1, 0), (0, 1))],
    );
    let before = grid.duplicate();
    assert!(!brute_force(&mut grid));
    for y in 0..2 {
        for x in 0..2 {
            assert_eq!(grid.get(Point::new(x, y)), before.get(Point::new(x, y)));
        }
    }
}

#[test]
fn brute_force_failure_keeps_only_filled_cells() {
    // The fill lets red and blue take the top and the bottom row; green is
    // connected from the start, so the middle of the board stays empty.
    let (mut grid, _) = board(
        4,
        4,
        &[
            (Colour::Red, (0, 0), (3, 0)),
            (Colour::Green, (1, 1), (2, 1)),
            (Colour::Blue, (0, 3), (3, 3)),
        ],
    );
    let before = grid.duplicate();
    assert!(!brute_force(&mut grid));
    for y in 0..4 {
        for x in 0..4 {
            let p = Point::new(x, y);
            if before.get(p) != Cell::Empty {
                assert_eq!(grid.get(p), before.get(p));
            }
        }
    }
    assert_eq!(grid.get(Point::new(1, 0)), Cell::Path { colour: Colour::Red });
    assert_eq!(grid.get(Point::new(2, 0)), Cell::Path { colour: Colour::Red });
    assert_eq!(grid.get(Point::new(1, 3)), Cell::Path { colour: Colour::Blue });
    assert_eq!(grid.get(Point::new(2, 3)), Cell::Path { colour: Colour::Blue });
    assert_eq!(grid.get(Point::new(0, 1)), Cell::Empty);
    assert_eq!(grid.get(Point::new(1, 2)), Cell::Empty);
}

#[test]
fn a_board_with_a_solution_that_no_solver_finds() {
    let (start, endpoints) = board(
        4,
        4,
        &[
            (Colour::Red, (0, 0), (3, 0)),
            (Colour::Green, (1, 1), (2, 1)),
            (Colour::Blue, (0, 3), (3, 3)),
        ],
    );
    let mut filled = start.duplicate();
    for (x, y) in [(0, 1), (0, 2), (1, 2), (2, 2), (3, 2), (3, 1)] {
        filled.set(Point::new(x, y), Cell::Path { colour: Colour::Red }).unwrap();
    }
    for (x, y) in [(1, 0), (2, 0)] {
        filled.set(Point::new(x, y), Cell::Path { colour: Colour::Green }).unwrap();
    }
    for (x, y) in [(1, 3), (2, 3)] {
        filled.set(Point::new(x, y), Cell::Path { colour: Colour::Blue }).unwrap();
    }
    assert!(filled.is_solved(&endpoints));
    let mut grid = start.duplicate();
    assert!(!brute_force(&mut grid));
    assert!(solve_astar(start.duplicate()).is_none());
    assert!(solve_sat(&start).is_none());
}

#[test]
fn solved_board_is_returned_as_it_is() {
    let (mut grid, endpoints) = five_by_five();
    assert!(brute_force(&mut grid));
    let solved = grid.duplicate();
    assert!(brute_force(&mut grid));
    assert_eq!(show(&grid), show(&solved));
    let again = solve_astar(solved.duplicate()).unwrap();
    assert_eq!(show(&again), show(&solved));
    assert!(again.is_solved(&endpoints));
}

#[test]
fn brute_force_keeps_cells_that_were_painted_before() {
    let (mut grid, endpoints) = five_by_five();
    grid.set(Point::new(0, 1), Cell::Path { colour: Colour::Red }).unwrap();
    grid.set(Point::new(1, 0), Cell::Path { colour: Colour::Green }).unwrap();
    assert!(brute_force(&mut grid));
    assert!(grid.is_solved(&endpoints));
    assert_eq!(grid.get(Point::new(0, 1)), Cell::Path { colour: Colour::Red });
    assert_eq!(grid.get(Point::new(1, 0)), Cell::Path { colour: Colour::Green });
}

#[test]
fn empty_board_without_colours() {
    let (grid, endpoints) = board(0, 0, &[]);
    assert!(grid.is_solved(&endpoints));
    let mut copy = grid.duplicate();
    assert!(brute_force(&mut copy));
    assert!(solve_astar(grid.duplicate()).is_some());
    assert!(solve_sat(&grid).is_some());
}

#[test]
fn board_without_colours_cannot_be_filled() {
    let (grid, _) = board(2, 1, &[]);
    let mut copy = grid.duplicate();
    assert!(!brute_force(&mut copy));
    assert!(solve_astar(grid.duplicate()).is_none());
    assert!(solve_sat(&grid).is_none());
}

#[test]
fn brute_force_solves_the_filled_five_by_five() {
    let (mut grid, endpoints) = five_by_five();
    grid.fill_guaranteed(&endpoints);
    assert!(brute_force(&mut grid));
    assert!(grid.is_solved(&endpoints));
}

#[test]
fn brute_force_solves_a_filled_rim_puzzle() {
    let (mut grid, endpoints) =
        board(3, 2, &[(Colour::Red, (0, 0), (2, 0)), (Colour::Green, (0, 1), (2, 1))]);
    grid.fill_guaranteed(&endpoints);
    let filled = grid.duplicate();
    assert!(brute_force(&mut grid));
    assert!(grid.is_solved(&endpoints));
    assert_eq!(show(&grid), show(&filled));
    assert_eq!(show(&grid), "RRR\nGGG\n");
}

#[test]
fn fill_waits_where_the_rim_offers_two_ways() {
    // On a board two rows high every square lies on the rim, so red may also
    // dip into the bottom row between the endpoints of green.
    let (mut grid, endpoints) =
        board(4, 2, &[(Colour::Red, (0, 0), (3, 0)), (Colour::Green, (0, 1), (3, 1))]);
    grid.fill_guaranteed(&endpoints);
    assert_eq!(show(&grid), "R..R\nG..G\n");
    assert!(brute_force(&mut grid));
    assert_eq!(show(&grid), "RRRR\nGGGG\n");
}
