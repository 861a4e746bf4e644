use flowrs::astar::{
    dead_end, get_active_colour, get_forced_moves, heuristic, is_adjacent, pop_best, propagate,
    State, Traces,
};
use flowrs::regions::{label_regions, stranded};
use flowrs::{Cell, Colour, Endpoints, Grid, Point};

fn pt(x: usize, y: usize) -> Point {
    Point::new(x, y)
}

fn board(width: usize, height: usize, pairs: &[(Colour, (usize, usize), (usize, usize))]) -> (Grid, Endpoints) {
    let mut endpoints = Endpoints::new();
    for &(colour, a, b) in pairs {
        endpoints.insert(colour, (pt(a.0, a.1), pt(b.0, b.1)));
    }
    (Grid::new(width, height, &endpoints), endpoints)
}

fn five_by_five() -> (Grid, Endpoints) {
    board(
        5,
        5,
        &[
            (Colour::Red, (0, 0), (1, 4)),
            (Colour::Green, (2, 0), (1, 3)),
            (Colour::Blue, (2, 1), (2, 4)),
            (Colour::Yellow, (4, 0), (3, 3)),
            (Colour::Magenta, (3, 4), (4, 1)),
        ],
    )
}

#[test]
fn heuristic_counts_empty_cells() {
    let (mut grid, _) = five_by_five();
    assert_eq!(heuristic(&grid), 15);
    grid.set(pt(0, 1), Cell::Path { colour: Colour::Red }).unwrap();
    assert_eq!(heuristic(&grid), 14);
    let (none, _) = board(0, 0, &[]);
    assert_eq!(heuristic(&none), 0);
    let (blank, _) = board(4, 3, &[]);
    assert_eq!(heuristic(&blank), 12);
}

#[test]
fn dead_end_needs_three_walls() {
    let (mut grid, _) = board(3, 3, &[(Colour::Red, (1, 0), (0, 1))]);
    assert!(!dead_end(&grid));
    grid.set(pt(2, 1), Cell::Path { colour: Colour::Blue }).unwrap();
    assert!(dead_end(&grid));
    grid.set(pt(1, 1), Cell::Path { colour: Colour::Blue }).unwrap();
    assert!(!dead_end(&grid));
}

#[test]
fn dead_end_in_a_corner_needs_more_than_two_walls() {
    let (grid, _) = board(2, 2, &[(Colour::Red, (1, 0), (0, 1))]);
    assert!(!dead_end(&grid));
}

#[test]
fn dead_end_on_the_rim() {
    let (mut grid, _) = board(3, 2, &[(Colour::Red, (0, 0), (2, 0))]);
    assert!(!dead_end(&grid));
    grid.set(pt(1, 1), Cell::Path { colour: Colour::Red }).unwrap();
    assert!(dead_end(&grid));
}

#[test]
fn regions_are_numbered_in_reading_order() {
    let (grid, _) = board(5, 1, &[(Colour::Red, (1, 0), (3, 0))]);
    assert_eq!(label_regions(&grid), vec![vec![0, -1, 1, -1, 2]]);
}

#[test]
fn regions_hang_together_around_corners() {
    // . R .
    // . R .
    // . . .
    let (grid, _) = board(3, 3, &[(Colour::Red, (1, 0), (1, 1))]);
    assert_eq!(
        label_regions(&grid),
        vec![vec![0, -1, 0], vec![0, -1, 0], vec![0, 0, 0]]
    );
    // . R .
    // . R .
    // B B .   with the right column cut off by another wall
    let (mut cut, _) = board(3, 3, &[(Colour::Red, (1, 0), (1, 1)), (Colour::Blue, (0, 2), (1, 2))]);
    assert_eq!(
        label_regions(&cut),
        vec![vec![0, -1, 1], vec![0, -1, 1], vec![-1, -1, 1]]
    );
    cut.set(pt(2, 1), Cell::Path { colour: Colour::Red }).unwrap();
    assert_eq!(
        label_regions(&cut),
        vec![vec![0, -1, 1], vec![0, -1, -1], vec![-1, -1, 2]]
    );
}

#[test]
fn stranded_colour_and_orphaned_region() {
    let (grid, endpoints) = board(5, 1, &[(Colour::Red, (0, 0), (4, 0))]);
    let traces = Traces::begin(&endpoints);
    assert!(!stranded(&grid, &endpoints, &traces));

    // A wall between the head and the second endpoint.
    let mut walled = grid.duplicate();
    walled.set(pt(2, 0), Cell::Path { colour: Colour::Blue }).unwrap();
    assert!(stranded(&walled, &endpoints, &traces));

    // A connected colour leaves the rest of the board to nobody.
    let (orphan, ends) = board(4, 1, &[(Colour::Red, (0, 0), (1, 0))]);
    let heads = Traces::begin(&ends);
    assert!(stranded(&orphan, &ends, &heads));

    // A full board is not stranded.
    let (full, ends) = board(2, 1, &[(Colour::Red, (0, 0), (1, 0))]);
    let heads = Traces::begin(&ends);
    assert!(!stranded(&full, &ends, &heads));
}

#[test]
fn stranded_when_no_region_touches_both_ends() {
    // R . B . R
    // . . B . .
    // Blue is connected and splits the empty squares in two regions: one
    // touches the head of red, the other its second endpoint.
    let (grid, endpoints) = board(
        5,
        2,
        &[(Colour::Red, (0, 0), (4, 0)), (Colour::Blue, (2, 0), (2, 1))],
    );
    let traces = Traces::begin(&endpoints);
    assert_eq!(label_regions(&grid), vec![vec![-1, 0, -1, 1, -1], vec![0, 0, -1, 1, 1]]);
    assert!(stranded(&grid, &endpoints, &traces));
    // With a third row the two regions are one.
    let (open, ends) = board(
        5,
        3,
        &[(Colour::Red, (0, 0), (4, 0)), (Colour::Blue, (2, 0), (2, 1))],
    );
    let heads = Traces::begin(&ends);
    assert!(!stranded(&open, &ends, &heads));
}

#[test]
fn traces_begin_at_the_first_endpoints() {
    let (_, endpoints) = five_by_five();
    let mut traces = Traces::begin(&endpoints);
    assert_eq!(traces.head_of(Colour::Red), Some(pt(0, 0)));
    assert_eq!(traces.head_of(Colour::Magenta), Some(pt(3, 4)));
    assert_eq!(traces.head_of(Colour::Pink), None);
    traces.advance(Colour::Red, pt(0, 1));
    assert_eq!(traces.head_of(Colour::Red), Some(pt(0, 1)));
    assert_eq!(traces.head_of(Colour::Green), Some(pt(2, 0)));
    let copy = traces.duplicate();
    traces.advance(Colour::Red, pt(0, 2));
    assert_eq!(copy.head_of(Colour::Red), Some(pt(0, 1)));
    assert_eq!(traces.head_of(Colour::Red), Some(pt(0, 2)));
}

#[test]
fn active_colour_is_the_most_constrained() {
    let (grid, endpoints) = five_by_five();
    let traces = Traces::begin(&endpoints);
    assert_eq!(get_active_colour(&grid, &endpoints, &traces), Some(Colour::Yellow));
}

#[test]
fn active_colour_ties_go_to_the_first_colour() {
    let (grid, endpoints) = board(
        3,
        3,
        &[(Colour::Blue, (0, 0), (2, 2)), (Colour::Red, (2, 0), (0, 2))],
    );
    let traces = Traces::begin(&endpoints);
    assert_eq!(get_active_colour(&grid, &endpoints, &traces), Some(Colour::Red));
}

#[test]
fn no_active_colour_when_all_are_connected() {
    let (grid, endpoints) = board(3, 1, &[(Colour::Red, (0, 0), (1, 0))]);
    let traces = Traces::begin(&endpoints);
    assert_eq!(get_active_colour(&grid, &endpoints, &traces), None);
    assert_eq!(get_forced_moves(&grid, &endpoints, &traces), None);
}

#[test]
fn forced_move_of_a_cornered_head() {
    let (grid, endpoints) = board(5, 1, &[(Colour::Red, (0, 0), (4, 0))]);
    let traces = Traces::begin(&endpoints);
    assert_eq!(get_forced_moves(&grid, &endpoints, &traces), Some((Colour::Red, pt(1, 0))));
}

#[test]
fn forced_move_goes_to_the_first_cornered_colour() {
    let (grid, endpoints) = five_by_five();
    let traces = Traces::begin(&endpoints);
    assert_eq!(get_forced_moves(&grid, &endpoints, &traces), Some((Colour::Yellow, pt(3, 0))));
}

#[test]
fn forced_move_onto_a_square_next_to_one_head() {
    let (grid, endpoints) = board(3, 3, &[(Colour::Red, (1, 1), (2, 2))]);
    let traces = Traces::begin(&endpoints);
    assert_eq!(get_forced_moves(&grid, &endpoints, &traces), Some((Colour::Red, pt(1, 0))));
}

#[test]
fn propagation_solves_a_single_row() {
    let (mut grid, endpoints) = board(5, 1, &[(Colour::Red, (0, 0), (4, 0))]);
    let mut traces = Traces::begin(&endpoints);
    propagate(&mut grid, &mut traces, &endpoints);
    assert!(grid.is_solved(&endpoints));
    assert_eq!(traces.head_of(Colour::Red), Some(pt(3, 0)));
    assert_eq!(get_forced_moves(&grid, &endpoints, &traces), None);
}

#[test]
fn adjacency() {
    assert!(is_adjacent(pt(1, 1), pt(0, 1)));
    assert!(is_adjacent(pt(1, 1), pt(2, 1)));
    assert!(is_adjacent(pt(1, 1), pt(1, 0)));
    assert!(is_adjacent(pt(1, 1), pt(1, 2)));
    assert!(!is_adjacent(pt(1, 1), pt(1, 1)));
    assert!(!is_adjacent(pt(1, 1), pt(2, 2)));
    assert!(!is_adjacent(pt(0, 0), pt(2, 0)));
    assert!(!is_adjacent(pt(usize::MAX, 0), pt(0, 0)));
}

#[test]
fn grid_hash_mixes_the_cells_row_by_row() {
    let (mut grid, _) = board(2, 1, &[(Colour::Red, (0, 0), (0, 0))]);
    assert_eq!(grid.grid_hash(), 31);
    grid.set(pt(1, 0), Cell::Path { colour: Colour::Green }).unwrap();
    assert_eq!(grid.grid_hash(), 31 + 101);
    let (two_rows, _) = board(1, 2, &[(Colour::Blue, (0, 1), (0, 1))]);
    assert_eq!(two_rows.grid_hash(), 3);
    let (blank, _) = board(3, 3, &[]);
    assert_eq!(blank.grid_hash(), 0);
    let (pink, _) = board(1, 1, &[(Colour::Pink, (0, 0), (0, 0))]);
    assert_eq!(pink.grid_hash(), 16);
}

#[test]
fn grid_hash_wraps_around() {
    let mut endpoints = Endpoints::new();
    endpoints.insert(Colour::Pink, (pt(0, 0), pt(1, 0)));
    let mut grid = Grid::new(14, 1, &endpoints);
    for x in 2..14 {
        grid.set(pt(x, 0), Cell::Path { colour: Colour::Pink }).unwrap();
    }
    let mut expected: u64 = 0;
    for x in 0..14 {
        let code: u64 = if x < 2 { 16 } else { 115 };
        expected = expected.wrapping_mul(31).wrapping_add(code);
    }
    assert_eq!(grid.grid_hash(), expected);
    assert_eq!(grid.grid_hash(), 474349682650116160);
}

fn state(estimate: usize, cost: usize) -> State {
    let (grid, endpoints) = board(1, 1, &[]);
    State { grid, traces: Traces::begin(&endpoints), cost, estimate }
}

#[test]
fn queue_order() {
    let mut open = vec![state(7, 1), state(5, 1), state(5, 3), state(9, 0), state(5, 3)];
    let picked: Vec<(usize, usize)> = (0..5)
        .map(|_| {
            let s = pop_best(&mut open);
            (s.estimate, s.cost)
        })
        .collect();
    assert_eq!(picked, vec![(5, 3), (5, 3), (5, 1), (7, 1), (9, 0)]);
    assert!(open.is_empty());
}

#[test]
fn queue_is_first_in_first_out_among_equals() {
    let mut first = state(4, 2);
    first.traces.advance(Colour::Red, pt(0, 0));
    let second = state(4, 2);
    let mut open = vec![first, second];
    let popped = pop_best(&mut open);
    assert_eq!(popped.traces.head_of(Colour::Red), Some(pt(0, 0)));
    assert!(state(3, 0).goes_before(&state(4, 4)));
    assert!(state(4, 3).goes_before(&state(4, 2)));
    assert!(!state(4, 2).goes_before(&state(4, 2)));
}

#[test]
fn free_neighbours_in_order() {
    let (mut grid, _) = board(3, 3, &[(Colour::Red, (1, 0), (0, 0))]);
    assert_eq!(
        grid.free_neighbours(pt(1, 1)),
        vec![pt(0, 1), pt(2, 1), pt(1, 2)]
    );
    grid.set(pt(2, 1), Cell::Path { colour: Colour::Red }).unwrap();
    assert_eq!(grid.free_neighbours(pt(1, 1)), vec![pt(0, 1), pt(1, 2)]);
    assert_eq!(grid.free_neighbours(pt(0, 0)), vec![pt(0, 1)]);
    assert_eq!(grid.free_neighbours(pt(2, 0)), vec![]);
}

#[test]
fn pending_colours_are_those_not_connected() {
    let (grid, endpoints) = board(
        4,
        1,
        &[(Colour::Red, (0, 0), (1, 0)), (Colour::Blue, (2, 0), (3, 0))],
    );
    let flags = grid.pending_colours(&endpoints);
    assert_eq!(flags, vec![false; 16]);
    let (open, ends) = board(3, 1, &[(Colour::Blue, (0, 0), (2, 0))]);
    let mut expected = vec![false; 16];
    expected[2] = true;
    assert_eq!(open.pending_colours(&ends), expected);
}

#[test]
fn rim_and_passable_squares() {
    let (grid, _) = board(3, 3, &[(Colour::Red, (1, 0), (0, 0))]);
    assert!(grid.is_on_border(pt(0, 0)));
    assert!(grid.is_on_border(pt(2, 1)));
    assert!(grid.is_on_border(pt(1, 2)));
    assert!(!grid.is_on_border(pt(1, 1)));
    assert!(grid.is_passable(Colour::Red, pt(1, 0)));
    assert!(!grid.is_passable(Colour::Blue, pt(1, 0)));
    assert!(grid.is_passable(Colour::Blue, pt(1, 1)));
}
