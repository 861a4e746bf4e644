use flowrs::{Cell, Colour, Endpoints, Grid, GridError, Point};

const ALL: [Colour; 16] = [
    Colour::Red,
    Colour::Green,
    Colour::Blue,
    Colour::Yellow,
    Colour::Magenta,
    Colour::Orange,
    Colour::Cyan,
    Colour::Brown,
    Colour::Purple,
    Colour::White,
    Colour::Gray,
    Colour::Lime,
    Colour::Beige,
    Colour::Navy,
    Colour::Teal,
    Colour::Pink,
];

#[test]
fn colour_letters() {
    let letters = [
        ('R', Colour::Red),
        ('G', Colour::Green),
        ('B', Colour::Blue),
        ('Y', Colour::Yellow),
        ('M', Colour::Magenta),
        ('O', Colour::Orange),
        ('C', Colour::Cyan),
        ('m', Colour::Brown),
        ('P', Colour::Purple),
        ('W', Colour::White),
        ('g', Colour::Gray),
        ('L', Colour::Lime),
        ('b', Colour::Beige),
        ('N', Colour::Navy),
        ('T', Colour::Teal),
        ('p', Colour::Pink),
    ];
    for (letter, colour) in letters {
        assert_eq!(Colour::from_char(letter), colour);
        assert_eq!(Colour::parse(letter), Some(colour));
    }
}

#[test]
fn letters_without_a_colour() {
    for letter in ['.', 'r', 'x', 'Z', ' ', '0', 'y'] {
        assert_eq!(Colour::parse(letter), None);
    }
}

#[test]
fn colour_tags_follow_the_order() {
    for (i, colour) in ALL.iter().enumerate() {
        assert_eq!(colour.index(), i);
        assert_eq!(Colour::from_index(i), *colour);
    }
}

#[test]
fn cell_colour_and_glyph() {
    assert_eq!(Cell::Empty.colour(), None);
    assert_eq!(Cell::Endpoint { colour: Colour::Teal }.colour(), Some(Colour::Teal));
    assert_eq!(Cell::Path { colour: Colour::Lime }.colour(), Some(Colour::Lime));
    assert_eq!(Cell::Empty.glyph(), '.');
    assert_eq!(Cell::Endpoint { colour: Colour::Teal }.glyph(), 'O');
    assert_eq!(Cell::Path { colour: Colour::Lime }.glyph(), 'o');
}

#[test]
fn neighbours_in_the_middle() {
    let p = Point::new(1, 1);
    assert_eq!(
        p.neighbors(3, 3),
        vec![Point::new(0, 1), Point::new(2, 1), Point::new(1, 0), Point::new(1, 2)]
    );
}

#[test]
fn neighbours_in_the_corners() {
    assert_eq!(Point::new(0, 0).neighbors(3, 2), vec![Point::new(1, 0), Point::new(0, 1)]);
    assert_eq!(Point::new(2, 1).neighbors(3, 2), vec![Point::new(1, 1), Point::new(2, 0)]);
    assert_eq!(Point::new(0, 0).neighbors(1, 1), vec![]);
    assert_eq!(Point::new(0, 0).neighbors(0, 0), vec![]);
}

#[test]
fn neighbours_at_the_largest_coordinates() {
    let p = Point::new(usize::MAX, usize::MAX);
    assert_eq!(
        p.neighbors(usize::MAX, usize::MAX),
        vec![Point::new(usize::MAX - 1, usize::MAX), Point::new(usize::MAX, usize::MAX - 1)]
    );
}

#[test]
fn endpoints_table() {
    let mut endpoints = Endpoints::new();
    assert_eq!(endpoints.len(), 0);
    assert_eq!(endpoints.get(Colour::Red), None);
    let first = (Point::new(0, 0), Point::new(1, 1));
    let second = (Point::new(2, 0), Point::new(1, 0));
    assert_eq!(endpoints.insert(Colour::Blue, first), None);
    assert_eq!(endpoints.insert(Colour::Red, second), None);
    assert_eq!(endpoints.insert(Colour::Blue, second), Some(first));
    assert_eq!(endpoints.len(), 2);
    assert_eq!(endpoints.get(Colour::Blue), Some(second));
    assert_eq!(
        endpoints.entries(),
        vec![
            (Colour::Red, Point::new(2, 0), Point::new(1, 0)),
            (Colour::Blue, Point::new(2, 0), Point::new(1, 0)),
        ]
    );
}

#[test]
fn new_grid_holds_the_endpoints() {
    let mut endpoints = Endpoints::new();
    endpoints.insert(Colour::Red, (Point::new(0, 0), Point::new(2, 1)));
    let grid = Grid::new(3, 2, &endpoints);
    assert_eq!(grid.width, 3);
    assert_eq!(grid.height, 2);
    assert_eq!(grid.cells.len(), 2);
    assert_eq!(grid.cells[0].len(), 3);
    for y in 0..2 {
        for x in 0..3 {
            let expected = if (x, y) == (0, 0) || (x, y) == (2, 1) {
                Cell::Endpoint { colour: Colour::Red }
            } else {
                Cell::Empty
            };
            assert_eq!(grid.get(Point::new(x, y)), expected);
        }
    }
}

#[test]
fn new_grid_last_colour_wins_a_shared_square() {
    let mut endpoints = Endpoints::new();
    endpoints.insert(Colour::Blue, (Point::new(0, 0), Point::new(1, 0)));
    endpoints.insert(Colour::Red, (Point::new(1, 0), Point::new(2, 0)));
    let grid = Grid::new(3, 1, &endpoints);
    assert_eq!(grid.get(Point::new(0, 0)), Cell::Endpoint { colour: Colour::Blue });
    assert_eq!(grid.get(Point::new(1, 0)), Cell::Endpoint { colour: Colour::Blue });
    assert_eq!(grid.get(Point::new(2, 0)), Cell::Endpoint { colour: Colour::Red });
}

#[test]
fn set_writes_and_refuses_endpoints() {
    let mut endpoints = Endpoints::new();
    endpoints.insert(Colour::Red, (Point::new(0, 0), Point::new(2, 0)));
    let mut grid = Grid::new(3, 1, &endpoints);
    let middle = Point::new(1, 0);
    assert_eq!(grid.set(middle, Cell::Path { colour: Colour::Red }), Ok(()));
    assert_eq!(grid.get(middle), Cell::Path { colour: Colour::Red });
    assert_eq!(grid.set(middle, Cell::Empty), Ok(()));
    assert_eq!(grid.get(middle), Cell::Empty);
    let end = Point::new(0, 0);
    assert_eq!(
        grid.set(end, Cell::Path { colour: Colour::Blue }),
        Err(GridError::EndpointOverwrite)
    );
    assert_eq!(grid.set(end, Cell::Empty), Err(GridError::EndpointOverwrite));
    assert_eq!(grid.get(end), Cell::Endpoint { colour: Colour::Red });
    assert_eq!(grid.get(Point::new(2, 0)), Cell::Endpoint { colour: Colour::Red });
}

#[test]
fn get_endpoints_in_reading_order() {
    let mut endpoints = Endpoints::new();
    endpoints.insert(Colour::Red, (Point::new(2, 1), Point::new(0, 0)));
    endpoints.insert(Colour::Pink, (Point::new(1, 1), Point::new(0, 1)));
    let grid = Grid::new(3, 2, &endpoints);
    let found = grid.get_endpoints().unwrap();
    assert_eq!(found.get(Colour::Red), Some((Point::new(0, 0), Point::new(2, 1))));
    assert_eq!(found.get(Colour::Pink), Some((Point::new(0, 1), Point::new(1, 1))));
    assert_eq!(found.get(Colour::Blue), None);
    assert_eq!(found.len(), 2);
}

#[test]
fn get_endpoints_rejects_a_single_endpoint() {
    let mut endpoints = Endpoints::new();
    endpoints.insert(Colour::Red, (Point::new(0, 0), Point::new(0, 0)));
    let grid = Grid::new(2, 1, &endpoints);
    assert_eq!(grid.get_endpoints().err(), Some(GridError::MalformedEndpoints));
}

#[test]
fn get_endpoints_rejects_three_endpoints() {
    let mut endpoints = Endpoints::new();
    endpoints.insert(Colour::Red, (Point::new(0, 0), Point::new(1, 0)));
    let mut grid = Grid::new(3, 1, &endpoints);
    grid.set(Point::new(2, 0), Cell::Endpoint { colour: Colour::Red }).unwrap();
    assert_eq!(grid.get_endpoints().err(), Some(GridError::MalformedEndpoints));
}

#[test]
fn get_endpoints_of_an_empty_board() {
    let grid = Grid::new(2, 2, &Endpoints::new());
    assert_eq!(grid.get_endpoints().unwrap().len(), 0);
}

fn row_of_five() -> Grid {
    // R o . o R
    let mut endpoints = Endpoints::new();
    endpoints.insert(Colour::Red, (Point::new(0, 0), Point::new(4, 0)));
    let mut grid = Grid::new(5, 1, &endpoints);
    grid.set(Point::new(1, 0), Cell::Path { colour: Colour::Red }).unwrap();
    grid.set(Point::new(3, 0), Cell::Path { colour: Colour::Red }).unwrap();
    grid
}

#[test]
fn connected_follows_cells_of_the_colour() {
    let grid = row_of_five();
    let at = |x: usize| Point::new(x, 0);
    assert!(grid.connected(Colour::Red, at(0), at(1)));
    assert!(!grid.connected(Colour::Red, at(0), at(2)));
    assert!(!grid.connected(Colour::Red, at(0), at(4)));
    assert!(grid.connected(Colour::Red, at(3), at(4)));
    assert!(!grid.connected(Colour::Blue, at(0), at(1)));
}

#[test]
fn connected_does_not_ask_what_the_start_holds() {
    let grid = row_of_five();
    let at = |x: usize| Point::new(x, 0);
    assert!(grid.connected(Colour::Red, at(2), at(2)));
    assert!(grid.connected(Colour::Blue, at(2), at(2)));
    assert!(grid.connected(Colour::Red, at(2), at(1)));
    assert!(grid.connected(Colour::Red, at(2), at(4)));
    assert!(!grid.connected(Colour::Red, at(1), at(2)));
    assert!(!grid.connected(Colour::Red, at(0), Point::new(9, 9)));
}

#[test]
fn connected_is_an_equivalence_on_cells_of_the_colour() {
    let mut grid = row_of_five();
    grid.set(Point::new(2, 0), Cell::Path { colour: Colour::Red }).unwrap();
    for a in 0..5 {
        let pa = Point::new(a, 0);
        assert!(grid.connected(Colour::Red, pa, pa));
        for b in 0..5 {
            let pb = Point::new(b, 0);
            assert_eq!(
                grid.connected(Colour::Red, pa, pb),
                grid.connected(Colour::Red, pb, pa)
            );
            for c in 0..5 {
                let pc = Point::new(c, 0);
                if grid.connected(Colour::Red, pa, pb) && grid.connected(Colour::Red, pb, pc) {
                    assert!(grid.connected(Colour::Red, pa, pc));
                }
            }
        }
    }
}

#[test]
fn flood_lists_what_a_walk_reaches() {
    let grid = row_of_five();
    let seen = grid.flood(Some(Colour::Red), Point::new(0, 0));
    assert!(seen.contains(Point::new(0, 0)));
    assert!(seen.contains(Point::new(1, 0)));
    assert!(!seen.contains(Point::new(2, 0)));
    assert!(!seen.contains(Point::new(3, 0)));
    let empty = grid.flood(None, Point::new(1, 0));
    assert!(empty.contains(Point::new(1, 0)));
    assert!(empty.contains(Point::new(2, 0)));
    assert!(!empty.contains(Point::new(3, 0)));
}

#[test]
fn is_solved_needs_a_full_board() {
    let mut endpoints = Endpoints::new();
    endpoints.insert(Colour::Red, (Point::new(0, 0), Point::new(1, 0)));
    let grid = Grid::new(3, 1, &endpoints);
    assert!(grid.connected(Colour::Red, Point::new(0, 0), Point::new(1, 0)));
    assert!(!grid.is_solved(&endpoints));
}

#[test]
fn is_solved_needs_every_colour_connected() {
    let mut endpoints = Endpoints::new();
    endpoints.insert(Colour::Red, (Point::new(0, 0), Point::new(2, 0)));
    let mut grid = Grid::new(3, 1, &endpoints);
    grid.set(Point::new(1, 0), Cell::Path { colour: Colour::Blue }).unwrap();
    assert!(!grid.is_solved(&endpoints));
    grid.set(Point::new(1, 0), Cell::Path { colour: Colour::Red }).unwrap();
    assert!(grid.is_solved(&endpoints));
}

#[test]
fn duplicate_is_a_separate_board() {
    let grid = row_of_five();
    let mut copy = grid.duplicate();
    copy.set(Point::new(2, 0), Cell::Path { colour: Colour::Red }).unwrap();
    assert_eq!(grid.get(Point::new(2, 0)), Cell::Empty);
    assert_eq!(copy.get(Point::new(2, 0)), Cell::Path { colour: Colour::Red });
    assert_eq!(copy.get(Point::new(1, 0)), grid.get(Point::new(1, 0)));
}
