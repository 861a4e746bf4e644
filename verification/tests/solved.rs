use flowrs::{Cell, Colour, Endpoints, Grid, Point};

fn five_by_five() -> Endpoints {
    let mut endpoints = Endpoints::new();
    endpoints.insert(Colour::Red, (Point::new(0, 0), Point::new(1, 4)));
    endpoints.insert(Colour::Green, (Point::new(2, 0), Point::new(1, 3)));
    endpoints.insert(Colour::Blue, (Point::new(2, 1), Point::new(2, 4)));
    endpoints.insert(Colour::Yellow, (Point::new(4, 0), Point::new(3, 3)));
    endpoints.insert(Colour::Magenta, (Point::new(3, 4), Point::new(4, 1)));
    endpoints
}

#[test]
fn test_manual_solution() {
    let endpoints = five_by_five();

    let mut grid = Grid::new(5, 5, &endpoints);

    let red = [
        Point::new(0, 1),
        Point::new(0, 2),
        Point::new(0, 3),
        Point::new(0, 4),
    ];
    let green = [Point::new(1, 0), Point::new(1, 1), Point::new(1, 2)];
    let blue = [Point::new(2, 2), Point::new(2, 3)];
    let yellow = [Point::new(3, 0), Point::new(3, 1), Point::new(3, 2)];
    let orange = [Point::new(4, 2), Point::new(4, 3), Point::new(4, 4)];

    for point in red {
        grid.set(point, Cell::Path { colour: Colour::Red }).unwrap();
    }
    for point in green {
        grid.set(point, Cell::Path { colour: Colour::Green }).unwrap();
    }
    for point in blue {
        grid.set(point, Cell::Path { colour: Colour::Blue }).unwrap();
    }
    for point in yellow {
        grid.set(point, Cell::Path { colour: Colour::Yellow }).unwrap();
    }
    for point in orange {
        grid.set(point, Cell::Path { colour: Colour::Magenta }).unwrap();
    }

    assert!(
        grid.is_solved(&endpoints),
        "The manually filled puzzle should be solved."
    );
}
