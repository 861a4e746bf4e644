use flowrs::paths::{find_paths, trails};
use flowrs::point_set::PointSet;
use flowrs::{Cell, Colour, Endpoints, Grid, Point};

fn pt(x: usize, y: usize) -> Point {
    Point::new(x, y)
}

fn single(width: usize, height: usize, a: Point, b: Point) -> Grid {
    let mut endpoints = Endpoints::new();
    endpoints.insert(Colour::Red, (a, b));
    Grid::new(width, height, &endpoints)
}

fn all_paths(grid: &Grid, a: Point, b: Point) -> Vec<Vec<Point>> {
    let mut visited = PointSet::new(grid.width, grid.height);
    let mut path = Vec::new();
    find_paths(grid, a, b, Colour::Red, &mut visited, &mut path)
}

#[test]
fn paths_across_a_two_by_two() {
    let grid = single(2, 2, pt(0, 0), pt(1, 1));
    assert_eq!(
        all_paths(&grid, pt(0, 0), pt(1, 1)),
        vec![vec![pt(1, 0), pt(1, 1)], vec![pt(0, 1), pt(1, 1)]]
    );
}

#[test]
fn paths_between_neighbours_on_a_two_by_two() {
    let grid = single(2, 2, pt(0, 0), pt(1, 0));
    assert_eq!(
        all_paths(&grid, pt(0, 0), pt(1, 0)),
        vec![vec![pt(1, 0)], vec![pt(0, 1), pt(1, 1), pt(1, 0)]]
    );
}

#[test]
fn path_from_a_square_to_itself() {
    let grid = single(2, 2, pt(0, 0), pt(1, 1));
    assert_eq!(all_paths(&grid, pt(0, 0), pt(0, 0)), vec![Vec::<Point>::new()]);
}

#[test]
fn paths_avoid_other_colours_and_visited_squares() {
    let mut grid = single(3, 2, pt(0, 0), pt(2, 0));
    grid.set(pt(1, 0), Cell::Path { colour: Colour::Blue }).unwrap();
    assert_eq!(
        all_paths(&grid, pt(0, 0), pt(2, 0)),
        vec![vec![pt(0, 1), pt(1, 1), pt(2, 1), pt(2, 0)]]
    );
    let mut visited = PointSet::new(3, 2);
    visited.insert(pt(1, 1));
    let mut path = vec![pt(0, 0)];
    let found = find_paths(&grid, pt(0, 0), pt(2, 0), Colour::Red, &mut visited, &mut path);
    assert!(found.is_empty());
    assert!(visited.contains(pt(1, 1)));
    assert!(!visited.contains(pt(0, 0)));
    assert_eq!(path, vec![pt(0, 0)]);
}

#[test]
fn paths_pass_over_cells_of_their_colour_and_keep_the_prefix() {
    let mut grid = single(3, 1, pt(0, 0), pt(2, 0));
    grid.set(pt(1, 0), Cell::Path { colour: Colour::Red }).unwrap();
    let mut visited = PointSet::new(3, 1);
    let mut path = vec![pt(0, 0)];
    let found = find_paths(&grid, pt(0, 0), pt(2, 0), Colour::Red, &mut visited, &mut path);
    assert_eq!(found, vec![vec![pt(0, 0), pt(1, 0), pt(2, 0)]]);
}

#[test]
fn count_of_paths_across_a_three_by_three() {
    let grid = single(3, 3, pt(0, 0), pt(2, 2));
    let found = all_paths(&grid, pt(0, 0), pt(2, 2));
    assert_eq!(found.len(), 12);
    for (i, first) in found.iter().enumerate() {
        assert_eq!(first.last(), Some(&pt(2, 2)));
        for second in found.iter().skip(i + 1) {
            assert_ne!(first, second);
        }
    }
    assert_eq!(found[0], vec![pt(1, 0), pt(2, 0), pt(2, 1), pt(1, 1), pt(0, 1), pt(0, 2), pt(1, 2), pt(2, 2)]);
}

#[test]
fn trails_along_the_rim() {
    let grid = single(3, 3, pt(0, 0), pt(2, 0));
    let mut visited = PointSet::new(3, 3);
    let mut path = Vec::new();
    let found = trails(&grid, pt(0, 0), pt(2, 0), Colour::Red, true, &mut visited, &mut path);
    assert_eq!(
        found,
        vec![
            vec![pt(1, 0), pt(2, 0)],
            vec![pt(0, 1), pt(0, 2), pt(1, 2), pt(2, 2), pt(2, 1), pt(2, 0)],
        ]
    );
}

#[test]
fn point_set_insert_and_remove() {
    let mut set = PointSet::new(2, 2);
    assert!(!set.contains(pt(1, 1)));
    set.insert(pt(1, 1));
    assert!(set.contains(pt(1, 1)));
    assert!(!set.contains(pt(0, 1)));
    assert!(!set.contains(pt(5, 5)));
    set.remove(pt(1, 1));
    assert!(!set.contains(pt(1, 1)));
    set.remove(pt(7, 7));
}
