use flowrs::loader::{grid_from_lines, trim_length};
use flowrs::{Cell, Colour, GridError, Point};

fn lines(text: &[&str]) -> Vec<Vec<char>> {
    text.iter().map(|line| line.chars().collect()).collect()
}

#[test]
fn reads_a_puzzle() {
    let grid = grid_from_lines(&lines(&["R.G", "...", "G.R"])).unwrap();
    assert_eq!(grid.width, 3);
    assert_eq!(grid.height, 3);
    assert_eq!(grid.get(Point::new(0, 0)), Cell::Endpoint { colour: Colour::Red });
    assert_eq!(grid.get(Point::new(2, 0)), Cell::Endpoint { colour: Colour::Green });
    assert_eq!(grid.get(Point::new(1, 1)), Cell::Empty);
    assert_eq!(grid.get(Point::new(0, 2)), Cell::Endpoint { colour: Colour::Green });
    assert_eq!(grid.get(Point::new(2, 2)), Cell::Endpoint { colour: Colour::Red });
    let endpoints = grid.get_endpoints().unwrap();
    assert_eq!(endpoints.get(Colour::Red), Some((Point::new(0, 0), Point::new(2, 2))));
}

#[test]
fn reads_lower_case_letters() {
    let grid = grid_from_lines(&lines(&["mbgp", "mbgp"])).unwrap();
    assert_eq!(grid.get(Point::new(0, 0)), Cell::Endpoint { colour: Colour::Brown });
    assert_eq!(grid.get(Point::new(1, 0)), Cell::Endpoint { colour: Colour::Beige });
    assert_eq!(grid.get(Point::new(2, 1)), Cell::Endpoint { colour: Colour::Gray });
    assert_eq!(grid.get(Point::new(3, 1)), Cell::Endpoint { colour: Colour::Pink });
}

#[test]
fn short_lines_are_padded() {
    let grid = grid_from_lines(&lines(&["R", "....R", ".."])).unwrap();
    assert_eq!(grid.width, 5);
    assert_eq!(grid.height, 3);
    for x in 1..5 {
        assert_eq!(grid.get(Point::new(x, 0)), Cell::Empty);
    }
    for x in 0..5 {
        assert_eq!(grid.get(Point::new(x, 2)), Cell::Empty);
    }
    assert_eq!(grid.get(Point::new(4, 1)), Cell::Endpoint { colour: Colour::Red });
}

#[test]
fn white_space_at_the_end_of_a_line_does_not_count() {
    let grid = grid_from_lines(&lines(&["R.  \t", ".R\r", "   "])).unwrap();
    assert_eq!(grid.width, 2);
    assert_eq!(grid.height, 3);
    assert_eq!(grid.get(Point::new(1, 1)), Cell::Endpoint { colour: Colour::Red });
    assert_eq!(grid.get(Point::new(0, 2)), Cell::Empty);
}

#[test]
fn no_lines_make_an_empty_board() {
    let grid = grid_from_lines(&lines(&[])).unwrap();
    assert_eq!(grid.width, 0);
    assert_eq!(grid.height, 0);
}

#[test]
fn unknown_characters_are_rejected() {
    for text in [["R.R", ".x."], ["R R", "..."], ["R.R", ".1."], ["r..", "..r"]] {
        assert_eq!(grid_from_lines(&lines(&text)).err(), Some(GridError::InvalidCharacter));
    }
}

#[test]
fn a_colour_needs_two_endpoints() {
    assert_eq!(grid_from_lines(&lines(&["R.."])).err(), Some(GridError::MalformedEndpoints));
    assert_eq!(grid_from_lines(&lines(&["RRR"])).err(), Some(GridError::MalformedEndpoints));
    assert_eq!(
        grid_from_lines(&lines(&["RGR", "..."])).err(),
        Some(GridError::MalformedEndpoints)
    );
}

#[test]
fn an_unknown_character_is_reported_before_the_endpoints() {
    assert_eq!(grid_from_lines(&lines(&["R..", "?.."])).err(), Some(GridError::InvalidCharacter));
}

#[test]
fn trimmed_length() {
    let of = |text: &str| trim_length(&text.chars().collect());
    assert_eq!(of(""), 0);
    assert_eq!(of("   "), 0);
    assert_eq!(of("R.R"), 3);
    assert_eq!(of("R.R \r\n"), 3);
    assert_eq!(of(" R "), 2);
}
