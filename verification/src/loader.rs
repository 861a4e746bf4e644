//! Reading a puzzle from the lines of a text: one line for each row, a full
//! stop for an empty square and a letter for an endpoint.

use crate::board::{Cell, Colour, Grid, GridError, Point};
use vstd::prelude::*;

verus! {

/// Whether `c` is white space.
pub open spec fn is_space(c: char) -> bool {
    c == ' ' || c == '\t' || c == '\r' || c == '\n'
}

/// The length of `line` without the white space at its end.
pub open spec fn trimmed_len(line: Seq<char>) -> nat
    decreases line.len(),
{
    if line.len() == 0 {
        0
    } else if is_space(line.last()) {
        trimmed_len(line.drop_last())
    } else {
        line.len()
    }
}

/// Whether `c` may stand in a puzzle text: a full stop or the letter of a
/// colour.
pub open spec fn is_puzzle_char(c: char) -> bool {
    c == '.' || Colour::of_char(c) is Some
}

/// The cell that `c` stands for.
pub open spec fn cell_of_char(c: char) -> Cell {
    match Colour::of_char(c) {
        Some(colour) => Cell::Endpoint { colour },
        None => Cell::Empty,
    }
}

/// Whether every character of every line, white space at the end of a line
/// apart, may stand in a puzzle text.
pub open spec fn well_written(lines: Seq<Vec<char>>) -> bool {
    forall|y: int, x: int|
        0 <= y < lines.len() && 0 <= x < trimmed_len(lines[y]@) ==> is_puzzle_char(
            #[trigger] lines[y]@[x],
        )
}

/// Whether `grid` is the board that `lines` describe: as many rows as there
/// are lines, as wide as the longest line without the white space at its end,
/// each square holding what its character stands for, and empty where the
/// line is too short.
pub open spec fn reads_as(lines: Seq<Vec<char>>, grid: &Grid) -> bool {
    &&& grid.wf()
    &&& grid.height == lines.len()
    &&& forall|y: int| 0 <= y < lines.len() ==> trimmed_len(#[trigger] lines[y]@) <= grid.width
    &&& (lines.len() > 0 ==> exists|y: int|
        0 <= y < lines.len() && trimmed_len(#[trigger] lines[y]@) == grid.width)
    &&& (lines.len() == 0 ==> grid.width == 0)
    &&& forall|p: Point| #[trigger]
        grid.in_bounds(p) ==> grid.at(p) == (if p.x < trimmed_len(lines[p.y as int]@) {
            cell_of_char(lines[p.y as int]@[p.x as int])
        } else {
            Cell::Empty
        })
}

/// The length of `line` without the white space at its end.
pub fn trim_length(line: &Vec<char>) -> (n: usize)
    ensures
        n == trimmed_len(line@),
        n <= line@.len(),
{
    let mut n: usize = line.len();
    assert(line@.subrange(0, n as int) =~= line@);
    while n > 0
        invariant
            n <= line.len(),
            trimmed_len(line@) == trimmed_len(line@.subrange(0, n as int)),
        decreases n,
    {
        let c = line[n - 1];
        let ghost head = line@.subrange(0, n as int);
        assert(head.last() == c);
        if c == ' ' || c == '\t' || c == '\r' || c == '\n' {
            assert(head.drop_last() =~= line@.subrange(0, n - 1));
            n -= 1;
        } else {
            return n;
        }
    }
    n
}

/// The board that the lines of a puzzle text describe.
///
/// Fails with `InvalidCharacter` where a line holds, before the white space
/// at its end, a character that is neither a full stop nor the letter of a
/// colour; otherwise with `MalformedEndpoints` where some colour has a number
/// of endpoints other than two.
pub fn grid_from_lines(lines: &Vec<Vec<char>>) -> (r: Result<Grid, GridError>)
    ensures
        match r {
            Ok(grid) => well_written(lines@) && reads_as(lines@, &grid) && grid.paired(),
            Err(GridError::InvalidCharacter) => !well_written(lines@),
            Err(GridError::MalformedEndpoints) => well_written(lines@) && exists|grid: Grid| #[trigger]
                reads_as(lines@, &grid) && !grid.paired(),
            Err(GridError::EndpointOverwrite) => false,
        },
{
    let height = lines.len();
    let mut width: usize = 0;
    let mut y: usize = 0;
    while y < height
        invariant
            height == lines.len(),
            y <= height,
            forall|j: int| 0 <= j < y ==> trimmed_len(#[trigger] lines@[j]@) <= width,
            y > 0 ==> exists|j: int| 0 <= j < y && trimmed_len(#[trigger] lines@[j]@) == width,
            y == 0 ==> width == 0,
        decreases height - y,
    {
        let n = trim_length(&lines[y]);
        if n > width {
            width = n;
        }
        proof {
            if trimmed_len(lines@[y as int]@) == width {
            } else {
                let j = choose|j: int| 0 <= j < y && trimmed_len(#[trigger] lines@[j]@) == width;
                assert(0 <= j < y + 1 && trimmed_len(lines@[j]@) == width);
            }
        }
        y += 1;
    }
    let mut cells: Vec<Vec<Cell>> = Vec::new();
    let mut y: usize = 0;
    while y < height
        invariant
            height == lines.len(),
            y <= height,
            forall|j: int| 0 <= j < height ==> trimmed_len(#[trigger] lines@[j]@) <= width,
            cells@.len() == y,
            forall|j: int| 0 <= j < y ==> (#[trigger] cells@[j])@.len() == width,
            forall|j: int, x: int|
                0 <= j < y && 0 <= x < trimmed_len(lines@[j]@) ==> is_puzzle_char(
                    #[trigger] lines@[j]@[x],
                ),
            forall|j: int, x: int|
                0 <= j < y && 0 <= x < width ==> #[trigger] cells@[j]@[x] == (if x < trimmed_len(
                    lines@[j]@,
                ) {
                    cell_of_char(lines@[j]@[x])
                } else {
                    Cell::Empty
                }),
        decreases height - y,
    {
        let line = &lines[y];
        let n = trim_length(line);
        let mut row: Vec<Cell> = Vec::new();
        let mut x: usize = 0;
        while x < width
            invariant
                x <= width,
                y < height,
                height == lines.len(),
                line@ == lines@[y as int]@,
                n == trimmed_len(line@),
                n <= line@.len(),
                n <= width,
                row@.len() == x,
                forall|i: int| 0 <= i < x && i < n ==> is_puzzle_char(#[trigger] line@[i]),
                forall|i: int|
                    0 <= i < x ==> #[trigger] row@[i] == (if i < n {
                        cell_of_char(line@[i])
                    } else {
                        Cell::Empty
                    }),
            decreases width - x,
        {
            if x < n {
                let c = line[x];
                if c == '.' {
                    row.push(Cell::Empty);
                } else {
                    match Colour::parse(c) {
                        Some(colour) => {
                            row.push(Cell::Endpoint { colour });
                        },
                        None => {
                            proof {
                                assert(!is_puzzle_char(lines@[y as int]@[x as int]));
                            }
                            return Err(GridError::InvalidCharacter);
                        },
                    }
                }
            } else {
                row.push(Cell::Empty);
            }
            x += 1;
        }
        cells.push(row);
        y += 1;
    }
    let grid = Grid { width, height, cells };
    proof {
        assert(reads_as(lines@, &grid));
    }
    match grid.get_endpoints() {
        Ok(_) => Ok(grid),
        Err(_) => Err(GridError::MalformedEndpoints),
    }
}

} // verus!
