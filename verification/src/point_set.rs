//! A set of squares of a board, kept as one flag per square.

use crate::board::Point;
use vstd::prelude::*;

verus! {

/// All squares of a board of the given size.
pub open spec fn board_points(width: int, height: int) -> Set<Point> {
    Set::new(|p: Point| p.x < width && p.y < height)
}

/// The squares of the first `rows` rows of a board `width` wide.
spec fn rows_points(width: int, rows: int) -> Set<Point> {
    Set::new(|p: Point| p.x < width && p.y < rows)
}

/// The first `cols` squares of row `y`.
spec fn row_points(cols: int, y: int) -> Set<Point> {
    Set::new(|p: Point| p.x < cols && p.y == y)
}

/// A row has finitely many squares.
proof fn lemma_row_points_finite(cols: int, y: int)
    requires
        0 <= cols <= usize::MAX + 1,
        0 <= y <= usize::MAX,
    ensures
        row_points(cols, y).finite(),
    decreases cols,
{
    if cols == 0 {
        assert(row_points(cols, y) =~= Set::<Point>::empty());
    } else {
        lemma_row_points_finite(cols - 1, y);
        let p = Point { x: (cols - 1) as usize, y: y as usize };
        assert(row_points(cols, y) =~= row_points(cols - 1, y).insert(p));
    }
}

/// Finitely many rows have finitely many squares.
proof fn lemma_rows_points_finite(width: int, rows: int)
    requires
        0 <= width <= usize::MAX + 1,
        0 <= rows <= usize::MAX + 1,
    ensures
        rows_points(width, rows).finite(),
    decreases rows,
{
    if rows == 0 {
        assert(rows_points(width, rows) =~= Set::<Point>::empty());
    } else {
        lemma_rows_points_finite(width, rows - 1);
        lemma_row_points_finite(width, rows - 1);
        assert(rows_points(width, rows) =~= rows_points(width, rows - 1).union(
            row_points(width, rows - 1),
        ));
    }
}

/// A board has finitely many squares.
pub proof fn lemma_board_points_finite(width: int, height: int)
    requires
        0 <= width <= usize::MAX,
        0 <= height <= usize::MAX,
    ensures
        board_points(width, height).finite(),
{
    lemma_rows_points_finite(width, height);
    assert(board_points(width, height) =~= rows_points(width, height));
}

/// A set of squares of a board of a fixed size.
#[derive(Debug)]
pub struct PointSet {
    width: usize,
    height: usize,
    rows: Vec<Vec<bool>>,
}

impl View for PointSet {
    type V = Set<Point>;

    /// The squares in the set.
    closed spec fn view(&self) -> Set<Point> {
        Set::new(
            |p: Point| p.x < self.width && p.y < self.height && self.rows@[p.y as int]@[p.x as int],
        )
    }
}

impl PointSet {
    /// Whether the flags match the stated size.
    pub closed spec fn wf(&self) -> bool {
        &&& self.rows@.len() == self.height
        &&& forall|y: int| 0 <= y < self.height ==> (#[trigger] self.rows@[y])@.len() == self.width
    }

    /// The width of the board.
    pub closed spec fn cols(&self) -> int {
        self.width as int
    }

    /// The height of the board.
    pub closed spec fn lines(&self) -> int {
        self.height as int
    }

    /// The squares of the board that are not in the set.
    pub open spec fn rest(&self) -> Set<Point> {
        board_points(self.cols(), self.lines()).difference(self@)
    }

    /// Every member is a square of the board, so the set and what is left of
    /// the board are both finite.
    pub proof fn lemma_bounded(&self)
        ensures
            self@.subset_of(board_points(self.cols(), self.lines())),
            self@.finite(),
            self.rest().finite(),
    {
        lemma_board_points_finite(self.cols(), self.lines());
        vstd::set_lib::lemma_set_subset_finite(board_points(self.cols(), self.lines()), self@);
        vstd::set_lib::lemma_set_subset_finite(
            board_points(self.cols(), self.lines()),
            self.rest(),
        );
    }

    /// The empty set on a board of the given size.
    pub fn new(width: usize, height: usize) -> (s: PointSet)
        ensures
            s.wf(),
            s.cols() == width,
            s.lines() == height,
            s@ == Set::<Point>::empty(),
    {
        let mut rows: Vec<Vec<bool>> = Vec::new();
        let mut y: usize = 0;
        while y < height
            invariant
                y <= height,
                rows@.len() == y,
                forall|j: int| 0 <= j < y ==> (#[trigger] rows@[j])@.len() == width,
                forall|j: int, i: int| 0 <= j < y && 0 <= i < width ==> !(#[trigger] rows@[j]@[i]),
            decreases height - y,
        {
            let mut row: Vec<bool> = Vec::new();
            let mut x: usize = 0;
            while x < width
                invariant
                    x <= width,
                    row@.len() == x,
                    forall|i: int| 0 <= i < x ==> !(#[trigger] row@[i]),
                decreases width - x,
            {
                row.push(false);
                x += 1;
            }
            rows.push(row);
            y += 1;
        }
        let s = PointSet { width, height, rows };
        assert(s@ =~= Set::<Point>::empty());
        s
    }

    /// Whether `p` is in the set.
    pub fn contains(&self, p: Point) -> (b: bool)
        requires
            self.wf(),
        ensures
            b == self@.contains(p),
    {
        p.x < self.width && p.y < self.height && self.rows[p.y][p.x]
    }

    /// Adds `p` to the set.
    pub fn insert(&mut self, p: Point)
        requires
            old(self).wf(),
            p.x < old(self).cols(),
            p.y < old(self).lines(),
        ensures
            final(self).wf(),
            final(self).cols() == old(self).cols(),
            final(self).lines() == old(self).lines(),
            final(self)@ == old(self)@.insert(p),
    {
        self.rows[p.y][p.x] = true;
        assert(final(self)@ =~= old(self)@.insert(p));
    }

    /// Takes `p` out of the set.
    pub fn remove(&mut self, p: Point)
        requires
            old(self).wf(),
        ensures
            final(self).wf(),
            final(self).cols() == old(self).cols(),
            final(self).lines() == old(self).lines(),
            final(self)@ == old(self)@.remove(p),
    {
        if p.x < self.width && p.y < self.height {
            self.rows[p.y][p.x] = false;
        }
        assert(final(self)@ =~= old(self)@.remove(p));
    }
}

} // verus!
