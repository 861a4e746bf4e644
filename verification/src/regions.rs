//! The regions of empty cells: maximal sets of empty squares that hang
//! together, and the test for a state with a region or a colour cut off.

use crate::astar::{is_adjacent, Traces};
use crate::board::{Cell, Colour, Endpoints, Grid, Point, COLOUR_COUNT};
use crate::point_set::PointSet;
use vstd::prelude::*;

verus! {

/// The label that `labels` gives to the square `p`.
pub open spec fn label_at(labels: Seq<Vec<i32>>, p: Point) -> int {
    labels[p.y as int]@[p.x as int] as int
}

impl Grid {
    /// Whether `labels` has one entry for each square of the board.
    pub open spec fn labels_fit(&self, labels: Seq<Vec<i32>>) -> bool {
        &&& labels.len() == self.height
        &&& forall|y: int| 0 <= y < self.height ==> (#[trigger] labels[y])@.len() == self.width
    }

    /// Whether `labels` marks regions of empty cells with the numbers below
    /// `count`: a labelled square is empty, two labelled squares carry the same
    /// number exactly if a walk over empty cells joins them, and every empty
    /// square that a labelled one reaches is labelled too. Squares without a
    /// label carry -1.
    pub open spec fn labels_regions(&self, labels: Seq<Vec<i32>>, count: int) -> bool {
        &&& self.labels_fit(labels)
        &&& forall|p: Point|
            self.in_bounds(p) ==> #[trigger] label_at(labels, p) == -1 || 0 <= label_at(labels, p)
                < count
        &&& forall|p: Point|
            self.in_bounds(p) && #[trigger] label_at(labels, p) >= 0 ==> self.at(p) is Empty
        &&& forall|p: Point, q: Point|
            self.in_bounds(p) && self.in_bounds(q) && #[trigger] label_at(labels, p) >= 0
                && #[trigger] label_at(labels, q) >= 0 ==> (label_at(labels, p) == label_at(
                labels,
                q,
            ) <==> self.reaches(None, p, q))
        &&& forall|p: Point, q: Point|
            self.in_bounds(p) && label_at(labels, p) >= 0 && self.at(q) is Empty
                && #[trigger] self.reaches(None, p, q) ==> label_at(labels, q) >= 0
    }

    /// Whether some square before `p`, reading row by row, carries the label
    /// `l`.
    pub open spec fn labelled_before(&self, labels: Seq<Vec<i32>>, l: int, p: Point) -> bool {
        exists|q: Point| self.in_bounds(q) && q.precedes(p) && #[trigger] label_at(labels, q) == l
    }

    /// Whether the regions are numbered in the order in which a reading of
    /// the board, row by row, first meets them: before a square with a label
    /// there is a square with each smaller label.
    pub open spec fn numbered_in_order(&self, labels: Seq<Vec<i32>>) -> bool {
        forall|p: Point, l: int|
            self.in_bounds(p) && 0 <= l < label_at(labels, p) ==> #[trigger] self.labelled_before(
                labels,
                l,
                p,
            )
    }

    /// Labelling a new region with the next number keeps the numbers in
    /// order, where the region begins at the first empty square without a
    /// label and every number in use stands before that square.
    proof fn lemma_new_region_in_order(
        &self,
        before: Seq<Vec<i32>>,
        after: Seq<Vec<i32>>,
        seen: Set<Point>,
        p: Point,
        count: int,
    )
        requires
            self.numbered_in_order(before),
            self.labels_fit(before),
            self.labels_fit(after),
            self.in_bounds(p),
            forall|q: Point| self.in_bounds(q) ==> label_at(before, q) < count,
            forall|l: int| 0 <= l < count ==> #[trigger] self.labelled_before(before, l, p),
            forall|q: Point|
                self.in_bounds(q) && self.at(q) is Empty && q.precedes(p) ==> #[trigger] label_at(
                    before,
                    q,
                ) >= 0,
            forall|q: Point| #[trigger]
                seen.contains(q) ==> self.in_bounds(q) && self.at(q) is Empty && label_at(
                    before,
                    q,
                ) == -1,
            seen.contains(p),
            forall|q: Point|
                self.in_bounds(q) ==> #[trigger] label_at(after, q) == (if seen.contains(q) {
                    count
                } else {
                    label_at(before, q)
                }),
        ensures
            self.numbered_in_order(after),
            forall|l: int|
                0 <= l < count + 1 ==> #[trigger] self.labelled_before(
                    after,
                    l,
                    Point { x: (p.x + 1) as usize, y: p.y },
                ),
    {
        assert forall|l: int| 0 <= l < count implies #[trigger] self.labelled_before(
            after,
            l,
            p,
        ) by {
            assert(self.labelled_before(before, l, p));
            let q = choose|q: Point|
                self.in_bounds(q) && q.precedes(p) && #[trigger] label_at(before, q) == l;
            assert(!seen.contains(q));
            assert(self.in_bounds(q) && q.precedes(p) && label_at(after, q) == l);
        }
        assert forall|c: Point, l: int|
            self.in_bounds(c) && 0 <= l < label_at(after, c) implies #[trigger] self.labelled_before(
            after,
            l,
            c,
        ) by {
            if seen.contains(c) {
                assert(!c.precedes(p)) by {
                    if c.precedes(p) {
                        assert(label_at(before, c) >= 0);
                    }
                }
                assert(self.labelled_before(after, l, p));
                let q = choose|q: Point|
                    self.in_bounds(q) && q.precedes(p) && #[trigger] label_at(after, q) == l;
                assert(self.in_bounds(q) && q.precedes(c) && label_at(after, q) == l);
            } else {
                assert(self.labelled_before(before, l, c));
                let q = choose|q: Point|
                    self.in_bounds(q) && q.precedes(c) && #[trigger] label_at(before, q) == l;
                assert(label_at(before, q) < count);
                assert(!seen.contains(q));
                assert(self.in_bounds(q) && q.precedes(c) && label_at(after, q) == l);
            }
        }
        let next = Point { x: (p.x + 1) as usize, y: p.y };
        assert forall|l: int| 0 <= l < count + 1 implies #[trigger] self.labelled_before(
            after,
            l,
            next,
        ) by {
            if l < count {
                assert(self.labelled_before(after, l, p));
                let q = choose|q: Point|
                    self.in_bounds(q) && q.precedes(p) && #[trigger] label_at(after, q) == l;
                assert(self.in_bounds(q) && q.precedes(next) && label_at(after, q) == l);
            } else {
                assert(self.in_bounds(p) && p.precedes(next) && label_at(after, p) == l);
            }
        }
    }

    /// What a walk reaches beyond its start is open to the walk.
    pub proof fn lemma_reached_is_open(&self, via: Option<Colour>, a: Point, b: Point)
        requires
            self.reaches(via, a, b),
        ensures
            self.in_bounds(a),
            self.in_bounds(b),
            a == b || self.open_to(via, b),
    {
        let path = choose|path: Seq<Point>| #[trigger]
            self.is_walk(via, path) && path[0] == a && path.last() == b;
        assert(self.in_bounds(path[0]));
        assert(self.in_bounds(path[path.len() - 1]));
        if path.len() > 1 {
            assert(self.open_to(via, path[path.len() - 1]));
        }
    }

    /// Labelling the region of a square that has no label yet, with the next
    /// number, keeps the labels in order.
    proof fn lemma_new_region(
        &self,
        before: Seq<Vec<i32>>,
        after: Seq<Vec<i32>>,
        seen: Set<Point>,
        p: Point,
        count: int,
    )
        requires
            self.labels_regions(before, count),
            self.labels_fit(after),
            0 <= count < i32::MAX,
            self.in_bounds(p),
            self.at(p) is Empty,
            label_at(before, p) == -1,
            forall|q: Point| #[trigger] seen.contains(q) <==> self.reaches(None, p, q),
            forall|q: Point|
                self.in_bounds(q) ==> #[trigger] label_at(after, q) == (if seen.contains(q) {
                    count
                } else {
                    label_at(before, q)
                }),
        ensures
            self.labels_regions(after, count + 1),
            label_at(after, p) == count,
    {
        self.lemma_reaches_itself(None, p);
        assert forall|q: Point| seen.contains(q) implies self.in_bounds(q) && self.at(q) is Empty
            && label_at(before, q) == -1 && self.reaches(None, q, p) by {
            self.lemma_reached_is_open(None, p, q);
            self.lemma_reaches_symmetric(None, p, q);
            if label_at(before, q) >= 0 {
                assert(self.reaches(None, q, p));
            }
        }
        assert forall|a: Point, b: Point|
            self.in_bounds(a) && self.in_bounds(b) && #[trigger] label_at(after, a) >= 0
                && #[trigger] label_at(after, b) >= 0 implies (label_at(after, a) == label_at(
            after,
            b,
        ) <==> self.reaches(None, a, b)) by {
            if seen.contains(a) && seen.contains(b) {
                self.lemma_reaches_transitive(None, a, p, b);
            } else if seen.contains(a) {
                if self.reaches(None, a, b) {
                    self.lemma_reaches_transitive(None, p, a, b);
                }
                assert(label_at(before, b) >= 0);
            } else if seen.contains(b) {
                assert(label_at(before, a) >= 0);
                if self.reaches(None, a, b) {
                    assert(label_at(before, b) >= 0);
                }
            } else {
                assert(label_at(before, a) >= 0 && label_at(before, b) >= 0);
            }
        }
        assert forall|a: Point, b: Point|
            self.in_bounds(a) && label_at(after, a) >= 0 && self.at(b) is Empty
                && #[trigger] self.reaches(None, a, b) implies label_at(after, b) >= 0 by {
            self.lemma_reached_is_open(None, a, b);
            if seen.contains(a) {
                self.lemma_reaches_transitive(None, p, a, b);
            } else {
                assert(label_at(before, a) >= 0);
                assert(label_at(before, b) >= 0);
            }
        }
        assert forall|q: Point| self.in_bounds(q) && #[trigger] label_at(after, q) >= 0 implies self.at(
            q,
        ) is Empty by {
            if !seen.contains(q) {
                assert(label_at(before, q) >= 0);
            }
        }
        assert forall|q: Point| self.in_bounds(q) implies #[trigger] label_at(after, q) == -1 || 0
            <= label_at(after, q) < count + 1 by {
            if !seen.contains(q) {
                assert(label_at(before, q) == -1 || 0 <= label_at(before, q) < count);
            }
        }
    }
}

/// Gives the squares of `seen` the label `label` and leaves the others as they
/// are.
fn stamp(grid: &Grid, labels: &mut Vec<Vec<i32>>, seen: &PointSet, label: i32)
    requires
        grid.labels_fit(old(labels)@),
        seen.wf(),
    ensures
        grid.labels_fit(final(labels)@),
        forall|q: Point|
            grid.in_bounds(q) ==> #[trigger] label_at(final(labels)@, q) == (if seen@.contains(q) {
                label as int
            } else {
                label_at(old(labels)@, q)
            }),
{
    let mut y: usize = 0;
    while y < grid.height
        invariant
            y <= grid.height,
            seen.wf(),
            grid.labels_fit(labels@),
            forall|q: Point|
                grid.in_bounds(q) ==> #[trigger] label_at(labels@, q) == (if seen@.contains(q)
                    && q.y < y {
                    label as int
                } else {
                    label_at(old(labels)@, q)
                }),
        decreases grid.height - y,
    {
        let mut x: usize = 0;
        while x < grid.width
            invariant
                y < grid.height,
                x <= grid.width,
                seen.wf(),
                grid.labels_fit(labels@),
                forall|q: Point|
                    grid.in_bounds(q) ==> #[trigger] label_at(labels@, q) == (if seen@.contains(q)
                        && (q.y < y || (q.y == y && q.x < x)) {
                        label as int
                    } else {
                        label_at(old(labels)@, q)
                    }),
            decreases grid.width - x,
        {
            let p = Point::new(x, y);
            let ghost mid = labels@;
            if seen.contains(p) {
                labels[y][x] = label;
            }
            proof {
                assert forall|q: Point| grid.in_bounds(q) implies #[trigger] label_at(labels@, q)
                    == (if seen@.contains(q) && (q.y < y || (q.y == y && q.x < x + 1)) {
                    label as int
                } else {
                    label_at(old(labels)@, q)
                }) by {
                    if q != p {
                        assert(label_at(labels@, q) == label_at(mid, q));
                    }
                }
            }
            x += 1;
        }
        y += 1;
    }
}

/// Numbers the regions of empty cells, from 0, in the order in which a
/// reading of the board, row by row, first meets them. Every empty square
/// gets the number of its region, below the number of squares; two empty
/// squares get the same number exactly if a walk over empty cells joins
/// them. Every other square gets -1.
pub fn label_regions(grid: &Grid) -> (labels: Vec<Vec<i32>>)
    requires
        grid.wf(),
        grid.area() <= i32::MAX,
    ensures
        grid.labels_regions(labels@, grid.area()),
        grid.numbered_in_order(labels@),
        forall|p: Point|
            grid.in_bounds(p) ==> (#[trigger] label_at(labels@, p) >= 0 <==> grid.at(p) is Empty),
{
    let width = grid.width;
    let height = grid.height;
    let mut labels: Vec<Vec<i32>> = Vec::new();
    let mut y: usize = 0;
    while y < height
        invariant
            y <= height,
            labels@.len() == y,
            forall|j: int| 0 <= j < y ==> (#[trigger] labels@[j])@.len() == width,
            forall|j: int, i: int| 0 <= j < y && 0 <= i < width ==> (#[trigger] labels@[j]@[i]) == -1,
        decreases height - y,
    {
        let mut row: Vec<i32> = Vec::new();
        let mut x: usize = 0;
        while x < width
            invariant
                x <= width,
                row@.len() == x,
                forall|i: int| 0 <= i < x ==> (#[trigger] row@[i]) == -1,
            decreases width - x,
        {
            row.push(-1);
            x += 1;
        }
        labels.push(row);
        y += 1;
    }
    let mut next_label: i32 = 0;
    let mut y: usize = 0;
    proof {
        assert(0 * width == 0) by (nonlinear_arith);
    }
    while y < height
        invariant
            grid.wf(),
            grid.area() <= i32::MAX,
            width == grid.width,
            height == grid.height,
            y <= height,
            grid.labels_regions(labels@, next_label as int),
            grid.numbered_in_order(labels@),
            forall|l: int|
                0 <= l < next_label ==> #[trigger] grid.labelled_before(
                    labels@,
                    l,
                    Point { x: 0, y },
                ),
            0 <= next_label <= y * width,
            y * width <= grid.area(),
            forall|q: Point|
                grid.in_bounds(q) && grid.at(q) is Empty && q.y < y ==> #[trigger] label_at(
                    labels@,
                    q,
                ) >= 0,
        decreases height - y,
    {
        let mut x: usize = 0;
        proof {
            grid.lemma_rows_fit(y as int);
        }
        while x < width
            invariant
                grid.wf(),
                grid.area() <= i32::MAX,
                width == grid.width,
                height == grid.height,
                y < height,
                x <= width,
                y * width + width <= grid.area(),
                grid.labels_regions(labels@, next_label as int),
                grid.numbered_in_order(labels@),
                forall|l: int|
                    0 <= l < next_label ==> #[trigger] grid.labelled_before(
                        labels@,
                        l,
                        Point { x, y },
                    ),
                0 <= next_label <= y * width + x,
                forall|q: Point|
                    grid.in_bounds(q) && grid.at(q) is Empty && (q.y < y || (q.y == y && q.x < x))
                        ==> #[trigger] label_at(labels@, q) >= 0,
            decreases width - x,
        {
            let p = Point::new(x, y);
            let ghost before = labels@;
            let is_empty = match grid.get(p) {
                Cell::Empty => true,
                _ => false,
            };
            if is_empty && labels[y][x] == -1 {
                let seen = grid.flood(None, p);
                stamp(grid, &mut labels, &seen, next_label);
                proof {
                    assert forall|q: Point| #[trigger] seen@.contains(q) implies grid.in_bounds(q)
                        && grid.at(q) is Empty && label_at(before, q) == -1 by {
                        grid.lemma_reached_is_open(None, p, q);
                        grid.lemma_reaches_symmetric(None, p, q);
                        if label_at(before, q) >= 0 {
                            assert(grid.reaches(None, q, p));
                        }
                    }
                    grid.lemma_reaches_itself(None, p);
                    assert forall|q: Point| grid.in_bounds(q) implies label_at(before, q)
                        < next_label by {
                        assert(label_at(before, q) == -1 || 0 <= label_at(before, q) < next_label);
                    }
                    grid.lemma_new_region_in_order(before, labels@, seen@, p, next_label as int);
                    grid.lemma_new_region(before, labels@, seen@, p, next_label as int);
                    assert forall|q: Point|
                        grid.in_bounds(q) && grid.at(q) is Empty && (q.y < y || (q.y == y && q.x < x
                            + 1)) implies #[trigger] label_at(labels@, q) >= 0 by {
                        if q != p {
                            assert(label_at(before, q) >= 0);
                        }
                    }
                }
                next_label += 1;
            } else {
                proof {
                    assert(is_empty ==> label_at(before, p) >= 0);
                    assert forall|l: int| 0 <= l < next_label implies #[trigger] grid.labelled_before(
                        labels@,
                        l,
                        Point { x: (x + 1) as usize, y },
                    ) by {
                        assert(grid.labelled_before(labels@, l, p));
                        let q = choose|q: Point|
                            grid.in_bounds(q) && q.precedes(p) && #[trigger] label_at(labels@, q)
                                == l;
                        assert(grid.in_bounds(q) && q.precedes(Point { x: (x + 1) as usize, y })
                            && label_at(labels@, q) == l);
                    }
                }
            }
            x += 1;
        }
        proof {
            assert((y + 1) * width == y * width + width) by (nonlinear_arith);
            assert forall|l: int| 0 <= l < next_label implies #[trigger] grid.labelled_before(
                labels@,
                l,
                Point { x: 0, y: (y + 1) as usize },
            ) by {
                assert(grid.labelled_before(labels@, l, Point { x, y }));
                let q = choose|q: Point|
                    grid.in_bounds(q) && q.precedes(Point { x, y }) && #[trigger] label_at(
                        labels@,
                        q,
                    ) == l;
                assert(grid.in_bounds(q) && q.precedes(Point { x: 0, y: (y + 1) as usize })
                    && label_at(labels@, q) == l);
            }
        }
        y += 1;
    }
    proof {
        assert(grid.labels_regions(labels@, grid.area())) by {
            assert(next_label <= grid.area());
        }
    }
    labels
}

impl Grid {
    /// Whether the region of the empty square `r` touches `n`: some empty
    /// square that `r` reaches over empty cells lies next to `n`.
    pub open spec fn region_meets(&self, r: Point, n: Point) -> bool {
        exists|e: Point| #[trigger] self.exits(n).contains(e) && self.reaches(None, r, e)
    }

    /// Whether the pending colour `colour` is cut off: no region of empty
    /// cells touches both its head and its second endpoint.
    pub open spec fn cut_off(&self, endpoints: Endpoints, traces: &Traces, colour: Colour) -> bool {
        &&& self.pending(endpoints, colour)
        &&& forall|r: Point|
            self.in_bounds(r) && self.at(r) is Empty ==> !(#[trigger] self.region_meets(
                r,
                traces.head(colour)->Some_0,
            ) && self.region_meets(r, endpoints@[colour].1))
    }

    /// Whether the region of the empty square `r` is orphaned: it touches
    /// neither the head nor the second endpoint of any pending colour.
    pub open spec fn orphaned(&self, endpoints: Endpoints, traces: &Traces, r: Point) -> bool {
        &&& self.in_bounds(r)
        &&& self.at(r) is Empty
        &&& forall|c: Colour| #[trigger]
            self.pending(endpoints, c) ==> !self.region_meets(r, traces.head(c)->Some_0)
                && !self.region_meets(r, endpoints@[c].1)
    }

    /// Whether the state is stranded: some pending colour is cut off, or some
    /// region of empty cells is orphaned.
    pub open spec fn is_stranded(&self, endpoints: Endpoints, traces: &Traces) -> bool {
        (exists|c: Colour| self.cut_off(endpoints, traces, c)) || (exists|r: Point|
            self.orphaned(endpoints, traces, r))
    }

    /// Whether some empty neighbour of `n` carries the label `l`.
    pub open spec fn near(&self, labels: Seq<Vec<i32>>, n: Point, l: int) -> bool {
        exists|e: Point| #[trigger] self.exits(n).contains(e) && label_at(labels, e) == l
    }

    /// With the regions labelled, a region touches a square exactly if an
    /// empty neighbour of the square carries the label of the region.
    proof fn lemma_meets_by_label(&self, labels: Seq<Vec<i32>>, count: int, r: Point, n: Point)
        requires
            self.labels_regions(labels, count),
            forall|p: Point|
                self.in_bounds(p) ==> (#[trigger] label_at(labels, p) >= 0 <==> self.at(
                    p,
                ) is Empty),
            self.in_bounds(r),
            self.at(r) is Empty,
        ensures
            self.region_meets(r, n) == self.near(labels, n, label_at(labels, r)),
    {
        assert(label_at(labels, r) >= 0);
        if self.region_meets(r, n) {
            let e = choose|e: Point| #[trigger]
                self.exits(n).contains(e) && self.reaches(None, r, e);
            assert(label_at(labels, e) >= 0);
            assert(self.exits(n).contains(e) && label_at(labels, e) == label_at(labels, r));
        }
        if self.near(labels, n, label_at(labels, r)) {
            let e = choose|e: Point| #[trigger]
                self.exits(n).contains(e) && label_at(labels, e) == label_at(labels, r);
            assert(label_at(labels, e) >= 0);
            assert(self.exits(n).contains(e) && self.reaches(None, r, e));
        }
    }

    /// The labels of the empty neighbours of `n`.
    fn labels_near(&self, labels: &Vec<Vec<i32>>, n: Point) -> (list: Vec<i32>)
        requires
            self.wf(),
            self.in_bounds(n),
            self.labels_fit(labels@),
        ensures
            forall|l: int| (exists|i: int| 0 <= i < list@.len() && list@[i] == l) <==> self.near(labels@, n, l),
    {
        let around = self.free_neighbours(n);
        let mut list: Vec<i32> = Vec::new();
        let mut j: usize = 0;
        while j < around.len()
            invariant
                self.wf(),
                self.labels_fit(labels@),
                j <= around.len(),
                list@.len() == j,
                forall|q: Point| #[trigger] around@.contains(q) <==> self.exits(n).contains(q),
                forall|i: int| 0 <= i < j ==> #[trigger] list@[i] == label_at(labels@, around@[i]),
            decreases around.len() - j,
        {
            let e = around[j];
            assert(around@.contains(e));
            list.push(labels[e.y][e.x]);
            j += 1;
        }
        proof {
            assert forall|l: int| (exists|i: int| 0 <= i < list@.len() && list@[i] == l) <==> self.near(labels@, n, l) by {
                if exists|i: int| 0 <= i < list@.len() && list@[i] == l {
                    let i = choose|i: int| 0 <= i < list@.len() && list@[i] == l;
                    assert(around@.contains(around@[i]));
                    assert(self.exits(n).contains(around@[i]) && label_at(labels@, around@[i]) == l);
                }
                if self.near(labels@, n, l) {
                    let e = choose|e: Point| #[trigger]
                        self.exits(n).contains(e) && label_at(labels@, e) == l;
                    assert(around@.contains(e));
                    let i = choose|i: int| 0 <= i < around@.len() && around@[i] == e;
                    assert(list@[i] == l);
                }
            }
        }
        list
    }
}

/// Whether the two lists share a number.
fn share(first: &Vec<i32>, second: &Vec<i32>) -> (b: bool)
    ensures
        b == exists|i: int, j: int|
            0 <= i < first@.len() && 0 <= j < second@.len() && first@[i] == second@[j],
{
    let mut i: usize = 0;
    while i < first.len()
        invariant
            i <= first.len(),
            forall|a: int, j: int|
                0 <= a < i && 0 <= j < second@.len() ==> first@[a] != second@[j],
        decreases first.len() - i,
    {
        let mut j: usize = 0;
        while j < second.len()
            invariant
                i < first.len(),
                j <= second.len(),
                forall|b: int| 0 <= b < j ==> first@[i as int] != second@[b],
            decreases second.len() - j,
        {
            if first[i] == second[j] {
                return true;
            }
            j += 1;
        }
        i += 1;
    }
    false
}

/// Whether the state is stranded: some pending colour has no region of empty
/// cells that touches both its head and its second endpoint, or some region
/// of empty cells touches neither the head nor the second endpoint of any
/// pending colour.
pub fn stranded(grid: &Grid, endpoints: &Endpoints, traces: &Traces) -> (b: bool)
    requires
        grid.wf(),
        grid.area() <= i32::MAX,
        traces.wf(),
        endpoints.within(grid.width as int, grid.height as int),
        traces.follows(*endpoints, grid.width as int, grid.height as int),
    ensures
        b == grid.is_stranded(*endpoints, traces),
{
    let width = grid.width;
    let height = grid.height;
    let labels = label_regions(grid);
    let flags = grid.pending_colours(endpoints);
    proof {
        assert(width * height == grid.area());
    }
    let area: usize = width * height;
    let mut touched: Vec<bool> = Vec::new();
    let mut n: usize = 0;
    while n < area
        invariant
            n <= area,
            touched@.len() == n,
            forall|i: int| 0 <= i < n ==> !touched@[i],
        decreases area - n,
    {
        touched.push(false);
        n += 1;
    }
    let mut k: usize = 0;
    while k < COLOUR_COUNT
        invariant
            grid.wf(),
            traces.wf(),
            endpoints.within(grid.width as int, grid.height as int),
            traces.follows(*endpoints, grid.width as int, grid.height as int),
            grid.labels_regions(labels@, grid.area()),
            forall|p: Point|
                grid.in_bounds(p) ==> (#[trigger] label_at(labels@, p) >= 0 <==> grid.at(
                    p,
                ) is Empty),
            k <= COLOUR_COUNT,
            flags@.len() == COLOUR_COUNT,
            forall|c: Colour| #[trigger] flags@[c.tag()] == grid.pending(*endpoints, c),
            touched@.len() == area,
            area == grid.area(),
            forall|c: Colour| c.tag() < k ==> !grid.cut_off(*endpoints, traces, c),
            forall|l: int|
                0 <= l < area ==> (#[trigger] touched@[l] <==> exists|c: Colour|
                    c.tag() < k && #[trigger] grid.pending(*endpoints, c) && (grid.near(
                        labels@,
                        traces.head(c)->Some_0,
                        l,
                    ) || grid.near(labels@, endpoints@[c].1, l))),
        decreases COLOUR_COUNT - k,
    {
        let colour = Colour::from_index(k);
        let ghost marks = touched@;
        proof {
            assert forall|c: Colour| c.tag() == k implies c == colour by {
                c.lemma_tag_round_trip();
            }
            assert(flags@[colour.tag()] == grid.pending(*endpoints, colour));
        }
        let mut done = false;
        if flags[k] {
            assert(endpoints@.dom().contains(colour));
            match (traces.head_of(colour), endpoints.get(colour)) {
                (Some(head), Some((_, goal))) => {
                    let head_labels = grid.labels_near(&labels, head);
                    let goal_labels = grid.labels_near(&labels, goal);
                    if !share(&head_labels, &goal_labels) {
                        proof {
                            assert forall|r: Point|
                                grid.in_bounds(r) && grid.at(r) is Empty implies !(
                            #[trigger] grid.region_meets(r, head) && grid.region_meets(
                                r,
                                goal,
                            )) by {
                                grid.lemma_meets_by_label(labels@, grid.area(), r, head);
                                grid.lemma_meets_by_label(labels@, grid.area(), r, goal);
                                let l = label_at(labels@, r);
                                if grid.near(labels@, head, l) && grid.near(labels@, goal, l) {
                                    let i = choose|i: int|
                                        0 <= i < head_labels@.len() && head_labels@[i] == l;
                                    let j = choose|j: int|
                                        0 <= j < goal_labels@.len() && goal_labels@[j] == l;
                                    assert(head_labels@[i] == goal_labels@[j]);
                                }
                            }
                            assert(grid.cut_off(*endpoints, traces, colour));
                        }
                        return true;
                    }
                    proof {
                        let (i, j) = choose|i: int, j: int|
                            0 <= i < head_labels@.len() && 0 <= j < goal_labels@.len()
                                && head_labels@[i] == goal_labels@[j];
                        let l = head_labels@[i] as int;
                        assert(exists|a: int| 0 <= a < head_labels@.len() && head_labels@[a] == l);
                        assert(exists|a: int| 0 <= a < goal_labels@.len() && goal_labels@[a] == l);
                        assert(grid.near(labels@, head, l) && grid.near(labels@, goal, l));
                        let e = choose|e: Point| #[trigger]
                            grid.exits(head).contains(e) && label_at(labels@, e) == l;
                        grid.lemma_meets_by_label(labels@, grid.area(), e, head);
                        grid.lemma_meets_by_label(labels@, grid.area(), e, goal);
                        assert(grid.region_meets(e, head) && grid.region_meets(e, goal));
                        assert(!grid.cut_off(*endpoints, traces, colour));
                    }
                    mark(grid, &labels, &mut touched, &head_labels, head);
                    mark(grid, &labels, &mut touched, &goal_labels, goal);
                    done = true;
                },
                _ => {},
            }
        }
        proof {
            assert(done == grid.pending(*endpoints, colour));
            assert forall|l: int| 0 <= l < area implies (#[trigger] touched@[l] <==> exists|
                c: Colour,
            |
                c.tag() < k + 1 && #[trigger] grid.pending(*endpoints, c) && (grid.near(
                    labels@,
                    traces.head(c)->Some_0,
                    l,
                ) || grid.near(labels@, endpoints@[c].1, l))) by {
                let was = exists|c: Colour|
                    c.tag() < k && #[trigger] grid.pending(*endpoints, c) && (grid.near(
                        labels@,
                        traces.head(c)->Some_0,
                        l,
                    ) || grid.near(labels@, endpoints@[c].1, l));
                assert(marks[l] <==> was);
                let here = grid.pending(*endpoints, colour) && (grid.near(
                    labels@,
                    traces.head(colour)->Some_0,
                    l,
                ) || grid.near(labels@, endpoints@[colour].1, l));
                assert(touched@[l] <==> (marks[l] || here));
                if exists|c: Colour|
                    c.tag() < k + 1 && #[trigger] grid.pending(*endpoints, c) && (grid.near(
                        labels@,
                        traces.head(c)->Some_0,
                        l,
                    ) || grid.near(labels@, endpoints@[c].1, l)) {
                    let c = choose|c: Colour|
                        c.tag() < k + 1 && #[trigger] grid.pending(*endpoints, c) && (grid.near(
                            labels@,
                            traces.head(c)->Some_0,
                            l,
                        ) || grid.near(labels@, endpoints@[c].1, l));
                    if c.tag() < k {
                        assert(was);
                    } else {
                        assert(c == colour);
                    }
                }
                if was {
                    let c = choose|c: Colour|
                        c.tag() < k && #[trigger] grid.pending(*endpoints, c) && (grid.near(
                            labels@,
                            traces.head(c)->Some_0,
                            l,
                        ) || grid.near(labels@, endpoints@[c].1, l));
                    assert(c.tag() < k + 1 && grid.pending(*endpoints, c));
                }
                if here {
                    assert(colour.tag() < k + 1 && grid.pending(*endpoints, colour));
                }
            }
        }
        k += 1;
    }
    proof {
        assert forall|c: Colour| c.tag() < COLOUR_COUNT by {
            c.lemma_tag_round_trip();
        }
    }
    let mut y: usize = 0;
    while y < height
        invariant
            grid.wf(),
            width == grid.width,
            height == grid.height,
            y <= height,
            grid.labels_regions(labels@, grid.area()),
            forall|p: Point|
                grid.in_bounds(p) ==> (#[trigger] label_at(labels@, p) >= 0 <==> grid.at(
                    p,
                ) is Empty),
            touched@.len() == area,
            area == grid.area(),
            forall|l: int|
                0 <= l < area ==> (#[trigger] touched@[l] <==> exists|c: Colour| #[trigger]
                    grid.pending(*endpoints, c) && (grid.near(
                        labels@,
                        traces.head(c)->Some_0,
                        l,
                    ) || grid.near(labels@, endpoints@[c].1, l))),
            forall|r: Point| r.y < y ==> !grid.orphaned(*endpoints, traces, r),
        decreases height - y,
    {
        let mut x: usize = 0;
        while x < width
            invariant
                grid.wf(),
                width == grid.width,
                height == grid.height,
                y < height,
                x <= width,
                grid.labels_regions(labels@, grid.area()),
                forall|p: Point|
                    grid.in_bounds(p) ==> (#[trigger] label_at(labels@, p) >= 0 <==> grid.at(
                        p,
                    ) is Empty),
                touched@.len() == area,
                area == grid.area(),
                forall|l: int|
                    0 <= l < area ==> (#[trigger] touched@[l] <==> exists|c: Colour| #[trigger]
                        grid.pending(*endpoints, c) && (grid.near(
                            labels@,
                            traces.head(c)->Some_0,
                            l,
                        ) || grid.near(labels@, endpoints@[c].1, l))),
                forall|r: Point|
                    r.y < y || (r.y == y && r.x < x) ==> !grid.orphaned(*endpoints, traces, r),
            decreases width - x,
        {
            let r = Point::new(x, y);
            let label = labels[y][x];
            proof {
                assert(label == label_at(labels@, r));
                assert(grid.in_bounds(r));
            }
            if label >= 0 {
                let l: usize = label as usize;
                proof {
                    assert forall|c: Colour| #[trigger] grid.pending(*endpoints, c) implies (
                    grid.region_meets(r, traces.head(c)->Some_0) == grid.near(
                        labels@,
                        traces.head(c)->Some_0,
                        label as int,
                    )) && (grid.region_meets(r, endpoints@[c].1) == grid.near(
                        labels@,
                        endpoints@[c].1,
                        label as int,
                    )) by {
                        grid.lemma_meets_by_label(
                            labels@,
                            grid.area(),
                            r,
                            traces.head(c)->Some_0,
                        );
                        grid.lemma_meets_by_label(labels@, grid.area(), r, endpoints@[c].1);
                    }
                }
                if !touched[l] {
                    assert(grid.orphaned(*endpoints, traces, r));
                    return true;
                }
                proof {
                    let c = choose|c: Colour| #[trigger]
                        grid.pending(*endpoints, c) && (grid.near(
                            labels@,
                            traces.head(c)->Some_0,
                            label as int,
                        ) || grid.near(labels@, endpoints@[c].1, label as int));
                    assert(grid.pending(*endpoints, c));
                    assert(!grid.orphaned(*endpoints, traces, r));
                }
            }
            x += 1;
        }
        y += 1;
    }
    proof {
        assert forall|r: Point| !grid.orphaned(*endpoints, traces, r) by {
            if grid.orphaned(*endpoints, traces, r) {
                assert(r.y < y);
            }
        }
    }
    false
}

/// Marks in `touched` the labels of `list`, which are those of the empty
/// neighbours of `n`.
fn mark(grid: &Grid, labels: &Vec<Vec<i32>>, touched: &mut Vec<bool>, list: &Vec<i32>, n: Point)
    requires
        old(touched)@.len() == grid.area(),
        grid.labels_regions(labels@, grid.area()),
        forall|l: int|
            (exists|i: int| 0 <= i < list@.len() && list@[i] == l) <==> grid.near(labels@, n, l),
    ensures
        final(touched)@.len() == old(touched)@.len(),
        forall|l: int|
            0 <= l < old(touched)@.len() ==> (#[trigger] final(touched)@[l] <==> (old(
                touched,
            )@[l] || grid.near(labels@, n, l))),
{
    let mut j: usize = 0;
    while j < list.len()
        invariant
            j <= list.len(),
            touched@.len() == old(touched)@.len(),
            touched@.len() == grid.area(),
            grid.labels_regions(labels@, grid.area()),
            forall|l: int|
                (exists|i: int| 0 <= i < list@.len() && list@[i] == l) <==> grid.near(
                    labels@,
                    n,
                    l,
                ),
            forall|l: int|
                0 <= l < touched@.len() ==> (#[trigger] touched@[l] <==> (old(touched)@[l]
                    || exists|i: int| 0 <= i < j && list@[i] == l)),
        decreases list.len() - j,
    {
        let label = list[j];
        let ghost marks = touched@;
        proof {
            assert(exists|i: int| 0 <= i < list@.len() && list@[i] == label as int);
            assert(grid.near(labels@, n, label as int));
            let e = choose|e: Point| #[trigger]
                grid.exits(n).contains(e) && label_at(labels@, e) == label as int;
            assert(grid.in_bounds(e));
            assert(label_at(labels@, e) == -1 || 0 <= label_at(labels@, e) < grid.area());
        }
        if label >= 0 {
            let l: usize = label as usize;
            touched[l] = true;
        }
        proof {
            assert forall|l: int| 0 <= l < touched@.len() implies (#[trigger] touched@[l] <==> (
            old(touched)@[l] || exists|i: int| 0 <= i < j + 1 && list@[i] == l)) by {
                assert(marks[l] <==> (old(touched)@[l] || exists|i: int|
                    0 <= i < j && list@[i] == l));
                if exists|i: int| 0 <= i < j + 1 && list@[i] == l {
                    let i = choose|i: int| 0 <= i < j + 1 && list@[i] == l;
                    if i < j {
                        assert(exists|i: int| 0 <= i < j && list@[i] == l);
                    }
                }
                if exists|i: int| 0 <= i < j && list@[i] == l {
                    let i = choose|i: int| 0 <= i < j && list@[i] == l;
                    assert(0 <= i < j + 1 && list@[i] == l);
                }
                if l == label {
                    assert(0 <= j < j + 1 && list@[j as int] == l);
                }
            }
        }
        j += 1;
    }
    proof {
        assert forall|l: int| 0 <= l < old(touched)@.len() implies (#[trigger] touched@[l] <==> (
        old(touched)@[l] || grid.near(labels@, n, l))) by {
            if exists|i: int| 0 <= i < j && list@[i] == l {
                let i = choose|i: int| 0 <= i < j && list@[i] == l;
                assert(0 <= i < list@.len() && list@[i] == l);
            }
            if grid.near(labels@, n, l) {
                let i = choose|i: int| 0 <= i < list@.len() && list@[i] == l;
                assert(0 <= i < j && list@[i] == l);
            }
        }
    }
}

} // verus!
