//! The best-first solver: partial boards wait in a queue ordered by the moves
//! made so far plus the cells still empty, and the most promising one is
//! grown by one step of its most constrained colour.

use crate::board::{Cell, Colour, Endpoints, Grid, Point, COLOUR_COUNT};
use crate::regions::stranded;
use vstd::prelude::*;

verus! {

impl Grid {
    /// The number of squares of the board.
    pub open spec fn area(&self) -> int {
        self.width * self.height
    }

    /// The empty squares that come before `limit` when the board is read row
    /// by row.
    pub open spec fn empties_before(&self, limit: Point) -> Set<Point> {
        Set::new(|p: Point| self.in_bounds(p) && self.at(p) is Empty && p.precedes(limit))
    }

    /// How many of the squares of `around` are not empty.
    pub open spec fn walls_among(&self, around: Seq<Point>) -> nat
        decreases around.len(),
    {
        if around.len() == 0 {
            0
        } else {
            self.walls_among(around.drop_last()) + (if self.at(around.last()) is Empty {
                0nat
            } else {
                1nat
            })
        }
    }

    /// How many neighbours of `p` hold an endpoint or a path cell.
    pub open spec fn walls_around(&self, p: Point) -> nat {
        self.walls_among(p.neighbours_on(self.width as int, self.height as int))
    }

    /// Whether `p` is an empty square with three or more neighbours that are
    /// not empty.
    pub open spec fn boxed_in(&self, p: Point) -> bool {
        self.in_bounds(p) && self.at(p) is Empty && self.walls_around(p) >= 3
    }

    /// The squares of the first `rows` rows are at most `rows` times the
    /// width.
    pub proof fn lemma_rows_fit(&self, rows: int)
        requires
            0 <= rows < self.height,
        ensures
            rows * self.width + self.width <= self.area(),
    {
        let w = self.width as int;
        let h = self.height as int;
        assert(rows * w + w <= w * h) by (nonlinear_arith)
            requires
                0 <= rows < h,
                0 <= w,
        ;
    }
}

/// The number of empty cells: a lower bound on the moves still to make, since
/// a move fills one cell.
pub fn heuristic(grid: &Grid) -> (h: usize)
    requires
        grid.wf(),
        grid.area() <= usize::MAX,
    ensures
        h == grid.empties().len(),
        h <= grid.area(),
{
    let mut count: usize = 0;
    let mut y: usize = 0;
    proof {
        assert(grid.empties_before(Point { x: 0, y: 0 }) =~= Set::<Point>::empty());
        assert(0 * grid.width == 0) by (nonlinear_arith);
    }
    while y < grid.height
        invariant
            grid.wf(),
            grid.area() <= usize::MAX,
            y <= grid.height,
            grid.empties_before(Point { x: 0, y }).finite(),
            count == grid.empties_before(Point { x: 0, y }).len(),
            count <= y * grid.width,
            y == grid.height ==> count <= grid.area(),
        decreases grid.height - y,
    {
        let mut x: usize = 0;
        proof {
            grid.lemma_rows_fit(y as int);
        }
        while x < grid.width
            invariant
                grid.wf(),
                y < grid.height,
                x <= grid.width,
                y * grid.width + grid.width <= grid.area(),
                grid.area() <= usize::MAX,
                grid.empties_before(Point { x, y }).finite(),
                count == grid.empties_before(Point { x, y }).len(),
                count <= y * grid.width + x,
            decreases grid.width - x,
        {
            let p = Point::new(x, y);
            let ghost before = grid.empties_before(p);
            match grid.get(p) {
                Cell::Empty => {
                    proof {
                        assert(grid.empties_before(Point { x: (x + 1) as usize, y })
                            =~= before.insert(p));
                    }
                    count += 1;
                },
                _ => {
                    proof {
                        assert(grid.empties_before(Point { x: (x + 1) as usize, y }) =~= before);
                    }
                },
            }
            x += 1;
        }
        proof {
            assert(grid.empties_before(Point { x: 0, y: (y + 1) as usize })
                =~= grid.empties_before(Point { x, y }));
            assert((y + 1) * grid.width == y * grid.width + grid.width) by (nonlinear_arith);
        }
        y += 1;
    }
    proof {
        assert(grid.empties_before(Point { x: 0, y }) =~= grid.empties());
    }
    count
}

/// Whether some empty cell has three or more neighbours that hold an endpoint
/// or a path cell.
pub fn dead_end(grid: &Grid) -> (b: bool)
    requires
        grid.wf(),
    ensures
        b == grid.has_dead_end(),
{
    let width = grid.width;
    let height = grid.height;
    let mut y: usize = 0;
    while y < height
        invariant
            grid.wf(),
            width == grid.width,
            height == grid.height,
            y <= height,
            forall|p: Point| p.y < y ==> !grid.boxed_in(p),
        decreases height - y,
    {
        let mut x: usize = 0;
        while x < width
            invariant
                grid.wf(),
                width == grid.width,
                height == grid.height,
                y < height,
                x <= width,
                forall|p: Point| p.y < y || (p.y == y && p.x < x) ==> !grid.boxed_in(p),
            decreases width - x,
        {
            let p = Point::new(x, y);
            match grid.get(p) {
                Cell::Empty => {
                    let around = p.neighbors(width, height);
                    proof {
                        p.lemma_neighbours(width as int, height as int);
                    }
                    let mut walls: usize = 0;
                    let mut j: usize = 0;
                    while j < around.len()
                        invariant
                            grid.wf(),
                            j <= around.len(),
                            around@.len() <= 4,
                            forall|q: Point| #[trigger]
                                around@.contains(q) ==> grid.in_bounds(q),
                            walls == grid.walls_among(around@.subrange(0, j as int)),
                            walls <= j,
                        decreases around.len() - j,
                    {
                        let q = around[j];
                        proof {
                            assert(around@.contains(q));
                            let more = around@.subrange(0, j + 1);
                            assert(more.drop_last() =~= around@.subrange(0, j as int));
                            assert(more.last() == q);
                        }
                        match grid.get(q) {
                            Cell::Empty => {},
                            _ => {
                                walls += 1;
                            },
                        }
                        j += 1;
                    }
                    proof {
                        assert(around@.subrange(0, j as int) =~= around@);
                    }
                    if walls >= 3 {
                        assert(grid.boxed_in(p));
                        return true;
                    }
                },
                _ => {},
            }
            x += 1;
        }
        y += 1;
    }
    false
}

/// For every colour the squares traced so far from its first endpoint. The
/// last square of a trace is the head of the colour.
#[derive(Debug)]
pub struct Traces {
    routes: Vec<Vec<Point>>,
}

impl Traces {
    /// Whether there is one trace for each colour.
    pub closed spec fn wf(&self) -> bool {
        self.routes@.len() == COLOUR_COUNT
    }

    /// The trace of `colour`.
    pub closed spec fn route(&self, colour: Colour) -> Seq<Point> {
        self.routes@[colour.tag()]@
    }

    /// The head of `colour`: the last square of its trace.
    pub open spec fn head(&self, colour: Colour) -> Option<Point> {
        if self.route(colour).len() > 0 {
            Some(self.route(colour).last())
        } else {
            None
        }
    }

    /// Whether every colour of `endpoints` has a head on a board of the
    /// given size.
    pub open spec fn follows(&self, endpoints: Endpoints, width: int, height: int) -> bool {
        forall|c: Colour| #[trigger]
            endpoints@.dom().contains(c) ==> match self.head(c) {
                Some(p) => p.x < width && p.y < height,
                None => false,
            }
    }

    /// Whether the traces are `before` with the head of `colour` moved on to
    /// `p`.
    pub open spec fn moved(&self, before: &Traces, colour: Colour, p: Point) -> bool {
        &&& self.wf()
        &&& self.route(colour) == before.route(colour).push(p)
        &&& forall|c: Colour| c != colour ==> self.route(c) == before.route(c)
    }

    /// Whether each colour of `endpoints` stands on its first endpoint, and
    /// no other colour has a trace.
    pub open spec fn starts(&self, endpoints: Endpoints) -> bool {
        &&& self.wf()
        &&& forall|c: Colour|
            #[trigger] self.route(c) == (match endpoints.pair(c) {
                Some((a, _)) => seq![a],
                None => Seq::<Point>::empty(),
            })
    }

    /// The traces at the start of a search: each colour of `endpoints` stands
    /// on its first endpoint.
    pub fn begin(endpoints: &Endpoints) -> (traces: Traces)
        ensures
            traces.starts(*endpoints),
    {
        let mut routes: Vec<Vec<Point>> = Vec::new();
        let mut k: usize = 0;
        while k < COLOUR_COUNT
            invariant
                k <= COLOUR_COUNT,
                routes@.len() == k,
                forall|c: Colour|
                    c.tag() < k ==> (#[trigger] routes@[c.tag()])@ == (match endpoints.pair(c) {
                        Some((a, _)) => seq![a],
                        None => Seq::<Point>::empty(),
                    }),
            decreases COLOUR_COUNT - k,
        {
            let colour = Colour::from_index(k);
            let mut route: Vec<Point> = Vec::new();
            match endpoints.get(colour) {
                Some((a, _)) => {
                    route.push(a);
                    assert(route@ =~= seq![a]);
                },
                None => {},
            }
            routes.push(route);
            proof {
                assert forall|c: Colour| c.tag() < k + 1 implies (#[trigger] routes@[c.tag()])@ == (
                match endpoints.pair(c) {
                    Some((a, _)) => seq![a],
                    None => Seq::<Point>::empty(),
                }) by {
                    c.lemma_tag_round_trip();
                    if c.tag() == k {
                        assert(c == colour);
                    }
                }
            }
            k += 1;
        }
        proof {
            assert forall|c: Colour| c.tag() < COLOUR_COUNT by {
                c.lemma_tag_round_trip();
            }
        }
        Traces { routes }
    }

    /// The head of `colour`, if it has one.
    pub fn head_of(&self, colour: Colour) -> (r: Option<Point>)
        requires
            self.wf(),
        ensures
            r == self.head(colour),
    {
        let route = &self.routes[colour.index()];
        if route.len() > 0 {
            Some(route[route.len() - 1])
        } else {
            None
        }
    }

    /// Moves the head of `colour` on to `p`.
    pub fn advance(&mut self, colour: Colour, p: Point)
        requires
            old(self).wf(),
        ensures
            final(self).moved(old(self), colour, p),
    {
        let i: usize = colour.index();
        self.routes[i].push(p);
        proof {
            assert forall|c: Colour| c != colour implies final(self).route(c) == old(self).route(
                c,
            ) by {
                c.lemma_tag_round_trip();
                colour.lemma_tag_round_trip();
            }
        }
    }

    /// A copy of the traces.
    pub fn duplicate(&self) -> (copy: Traces)
        requires
            self.wf(),
        ensures
            copy.wf(),
            forall|c: Colour| copy.route(c) == self.route(c),
    {
        let mut routes: Vec<Vec<Point>> = Vec::new();
        let mut k: usize = 0;
        while k < COLOUR_COUNT
            invariant
                self.wf(),
                k <= COLOUR_COUNT,
                routes@.len() == k,
                forall|j: int| 0 <= j < k ==> (#[trigger] routes@[j])@ == self.routes@[j]@,
            decreases COLOUR_COUNT - k,
        {
            let route = self.routes[k].clone();
            routes.push(route);
            k += 1;
        }
        let copy = Traces { routes };
        proof {
            assert forall|c: Colour| copy.route(c) == self.route(c) by {
                c.lemma_tag_round_trip();
            }
        }
        copy
    }
}

impl Grid {
    /// Whether `colour` is in play and its endpoints are not yet connected.
    pub open spec fn pending(&self, endpoints: Endpoints, colour: Colour) -> bool {
        endpoints@.dom().contains(colour) && !self.reaches(
            Some(colour),
            endpoints@[colour].0,
            endpoints@[colour].1,
        )
    }

    /// The empty neighbours of `p`.
    pub open spec fn exits(&self, p: Point) -> Set<Point> {
        Set::new(|q: Point| self.in_bounds(q) && p.adjacent(q) && self.at(q) is Empty)
    }

    /// Whether `list` holds the empty neighbours of `p`, each once, in the
    /// order left, right, top, bottom.
    pub open spec fn lists_exits(&self, p: Point, list: Seq<Point>) -> bool {
        &&& forall|q: Point| #[trigger] list.contains(q) <==> self.exits(p).contains(q)
        &&& forall|a: int, b: int|
            0 <= a < b < list.len() ==> p.step_rank(#[trigger] list[a]) < p.step_rank(
                #[trigger] list[b],
            )
    }

    /// Whether `q` is the one empty neighbour of `p`.
    pub open spec fn sole_exit(&self, p: Point, q: Point) -> bool {
        self.exits(p).contains(q) && forall|other: Point| #[trigger]
            self.exits(p).contains(other) ==> other == q
    }

    /// The empty neighbours of `p`, each once, in the order left, right, top,
    /// bottom.
    pub fn free_neighbours(&self, p: Point) -> (list: Vec<Point>)
        requires
            self.wf(),
            self.in_bounds(p),
        ensures
            self.lists_exits(p, list@),
            list@.no_duplicates(),
            list@.len() <= 4,
            forall|q: Point| #[trigger] list@.contains(q) <==> self.exits(p).contains(q),
            self.exits(p).finite(),
            self.exits(p).len() == list@.len(),
    {
        let around = p.neighbors(self.width, self.height);
        proof {
            p.lemma_neighbours(self.width as int, self.height as int);
            p.lemma_neighbour_ranks(self.width as int, self.height as int);
        }
        let mut list: Vec<Point> = Vec::new();
        let mut j: usize = 0;
        while j < around.len()
            invariant
                self.wf(),
                j <= around.len(),
                around@.len() <= 4,
                around@.no_duplicates(),
                forall|q: Point| #[trigger]
                    around@.contains(q) <==> (q.x < self.width && q.y < self.height && p.adjacent(
                        q,
                    )),
                list@.len() <= j,
                list@.no_duplicates(),
                forall|a: int, b: int|
                    0 <= a < b < around@.len() ==> p.step_rank(#[trigger] around@[a])
                        < p.step_rank(#[trigger] around@[b]),
                forall|a: int, b: int|
                    0 <= a < b < list@.len() ==> p.step_rank(#[trigger] list@[a]) < p.step_rank(
                        #[trigger] list@[b],
                    ),
                forall|q: Point| #[trigger]
                    list@.contains(q) <==> (around@.subrange(0, j as int).contains(q) && self.at(
                        q,
                    ) is Empty),
            decreases around.len() - j,
        {
            let q = around[j];
            let ghost listed = list@;
            let ghost done = around@.subrange(0, j as int);
            let ghost more = around@.subrange(0, j + 1);
            proof {
                assert(around@.contains(q));
                assert(more =~= done.push(q));
                assert forall|r: Point| more.contains(r) <==> (done.contains(r) || r == q) by {
                    if done.contains(r) {
                        let i = choose|i: int| 0 <= i < done.len() && done[i] == r;
                        assert(more[i] == r);
                    }
                    if r == q {
                        assert(more[j as int] == r);
                    }
                }
                if done.contains(q) {
                    let i = choose|i: int| 0 <= i < done.len() && done[i] == q;
                    assert(around@[i] == around@[j as int]);
                }
            }
            match self.get(q) {
                Cell::Empty => {
                    list.push(q);
                    proof {
                        assert(list@ =~= listed.push(q));
                        assert forall|r: Point| list@.contains(r) <==> (listed.contains(r) || r
                            == q) by {
                            if listed.contains(r) {
                                let i = choose|i: int| 0 <= i < listed.len() && listed[i] == r;
                                assert(list@[i] == r);
                            }
                            if r == q {
                                assert(list@[listed.len() as int] == r);
                            }
                        }
                        assert(!listed.contains(q));
                        assert forall|a: int, b: int| 0 <= a < b < list@.len() implies p.step_rank(
                            #[trigger] list@[a],
                        ) < p.step_rank(#[trigger] list@[b]) by {
                            if b == listed.len() {
                                assert(listed.contains(listed[a]));
                                assert(done.contains(listed[a]));
                                let i = choose|i: int| 0 <= i < done.len() && done[i] == listed[a];
                                assert(around@[i] == listed[a]);
                                assert(p.step_rank(around@[i]) < p.step_rank(around@[j as int]));
                            } else {
                                assert(list@[a] == listed[a] && list@[b] == listed[b]);
                            }
                        }
                        assert forall|a: int, b: int|
                            0 <= a < list@.len() && 0 <= b < list@.len() && a != b implies list@[a]
                            != list@[b] by {
                            if a < listed.len() {
                                assert(listed.contains(list@[a]));
                            }
                            if b < listed.len() {
                                assert(listed.contains(list@[b]));
                            }
                        }
                    }
                },
                _ => {},
            }
            proof {
                assert forall|r: Point| #[trigger]
                    list@.contains(r) <==> (more.contains(r) && self.at(r) is Empty) by {
                    assert(listed.contains(r) <==> (done.contains(r) && self.at(r) is Empty));
                }
            }
            j += 1;
        }
        proof {
            assert(around@.subrange(0, j as int) =~= around@);
            assert(list@.to_set() =~= self.exits(p));
            list@.unique_seq_to_set();
        }
        list
    }

    /// For each colour, whether it is in play with its endpoints not yet
    /// connected.
    pub fn pending_colours(&self, endpoints: &Endpoints) -> (flags: Vec<bool>)
        requires
            self.wf(),
            endpoints.within(self.width as int, self.height as int),
        ensures
            flags@.len() == COLOUR_COUNT,
            forall|c: Colour| #[trigger] flags@[c.tag()] == self.pending(*endpoints, c),
    {
        let mut flags: Vec<bool> = Vec::new();
        let mut k: usize = 0;
        while k < COLOUR_COUNT
            invariant
                self.wf(),
                endpoints.within(self.width as int, self.height as int),
                k <= COLOUR_COUNT,
                flags@.len() == k,
                forall|c: Colour|
                    c.tag() < k ==> #[trigger] flags@[c.tag()] == self.pending(*endpoints, c),
            decreases COLOUR_COUNT - k,
        {
            let colour = Colour::from_index(k);
            let flag = match endpoints.get(colour) {
                Some((a, b)) => {
                    assert(endpoints@.dom().contains(colour));
                    !self.connected(colour, a, b)
                },
                None => false,
            };
            flags.push(flag);
            proof {
                assert forall|c: Colour| c.tag() < k + 1 implies #[trigger] flags@[c.tag()]
                    == self.pending(*endpoints, c) by {
                    c.lemma_tag_round_trip();
                    if c.tag() == k {
                        assert(c == colour);
                    }
                }
            }
            k += 1;
        }
        proof {
            assert forall|c: Colour| c.tag() < COLOUR_COUNT by {
                c.lemma_tag_round_trip();
            }
        }
        flags
    }
}

/// Whether `a` lies one step from `b`.
pub fn is_adjacent(a: Point, b: Point) -> (r: bool)
    ensures
        r == a.adjacent(b),
{
    (a.y == b.y && ((a.x < usize::MAX && a.x + 1 == b.x) || (b.x < usize::MAX && b.x + 1 == a.x)))
        || (a.x == b.x && ((a.y < usize::MAX && a.y + 1 == b.y) || (b.y < usize::MAX && b.y + 1
        == a.y)))
}

impl Grid {
    /// How many empty neighbours the head of `colour` has.
    pub open spec fn head_exits(&self, traces: &Traces, colour: Colour) -> nat {
        self.exits(traces.head(colour)->Some_0).len()
    }

    /// Whether the head of the pending colour `colour` has `p` as its one
    /// empty neighbour.
    pub open spec fn cornered(
        &self,
        endpoints: Endpoints,
        traces: &Traces,
        colour: Colour,
        p: Point,
    ) -> bool {
        self.pending(endpoints, colour) && self.sole_exit(traces.head(colour)->Some_0, p)
    }

    /// Whether the head of the pending colour `colour` lies next to `p`.
    pub open spec fn courts(
        &self,
        endpoints: Endpoints,
        traces: &Traces,
        colour: Colour,
        p: Point,
    ) -> bool {
        self.pending(endpoints, colour) && (traces.head(colour)->Some_0).adjacent(p)
    }

    /// Whether `p` is an empty square next to the head of the pending colour
    /// `colour` and next to the head of no other pending colour.
    pub open spec fn reserved(
        &self,
        endpoints: Endpoints,
        traces: &Traces,
        colour: Colour,
        p: Point,
    ) -> bool {
        &&& self.in_bounds(p)
        &&& self.at(p) is Empty
        &&& self.courts(endpoints, traces, colour, p)
        &&& forall|other: Colour| #[trigger]
            self.courts(endpoints, traces, other, p) ==> other == colour
    }

    /// Whether `active` is the colour to move next: the pending colour whose
    /// head has the fewest empty neighbours, of several such colours the
    /// first in the order of colours; none where no colour is pending.
    pub open spec fn is_active(
        &self,
        endpoints: Endpoints,
        traces: &Traces,
        active: Option<Colour>,
    ) -> bool {
        match active {
            Some(active) => {
                &&& self.pending(endpoints, active)
                &&& forall|c: Colour| #[trigger]
                    self.pending(endpoints, c) ==> self.head_exits(traces, active)
                        < self.head_exits(traces, c) || (self.head_exits(traces, active)
                        == self.head_exits(traces, c) && active.tag() <= c.tag())
            },
            None => forall|c: Colour| !#[trigger] self.pending(endpoints, c),
        }
    }

    /// Whether some empty cell has three or more neighbours that are not
    /// empty.
    pub open spec fn has_dead_end(&self) -> bool {
        exists|p: Point| self.boxed_in(p)
    }

    /// Whether the board is the board `before` with the empty cell at `p`
    /// turned into a path cell of `colour`.
    pub open spec fn claims_one(&self, before: &Grid, p: Point, colour: Colour) -> bool {
        &&& self.wf()
        &&& self.width == before.width
        &&& self.height == before.height
        &&& before.in_bounds(p)
        &&& before.at(p) is Empty
        &&& self.at(p) == (Cell::Path { colour })
        &&& forall|q: Point| q != p && before.in_bounds(q) ==> self.at(q) == before.at(q)
    }

    /// Whether the move of `colour` to `p` is the forced move of the state:
    /// `colour` is the first colour whose head has one empty neighbour, `p`;
    /// or no head is so placed, and `p` is the first square, reading row by
    /// row, that lies next to the head of one pending colour only, `colour`.
    pub open spec fn forced(
        &self,
        endpoints: Endpoints,
        traces: &Traces,
        colour: Colour,
        p: Point,
    ) -> bool {
        ||| {
            &&& self.cornered(endpoints, traces, colour, p)
            &&& forall|c: Colour, q: Point|
                c.tag() < colour.tag() ==> !#[trigger] self.cornered(endpoints, traces, c, q)
        }
        ||| {
            &&& forall|c: Colour, q: Point| !#[trigger] self.cornered(endpoints, traces, c, q)
            &&& self.reserved(endpoints, traces, colour, p)
            &&& forall|c: Colour, q: Point|
                q.precedes(p) ==> !#[trigger] self.reserved(endpoints, traces, c, q)
        }
    }
}

/// The pending colour whose head has the fewest empty neighbours; of several
/// such colours the first in the order of colours. `None` where no colour is
/// pending.
pub fn get_active_colour(grid: &Grid, endpoints: &Endpoints, traces: &Traces) -> (r: Option<
    Colour,
>)
    requires
        grid.wf(),
        traces.wf(),
        endpoints.within(grid.width as int, grid.height as int),
        traces.follows(*endpoints, grid.width as int, grid.height as int),
    ensures
        grid.is_active(*endpoints, traces, r),
{
    let flags = grid.pending_colours(endpoints);
    let mut min_moves: usize = usize::MAX;
    let mut active: Option<Colour> = None;
    let mut k: usize = 0;
    while k < COLOUR_COUNT
        invariant
            grid.wf(),
            traces.wf(),
            endpoints.within(grid.width as int, grid.height as int),
            traces.follows(*endpoints, grid.width as int, grid.height as int),
            k <= COLOUR_COUNT,
            flags@.len() == COLOUR_COUNT,
            forall|c: Colour| #[trigger] flags@[c.tag()] == grid.pending(*endpoints, c),
            match active {
                Some(best) => {
                    &&& best.tag() < k
                    &&& grid.pending(*endpoints, best)
                    &&& min_moves == grid.head_exits(traces, best)
                    &&& forall|c: Colour|
                        c.tag() < k && #[trigger] grid.pending(*endpoints, c) ==> min_moves
                            < grid.head_exits(traces, c) || (min_moves == grid.head_exits(
                            traces,
                            c,
                        ) && best.tag() <= c.tag())
                },
                None => min_moves == usize::MAX && forall|c: Colour|
                    c.tag() < k ==> !#[trigger] grid.pending(*endpoints, c),
            },
        decreases COLOUR_COUNT - k,
    {
        let colour = Colour::from_index(k);
        proof {
            assert forall|c: Colour| c.tag() == k implies c == colour by {
                c.lemma_tag_round_trip();
            }
            assert(flags@[colour.tag()] == grid.pending(*endpoints, colour));
        }
        if flags[k] {
            assert(endpoints@.dom().contains(colour));
            match traces.head_of(colour) {
                Some(head) => {
                    let moves = grid.free_neighbours(head).len();
                    if moves < min_moves {
                        min_moves = moves;
                        active = Some(colour);
                    }
                },
                None => {},
            }
        }
        k += 1;
    }
    proof {
        assert forall|c: Colour| c.tag() < COLOUR_COUNT by {
            c.lemma_tag_round_trip();
        }
    }
    active
}

/// The forced move of the state, if there is one: the first pending colour
/// whose head has exactly one empty neighbour goes there; failing that, the
/// first empty square, reading row by row, that lies next to the head of
/// exactly one pending colour is taken by that colour.
pub fn get_forced_moves(grid: &Grid, endpoints: &Endpoints, traces: &Traces) -> (r: Option<
    (Colour, Point),
>)
    requires
        grid.wf(),
        traces.wf(),
        endpoints.within(grid.width as int, grid.height as int),
        traces.follows(*endpoints, grid.width as int, grid.height as int),
    ensures
        match r {
            Some((colour, p)) => grid.forced(*endpoints, traces, colour, p),
            None => forall|c: Colour, q: Point|
                !grid.forced(*endpoints, traces, c, q),
        },
{
    let flags = grid.pending_colours(endpoints);
    let width = grid.width;
    let height = grid.height;
    let mut k: usize = 0;
    while k < COLOUR_COUNT
        invariant
            grid.wf(),
            traces.wf(),
            endpoints.within(grid.width as int, grid.height as int),
            traces.follows(*endpoints, grid.width as int, grid.height as int),
            k <= COLOUR_COUNT,
            flags@.len() == COLOUR_COUNT,
            forall|c: Colour| #[trigger] flags@[c.tag()] == grid.pending(*endpoints, c),
            forall|c: Colour, q: Point|
                c.tag() < k ==> !#[trigger] grid.cornered(*endpoints, traces, c, q),
        decreases COLOUR_COUNT - k,
    {
        let colour = Colour::from_index(k);
        proof {
            assert forall|c: Colour| c.tag() == k implies c == colour by {
                c.lemma_tag_round_trip();
            }
            assert(flags@[colour.tag()] == grid.pending(*endpoints, colour));
        }
        if flags[k] {
            assert(endpoints@.dom().contains(colour));
            match traces.head_of(colour) {
                Some(head) => {
                    let moves = grid.free_neighbours(head);
                    if moves.len() == 1 {
                        let p = moves[0];
                        proof {
                            assert(moves@.contains(moves@[0]));
                            assert forall|other: Point| #[trigger]
                                grid.exits(head).contains(other) implies other == p by {
                                assert(moves@.contains(other));
                                let i = choose|i: int| 0 <= i < moves@.len() && moves@[i] == other;
                            }
                            assert(grid.cornered(*endpoints, traces, colour, p));
                        }
                        return Some((colour, p));
                    }
                    proof {
                        assert forall|q: Point| !grid.sole_exit(head, q) by {
                            if grid.sole_exit(head, q) {
                                assert(moves@.contains(q));
                                assert forall|i: int| 0 <= i < moves@.len() implies moves@[i]
                                    == q by {
                                    assert(moves@.contains(moves@[i]));
                                }
                                if moves@.len() >= 2 {
                                    assert(moves@[0] == q && moves@[1] == q);
                                }
                            }
                        }
                    }
                },
                None => {},
            }
        }
        k += 1;
    }
    proof {
        assert forall|c: Colour| c.tag() < COLOUR_COUNT by {
            c.lemma_tag_round_trip();
        }
    }
    let mut y: usize = 0;
    while y < height
        invariant
            grid.wf(),
            traces.wf(),
            width == grid.width,
            height == grid.height,
            endpoints.within(grid.width as int, grid.height as int),
            traces.follows(*endpoints, grid.width as int, grid.height as int),
            y <= height,
            flags@.len() == COLOUR_COUNT,
            forall|c: Colour| #[trigger] flags@[c.tag()] == grid.pending(*endpoints, c),
            forall|c: Colour, q: Point| !#[trigger] grid.cornered(*endpoints, traces, c, q),
            forall|c: Colour, q: Point|
                q.y < y ==> !#[trigger] grid.reserved(*endpoints, traces, c, q),
        decreases height - y,
    {
        let mut x: usize = 0;
        while x < width
            invariant
                grid.wf(),
                traces.wf(),
                width == grid.width,
                height == grid.height,
                endpoints.within(grid.width as int, grid.height as int),
                traces.follows(*endpoints, grid.width as int, grid.height as int),
                y < height,
                x <= width,
                flags@.len() == COLOUR_COUNT,
                forall|c: Colour| #[trigger] flags@[c.tag()] == grid.pending(*endpoints, c),
                forall|c: Colour, q: Point| !#[trigger] grid.cornered(*endpoints, traces, c, q),
                forall|c: Colour, q: Point|
                    q.precedes(Point { x, y }) ==> !#[trigger] grid.reserved(
                        *endpoints,
                        traces,
                        c,
                        q,
                    ),
            decreases width - x,
        {
            let p = Point::new(x, y);
            match grid.get(p) {
                Cell::Empty => {
                    let suitors = suitors_of(grid, endpoints, traces, &flags, p);
                    if suitors.len() == 1 {
                        let colour = suitors[0];
                        proof {
                            assert(suitors@.contains(suitors@[0]));
                            assert forall|other: Colour| #[trigger]
                                grid.courts(*endpoints, traces, other, p) implies other
                                == colour by {
                                assert(suitors@.contains(other));
                                let i = choose|i: int|
                                    0 <= i < suitors@.len() && suitors@[i] == other;
                            }
                            assert(grid.reserved(*endpoints, traces, colour, p));
                            assert forall|c: Colour, q: Point| q.precedes(p) implies !#[trigger] grid.reserved(
                                *endpoints,
                                traces,
                                c,
                                q,
                            ) by {}
                        }
                        return Some((colour, p));
                    }
                    proof {
                        assert forall|c: Colour| !grid.reserved(*endpoints, traces, c, p) by {
                            if grid.reserved(*endpoints, traces, c, p) {
                                assert(suitors@.contains(c));
                                assert forall|i: int| 0 <= i < suitors@.len() implies suitors@[i]
                                    == c by {
                                    assert(suitors@.contains(suitors@[i]));
                                }
                                if suitors@.len() >= 2 {
                                    assert(suitors@[0] == c && suitors@[1] == c);
                                }
                            }
                        }
                    }
                },
                _ => {},
            }
            proof {
                assert forall|c: Colour, q: Point|
                    q.precedes(Point { x: (x + 1) as usize, y }) implies !#[trigger] grid.reserved(
                    *endpoints,
                    traces,
                    c,
                    q,
                ) by {
                    if !q.precedes(Point { x, y }) {
                        assert(q == p);
                    }
                }
            }
            x += 1;
        }
        y += 1;
    }
    proof {
        assert forall|c: Colour, q: Point| !grid.reserved(*endpoints, traces, c, q) by {
            if grid.reserved(*endpoints, traces, c, q) {
                assert(q.y < y);
            }
        }
    }
    None
}

/// The pending colours whose head lies next to `p`, each once, in the order
/// of colours.
fn suitors_of(
    grid: &Grid,
    endpoints: &Endpoints,
    traces: &Traces,
    flags: &Vec<bool>,
    p: Point,
) -> (list: Vec<Colour>)
    requires
        traces.wf(),
        traces.follows(*endpoints, grid.width as int, grid.height as int),
        flags@.len() == COLOUR_COUNT,
        forall|c: Colour| #[trigger] flags@[c.tag()] == grid.pending(*endpoints, c),
    ensures
        list@.no_duplicates(),
        forall|c: Colour| #[trigger] list@.contains(c) <==> grid.courts(*endpoints, traces, c, p),
{
    let mut list: Vec<Colour> = Vec::new();
    let mut k: usize = 0;
    while k < COLOUR_COUNT
        invariant
            traces.wf(),
            traces.follows(*endpoints, grid.width as int, grid.height as int),
            k <= COLOUR_COUNT,
            flags@.len() == COLOUR_COUNT,
            forall|c: Colour| #[trigger] flags@[c.tag()] == grid.pending(*endpoints, c),
            list@.no_duplicates(),
            forall|c: Colour| #[trigger]
                list@.contains(c) <==> (c.tag() < k && grid.courts(*endpoints, traces, c, p)),
        decreases COLOUR_COUNT - k,
    {
        let colour = Colour::from_index(k);
        let ghost listed = list@;
        let mut takes = false;
        proof {
            assert forall|c: Colour| c.tag() == k implies c == colour by {
                c.lemma_tag_round_trip();
            }
            assert(flags@[colour.tag()] == grid.pending(*endpoints, colour));
        }
        if flags[k] {
            assert(endpoints@.dom().contains(colour));
            match traces.head_of(colour) {
                Some(head) => {
                    if is_adjacent(head, p) {
                        takes = true;
                    }
                },
                None => {},
            }
        }
        assert(takes == grid.courts(*endpoints, traces, colour, p));
        if takes {
            list.push(colour);
            proof {
                assert(list@ =~= listed.push(colour));
                assert(!listed.contains(colour));
                assert forall|a: int, b: int|
                    0 <= a < list@.len() && 0 <= b < list@.len() && a != b implies list@[a]
                    != list@[b] by {
                    if a < listed.len() {
                        assert(listed.contains(list@[a]));
                    }
                    if b < listed.len() {
                        assert(listed.contains(list@[b]));
                    }
                }
            }
        }
        proof {
            assert forall|c: Colour| #[trigger]
                list@.contains(c) <==> (c.tag() < k + 1 && grid.courts(
                    *endpoints,
                    traces,
                    c,
                    p,
                )) by {
                assert(listed.contains(c) <==> (c.tag() < k && grid.courts(
                    *endpoints,
                    traces,
                    c,
                    p,
                )));
                if takes {
                    if listed.contains(c) {
                        let i = choose|i: int| 0 <= i < listed.len() && listed[i] == c;
                        assert(list@[i] == c);
                    }
                    if c == colour {
                        assert(list@[listed.len() as int] == c);
                    }
                    if list@.contains(c) {
                        let i = choose|i: int| 0 <= i < list@.len() && list@[i] == c;
                        if i < listed.len() {
                            assert(listed[i] == c);
                        }
                    }
                }
            }
        }
        k += 1;
    }
    proof {
        assert forall|c: Colour| c.tag() < COLOUR_COUNT by {
            c.lemma_tag_round_trip();
        }
    }
    list
}

/// Five to the power `n`.
pub open spec fn pow5(n: nat) -> nat
    decreases n,
{
    if n == 0 {
        1
    } else {
        5 * pow5((n - 1) as nat)
    }
}

/// Powers of five are at least one and grow with the exponent.
proof fn lemma_pow5_grows(a: nat, b: nat)
    requires
        a <= b,
    ensures
        1 <= pow5(a) <= pow5(b),
    decreases b,
{
    if a < b {
        lemma_pow5_grows(a, (b - 1) as nat);
    } else if b > 0 {
        lemma_pow5_grows((a - 1) as nat, (b - 1) as nat);
    }
}

/// A partial solution waiting in the queue of the search.
#[derive(Debug)]
pub struct State {
    /// The board with the cells claimed so far.
    pub grid: Grid,
    /// The trace of every colour; its last square is the head of the colour.
    pub traces: Traces,
    /// The number of moves chosen so far.
    pub cost: usize,
    /// `cost` plus the number of cells still empty.
    pub estimate: usize,
}

impl State {
    /// Whether the state is a partial solution of the board `start`: its
    /// board extends `start`, every colour has a head, and the estimate is the
    /// cost plus the number of empty cells, no more than the board has
    /// squares.
    pub open spec fn sound(&self, start: &Grid, endpoints: Endpoints) -> bool {
        &&& self.grid.wf()
        &&& self.grid.extends(start, endpoints)
        &&& self.traces.wf()
        &&& self.traces.follows(endpoints, start.width as int, start.height as int)
        &&& self.cost + self.grid.empties().len() <= start.area()
        &&& self.estimate == self.cost + self.grid.empties().len()
    }

    /// Whether the state leaves the queue before `other`, whichever of the two
    /// came first: its estimate is lower, or the estimates are equal and it
    /// has fewer cells empty.
    pub open spec fn beats(&self, other: &State) -> bool {
        self.estimate < other.estimate || (self.estimate == other.estimate && self.cost
            > other.cost)
    }

    /// The weight of the state in the measure of the work left.
    pub open spec fn load(&self) -> nat {
        pow5(self.grid.empties().len())
    }

    /// Whether the state leaves the queue before `other`, whichever of the two
    /// came first.
    pub fn goes_before(&self, other: &State) -> (b: bool)
        ensures
            b == self.beats(other),
    {
        self.estimate < other.estimate || (self.estimate == other.estimate && self.cost
            > other.cost)
    }
}

/// The sum of the weights of the states of `open`.
pub open spec fn total_load(open: Seq<State>) -> nat
    decreases open.len(),
{
    if open.len() == 0 {
        0
    } else {
        total_load(open.drop_last()) + open.last().load()
    }
}

/// A state that joins the queue adds its weight.
proof fn lemma_load_after_push(open: Seq<State>, state: State)
    ensures
        total_load(open.push(state)) == total_load(open) + state.load(),
{
    assert(open.push(state).drop_last() =~= open);
}

/// A state that leaves the queue takes its weight with it.
proof fn lemma_load_after_remove(open: Seq<State>, i: int)
    requires
        0 <= i < open.len(),
    ensures
        total_load(open.remove(i)) + open[i].load() == total_load(open),
    decreases open.len(),
{
    if i == open.len() - 1 {
        assert(open.remove(i) =~= open.drop_last());
    } else {
        lemma_load_after_remove(open.drop_last(), i);
        assert(open.remove(i).drop_last() =~= open.drop_last().remove(i));
        assert(open.remove(i).last() == open.last());
    }
}

/// Whether the state at position `i` is the one to leave `open` next: no
/// state beats it, and it beats every state that came before it.
pub open spec fn picks(open: Seq<State>, i: int) -> bool {
    &&& 0 <= i < open.len()
    &&& forall|j: int| 0 <= j < open.len() ==> !(#[trigger] open[j]).beats(&open[i])
    &&& forall|j: int| 0 <= j < i ==> open[i].beats(&#[trigger] open[j])
}

/// Takes the next state out of the queue: one with the lowest estimate; of
/// those, one with the fewest cells empty; of those, the one that has waited
/// longest.
pub fn pop_best(open: &mut Vec<State>) -> (state: State)
    requires
        old(open)@.len() > 0,
    ensures
        exists|i: int|
            #[trigger] picks(old(open)@, i) && state == old(open)@[i] && final(open)@ == old(
                open,
            )@.remove(i),
{
    let mut best: usize = 0;
    let mut j: usize = 1;
    while j < open.len()
        invariant
            0 <= best < j <= open.len(),
            forall|a: int| 0 <= a < j ==> !(#[trigger] open@[a]).beats(&open@[best as int]),
            forall|a: int| 0 <= a < best ==> open@[best as int].beats(&#[trigger] open@[a]),
        decreases open.len() - j,
    {
        if open[j].goes_before(&open[best]) {
            best = j;
        }
        j += 1;
    }
    let state = open.remove(best);
    assert(picks(old(open)@, best as int));
    state
}

impl Grid {
    /// The code of a cell in the digest of a board.
    pub open spec fn cell_code(cell: Cell) -> u64 {
        match cell {
            Cell::Empty => 0,
            Cell::Endpoint { colour } => (1 + colour.tag()) as u64,
            Cell::Path { colour } => (100 + colour.tag()) as u64,
        }
    }

    /// The digest `acc` taken one cell further: times 31, plus the code of the
    /// cell, in 64-bit wrapping arithmetic.
    pub open spec fn mix(acc: u64, cell: Cell) -> u64 {
        vstd::wrapping::u64_specs::wrapping_add(
            vstd::wrapping::u64_specs::wrapping_mul(acc, 31),
            Grid::cell_code(cell),
        )
    }

    /// The digest `acc` taken over the cells of `row`.
    pub open spec fn mix_row(acc: u64, row: Seq<Cell>) -> u64
        decreases row.len(),
    {
        if row.len() == 0 {
            acc
        } else {
            Grid::mix(Grid::mix_row(acc, row.drop_last()), row.last())
        }
    }

    /// The digest `acc` taken over the cells of `rows`, row by row.
    pub open spec fn mix_rows(acc: u64, rows: Seq<Seq<Cell>>) -> u64
        decreases rows.len(),
    {
        if rows.len() == 0 {
            acc
        } else {
            Grid::mix_row(Grid::mix_rows(acc, rows.drop_last()), rows.last())
        }
    }

    /// The digest of the cells of the board, read row by row.
    pub open spec fn digest(&self) -> u64 {
        Grid::mix_rows(0, self@)
    }

    /// The digest of the cells of the board, by which the search knows a
    /// board that it has seen before.
    pub fn grid_hash(&self) -> (h: u64)
        requires
            self.wf(),
        ensures
            h == self.digest(),
    {
        let mut acc: u64 = 0;
        let mut y: usize = 0;
        while y < self.height
            invariant
                self.wf(),
                y <= self.height,
                acc == Grid::mix_rows(0, self@.subrange(0, y as int)),
            decreases self.height - y,
        {
            let ghost row_start = acc;
            let mut x: usize = 0;
            while x < self.width
                invariant
                    self.wf(),
                    y < self.height,
                    x <= self.width,
                    acc == Grid::mix_row(row_start, self@[y as int].subrange(0, x as int)),
                decreases self.width - x,
            {
                let cell = self.cells[y][x];
                let code: u64 = match cell {
                    Cell::Empty => 0,
                    Cell::Endpoint { colour } => 1 + (colour.index() as u64),
                    Cell::Path { colour } => 100 + (colour.index() as u64),
                };
                proof {
                    let more = self@[y as int].subrange(0, x + 1);
                    assert(more.drop_last() =~= self@[y as int].subrange(0, x as int));
                    assert(more.last() == cell);
                }
                acc = acc.wrapping_mul(31).wrapping_add(code);
                x += 1;
            }
            proof {
                assert(self@[y as int].subrange(0, x as int) =~= self@[y as int]);
                let more = self@.subrange(0, y + 1);
                assert(more.drop_last() =~= self@.subrange(0, y as int));
                assert(more.last() == self@[y as int]);
            }
            y += 1;
        }
        proof {
            assert(self@.subrange(0, y as int) =~= self@);
        }
        acc
    }

    /// Claiming one empty cell extends the board and leaves one cell fewer
    /// empty.
    pub proof fn lemma_claim_one(&self, before: &Grid, endpoints: Endpoints, p: Point, colour: Colour)
        requires
            before.in_bounds(p),
            before.at(p) is Empty,
            endpoints@.dom().contains(colour),
            self.width == before.width,
            self.height == before.height,
            self.at(p) == (Cell::Path { colour }),
            forall|q: Point| q != p && before.in_bounds(q) ==> self.at(q) == before.at(q),
        ensures
            self.extends(before, endpoints),
            before.empties().finite(),
            self.empties().finite(),
            self.empties().len() + 1 == before.empties().len(),
    {
        before.lemma_empties_finite();
        self.lemma_empties_finite();
        assert(self.empties() =~= before.empties().remove(p));
    }

    /// Extending a board leaves no more cells empty than there were.
    pub proof fn lemma_extension_fills(&self, before: &Grid, endpoints: Endpoints)
        requires
            self.extends(before, endpoints),
        ensures
            self.empties().len() <= before.empties().len(),
    {
        before.lemma_empties_finite();
        assert(self.empties().subset_of(before.empties())) by {
            assert forall|q: Point| self.empties().contains(q) implies before.empties().contains(
                q,
            ) by {
                assert(before.in_bounds(q));
            }
        }
        vstd::set_lib::lemma_len_subset(self.empties(), before.empties());
    }
}

/// Whether `grid1` and `traces1` are `grid0` and `traces0` after the forced
/// move of the state, which takes `colour` to `p`.
pub open spec fn forced_step(
    grid0: Grid,
    traces0: Traces,
    grid1: Grid,
    traces1: Traces,
    endpoints: Endpoints,
    colour: Colour,
    p: Point,
) -> bool {
    &&& grid0.forced(endpoints, &traces0, colour, p)
    &&& grid1.claims_one(&grid0, p, colour)
    &&& traces1.moved(&traces0, colour, p)
}

/// Whether `n` forced moves, one after another, lead from `grid0` and
/// `traces0` to `grid1` and `traces1`, where there is no forced move left.
pub open spec fn propagated(
    n: nat,
    grid0: Grid,
    traces0: Traces,
    grid1: Grid,
    traces1: Traces,
    endpoints: Endpoints,
) -> bool
    decreases n,
{
    if n == 0 {
        &&& grid1 == grid0
        &&& traces1 == traces0
        &&& forall|c: Colour, q: Point| !grid0.forced(endpoints, &traces0, c, q)
    } else {
        exists|grid_mid: Grid, traces_mid: Traces, colour: Colour, p: Point|
            #[trigger] forced_step(grid0, traces0, grid_mid, traces_mid, endpoints, colour, p)
                && propagated((n - 1) as nat, grid_mid, traces_mid, grid1, traces1, endpoints)
    }
}

/// Makes the forced moves of the state, one after another, until there is
/// none left.
pub fn propagate(grid: &mut Grid, traces: &mut Traces, endpoints: &Endpoints)
    requires
        old(grid).wf(),
        old(traces).wf(),
        endpoints.within(old(grid).width as int, old(grid).height as int),
        old(traces).follows(*endpoints, old(grid).width as int, old(grid).height as int),
    ensures
        final(grid).wf(),
        final(grid).extends(old(grid), *endpoints),
        final(traces).wf(),
        final(traces).follows(*endpoints, old(grid).width as int, old(grid).height as int),
        exists|n: nat| #[trigger]
            propagated(n, *old(grid), *old(traces), *final(grid), *final(traces), *endpoints),
{
    let ghost mut steps: nat = 0;
    proof {
        grid.lemma_extends_itself(*endpoints);
        grid.lemma_empties_finite();
    }
    loop
        invariant
            grid.wf(),
            grid.extends(old(grid), *endpoints),
            traces.wf(),
            endpoints.within(grid.width as int, grid.height as int),
            traces.follows(*endpoints, grid.width as int, grid.height as int),
            forall|n: nat, g: Grid, t: Traces| #[trigger]
                propagated(n, *grid, *traces, g, t, *endpoints) ==> propagated(
                    n + steps,
                    *old(grid),
                    *old(traces),
                    g,
                    t,
                    *endpoints,
                ),
        ensures
            grid.wf(),
            grid.extends(old(grid), *endpoints),
            traces.wf(),
            traces.follows(*endpoints, grid.width as int, grid.height as int),
            propagated(steps, *old(grid), *old(traces), *grid, *traces, *endpoints),
        decreases grid.empties().len(),
    {
        match get_forced_moves(grid, endpoints, traces) {
            Some((colour, p)) => {
                let ghost before = *grid;
                let ghost heads = *traces;
                proof {
                    assert(before.in_bounds(p) && before.at(p) is Empty);
                    assert(endpoints@.dom().contains(colour));
                }
                let _ = grid.set(p, Cell::Path { colour });
                traces.advance(colour, p);
                proof {
                    grid.lemma_claim_one(&before, *endpoints, p, colour);
                    grid.lemma_extends_transitive(&before, old(grid), *endpoints);
                    assert forall|c: Colour| #[trigger] endpoints@.dom().contains(c) implies (
                    match traces.head(c) {
                        Some(h) => h.x < grid.width && h.y < grid.height,
                        None => false,
                    }) by {
                        if c != colour {
                            assert(traces.route(c) == heads.route(c));
                        }
                    }
                    let now = *grid;
                    let trail = *traces;
                    assert(forced_step(before, heads, now, trail, *endpoints, colour, p));
                    assert forall|n: nat, g: Grid, t: Traces| #[trigger]
                        propagated(n, now, trail, g, t, *endpoints) implies propagated(
                        n + steps + 1,
                        *old(grid),
                        *old(traces),
                        g,
                        t,
                        *endpoints,
                    ) by {
                        assert(propagated((n + 1) as nat, before, heads, g, t, *endpoints));
                    }
                    steps = steps + 1;
                }
            },
            None => {
                proof {
                    assert(propagated(0, *grid, *traces, *grid, *traces, *endpoints));
                }
                break;
            },
        }
    }
}

impl State {
    /// Whether `next` is the state that the move of `colour` to `p` makes of
    /// the state: the cell is claimed, the head moved, the forced moves made,
    /// and the move counted.
    pub open spec fn grows_to(
        &self,
        colour: Colour,
        p: Point,
        next: &State,
        endpoints: Endpoints,
    ) -> bool {
        exists|stepped: Grid, moved: Traces, n: nat|
            {
                &&& stepped.claims_one(&self.grid, p, colour)
                &&& moved.moved(&self.traces, colour, p)
                &&& #[trigger] propagated(n, stepped, moved, next.grid, next.traces, endpoints)
                &&& next.cost == self.cost + 1
                &&& next.estimate == next.cost + next.grid.empties().len()
            }
    }

    /// Whether the state is not worth keeping: it has a dead end or is
    /// stranded.
    pub open spec fn rejected(&self, endpoints: Endpoints) -> bool {
        self.grid.has_dead_end() || self.grid.is_stranded(endpoints, &self.traces)
    }

    /// Whether the state is the first state of the search on `grid`: the
    /// board as it is, every colour on its first endpoint, no move made.
    pub open spec fn begins(&self, grid: &Grid, endpoints: Endpoints) -> bool {
        &&& self.grid == *grid
        &&& self.traces.starts(endpoints)
        &&& self.cost == 0
        &&& self.estimate == grid.empties().len()
    }
}

/// Whether growing `state` by the moves of `colour` to the squares of `moves`
/// from position `j` on makes the queue `open1` of the queue `open0`: each
/// state grown joins the end of the queue unless it is rejected.
pub open spec fn expanded(
    open0: Seq<State>,
    open1: Seq<State>,
    state: State,
    colour: Colour,
    moves: Seq<Point>,
    j: int,
    endpoints: Endpoints,
) -> bool
    decreases moves.len() - j,
{
    if j < 0 || j >= moves.len() {
        open1 == open0
    } else {
        exists|next: State|
            #[trigger] state.grows_to(colour, moves[j], &next, endpoints) && expanded(
                if next.rejected(endpoints) {
                    open0
                } else {
                    open0.push(next)
                },
                open1,
                state,
                colour,
                moves,
                j + 1,
                endpoints,
            )
    }
}

/// Whether one turn of the search makes the queue `open1` and the set
/// `closed1` of the queue `open0` and the set `closed0`, the state at
/// position `i` being taken, `active` being the colour to move and `moves`
/// the moves open to it.
///
/// The state taken is the best of the queue, and its board is not solved. If
/// the digest of its board is in the set, the state is dropped. If not, the
/// digest joins the set, and the state is grown by each move of the colour
/// to move.
pub open spec fn turn_at(
    open0: Seq<State>,
    closed0: Set<u64>,
    open1: Seq<State>,
    closed1: Set<u64>,
    endpoints: Endpoints,
    i: int,
    active: Option<Colour>,
    moves: Seq<Point>,
) -> bool {
    &&& picks(open0, i)
    &&& !open0[i].grid.solved(endpoints)
    &&& if closed0.contains(open0[i].grid.digest()) {
        open1 == open0.remove(i) && closed1 == closed0
    } else {
        &&& closed1 == closed0.insert(open0[i].grid.digest())
        &&& open0[i].grid.is_active(endpoints, &open0[i].traces, active)
        &&& match active {
            None => open1 == open0.remove(i),
            Some(colour) => {
                &&& open0[i].grid.lists_exits(open0[i].traces.head(colour)->Some_0, moves)
                &&& expanded(open0.remove(i), open1, open0[i], colour, moves, 0, endpoints)
            },
        }
    }
}

/// Whether one turn of the search makes the queue `open1` and the set
/// `closed1` of the queue `open0` and the set `closed0`.
pub open spec fn turn(
    open0: Seq<State>,
    closed0: Set<u64>,
    open1: Seq<State>,
    closed1: Set<u64>,
    endpoints: Endpoints,
) -> bool {
    exists|i: int, active: Option<Colour>, moves: Seq<Point>| #[trigger]
        turn_at(open0, closed0, open1, closed1, endpoints, i, active, moves)
}

/// Whether the best state of the queue `open` holds a solved board, which is
/// `result`.
pub open spec fn arrives(open: Seq<State>, endpoints: Endpoints, result: Option<Grid>) -> bool {
    exists|i: int| #[trigger]
        picks(open, i) && open[i].grid.solved(endpoints) && result == Some(open[i].grid)
}

/// Whether the search, begun with the queue `open` and the set `closed` of
/// digests seen, ends after `n` turns with `result`: with the board of the
/// first state that leaves the queue solved, or without a board when the
/// queue runs empty.
pub open spec fn explored(
    n: nat,
    open: Seq<State>,
    closed: Set<u64>,
    endpoints: Endpoints,
    result: Option<Grid>,
) -> bool
    decreases n,
{
    if open.len() == 0 {
        result is None
    } else if n == 0 {
        false
    } else {
        ||| arrives(open, endpoints, result)
        ||| exists|open1: Seq<State>, closed1: Set<u64>|
            #[trigger] turn(open, closed, open1, closed1, endpoints) && explored(
                (n - 1) as nat,
                open1,
                closed1,
                endpoints,
                result,
            )
    }
}

/// Searches for a solved board that extends `grid`, best partial board
/// first, and returns the first one that leaves the queue solved.
///
/// A board that is returned is solved, has every endpoint of `grid` where it
/// was, and differs from `grid` only in cells that were empty. A board that
/// is solved already is returned as it is.
///
/// The answer is that of the search (`explored`) begun with the board as it
/// is, every colour on the first of its endpoints, and no digest seen.
///
/// A head never steps on the second endpoint of its colour: a colour whose
/// head lies beside that endpoint is connected, and only pending colours
/// move.
pub fn solve_astar(grid: Grid) -> (r: Option<Grid>)
    requires
        grid.wf(),
        grid.paired(),
        grid.area() <= i32::MAX,
    ensures
        forall|table: Endpoints| #[trigger]
            grid.endpoints_are(table) ==> match r {
                Some(solution) => {
                    &&& solution.wf()
                    &&& solution.solved(table)
                    &&& solution.extends(&grid, table)
                    &&& solution.endpoints_are(table)
                    &&& grid.solved(table) ==> solution.same_as(&grid)
                },
                None => !grid.solved(table),
            },
        exists|table: Endpoints, first: State, n: nat|
            {
                &&& grid.endpoints_are(table)
                &&& first.begins(&grid, table)
                &&& #[trigger] explored(n, seq![first], Set::<u64>::empty(), table, r)
            },
{
    broadcast use vstd::std_specs::hash::group_hash_axioms;

    let endpoints = match grid.get_endpoints() {
        Ok(endpoints) => endpoints,
        Err(_) => {
            assert(false);
            return None;
        },
    };
    proof {
        grid.lemma_listed_endpoints_are_paired(endpoints);
        grid.lemma_extends_itself(endpoints);
        grid.lemma_empties_finite();
    }
    let traces = Traces::begin(&endpoints);
    proof {
        assert forall|c: Colour| #[trigger] endpoints@.dom().contains(c) implies (
        match traces.head(c) {
            Some(h) => h.x < grid.width && h.y < grid.height,
            None => false,
        }) by {
            assert(traces.route(c) == seq![endpoints@[c].0]);
        }
    }
    let estimate = heuristic(&grid);
    let ghost start = grid;
    let first = State { grid, traces, cost: 0, estimate };
    let ghost first_state = first;
    let mut open: Vec<State> = Vec::new();
    open.push(first);
    let mut closed: std::collections::HashSet<u64> = std::collections::HashSet::new();
    let ghost mut turns: nat = 0;
    proof {
        assert(open@ =~= seq![first_state]);
        assert(first_state.begins(&start, endpoints));
    }
    while open.len() > 0
        invariant
            start == grid,
            first_state.begins(&start, endpoints),
            start.wf(),
            start.area() <= i32::MAX,
            start.endpoints_are(endpoints),
            endpoints.within(start.width as int, start.height as int),
            forall|i: int| 0 <= i < open@.len() ==> (#[trigger] open@[i]).sound(&start, endpoints),
            turns > 0 ==> !start.solved(endpoints),
            turns == 0 ==> open@.len() > 0,
            forall|n: nat, result: Option<Grid>| #[trigger]
                explored(n, open@, closed@, endpoints, result) ==> explored(
                    n + turns,
                    seq![first_state],
                    Set::<u64>::empty(),
                    endpoints,
                    result,
                ),
        decreases total_load(open@),
    {
        let ghost waiting = open@;
        let ghost seen = closed@;
        let state = pop_best(&mut open);
        let ghost taken = choose|i: int|
            #[trigger] picks(waiting, i) && state == waiting[i] && open@ == waiting.remove(i);
        proof {
            lemma_load_after_remove(waiting, taken);
            assert(state.sound(&start, endpoints));
            lemma_pow5_grows(0, state.grid.empties().len());
            assert forall|j: int| 0 <= j < open@.len() implies (#[trigger] open@[j]).sound(
                &start,
                endpoints,
            ) by {
                if j < taken {
                    assert(open@[j] == waiting[j]);
                } else {
                    assert(open@[j] == waiting[j + 1]);
                }
            }
        }
        let ghost rest = open@;
        let ghost rest_load = total_load(open@);
        if state.grid.is_solved(&endpoints) {
            proof {
                state.grid.lemma_extension_keeps_endpoints(&start, endpoints);
                assert forall|table: Endpoints| #[trigger] start.endpoints_are(table) implies {
                    &&& state.grid.solved(table)
                    &&& state.grid.extends(&start, table)
                    &&& state.grid.endpoints_are(table)
                    &&& start.solved(table) ==> state.grid.same_as(&start)
                } by {
                    start.lemma_one_table(endpoints, table);
                    if start.solved(endpoints) {
                        state.grid.lemma_extension_of_solved(&start, endpoints);
                    }
                }
                let result = Some(state.grid);
                assert(picks(waiting, taken) && waiting[taken].grid.solved(endpoints) && result
                    == Some(waiting[taken].grid));
                assert(arrives(waiting, endpoints, result));
                assert(explored(1, waiting, seen, endpoints, result));
                assert(explored(
                    1 + turns,
                    seq![first_state],
                    Set::<u64>::empty(),
                    endpoints,
                    result,
                ));
                assert(start.endpoints_are(endpoints) && first_state.begins(&start, endpoints)
                    && explored(
                    1 + turns,
                    seq![first_state],
                    Set::<u64>::empty(),
                    endpoints,
                    result,
                ));
            }
            return Some(state.grid);
        }
        proof {
            if turns == 0 && start.solved(endpoints) {
                state.grid.lemma_extension_of_solved(&start, endpoints);
            }
        }
        let hash = state.grid.grid_hash();
        let seen_before = closed.contains(&hash);
        let ghost mut active_colour: Option<Colour> = None;
        let ghost mut open_moves: Seq<Point> = Seq::empty();
        if !seen_before {
            closed.insert(hash);
            let active = get_active_colour(&state.grid, &endpoints, &state.traces);
            proof {
                active_colour = active;
            }
            match active {
                Some(active) => {
                    assert(endpoints@.dom().contains(active));
                    match state.traces.head_of(active) {
                        Some(head) => {
                            let moves = state.grid.free_neighbours(head);
                            let ghost room = state.grid.empties().len();
                            let mut j: usize = 0;
                            proof {
                                open_moves = moves@;
                                state.grid.lemma_empties_finite();
                                if moves@.len() > 0 {
                                    assert(moves@.contains(moves@[0]));
                                    assert(state.grid.empties().contains(moves@[0]));
                                }
                            }
                            while j < moves.len()
                                invariant
                                    start.wf(),
                                    start.area() <= i32::MAX,
                                    start.endpoints_are(endpoints),
                                    endpoints.within(start.width as int, start.height as int),
                                    state.sound(&start, endpoints),
                                    endpoints@.dom().contains(active),
                                    room == state.grid.empties().len(),
                                    j <= moves.len(),
                                    moves@.len() <= 4,
                                    moves@.len() > 0 ==> room > 0,
                                    forall|q: Point| #[trigger]
                                        moves@.contains(q) <==> state.grid.exits(head).contains(q),
                                    forall|i: int|
                                        0 <= i < open@.len() ==> (#[trigger] open@[i]).sound(
                                            &start,
                                            endpoints,
                                        ),
                                    total_load(open@) <= rest_load + j * pow5((room - 1) as nat),
                                    forall|o: Seq<State>| #[trigger]
                                        expanded(
                                            open@,
                                            o,
                                            state,
                                            active,
                                            moves@,
                                            j as int,
                                            endpoints,
                                        ) ==> expanded(
                                            rest,
                                            o,
                                            state,
                                            active,
                                            moves@,
                                            0,
                                            endpoints,
                                        ),
                                decreases moves.len() - j,
                            {
                                let next = moves[j];
                                let ghost queue = open@;
                                proof {
                                    assert(moves@.contains(next));
                                    assert(state.grid.in_bounds(next) && state.grid.at(
                                        next,
                                    ) is Empty);
                                }
                                let mut new_grid = state.grid.duplicate();
                                let ghost copy = new_grid;
                                let _ = new_grid.set(next, Cell::Path { colour: active });
                                let ghost stepped = new_grid;
                                let mut new_traces = state.traces.duplicate();
                                let ghost copied = new_traces;
                                new_traces.advance(active, next);
                                let ghost moved = new_traces;
                                proof {
                                    assert(copy.empties() =~= state.grid.empties());
                                    stepped.lemma_claim_one(&copy, endpoints, next, active);
                                    assert(stepped.extends(&state.grid, endpoints));
                                    stepped.lemma_extends_transitive(
                                        &state.grid,
                                        &start,
                                        endpoints,
                                    );
                                    assert(stepped.claims_one(&state.grid, next, active));
                                    assert(moved.moved(&state.traces, active, next)) by {
                                        assert forall|c: Colour| c != active implies moved.route(c)
                                            == state.traces.route(c) by {
                                            assert(moved.route(c) == copied.route(c));
                                        }
                                    }
                                    assert forall|c: Colour| #[trigger]
                                        endpoints@.dom().contains(c) implies (
                                    match new_traces.head(c) {
                                        Some(h) => h.x < start.width && h.y < start.height,
                                        None => false,
                                    }) by {
                                        if c != active {
                                            assert(new_traces.route(c) == state.traces.route(c));
                                        }
                                    }
                                }
                                propagate(&mut new_grid, &mut new_traces, &endpoints);
                                proof {
                                    new_grid.lemma_extension_fills(&stepped, endpoints);
                                    new_grid.lemma_extends_transitive(
                                        &stepped,
                                        &start,
                                        endpoints,
                                    );
                                    assert(new_grid.area() == start.area());
                                }
                                let rejected = dead_end(&new_grid) || stranded(
                                    &new_grid,
                                    &endpoints,
                                    &new_traces,
                                );
                                let cost: usize = state.cost + 1;
                                let estimate: usize = cost + heuristic(&new_grid);
                                let successor = State {
                                    grid: new_grid,
                                    traces: new_traces,
                                    cost,
                                    estimate,
                                };
                                let ghost grown = successor;
                                proof {
                                    let n = choose|n: nat| #[trigger]
                                        propagated(
                                            n,
                                            stepped,
                                            moved,
                                            grown.grid,
                                            grown.traces,
                                            endpoints,
                                        );
                                    assert(stepped.claims_one(&state.grid, next, active)
                                        && moved.moved(&state.traces, active, next) && propagated(
                                        n,
                                        stepped,
                                        moved,
                                        grown.grid,
                                        grown.traces,
                                        endpoints,
                                    ) && grown.cost == state.cost + 1 && grown.estimate
                                        == grown.cost + grown.grid.empties().len());
                                    assert(state.grows_to(active, moves@[j as int], &grown, endpoints));
                                    assert(rejected == grown.rejected(endpoints));
                                }
                                if !rejected {
                                    open.push(successor);
                                    proof {
                                        lemma_load_after_push(queue, grown);
                                        lemma_pow5_grows(
                                            grown.grid.empties().len(),
                                            (room - 1) as nat,
                                        );
                                        assert forall|i: int| 0 <= i < open@.len() implies (
                                        #[trigger] open@[i]).sound(&start, endpoints) by {
                                            if i < queue.len() {
                                                assert(open@[i] == queue[i]);
                                            }
                                        }
                                    }
                                }
                                proof {
                                    assert((j + 1) * pow5((room - 1) as nat) == j * pow5(
                                        (room - 1) as nat,
                                    ) + pow5((room - 1) as nat)) by (nonlinear_arith);
                                    let now = open@;
                                    assert(now == (if grown.rejected(endpoints) {
                                        queue
                                    } else {
                                        queue.push(grown)
                                    }));
                                    assert forall|o: Seq<State>| #[trigger]
                                        expanded(
                                            now,
                                            o,
                                            state,
                                            active,
                                            moves@,
                                            j + 1,
                                            endpoints,
                                        ) implies expanded(
                                        rest,
                                        o,
                                        state,
                                        active,
                                        moves@,
                                        0,
                                        endpoints,
                                    ) by {
                                        assert(expanded(
                                            queue,
                                            o,
                                            state,
                                            active,
                                            moves@,
                                            j as int,
                                            endpoints,
                                        ));
                                    }
                                }
                                j += 1;
                            }
                            proof {
                                if moves@.len() > 0 {
                                    assert(j * pow5((room - 1) as nat) <= 4 * pow5(
                                        (room - 1) as nat,
                                    )) by (nonlinear_arith)
                                        requires
                                            j <= 4,
                                    ;
                                    assert(pow5(room) == 5 * pow5((room - 1) as nat));
                                } else {
                                    assert(j * pow5((room - 1) as nat) == 0) by (nonlinear_arith)
                                        requires
                                            j == 0,
                                    ;
                                }
                                assert(expanded(
                                    open@,
                                    open@,
                                    state,
                                    active,
                                    moves@,
                                    j as int,
                                    endpoints,
                                ));
                            }
                        },
                        None => {
                            assert(false);
                        },
                    }
                },
                None => {},
            }
        }
        proof {
            assert(turn_at(
                waiting,
                seen,
                open@,
                closed@,
                endpoints,
                taken,
                active_colour,
                open_moves,
            ));
            assert(turn(waiting, seen, open@, closed@, endpoints));
            let now = open@;
            let marked = closed@;
            assert forall|n: nat, result: Option<Grid>| #[trigger]
                explored(n, now, marked, endpoints, result) implies explored(
                n + turns + 1,
                seq![first_state],
                Set::<u64>::empty(),
                endpoints,
                result,
            ) by {
                assert(explored((n + 1) as nat, waiting, seen, endpoints, result));
            }
            turns = turns + 1;
        }
    }
    proof {
        assert forall|table: Endpoints| #[trigger] start.endpoints_are(table) implies !start.solved(
            table,
        ) by {
            start.lemma_one_table(endpoints, table);
        }
        let result: Option<Grid> = None;
        assert(explored(0, open@, closed@, endpoints, result));
        assert(start.endpoints_are(endpoints) && first_state.begins(&start, endpoints) && explored(
            turns,
            seq![first_state],
            Set::<u64>::empty(),
            endpoints,
            result,
        ));
    }
    None
}

} // verus!
