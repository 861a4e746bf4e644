//! The board: colours, cells, positions, the endpoint table and the grid.

use vstd::prelude::*;

verus! {

/// How many colours exist.
pub const COLOUR_COUNT: usize = 16;

/// The colour of a pair of endpoints and of the path that joins them.
///
/// Colours are ordered by `tag`, which follows the order of declaration.
#[derive(Clone, Copy, PartialEq, Eq, Structural, Hash, Debug)]
pub enum Colour {
    Red,
    Green,
    Blue,
    Yellow,
    Magenta,
    Orange,
    Cyan,
    Brown,
    Purple,
    White,
    Gray,
    Lime,
    Beige,
    Navy,
    Teal,
    Pink,
}

impl Colour {
    /// The position of the colour in the order of colours, from 0 to 15.
    pub open spec fn tag(self) -> int {
        match self {
            Colour::Red => 0,
            Colour::Green => 1,
            Colour::Blue => 2,
            Colour::Yellow => 3,
            Colour::Magenta => 4,
            Colour::Orange => 5,
            Colour::Cyan => 6,
            Colour::Brown => 7,
            Colour::Purple => 8,
            Colour::White => 9,
            Colour::Gray => 10,
            Colour::Lime => 11,
            Colour::Beige => 12,
            Colour::Navy => 13,
            Colour::Teal => 14,
            Colour::Pink => 15,
        }
    }

    /// The colour with the given tag; `Pink` for a tag out of range.
    pub open spec fn of_tag(tag: int) -> Colour {
        if tag == 0 {
            Colour::Red
        } else if tag == 1 {
            Colour::Green
        } else if tag == 2 {
            Colour::Blue
        } else if tag == 3 {
            Colour::Yellow
        } else if tag == 4 {
            Colour::Magenta
        } else if tag == 5 {
            Colour::Orange
        } else if tag == 6 {
            Colour::Cyan
        } else if tag == 7 {
            Colour::Brown
        } else if tag == 8 {
            Colour::Purple
        } else if tag == 9 {
            Colour::White
        } else if tag == 10 {
            Colour::Gray
        } else if tag == 11 {
            Colour::Lime
        } else if tag == 12 {
            Colour::Beige
        } else if tag == 13 {
            Colour::Navy
        } else if tag == 14 {
            Colour::Teal
        } else {
            Colour::Pink
        }
    }

    /// The colour that a character of a puzzle text stands for, if any.
    pub open spec fn of_char(c: char) -> Option<Colour> {
        if c == 'R' {
            Some(Colour::Red)
        } else if c == 'B' {
            Some(Colour::Blue)
        } else if c == 'G' {
            Some(Colour::Green)
        } else if c == 'M' {
            Some(Colour::Magenta)
        } else if c == 'Y' {
            Some(Colour::Yellow)
        } else if c == 'O' {
            Some(Colour::Orange)
        } else if c == 'C' {
            Some(Colour::Cyan)
        } else if c == 'm' {
            Some(Colour::Brown)
        } else if c == 'P' {
            Some(Colour::Purple)
        } else if c == 'W' {
            Some(Colour::White)
        } else if c == 'g' {
            Some(Colour::Gray)
        } else if c == 'L' {
            Some(Colour::Lime)
        } else if c == 'b' {
            Some(Colour::Beige)
        } else if c == 'N' {
            Some(Colour::Navy)
        } else if c == 'T' {
            Some(Colour::Teal)
        } else if c == 'p' {
            Some(Colour::Pink)
        } else {
            None
        }
    }

    /// The tag of the colour as a machine integer.
    pub fn index(self) -> (i: usize)
        ensures
            i == self.tag(),
            i < COLOUR_COUNT,
    {
        match self {
            Colour::Red => 0,
            Colour::Green => 1,
            Colour::Blue => 2,
            Colour::Yellow => 3,
            Colour::Magenta => 4,
            Colour::Orange => 5,
            Colour::Cyan => 6,
            Colour::Brown => 7,
            Colour::Purple => 8,
            Colour::White => 9,
            Colour::Gray => 10,
            Colour::Lime => 11,
            Colour::Beige => 12,
            Colour::Navy => 13,
            Colour::Teal => 14,
            Colour::Pink => 15,
        }
    }

    /// The colour with the given tag.
    pub fn from_index(i: usize) -> (c: Colour)
        requires
            i < COLOUR_COUNT,
        ensures
            c == Colour::of_tag(i as int),
            c.tag() == i,
    {
        if i == 0 {
            Colour::Red
        } else if i == 1 {
            Colour::Green
        } else if i == 2 {
            Colour::Blue
        } else if i == 3 {
            Colour::Yellow
        } else if i == 4 {
            Colour::Magenta
        } else if i == 5 {
            Colour::Orange
        } else if i == 6 {
            Colour::Cyan
        } else if i == 7 {
            Colour::Brown
        } else if i == 8 {
            Colour::Purple
        } else if i == 9 {
            Colour::White
        } else if i == 10 {
            Colour::Gray
        } else if i == 11 {
            Colour::Lime
        } else if i == 12 {
            Colour::Beige
        } else if i == 13 {
            Colour::Navy
        } else if i == 14 {
            Colour::Teal
        } else {
            Colour::Pink
        }
    }

    /// The colour that `c` stands for, or `None` where `c` names no colour.
    pub fn parse(c: char) -> (r: Option<Colour>)
        ensures
            r == Colour::of_char(c),
    {
        if c == 'R' {
            Some(Colour::Red)
        } else if c == 'B' {
            Some(Colour::Blue)
        } else if c == 'G' {
            Some(Colour::Green)
        } else if c == 'M' {
            Some(Colour::Magenta)
        } else if c == 'Y' {
            Some(Colour::Yellow)
        } else if c == 'O' {
            Some(Colour::Orange)
        } else if c == 'C' {
            Some(Colour::Cyan)
        } else if c == 'm' {
            Some(Colour::Brown)
        } else if c == 'P' {
            Some(Colour::Purple)
        } else if c == 'W' {
            Some(Colour::White)
        } else if c == 'g' {
            Some(Colour::Gray)
        } else if c == 'L' {
            Some(Colour::Lime)
        } else if c == 'b' {
            Some(Colour::Beige)
        } else if c == 'N' {
            Some(Colour::Navy)
        } else if c == 'T' {
            Some(Colour::Teal)
        } else if c == 'p' {
            Some(Colour::Pink)
        } else {
            None
        }
    }

    /// The colour that `c` stands for. The character has to name a colour.
    pub fn from_char(c: char) -> (colour: Colour)
        requires
            Colour::of_char(c) is Some,
        ensures
            Colour::of_char(c) == Some(colour),
    {
        match Colour::parse(c) {
            Some(colour) => colour,
            None => Colour::Red,
        }
    }

    /// Every colour is the colour of its own tag, and tags stay below
    /// `COLOUR_COUNT`.
    pub broadcast proof fn lemma_tag_round_trip(self)
        ensures
            0 <= #[trigger] self.tag() < COLOUR_COUNT,
            Colour::of_tag(self.tag()) == self,
    {
    }

    /// A tag in range is the tag of its colour.
    pub broadcast proof fn lemma_of_tag_tag(tag: int)
        requires
            0 <= tag < COLOUR_COUNT,
        ensures
            (#[trigger] Colour::of_tag(tag)).tag() == tag,
    {
    }
}

/// What a square of the board holds.
#[derive(Clone, Copy, PartialEq, Eq, Structural, Hash, Debug)]
pub enum Cell {
    /// Nothing yet.
    Empty,
    /// One of the two fixed ends of a colour.
    Endpoint { colour: Colour },
    /// A step of the path of a colour.
    Path { colour: Colour },
}

impl Cell {
    /// The colour that the cell carries; `None` for an empty cell.
    pub open spec fn tint(self) -> Option<Colour> {
        match self {
            Cell::Empty => None,
            Cell::Endpoint { colour } => Some(colour),
            Cell::Path { colour } => Some(colour),
        }
    }

    /// The colour that the cell carries; `None` for an empty cell.
    pub fn colour(&self) -> (r: Option<Colour>)
        ensures
            r == self.tint(),
    {
        match self {
            Cell::Empty => None,
            Cell::Endpoint { colour } => Some(*colour),
            Cell::Path { colour } => Some(*colour),
        }
    }

    /// The character that shows the cell: `.` for an empty cell, `O` for an
    /// endpoint and `o` for a step of a path.
    pub fn glyph(&self) -> (c: char)
        ensures
            c == (match *self {
                Cell::Empty => '.',
                Cell::Endpoint { .. } => 'O',
                Cell::Path { .. } => 'o',
            }),
    {
        match self {
            Cell::Empty => '.',
            Cell::Endpoint { .. } => 'O',
            Cell::Path { .. } => 'o',
        }
    }
}

/// A position on the board: column `x`, row `y`.
#[derive(Clone, Copy, PartialEq, Eq, Structural, Hash, Debug)]
pub struct Point {
    pub x: usize,
    pub y: usize,
}

impl Point {
    /// The position in column `x` of row `y`.
    pub fn new(x: usize, y: usize) -> (p: Point)
        ensures
            p == (Point { x, y }),
    {
        Point { x, y }
    }

    /// Whether `other` is one step to the left, right, top or bottom.
    pub open spec fn adjacent(self, other: Point) -> bool {
        ||| (self.y == other.y && (self.x + 1 == other.x || other.x + 1 == self.x))
        ||| (self.x == other.x && (self.y + 1 == other.y || other.y + 1 == self.y))
    }

    /// Whether the point comes before `other` when the board is read row by
    /// row, each row from the left.
    pub open spec fn precedes(self, other: Point) -> bool {
        self.y < other.y || (self.y == other.y && self.x < other.x)
    }

    /// The neighbours of the point on a board of the given size, in the order
    /// left, right, top, bottom.
    pub open spec fn neighbours_on(self, width: int, height: int) -> Seq<Point> {
        let left = if self.x > 0 {
            seq![Point { x: (self.x - 1) as usize, y: self.y }]
        } else {
            Seq::empty()
        };
        let right = if self.x + 1 < width {
            seq![Point { x: (self.x + 1) as usize, y: self.y }]
        } else {
            Seq::empty()
        };
        let top = if self.y > 0 {
            seq![Point { x: self.x, y: (self.y - 1) as usize }]
        } else {
            Seq::empty()
        };
        let bottom = if self.y + 1 < height {
            seq![Point { x: self.x, y: (self.y + 1) as usize }]
        } else {
            Seq::empty()
        };
        left + right + top + bottom
    }

    /// The neighbours of the point that lie on a board of the given size, in
    /// the order left, right, top, bottom.
    pub fn neighbors(&self, width: usize, height: usize) -> (result: Vec<Point>)
        ensures
            result@ == self.neighbours_on(width as int, height as int),
    {
        let mut result: Vec<Point> = Vec::with_capacity(4);
        if self.x > 0 {
            result.push(Point::new(self.x - 1, self.y));
        }
        if width > 0 && self.x < width - 1 {
            result.push(Point::new(self.x + 1, self.y));
        }
        if self.y > 0 {
            result.push(Point::new(self.x, self.y - 1));
        }
        if height > 0 && self.y < height - 1 {
            result.push(Point::new(self.x, self.y + 1));
        }
        result
    }

    /// The place of the step from the point to its neighbour `to` in the order
    /// in which neighbours are tried: 0 for a step to the left, 1 to the
    /// right, 2 to the top and 3 to the bottom.
    pub open spec fn step_rank(self, to: Point) -> int {
        if to.x + 1 == self.x {
            0
        } else if self.x + 1 == to.x {
            1
        } else if to.y + 1 == self.y {
            2
        } else {
            3
        }
    }

    /// The neighbours of a point are listed in the order of their steps.
    pub proof fn lemma_neighbour_ranks(self, width: int, height: int)
        requires
            self.x < width,
            self.y < height,
            width <= usize::MAX,
            height <= usize::MAX,
        ensures
            forall|i: int, j: int|
                0 <= i < j < self.neighbours_on(width, height).len() ==> self.step_rank(
                    #[trigger] self.neighbours_on(width, height)[i],
                ) < self.step_rank(#[trigger] self.neighbours_on(width, height)[j]),
    {
        let ns = self.neighbours_on(width, height);
        let a = if self.x > 0 { 1int } else { 0int };
        let b = a + (if self.x + 1 < width { 1int } else { 0int });
        let c = b + (if self.y > 0 { 1int } else { 0int });
        assert forall|i: int| 0 <= i < ns.len() implies self.step_rank(#[trigger] ns[i]) == (if i
            < a {
            0int
        } else if i < b {
            1int
        } else if i < c {
            2int
        } else {
            3int
        }) by {}
    }

    /// On a board that holds the point, its neighbours are the points of the
    /// board one step away, each listed once.
    pub proof fn lemma_neighbours(self, width: int, height: int)
        requires
            self.x < width,
            self.y < height,
            width <= usize::MAX,
            height <= usize::MAX,
        ensures
            self.neighbours_on(width, height).len() <= 4,
            self.neighbours_on(width, height).no_duplicates(),
            forall|q: Point|
                #[trigger] self.neighbours_on(width, height).contains(q) <==> (q.x < width && q.y
                    < height && self.adjacent(q)),
    {
        let ns = self.neighbours_on(width, height);
        assert forall|q: Point| q.x < width && q.y < height && self.adjacent(q) implies ns.contains(
            q,
        ) by {
            if self.y == q.y && q.x + 1 == self.x {
                assert(ns[0] == q);
            } else if self.y == q.y && self.x + 1 == q.x {
                let i = if self.x > 0 { 1int } else { 0int };
                assert(ns[i] == q);
            } else if self.x == q.x && q.y + 1 == self.y {
                let i = (if self.x > 0 { 1int } else { 0int }) + (if self.x + 1 < width { 1int } else { 0int });
                assert(ns[i] == q);
            } else {
                let i = (if self.x > 0 { 1int } else { 0int }) + (if self.x + 1 < width { 1int } else { 0int })
                    + (if self.y > 0 { 1int } else { 0int });
                assert(ns[i] == q);
            }
        }
    }
}

/// What can be wrong with a board or with a request to change it.
#[derive(Clone, Copy, PartialEq, Eq, Structural, Hash, Debug)]
pub enum GridError {
    /// Some colour has a number of endpoints other than two.
    MalformedEndpoints,
    /// A puzzle text holds a character that stands for nothing.
    InvalidCharacter,
    /// A write would have replaced an endpoint.
    EndpointOverwrite,
}

/// The two endpoints of each colour that a puzzle uses.
#[derive(Clone, Copy, Debug)]
pub struct Endpoints {
    slots: [Option<(Point, Point)>; 16],
}

impl View for Endpoints {
    type V = Map<Colour, (Point, Point)>;

    /// The pair of endpoints of every colour in use.
    closed spec fn view(&self) -> Map<Colour, (Point, Point)> {
        Map::new(
            |c: Colour| self.slots@[c.tag()] is Some,
            |c: Colour| self.slots@[c.tag()]->Some_0,
        )
    }
}

impl Endpoints {
    /// The pair of a colour, if the colour is in use.
    pub open spec fn pair(self, colour: Colour) -> Option<(Point, Point)> {
        if self@.dom().contains(colour) {
            Some(self@[colour])
        } else {
            None
        }
    }

    /// Whether `p` is one of the two endpoints of `colour`.
    pub open spec fn has(self, colour: Colour, p: Point) -> bool {
        self@.dom().contains(colour) && (self@[colour].0 == p || self@[colour].1 == p)
    }

    /// Whether every endpoint lies on a board of the given size.
    pub open spec fn within(self, width: int, height: int) -> bool {
        forall|c: Colour| #[trigger]
            self@.dom().contains(c) ==> {
                &&& self@[c].0.x < width
                &&& self@[c].0.y < height
                &&& self@[c].1.x < width
                &&& self@[c].1.y < height
            }
    }

    /// A table without any colour.
    pub fn new() -> (e: Endpoints)
        ensures
            e@ == Map::<Colour, (Point, Point)>::empty(),
    {
        let e = Endpoints { slots: [None; 16] };
        assert(e@ =~= Map::<Colour, (Point, Point)>::empty());
        e
    }

    /// Sets the pair of `colour` and returns the pair that it had before.
    pub fn insert(&mut self, colour: Colour, pair: (Point, Point)) -> (before: Option<
        (Point, Point),
    >)
        ensures
            final(self)@ == old(self)@.insert(colour, pair),
            before == old(self).pair(colour),
    {
        let i = colour.index();
        let before = self.slots[i];
        self.slots[i] = Some(pair);
        assert(final(self)@ =~= old(self)@.insert(colour, pair)) by {
            assert forall|c: Colour| c != colour implies c.tag() != colour.tag() by {
                c.lemma_tag_round_trip();
                colour.lemma_tag_round_trip();
            }
        }
        before
    }

    /// The pair of `colour`, if the colour is in use.
    pub fn get(&self, colour: Colour) -> (r: Option<(Point, Point)>)
        ensures
            r == self.pair(colour),
    {
        self.slots[colour.index()]
    }

    /// The colours with a tag below `k` that are in use, with their
    /// endpoints, in the order of colours.
    pub open spec fn listing_upto(self, k: int) -> Seq<(Colour, Point, Point)>
        decreases k,
    {
        if k <= 0 {
            Seq::empty()
        } else {
            match self.pair(Colour::of_tag(k - 1)) {
                Some((a, b)) => self.listing_upto(k - 1).push((Colour::of_tag(k - 1), a, b)),
                None => self.listing_upto(k - 1),
            }
        }
    }

    /// The colours in use with their endpoints, in the order of colours.
    pub open spec fn listing(self) -> Seq<(Colour, Point, Point)> {
        self.listing_upto(COLOUR_COUNT as int)
    }

    /// The colours in use with their endpoints, in the order of colours.
    pub fn entries(&self) -> (list: Vec<(Colour, Point, Point)>)
        ensures
            list@ == self.listing(),
            forall|i: int|
                0 <= i < list@.len() ==> self.pair((#[trigger] list@[i]).0) == Some(
                    (list@[i].1, list@[i].2),
                ),
            forall|i: int, j: int|
                0 <= i < j < list@.len() ==> (#[trigger] list@[i]).0.tag() < (
                #[trigger] list@[j]).0.tag(),
            forall|c: Colour| #[trigger]
                self@.dom().contains(c) ==> exists|i: int|
                    0 <= i < list@.len() && (#[trigger] list@[i]).0 == c,
    {
        let mut list: Vec<(Colour, Point, Point)> = Vec::new();
        let mut k: usize = 0;
        while k < COLOUR_COUNT
            invariant
                k <= COLOUR_COUNT,
                list@ == self.listing_upto(k as int),
                forall|i: int|
                    0 <= i < list@.len() ==> self.pair((#[trigger] list@[i]).0) == Some(
                        (list@[i].1, list@[i].2),
                    ) && list@[i].0.tag() < k,
                forall|i: int, j: int|
                    0 <= i < j < list@.len() ==> (#[trigger] list@[i]).0.tag() < (
                    #[trigger] list@[j]).0.tag(),
                forall|c: Colour| #[trigger]
                    self@.dom().contains(c) && c.tag() < k ==> exists|i: int|
                        0 <= i < list@.len() && (#[trigger] list@[i]).0 == c,
            decreases COLOUR_COUNT - k,
        {
            let colour = Colour::from_index(k);
            let ghost before = list@;
            match self.slots[k] {
                Some((a, b)) => {
                    list.push((colour, a, b));
                },
                None => {},
            }
            proof {
                assert(list@ =~= self.listing_upto(k + 1));
                assert forall|c: Colour| #[trigger]
                    self@.dom().contains(c) && c.tag() < k + 1 implies exists|i: int|
                    0 <= i < list@.len() && (#[trigger] list@[i]).0 == c by {
                    c.lemma_tag_round_trip();
                    if c.tag() < k {
                        let i = choose|i: int| 0 <= i < before.len() && (#[trigger] before[i]).0 == c;
                        assert(list@[i].0 == c);
                    } else {
                        assert(c == colour);
                        assert(list@[before.len() as int].0 == c);
                    }
                }
            }
            k += 1;
        }
        proof {
            assert forall|c: Colour| c.tag() < COLOUR_COUNT by {
                c.lemma_tag_round_trip();
            }
        }
        list
    }

    /// The number of colours in use.
    pub fn len(&self) -> (n: usize)
        ensures
            n == self@.dom().len(),
            self@.dom().finite(),
    {
        let mut n: usize = 0;
        let mut i: usize = 0;
        let ghost mut seen: Set<Colour> = Set::empty();
        while i < COLOUR_COUNT
            invariant
                i <= COLOUR_COUNT,
                n <= i,
                seen.finite(),
                seen.len() == n,
                forall|c: Colour| seen.contains(c) <==> (c.tag() < i && self@.dom().contains(c)),
            decreases COLOUR_COUNT - i,
        {
            if self.slots[i].is_some() {
                proof {
                    let c = Colour::of_tag(i as int);
                    Colour::lemma_of_tag_tag(i as int);
                    assert(!seen.contains(c));
                    let next = seen.insert(c);
                    assert forall|d: Colour| next.contains(d) <==> (d.tag() < i + 1
                        && self@.dom().contains(d)) by {
                        d.lemma_tag_round_trip();
                    }
                    seen = next;
                }
                n += 1;
            } else {
                proof {
                    assert forall|d: Colour| seen.contains(d) <==> (d.tag() < i + 1
                        && self@.dom().contains(d)) by {
                        d.lemma_tag_round_trip();
                    }
                }
            }
            i += 1;
        }
        proof {
            assert(seen =~= self@.dom()) by {
                assert forall|d: Colour| seen.contains(d) <==> self@.dom().contains(d) by {
                    d.lemma_tag_round_trip();
                }
            }
        }
        n
    }
}

/// A rectangular board of cells, `height` rows of `width` cells each.
#[derive(Clone, PartialEq, Eq, Debug)]
pub struct Grid {
    pub width: usize,
    pub height: usize,
    pub cells: Vec<Vec<Cell>>,
}

impl View for Grid {
    type V = Seq<Seq<Cell>>;

    /// The rows of the board, from the top.
    open spec fn view(&self) -> Seq<Seq<Cell>> {
        Seq::new(self.cells@.len(), |y: int| self.cells@[y]@)
    }
}

impl Grid {
    /// Whether the rows match the stated size.
    pub open spec fn wf(&self) -> bool {
        &&& self.cells@.len() == self.height
        &&& forall|y: int| 0 <= y < self.height ==> (#[trigger] self.cells@[y])@.len() == self.width
    }

    /// Whether `p` is a square of the board.
    pub open spec fn in_bounds(&self, p: Point) -> bool {
        p.x < self.width && p.y < self.height
    }

    /// The cell at `p`.
    pub open spec fn at(&self, p: Point) -> Cell {
        self.cells@[p.y as int]@[p.x as int]
    }

    /// Whether both boards have the same size and the same cells.
    pub open spec fn same_as(&self, other: &Grid) -> bool {
        &&& self.width == other.width
        &&& self.height == other.height
        &&& forall|p: Point| self.in_bounds(p) ==> self.at(p) == other.at(p)
    }

    /// Whether `p` holds an endpoint of `colour`.
    pub open spec fn is_endpoint_of(&self, colour: Colour, p: Point) -> bool {
        self.in_bounds(p) && self.at(p) == (Cell::Endpoint { colour })
    }

    /// Whether `colour` has no endpoint on the board.
    pub open spec fn lacks(&self, colour: Colour) -> bool {
        forall|p: Point| !self.is_endpoint_of(colour, p)
    }

    /// Whether `a` and `b` are the only endpoints of `colour`, `a` the one that
    /// comes first when the board is read row by row.
    pub open spec fn has_pair(&self, colour: Colour, a: Point, b: Point) -> bool {
        &&& self.is_endpoint_of(colour, a)
        &&& self.is_endpoint_of(colour, b)
        &&& a.precedes(b)
        &&& forall|p: Point| self.is_endpoint_of(colour, p) ==> p == a || p == b
    }

    /// Whether every colour has either no endpoint or exactly two.
    pub open spec fn paired(&self) -> bool {
        forall|c: Colour|
            self.lacks(c) || exists|a: Point, b: Point| #[trigger] self.has_pair(c, a, b)
    }

    /// Whether `endpoints` lists the endpoints that stand on the board: for
    /// each colour its two endpoints in reading order, and no colour without.
    pub open spec fn endpoints_are(&self, endpoints: Endpoints) -> bool {
        forall|c: Colour|
            match #[trigger] endpoints.pair(c) {
                Some((a, b)) => self.has_pair(c, a, b),
                None => self.lacks(c),
            }
    }

    /// A board of the given size that is empty but for the endpoints.
    ///
    /// Where several colours claim one square, the colour that comes last in
    /// the order of colours holds it.
    pub fn new(width: usize, height: usize, endpoints: &Endpoints) -> (grid: Grid)
        requires
            endpoints.within(width as int, height as int),
        ensures
            grid.wf(),
            grid.width == width,
            grid.height == height,
            forall|p: Point| #[trigger]
                grid.in_bounds(p) ==> match grid.at(p) {
                    Cell::Empty => forall|c: Colour| !endpoints.has(c, p),
                    Cell::Endpoint { colour } => endpoints.has(colour, p) && forall|c: Colour|
                        colour.tag() < c.tag() ==> !endpoints.has(c, p),
                    Cell::Path { .. } => false,
                },
    {
        let mut cells: Vec<Vec<Cell>> = Vec::new();
        let mut y: usize = 0;
        while y < height
            invariant
                y <= height,
                cells@.len() == y,
                forall|j: int| 0 <= j < y ==> (#[trigger] cells@[j])@.len() == width,
                forall|j: int, i: int|
                    0 <= j < y && 0 <= i < width ==> (#[trigger] cells@[j]@[i]) == Cell::Empty,
            decreases height - y,
        {
            let mut row: Vec<Cell> = Vec::new();
            let mut x: usize = 0;
            while x < width
                invariant
                    x <= width,
                    row@.len() == x,
                    forall|i: int| 0 <= i < x ==> (#[trigger] row@[i]) == Cell::Empty,
                decreases width - x,
            {
                row.push(Cell::Empty);
                x += 1;
            }
            cells.push(row);
            y += 1;
        }
        let mut grid = Grid { width, height, cells };
        let mut k: usize = 0;
        while k < COLOUR_COUNT
            invariant
                k <= COLOUR_COUNT,
                grid.wf(),
                grid.width == width,
                grid.height == height,
                endpoints.within(width as int, height as int),
                forall|p: Point| #[trigger]
                    grid.in_bounds(p) ==> match grid.at(p) {
                        Cell::Empty => forall|c: Colour| c.tag() < k ==> !endpoints.has(c, p),
                        Cell::Endpoint { colour } => colour.tag() < k && endpoints.has(colour, p)
                            && forall|c: Colour|
                            colour.tag() < c.tag() < k ==> !endpoints.has(c, p),
                        Cell::Path { .. } => false,
                    },
            decreases COLOUR_COUNT - k,
        {
            let colour = Colour::from_index(k);
            match endpoints.get(colour) {
                Some((a, b)) => {
                    let ghost before = grid;
                    grid.cells[a.y][a.x] = Cell::Endpoint { colour };
                    grid.cells[b.y][b.x] = Cell::Endpoint { colour };
                    assert forall|p: Point| #[trigger] grid.in_bounds(p) implies match grid.at(p) {
                        Cell::Empty => forall|c: Colour| c.tag() < k + 1 ==> !endpoints.has(c, p),
                        Cell::Endpoint { colour } => colour.tag() < k + 1 && endpoints.has(
                            colour,
                            p,
                        ) && forall|c: Colour|
                            colour.tag() < c.tag() < k + 1 ==> !endpoints.has(c, p),
                        Cell::Path { .. } => false,
                    } by {
                        assert(before.in_bounds(p));
                        if p == a || p == b {
                            assert(grid.at(p) == (Cell::Endpoint { colour }));
                        } else {
                            assert(grid.at(p) == before.at(p));
                            assert forall|c: Colour| c.tag() == k implies c == colour by {
                                c.lemma_tag_round_trip();
                            }
                        }
                    }
                },
                None => {
                    assert forall|c: Colour| c.tag() == k implies c == colour by {
                        c.lemma_tag_round_trip();
                    }
                },
            }
            k += 1;
        }
        proof {
            assert forall|c: Colour| c.tag() < COLOUR_COUNT by {
                c.lemma_tag_round_trip();
            }
        }
        grid
    }

    /// The cell at `point`.
    pub fn get(&self, point: Point) -> (cell: Cell)
        requires
            self.wf(),
            self.in_bounds(point),
        ensures
            cell == self.at(point),
    {
        self.cells[point.y][point.x]
    }

    /// Writes `cell` at `point`, unless an endpoint stands there: an endpoint
    /// is never replaced, and the board is then left as it was.
    pub fn set(&mut self, point: Point, cell: Cell) -> (r: Result<(), GridError>)
        requires
            old(self).wf(),
            old(self).in_bounds(point),
        ensures
            final(self).wf(),
            final(self).width == old(self).width,
            final(self).height == old(self).height,
            forall|q: Point| q != point && old(self).in_bounds(q) ==> final(self).at(q) == old(
                self,
            ).at(q),
            old(self).at(point) is Endpoint ==> r == Err::<(), GridError>(
                GridError::EndpointOverwrite,
            ) && final(self).at(point) == old(self).at(point),
            !(old(self).at(point) is Endpoint) ==> r is Ok && final(self).at(point) == cell,
    {
        match self.cells[point.y][point.x] {
            Cell::Endpoint { .. } => Err(GridError::EndpointOverwrite),
            _ => {
                self.cells[point.y][point.x] = cell;
                Ok(())
            },
        }
    }

    /// A copy of the board.
    pub fn duplicate(&self) -> (copy: Grid)
        requires
            self.wf(),
        ensures
            copy.wf(),
            copy.same_as(self),
            copy@ == self@,
    {
        let mut cells: Vec<Vec<Cell>> = Vec::new();
        let mut y: usize = 0;
        while y < self.height
            invariant
                self.wf(),
                y <= self.height,
                cells@.len() == y,
                forall|j: int| 0 <= j < y ==> (#[trigger] cells@[j])@ == self.cells@[j]@,
            decreases self.height - y,
        {
            let row = self.cells[y].clone();
            cells.push(row);
            y += 1;
        }
        let copy = Grid { width: self.width, height: self.height, cells };
        assert(copy@ =~= self@);
        copy
    }
}

/// Whether `p` lies before the square in column `x` of row `y` when the
/// board is read row by row.
spec fn read_before(p: Point, x: int, y: int) -> bool {
    p.y < y || (p.y == y && p.x < x)
}

/// What a reading of the board up to column `x` of row `y` has found of one
/// colour: its first and second endpoint, and whether there was a third.
spec fn found_so_far(
    grid: &Grid,
    colour: Colour,
    first: Option<Point>,
    second: Option<Point>,
    third: bool,
    x: int,
    y: int,
) -> bool {
    match (first, second) {
        (None, _) => {
            &&& second is None
            &&& !third
            &&& forall|p: Point| read_before(p, x, y) ==> !grid.is_endpoint_of(colour, p)
        },
        (Some(a), None) => {
            &&& !third
            &&& read_before(a, x, y)
            &&& grid.is_endpoint_of(colour, a)
            &&& forall|p: Point| read_before(p, x, y) && grid.is_endpoint_of(colour, p) ==> p == a
        },
        (Some(a), Some(b)) => {
            &&& grid.is_endpoint_of(colour, a)
            &&& grid.is_endpoint_of(colour, b)
            &&& a.precedes(b)
            &&& read_before(b, x, y)
            &&& if third {
                exists|c: Point| #[trigger] grid.is_endpoint_of(colour, c) && c != a && c != b
            } else {
                forall|p: Point|
                    read_before(p, x, y) && grid.is_endpoint_of(colour, p) ==> p == a || p == b
            }
        },
    }
}

impl Grid {
    /// A board whose endpoints a table lists has, for each colour, none or two.
    pub proof fn lemma_listed_endpoints_are_paired(&self, endpoints: Endpoints)
        requires
            self.endpoints_are(endpoints),
        ensures
            self.paired(),
            endpoints.within(self.width as int, self.height as int),
    {
        assert forall|c: Colour|
            self.lacks(c) || exists|a: Point, b: Point| #[trigger] self.has_pair(c, a, b) by {
            match endpoints.pair(c) {
                Some((a, b)) => {
                    assert(self.has_pair(c, a, b));
                },
                None => {},
            }
        }
        assert forall|c: Colour| #[trigger] endpoints@.dom().contains(c) implies {
            &&& endpoints@[c].0.x < self.width
            &&& endpoints@[c].0.y < self.height
            &&& endpoints@[c].1.x < self.width
            &&& endpoints@[c].1.y < self.height
        } by {
            assert(endpoints.pair(c) is Some);
        }
    }

    /// The endpoints that stand on the board: for each colour its two
    /// endpoints, the one that comes first in reading order first. Fails with
    /// `MalformedEndpoints` where some colour has one endpoint, or more than
    /// two.
    pub fn get_endpoints(&self) -> (r: Result<Endpoints, GridError>)
        requires
            self.wf(),
        ensures
            r is Ok <==> self.paired(),
            match r {
                Ok(endpoints) => self.endpoints_are(endpoints),
                Err(e) => e == GridError::MalformedEndpoints,
            },
    {
        let mut first: [Option<Point>; 16] = [None; 16];
        let mut second: [Option<Point>; 16] = [None; 16];
        let mut third: [bool; 16] = [false; 16];
        let mut y: usize = 0;
        while y < self.height
            invariant
                self.wf(),
                y <= self.height,
                forall|c: Colour|
                    found_so_far(
                        self,
                        c,
                        #[trigger] first@[c.tag()],
                        second@[c.tag()],
                        third@[c.tag()],
                        0,
                        y as int,
                    ),
            decreases self.height - y,
        {
            let mut x: usize = 0;
            while x < self.width
                invariant
                    self.wf(),
                    y < self.height,
                    x <= self.width,
                    forall|c: Colour|
                        found_so_far(
                            self,
                            c,
                            #[trigger] first@[c.tag()],
                            second@[c.tag()],
                            third@[c.tag()],
                            x as int,
                            y as int,
                        ),
                decreases self.width - x,
            {
                let p = Point::new(x, y);
                let ghost first0 = first@;
                let ghost second0 = second@;
                let ghost third0 = third@;
                match self.get(p) {
                    Cell::Endpoint { colour } => {
                        let i: usize = colour.index();
                        if first[i].is_none() {
                            first[i] = Some(p);
                        } else if second[i].is_none() {
                            second[i] = Some(p);
                        } else {
                            third[i] = true;
                        }
                        proof {
                            assert(self.is_endpoint_of(colour, p));
                            assert forall|c: Colour|
                                found_so_far(
                                    self,
                                    c,
                                    #[trigger] first@[c.tag()],
                                    second@[c.tag()],
                                    third@[c.tag()],
                                    x + 1,
                                    y as int,
                                ) by {
                                c.lemma_tag_round_trip();
                                colour.lemma_tag_round_trip();
                                assert(found_so_far(
                                    self,
                                    c,
                                    first0[c.tag()],
                                    second0[c.tag()],
                                    third0[c.tag()],
                                    x as int,
                                    y as int,
                                ));
                                assert forall|q: Point| read_before(q, x + 1, y as int) implies (
                                read_before(q, x as int, y as int) || q == p) by {}
                            }
                        }
                    },
                    _ => {
                        proof {
                            assert forall|c: Colour|
                                found_so_far(
                                    self,
                                    c,
                                    #[trigger] first@[c.tag()],
                                    second@[c.tag()],
                                    third@[c.tag()],
                                    x + 1,
                                    y as int,
                                ) by {
                                assert(found_so_far(
                                    self,
                                    c,
                                    first0[c.tag()],
                                    second0[c.tag()],
                                    third0[c.tag()],
                                    x as int,
                                    y as int,
                                ));
                                assert forall|q: Point| read_before(q, x + 1, y as int) implies (
                                read_before(q, x as int, y as int) || q == p) by {}
                            }
                        }
                    },
                }
                x += 1;
            }
            proof {
                assert forall|c: Colour|
                    found_so_far(
                        self,
                        c,
                        #[trigger] first@[c.tag()],
                        second@[c.tag()],
                        third@[c.tag()],
                        0,
                        y + 1,
                    ) by {
                    assert(found_so_far(
                        self,
                        c,
                        first@[c.tag()],
                        second@[c.tag()],
                        third@[c.tag()],
                        x as int,
                        y as int,
                    ));
                    assert forall|q: Point| self.is_endpoint_of(c, q) && read_before(q, 0, y + 1)
                        implies read_before(q, x as int, y as int) by {}
                }
            }
            y += 1;
        }
        let mut slots: [Option<(Point, Point)>; 16] = [None; 16];
        let mut k: usize = 0;
        while k < COLOUR_COUNT
            invariant
                k <= COLOUR_COUNT,
                forall|c: Colour|
                    found_so_far(
                        self,
                        c,
                        #[trigger] first@[c.tag()],
                        second@[c.tag()],
                        third@[c.tag()],
                        0,
                        self.height as int,
                    ),
                forall|c: Colour|
                    c.tag() < k ==> match #[trigger] slots@[c.tag()] {
                        Some((a, b)) => self.has_pair(c, a, b),
                        None => self.lacks(c),
                    },
                forall|i: int| k <= i < COLOUR_COUNT ==> slots@[i] is None,
            decreases COLOUR_COUNT - k,
        {
            let ghost colour = Colour::of_tag(k as int);
            proof {
                Colour::lemma_of_tag_tag(k as int);
                assert(found_so_far(
                    self,
                    colour,
                    first@[colour.tag()],
                    second@[colour.tag()],
                    third@[colour.tag()],
                    0,
                    self.height as int,
                ));
                assert forall|q: Point| self.is_endpoint_of(colour, q) implies read_before(
                    q,
                    0,
                    self.height as int,
                ) by {}
            }
            match (first[k], second[k]) {
                (None, _) => {
                    assert(self.lacks(colour));
                },
                (Some(a), Some(b)) => {
                    if third[k] {
                        proof {
                            let c = choose|c: Point| #[trigger]
                                self.is_endpoint_of(colour, c) && c != a && c != b;
                            assert(!self.lacks(colour));
                            assert forall|a1: Point, b1: Point| !#[trigger] self.has_pair(
                                colour,
                                a1,
                                b1,
                            ) by {
                                if self.has_pair(colour, a1, b1) {
                                    assert(a == a1 || a == b1);
                                    assert(b == a1 || b == b1);
                                    assert(c == a1 || c == b1);
                                }
                            }
                        }
                        return Err(GridError::MalformedEndpoints);
                    }
                    slots[k] = Some((a, b));
                    assert(self.has_pair(colour, a, b));
                },
                (Some(a), None) => {
                    proof {
                        assert(!self.lacks(colour));
                        assert forall|a1: Point, b1: Point| !#[trigger] self.has_pair(
                            colour,
                            a1,
                            b1,
                        ) by {
                            if self.has_pair(colour, a1, b1) {
                                assert(a1 == a);
                                assert(b1 == a);
                            }
                        }
                    }
                    return Err(GridError::MalformedEndpoints);
                },
            }
            proof {
                assert forall|c: Colour| c.tag() < k + 1 implies match #[trigger] slots@[c.tag()] {
                    Some((a, b)) => self.has_pair(c, a, b),
                    None => self.lacks(c),
                } by {
                    c.lemma_tag_round_trip();
                }
            }
            k += 1;
        }
        let endpoints = Endpoints { slots };
        proof {
            assert forall|c: Colour|
                match #[trigger] endpoints.pair(c) {
                    Some((a, b)) => self.has_pair(c, a, b),
                    None => self.lacks(c),
                } by {
                c.lemma_tag_round_trip();
            }
            self.lemma_listed_endpoints_are_paired(endpoints);
        }
        Ok(endpoints)
    }
}

} // verus!
