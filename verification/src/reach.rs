//! Walks over the board and what they reach: the notion of two squares being
//! connected, the search that decides it, and the test for a solved board.

use crate::board::{Cell, Colour, Endpoints, Grid, Point, COLOUR_COUNT};
use crate::point_set::PointSet;
use vstd::prelude::*;

verus! {

impl Grid {
    /// Whether a walk for `via` may step on `p`: on a cell of that colour, or,
    /// where `via` is `None`, on an empty cell.
    pub open spec fn open_to(&self, via: Option<Colour>, p: Point) -> bool {
        self.at(p).tint() == via
    }

    /// Whether `path` is a walk on the board: each square lies one step from
    /// the one before it, and each but the first is open to `via`.
    pub open spec fn is_walk(&self, via: Option<Colour>, path: Seq<Point>) -> bool {
        &&& path.len() > 0
        &&& forall|i: int| 0 <= i < path.len() ==> self.in_bounds(#[trigger] path[i])
        &&& forall|i: int|
            0 < i < path.len() ==> path[i - 1].adjacent(#[trigger] path[i]) && self.open_to(
                via,
                path[i],
            )
    }

    /// Whether some walk for `via` leads from `a` to `b`.
    pub open spec fn reaches(&self, via: Option<Colour>, a: Point, b: Point) -> bool {
        exists|path: Seq<Point>| #[trigger]
            self.is_walk(via, path) && path[0] == a && path.last() == b
    }

    /// Whether no cell is empty.
    pub open spec fn full(&self) -> bool {
        forall|p: Point| self.in_bounds(p) ==> !(#[trigger] self.at(p) is Empty)
    }

    /// Whether the board is solved: no cell is empty, and the two endpoints of
    /// every colour are joined through cells of that colour.
    pub open spec fn solved(&self, endpoints: Endpoints) -> bool {
        &&& self.full()
        &&& forall|c: Colour| #[trigger]
            endpoints@.dom().contains(c) ==> self.reaches(
                Some(c),
                endpoints@[c].0,
                endpoints@[c].1,
            )
    }

    /// Every square of the board reaches itself.
    pub proof fn lemma_reaches_itself(&self, via: Option<Colour>, a: Point)
        requires
            self.in_bounds(a),
        ensures
            self.reaches(via, a, a),
    {
        assert(self.is_walk(via, seq![a]));
    }

    /// A walk can be followed by one more step.
    pub proof fn lemma_reaches_step(&self, via: Option<Colour>, a: Point, b: Point, c: Point)
        requires
            self.reaches(via, a, b),
            self.in_bounds(c),
            b.adjacent(c),
            self.open_to(via, c),
        ensures
            self.reaches(via, a, c),
    {
        let path = choose|path: Seq<Point>| #[trigger]
            self.is_walk(via, path) && path[0] == a && path.last() == b;
        let longer = path.push(c);
        assert(self.is_walk(via, longer));
        assert(longer[0] == a && longer.last() == c);
    }

    /// Two walks, the second starting where the first ends, make one walk.
    pub proof fn lemma_reaches_transitive(
        &self,
        via: Option<Colour>,
        a: Point,
        b: Point,
        c: Point,
    )
        requires
            self.reaches(via, a, b),
            self.reaches(via, b, c),
        ensures
            self.reaches(via, a, c),
    {
        let first = choose|path: Seq<Point>| #[trigger]
            self.is_walk(via, path) && path[0] == a && path.last() == b;
        let second = choose|path: Seq<Point>| #[trigger]
            self.is_walk(via, path) && path[0] == b && path.last() == c;
        let joined = first + second.subrange(1, second.len() as int);
        assert forall|i: int| 0 < i < joined.len() implies joined[i - 1].adjacent(
            #[trigger] joined[i],
        ) && self.open_to(via, joined[i]) by {
            if i < first.len() {
                assert(joined[i] == first[i]);
            } else if i == first.len() {
                assert(joined[i] == second[1]);
                assert(joined[i - 1] == second[0]);
            } else {
                assert(joined[i] == second[i - first.len() + 1]);
                assert(joined[i - 1] == second[i - first.len()]);
            }
        }
        assert(self.is_walk(via, joined));
        assert(joined[0] == a && joined.last() == c);
    }

    /// A walk that starts on a cell open to `via` can be walked backwards.
    pub proof fn lemma_reaches_symmetric(&self, via: Option<Colour>, a: Point, b: Point)
        requires
            self.reaches(via, a, b),
            self.open_to(via, a),
        ensures
            self.reaches(via, b, a),
    {
        let path = choose|path: Seq<Point>| #[trigger]
            self.is_walk(via, path) && path[0] == a && path.last() == b;
        let back = path.reverse();
        assert forall|i: int| 0 < i < back.len() implies back[i - 1].adjacent(#[trigger] back[i])
            && self.open_to(via, back[i]) by {
            let j = path.len() - 1 - i;
            assert(back[i] == path[j]);
            assert(back[i - 1] == path[j + 1]);
            assert(path[j].adjacent(path[j + 1]));
            if j > 0 {
                assert(self.open_to(via, path[j]));
            }
        }
        assert(self.is_walk(via, back));
        assert(back[0] == b && back.last() == a);
    }

    /// A set of squares that holds the start of a walk, and with each of its
    /// squares every open neighbour, holds the whole walk.
    proof fn lemma_closed_set_holds_walk(
        &self,
        via: Option<Colour>,
        s: Set<Point>,
        path: Seq<Point>,
        i: int,
    )
        requires
            self.is_walk(via, path),
            s.contains(path[0]),
            0 <= i < path.len(),
            forall|p: Point, q: Point|
                s.contains(p) && self.in_bounds(q) && p.adjacent(q) && self.open_to(via, q)
                    ==> s.contains(q),
        ensures
            s.contains(path[i]),
        decreases i,
    {
        if i > 0 {
            self.lemma_closed_set_holds_walk(via, s, path, i - 1);
            assert(path[i - 1].adjacent(path[i]));
        }
    }

    /// Whether the cell at `p` carries `via`.
    fn is_open_to(&self, via: Option<Colour>, p: Point) -> (b: bool)
        requires
            self.wf(),
            self.in_bounds(p),
        ensures
            b == self.open_to(via, p),
    {
        match (self.get(p).colour(), via) {
            (None, None) => true,
            (Some(a), Some(b)) => a == b,
            _ => false,
        }
    }

    /// The squares that a walk for `via` reaches from `start`.
    pub fn flood(&self, via: Option<Colour>, start: Point) -> (seen: PointSet)
        requires
            self.wf(),
            self.in_bounds(start),
        ensures
            seen.wf(),
            seen.cols() == self.width,
            seen.lines() == self.height,
            forall|p: Point|
                #![trigger seen@.contains(p)]
                #![trigger self.reaches(via, start, p)]
                seen@.contains(p) <==> self.reaches(via, start, p),
    {
        let mut seen = PointSet::new(self.width, self.height);
        let mut queue: Vec<Point> = Vec::new();
        seen.insert(start);
        queue.push(start);
        let mut head: usize = 0;
        proof {
            self.lemma_reaches_itself(via, start);
            seen.lemma_bounded();
            assert(queue@[0] == start);
        }
        while head < queue.len()
            invariant
                self.wf(),
                seen.wf(),
                seen.cols() == self.width,
                seen.lines() == self.height,
                head <= queue.len(),
                seen@.contains(start),
                seen.rest().finite(),
                forall|p: Point| #[trigger]
                    seen@.contains(p) ==> self.in_bounds(p) && self.reaches(via, start, p),
                forall|i: int| 0 <= i < queue.len() ==> seen@.contains(#[trigger] queue@[i]),
                forall|p: Point| #[trigger]
                    seen@.contains(p) ==> exists|i: int|
                        0 <= i < queue.len() && #[trigger] queue@[i] == p,
                forall|i: int, q: Point|
                    0 <= i < head && self.in_bounds(q) && (#[trigger] queue@[i]).adjacent(q)
                        && self.open_to(via, q) ==> #[trigger] seen@.contains(q),
            decreases seen.rest().len() + queue.len() - head,
        {
            let current = queue[head];
            let around = current.neighbors(self.width, self.height);
            let ghost budget = seen.rest().len() + queue.len();
            proof {
                assert(seen@.contains(queue@[head as int]));
                assert(self.in_bounds(current));
                current.lemma_neighbours(self.width as int, self.height as int);
            }
            let mut j: usize = 0;
            while j < around.len()
                invariant
                    self.wf(),
                    seen.wf(),
                    seen.cols() == self.width,
                    seen.lines() == self.height,
                    head < queue.len(),
                    current == queue@[head as int],
                    seen@.contains(start),
                    seen.rest().finite(),
                    seen.rest().len() + queue.len() == budget,
                    j <= around.len(),
                    around@ == current.neighbours_on(self.width as int, self.height as int),
                    forall|q: Point|
                        #[trigger] around@.contains(q) <==> (q.x < self.width && q.y < self.height
                            && current.adjacent(q)),
                    forall|p: Point| #[trigger]
                        seen@.contains(p) ==> self.in_bounds(p) && self.reaches(via, start, p),
                    forall|i: int| 0 <= i < queue.len() ==> seen@.contains(#[trigger] queue@[i]),
                    forall|p: Point| #[trigger]
                        seen@.contains(p) ==> exists|i: int|
                            0 <= i < queue.len() && #[trigger] queue@[i] == p,
                    forall|i: int, q: Point|
                        0 <= i < head && self.in_bounds(q) && (#[trigger] queue@[i]).adjacent(q)
                            && self.open_to(via, q) ==> #[trigger] seen@.contains(q),
                    forall|i: int|
                        0 <= i < j && self.open_to(via, #[trigger] around@[i]) ==> seen@.contains(
                            around@[i],
                        ),
                decreases around.len() - j,
            {
                let next = around[j];
                assert(around@.contains(next));
                if !seen.contains(next) && self.is_open_to(via, next) {
                    let ghost seen0 = seen;
                    let ghost queue0 = queue@;
                    assert(seen@.contains(queue@[head as int]));
                    seen.insert(next);
                    queue.push(next);
                    proof {
                        assert(seen.rest() =~= seen0.rest().remove(next));
                        self.lemma_reaches_step(via, start, current, next);
                        assert forall|p: Point| seen@.contains(p) implies exists|i: int|
                            0 <= i < queue.len() && #[trigger] queue@[i] == p by {
                            if p == next {
                                assert(queue@[queue0.len() as int] == p);
                            } else {
                                let i = choose|i: int|
                                    0 <= i < queue0.len() && #[trigger] queue0[i] == p;
                                assert(queue@[i] == p);
                            }
                        }
                    }
                }
                j += 1;
            }
            proof {
                assert forall|i: int, q: Point|
                    0 <= i < head + 1 && self.in_bounds(q) && (#[trigger] queue@[i]).adjacent(q)
                        && self.open_to(via, q) implies #[trigger] seen@.contains(q) by {
                    if i == head {
                        assert(around@.contains(q));
                        let k = choose|k: int| 0 <= k < around@.len() && around@[k] == q;
                        assert(self.open_to(via, around@[k]));
                    }
                }
            }
            head += 1;
        }
        proof {
            assert forall|p: Point| self.reaches(via, start, p) implies seen@.contains(p) by {
                let path = choose|path: Seq<Point>| #[trigger]
                    self.is_walk(via, path) && path[0] == start && path.last() == p;
                assert forall|a: Point, b: Point|
                    seen@.contains(a) && self.in_bounds(b) && a.adjacent(b) && self.open_to(
                        via,
                        b,
                    ) implies seen@.contains(b) by {
                    let i = choose|i: int| 0 <= i < queue.len() && #[trigger] queue@[i] == a;
                    assert(queue@[i].adjacent(b));
                }
                self.lemma_closed_set_holds_walk(via, seen@, path, path.len() - 1);
            }
        }
        seen
    }

    /// Whether `end` can be reached from `start` through cells of `colour`:
    /// by steps to the left, right, top or bottom, each onto an endpoint or a
    /// path cell of that colour. What `start` itself holds does not matter.
    pub fn connected(&self, colour: Colour, start: Point, end: Point) -> (b: bool)
        requires
            self.wf(),
            self.in_bounds(start),
        ensures
            b == self.reaches(Some(colour), start, end),
    {
        let seen = self.flood(Some(colour), start);
        seen.contains(end)
    }

    /// Whether the board is solved: no cell is empty, and the endpoints of
    /// every colour of `endpoints` are connected.
    pub fn is_solved(&self, endpoints: &Endpoints) -> (b: bool)
        requires
            self.wf(),
            endpoints.within(self.width as int, self.height as int),
        ensures
            b == self.solved(*endpoints),
    {
        let mut y: usize = 0;
        while y < self.height
            invariant
                self.wf(),
                y <= self.height,
                forall|p: Point| self.in_bounds(p) && p.y < y ==> !(#[trigger] self.at(p) is Empty),
            decreases self.height - y,
        {
            let mut x: usize = 0;
            while x < self.width
                invariant
                    self.wf(),
                    y < self.height,
                    x <= self.width,
                    forall|p: Point|
                        self.in_bounds(p) && (p.y < y || (p.y == y && p.x < x)) ==> !(
                        #[trigger] self.at(p) is Empty),
                decreases self.width - x,
            {
                let p = Point::new(x, y);
                match self.get(p) {
                    Cell::Empty => {
                        assert(self.in_bounds(p) && self.at(p) is Empty);
                        return false;
                    },
                    _ => {},
                }
                x += 1;
            }
            y += 1;
        }
        assert(self.full());
        let mut k: usize = 0;
        while k < COLOUR_COUNT
            invariant
                self.wf(),
                self.full(),
                k <= COLOUR_COUNT,
                endpoints.within(self.width as int, self.height as int),
                forall|c: Colour|
                    c.tag() < k && #[trigger] endpoints@.dom().contains(c) ==> self.reaches(
                        Some(c),
                        endpoints@[c].0,
                        endpoints@[c].1,
                    ),
            decreases COLOUR_COUNT - k,
        {
            let colour = Colour::from_index(k);
            match endpoints.get(colour) {
                Some((a, b)) => {
                    assert(endpoints@.dom().contains(colour));
                    if !self.connected(colour, a, b) {
                        return false;
                    }
                },
                None => {},
            }
            proof {
                assert forall|c: Colour| c.tag() == k implies c == colour by {
                    c.lemma_tag_round_trip();
                }
            }
            k += 1;
        }
        proof {
            assert forall|c: Colour| c.tag() < COLOUR_COUNT by {
                c.lemma_tag_round_trip();
            }
        }
        true
    }
}

} // verus!
