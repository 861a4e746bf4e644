//! The guaranteed-path fill: a colour whose two endpoints stand on the rim of
//! the board, and which has exactly one way from one to the other along the
//! rim, takes that way.

use crate::board::{Cell, Colour, Endpoints, Grid, Point, COLOUR_COUNT};
use crate::paths::trails;
use crate::point_set::{board_points, lemma_board_points_finite, PointSet};
use vstd::prelude::*;

verus! {

impl Grid {
    /// The empty squares of the board.
    pub open spec fn empties(&self) -> Set<Point> {
        Set::new(|p: Point| self.in_bounds(p) && self.at(p) is Empty)
    }

    /// Whether the board is `before` with some of its empty cells turned into
    /// path cells of colours of `endpoints`, and nothing else changed.
    pub open spec fn extends(&self, before: &Grid, endpoints: Endpoints) -> bool {
        &&& self.width == before.width
        &&& self.height == before.height
        &&& forall|p: Point| #[trigger]
            before.in_bounds(p) ==> self.at(p) == before.at(p) || (before.at(p) is Empty && (
            match self.at(p) {
                Cell::Path { colour } => endpoints@.dom().contains(colour),
                _ => false,
            }))
    }

    /// Whether the board is `before` with nothing changed but empty cells on
    /// the rim, each turned into a path cell of a colour of `endpoints` whose
    /// two endpoints stand on the rim: the cells that a fill may claim.
    pub open spec fn filled_from(&self, before: &Grid, endpoints: Endpoints) -> bool {
        &&& self.width == before.width
        &&& self.height == before.height
        &&& forall|p: Point| #[trigger]
            before.in_bounds(p) ==> self.at(p) == before.at(p) || (before.at(p) is Empty
                && before.on_border(p) && (match self.at(p) {
                Cell::Path { colour } => endpoints@.dom().contains(colour) && before.on_border(
                    endpoints@[colour].0,
                ) && before.on_border(endpoints@[colour].1),
                _ => false,
            }))
    }

    /// Whether `tail` is a trail of `colour` from `a` to `b` along the rim.
    pub open spec fn rim_trail(&self, colour: Colour, a: Point, b: Point, tail: Seq<Point>) -> bool {
        self.is_trail(colour, true, a, b, Set::empty(), tail)
    }

    /// Whether `colour`, with its endpoints at `a` and `b`, may claim `tail`:
    /// both endpoints stand on the rim and are not yet connected, `tail` is
    /// the one trail from `a` to `b` along the rim, and some cell on it is
    /// empty.
    pub open spec fn claimable(&self, colour: Colour, a: Point, b: Point, tail: Seq<Point>) -> bool {
        &&& !self.reaches(Some(colour), a, b)
        &&& self.on_border(a)
        &&& self.on_border(b)
        &&& self.rim_trail(colour, a, b, tail)
        &&& forall|other: Seq<Point>| #[trigger]
            self.rim_trail(colour, a, b, other) ==> other == tail
        &&& exists|i: int| 0 <= i < tail.len() && #[trigger] self.at(tail[i]) is Empty
    }

    /// Whether the board is `before` with the empty cells on `tail` turned
    /// into path cells of `colour`.
    pub open spec fn painted_along(&self, before: &Grid, colour: Colour, tail: Seq<Point>) -> bool {
        &&& self.width == before.width
        &&& self.height == before.height
        &&& forall|p: Point| #[trigger]
            before.in_bounds(p) ==> self.at(p) == (if tail.contains(p) && before.at(p) is Empty {
                Cell::Path { colour }
            } else {
                before.at(p)
            })
    }

    /// Whether `after` is `before` with `colour`, whose endpoints are `a` and
    /// `b`, having claimed its trail `tail`.
    pub open spec fn claim_of(
        before: &Grid,
        after: &Grid,
        colour: Colour,
        a: Point,
        b: Point,
        tail: Seq<Point>,
    ) -> bool {
        &&& before.claimable(colour, a, b, tail)
        &&& after.wf()
        &&& after.painted_along(before, colour, tail)
    }

    /// Whether one round of the fill, from the colour with the tag `k` on,
    /// makes `after` of `before`: each colour in its turn claims its trail if
    /// it may.
    pub open spec fn round(before: Grid, after: Grid, endpoints: Endpoints, k: int) -> bool
        decreases COLOUR_COUNT - k,
    {
        if k < 0 || k >= COLOUR_COUNT {
            after == before
        } else {
            match endpoints.pair(Colour::of_tag(k)) {
                None => Grid::round(before, after, endpoints, k + 1),
                Some((a, b)) => if exists|tail: Seq<Point>|
                    before.claimable(Colour::of_tag(k), a, b, tail) {
                    exists|tail: Seq<Point>, mid: Grid|
                        #[trigger] Grid::claim_of(&before, &mid, Colour::of_tag(k), a, b, tail)
                            && Grid::round(mid, after, endpoints, k + 1)
                } else {
                    Grid::round(before, after, endpoints, k + 1)
                },
            }
        }
    }

    /// Whether the fill makes `after` of `before` in `n` rounds that change
    /// the board and one that does not.
    pub open spec fn rounds(n: nat, before: Grid, after: Grid, endpoints: Endpoints) -> bool
        decreases n,
    {
        exists|mid: Grid|
            #[trigger] Grid::round(before, mid, endpoints, 0) && (if mid == before {
                after == before
            } else {
                n > 0 && Grid::rounds((n - 1) as nat, mid, after, endpoints)
            })
    }

    /// Whether the rounds still to come make `after` of `now`; the same as
    /// `rounds`, under a name of its own for the rounds that lie ahead.
    pub open spec fn rounds_ahead(n: nat, now: Grid, after: Grid, endpoints: Endpoints) -> bool {
        Grid::rounds(n, now, after, endpoints)
    }

    /// Whether no colour of `endpoints` can claim anything.
    pub open spec fn settled(&self, endpoints: Endpoints) -> bool {
        forall|colour: Colour, tail: Seq<Point>|
            endpoints@.dom().contains(colour) ==> !#[trigger] self.claimable(
                colour,
                endpoints@[colour].0,
                endpoints@[colour].1,
                tail,
            )
    }

    /// The empty squares of a board are finitely many.
    pub proof fn lemma_empties_finite(&self)
        ensures
            self.empties().finite(),
    {
        lemma_board_points_finite(self.width as int, self.height as int);
        vstd::set_lib::lemma_set_subset_finite(
            board_points(self.width as int, self.height as int),
            self.empties(),
        );
    }

    /// Extending a board twice extends it.
    pub proof fn lemma_extends_transitive(&self, middle: &Grid, before: &Grid, endpoints: Endpoints)
        requires
            self.extends(middle, endpoints),
            middle.extends(before, endpoints),
        ensures
            self.extends(before, endpoints),
    {
        assert forall|p: Point| #[trigger] before.in_bounds(p) implies self.at(p) == before.at(p)
            || (before.at(p) is Empty && (match self.at(p) {
            Cell::Path { colour } => endpoints@.dom().contains(colour),
            _ => false,
        })) by {
            assert(middle.in_bounds(p));
        }
    }

    /// What a fill may have made of a board extends the board.
    pub proof fn lemma_filled_extends(&self, before: &Grid, endpoints: Endpoints)
        requires
            self.filled_from(before, endpoints),
        ensures
            self.extends(before, endpoints),
    {
    }

    /// Filling twice is filling.
    pub proof fn lemma_filled_transitive(&self, middle: &Grid, before: &Grid, endpoints: Endpoints)
        requires
            self.filled_from(middle, endpoints),
            middle.filled_from(before, endpoints),
        ensures
            self.filled_from(before, endpoints),
    {
        assert forall|p: Point| #[trigger] before.in_bounds(p) implies self.at(p) == before.at(p)
            || (before.at(p) is Empty && before.on_border(p) && (match self.at(p) {
            Cell::Path { colour } => endpoints@.dom().contains(colour) && before.on_border(
                endpoints@[colour].0,
            ) && before.on_border(endpoints@[colour].1),
            _ => false,
        })) by {
            assert(middle.in_bounds(p));
        }
    }

    /// A board extends itself.
    pub proof fn lemma_extends_itself(&self, endpoints: Endpoints)
        ensures
            self.extends(self, endpoints),
    {
    }

    /// Walks of a colour stay walks when the board is extended.
    pub proof fn lemma_extension_keeps_reach(
        &self,
        before: &Grid,
        endpoints: Endpoints,
        colour: Colour,
        a: Point,
        b: Point,
    )
        requires
            self.extends(before, endpoints),
            before.reaches(Some(colour), a, b),
        ensures
            self.reaches(Some(colour), a, b),
    {
        let path = choose|path: Seq<Point>| #[trigger]
            before.is_walk(Some(colour), path) && path[0] == a && path.last() == b;
        assert forall|i: int| 0 <= i < path.len() implies self.in_bounds(#[trigger] path[i]) by {
            assert(before.in_bounds(path[i]));
        }
        assert forall|i: int| 0 < i < path.len() implies path[i - 1].adjacent(#[trigger] path[i])
            && self.open_to(Some(colour), path[i]) by {
            assert(before.in_bounds(path[i]));
            assert(before.open_to(Some(colour), path[i]));
        }
        assert(self.is_walk(Some(colour), path));
    }

    /// Turns the empty cells on `route` into path cells of `colour`, and
    /// returns the squares that it has changed.
    pub(crate) fn paint_route(&mut self, colour: Colour, route: &Vec<Point>) -> (painted: Vec<
        Point,
    >)
        requires
            old(self).wf(),
            forall|i: int| 0 <= i < route@.len() ==> old(self).in_bounds(#[trigger] route@[i]),
        ensures
            final(self).wf(),
            final(self).painted_along(old(self), colour, route@),
            forall|p: Point| #[trigger]
                painted@.contains(p) <==> (route@.contains(p) && old(self).in_bounds(p) && old(
                    self,
                ).at(p) is Empty),
    {
        let mut painted: Vec<Point> = Vec::new();
        let mut j: usize = 0;
        while j < route.len()
            invariant
                self.wf(),
                j <= route.len(),
                self.width == old(self).width,
                self.height == old(self).height,
                forall|i: int| 0 <= i < route@.len() ==> old(self).in_bounds(#[trigger] route@[i]),
                forall|p: Point| #[trigger]
                    old(self).in_bounds(p) ==> self.at(p) == (if route@.subrange(
                        0,
                        j as int,
                    ).contains(p) && old(self).at(p) is Empty {
                        Cell::Path { colour }
                    } else {
                        old(self).at(p)
                    }),
                forall|p: Point| #[trigger]
                    painted@.contains(p) <==> (route@.subrange(0, j as int).contains(p) && old(
                        self,
                    ).in_bounds(p) && old(self).at(p) is Empty),
            decreases route.len() - j,
        {
            let p = route[j];
            let ghost mid = *self;
            let ghost listed = painted@;
            let ghost done = route@.subrange(0, j as int);
            let ghost more = route@.subrange(0, j + 1);
            proof {
                assert(more =~= done.push(p));
                assert forall|q: Point| more.contains(q) <==> (done.contains(q) || q == p) by {
                    if done.contains(q) {
                        let i = choose|i: int| 0 <= i < done.len() && done[i] == q;
                        assert(more[i] == q);
                    }
                    if q == p {
                        assert(more[j as int] == q);
                    }
                }
                assert(old(self).in_bounds(route@[j as int]));
            }
            match self.get(p) {
                Cell::Empty => {
                    let _ = self.set(p, Cell::Path { colour });
                    painted.push(p);
                    proof {
                        assert(painted@ =~= listed.push(p));
                        assert forall|q: Point| painted@.contains(q) <==> (listed.contains(q) || q
                            == p) by {
                            if listed.contains(q) {
                                let i = choose|i: int| 0 <= i < listed.len() && listed[i] == q;
                                assert(painted@[i] == q);
                            }
                            if q == p {
                                assert(painted@[listed.len() as int] == q);
                            }
                        }
                    }
                },
                _ => {
                    proof {
                        if old(self).at(p) is Empty {
                            assert(done.contains(p));
                        }
                    }
                },
            }
            proof {
                assert forall|q: Point| #[trigger] old(self).in_bounds(q) implies self.at(q) == (
                if more.contains(q) && old(self).at(q) is Empty {
                    Cell::Path { colour }
                } else {
                    old(self).at(q)
                }) by {
                    assert(mid.in_bounds(q));
                }
                assert forall|q: Point| #[trigger]
                    painted@.contains(q) <==> (more.contains(q) && old(self).in_bounds(q) && old(
                        self,
                    ).at(q) is Empty) by {
                    assert(listed.contains(q) <==> (done.contains(q) && old(self).in_bounds(q)
                        && old(self).at(q) is Empty));
                    assert(mid.in_bounds(p));
                }
            }
            j += 1;
        }
        proof {
            assert(route@.subrange(0, j as int) =~= route@);
        }
        painted
    }
}

impl Grid {
    /// A claim changes nothing but empty cells on the rim.
    proof fn lemma_claim_fills(
        &self,
        before: &Grid,
        endpoints: Endpoints,
        colour: Colour,
        tail: Seq<Point>,
    )
        requires
            self.painted_along(before, colour, tail),
            endpoints@.dom().contains(colour),
            before.claimable(colour, endpoints@[colour].0, endpoints@[colour].1, tail),
        ensures
            self.filled_from(before, endpoints),
    {
        reveal(Grid::is_trail);
        assert forall|p: Point| #[trigger] before.in_bounds(p) implies self.at(p) == before.at(p)
            || (before.at(p) is Empty && before.on_border(p) && (match self.at(p) {
            Cell::Path { colour } => endpoints@.dom().contains(colour) && before.on_border(
                endpoints@[colour].0,
            ) && before.on_border(endpoints@[colour].1),
            _ => false,
        })) by {
            if tail.contains(p) && before.at(p) is Empty {
                let i = choose|i: int| 0 <= i < tail.len() && tail[i] == p;
                assert(before.may_step(colour, true, Set::empty(), tail[i]));
            }
        }
    }

    /// A claim leaves fewer cells empty.
    proof fn lemma_claim_shrinks(&self, before: &Grid, colour: Colour, tail: Seq<Point>, i: int)
        requires
            self.painted_along(before, colour, tail),
            0 <= i < tail.len(),
            before.in_bounds(tail[i]),
            before.at(tail[i]) is Empty,
        ensures
            self.empties().len() < before.empties().len(),
    {
        before.lemma_empties_finite();
        let p = tail[i];
        assert(tail.contains(p));
        assert(before.empties().contains(p));
        assert(self.empties().subset_of(before.empties().remove(p))) by {
            assert forall|q: Point| self.empties().contains(q) implies before.empties().remove(
                p,
            ).contains(q) by {
                assert(before.in_bounds(q));
            }
        }
        vstd::set_lib::lemma_len_subset(self.empties(), before.empties().remove(p));
    }

    /// Where the search along the rim finds one trail, that trail is the only
    /// one; where it finds none or several, no trail is the only one.
    proof fn lemma_only_trail(
        &self,
        colour: Colour,
        a: Point,
        b: Point,
        found: Seq<Vec<Point>>,
    )
        requires
            self.lists_trails(colour, true, a, b, Set::empty(), Seq::empty(), found),
        ensures
            found.len() == 1 ==> self.rim_trail(colour, a, b, found[0]@) && forall|
                other: Seq<Point>,
            | #[trigger] self.rim_trail(colour, a, b, other) ==> other == found[0]@,
            found.len() != 1 ==> forall|tail: Seq<Point>|
                !(#[trigger] self.rim_trail(colour, a, b, tail) && forall|other: Seq<Point>| #[trigger]
                    self.rim_trail(colour, a, b, other) ==> other == tail),
    {
        let none = Seq::<Point>::empty();
        assert forall|k: int| 0 <= k < found.len() implies self.rim_trail(
            colour,
            a,
            b,
            (#[trigger] found[k])@,
        ) by {
            assert(self.extends_by_trail(colour, true, a, b, Set::empty(), none, found[k]@));
            assert(found[k]@.subrange(0, found[k]@.len() as int) =~= found[k]@);
        }
        assert forall|tail: Seq<Point>| #[trigger] self.rim_trail(colour, a, b, tail) implies exists|
            k: int,
        | 0 <= k < found.len() && (#[trigger] found[k])@ == tail by {
            let k = choose|k: int| 0 <= k < found.len() && (#[trigger] found[k])@ == none + tail;
            assert(none + tail =~= tail);
        }
        if found.len() != 1 {
            assert forall|tail: Seq<Point>|
                !(#[trigger] self.rim_trail(colour, a, b, tail) && forall|other: Seq<Point>| #[trigger]
                    self.rim_trail(colour, a, b, other) ==> other == tail) by {
                if self.rim_trail(colour, a, b, tail) && forall|other: Seq<Point>| #[trigger]
                    self.rim_trail(colour, a, b, other) ==> other == tail {
                    let k = choose|k: int| 0 <= k < found.len() && (#[trigger] found[k])@ == tail;
                    assert(found.len() >= 2);
                    assert(self.rim_trail(colour, a, b, found[0]@));
                    assert(self.rim_trail(colour, a, b, found[1]@));
                    assert(found[0]@ == tail);
                    assert(found[1]@ == tail);
                }
            }
        }
    }

    /// Whether some cell on `route` is empty.
    fn holds_empty(&self, route: &Vec<Point>) -> (b: bool)
        requires
            self.wf(),
            forall|i: int| 0 <= i < route@.len() ==> self.in_bounds(#[trigger] route@[i]),
        ensures
            b == exists|i: int| 0 <= i < route@.len() && #[trigger] self.at(route@[i]) is Empty,
    {
        let mut j: usize = 0;
        while j < route.len()
            invariant
                self.wf(),
                j <= route.len(),
                forall|i: int| 0 <= i < route@.len() ==> self.in_bounds(#[trigger] route@[i]),
                forall|i: int| 0 <= i < j ==> !(#[trigger] self.at(route@[i]) is Empty),
            decreases route.len() - j,
        {
            assert(self.in_bounds(route@[j as int]));
            match self.get(route[j]) {
                Cell::Empty => {
                    assert(self.at(route@[j as int]) is Empty);
                    return true;
                },
                _ => {},
            }
            j += 1;
        }
        false
    }

    /// Lets `colour`, with its endpoints at `a` and `b`, claim its trail along
    /// the rim if it may, and says whether it did.
    fn claim(&mut self, colour: Colour, a: Point, b: Point) -> (claimed: bool)
        requires
            old(self).wf(),
            old(self).in_bounds(a),
            old(self).in_bounds(b),
        ensures
            final(self).wf(),
            final(self).width == old(self).width,
            final(self).height == old(self).height,
            claimed ==> exists|tail: Seq<Point>| #[trigger]
                old(self).claimable(colour, a, b, tail) && final(self).painted_along(
                    old(self),
                    colour,
                    tail,
                ),
            claimed ==> final(self).empties().len() < old(self).empties().len(),
            !claimed ==> *final(self) == *old(self),
            !claimed ==> forall|tail: Seq<Point>| !#[trigger] old(self).claimable(colour, a, b, tail),
    {
        if self.connected(colour, a, b) {
            return false;
        }
        if !self.is_on_border(a) || !self.is_on_border(b) {
            return false;
        }
        let mut visited = PointSet::new(self.width, self.height);
        let mut path: Vec<Point> = Vec::new();
        let found = trails(self, a, b, colour, true, &mut visited, &mut path);
        proof {
            assert(path@ =~= Seq::<Point>::empty());
            self.lemma_only_trail(colour, a, b, found@);
        }
        if found.len() != 1 {
            return false;
        }
        let route = &found[0];
        proof {
            assert(self.rim_trail(colour, a, b, route@));
            reveal(Grid::is_trail);
        }
        if !self.holds_empty(route) {
            return false;
        }
        let _ = self.paint_route(colour, route);
        proof {
            assert(old(self).claimable(colour, a, b, route@));
            let i = choose|i: int|
                0 <= i < route@.len() && #[trigger] old(self).at(route@[i]) is Empty;
            self.lemma_claim_shrinks(old(self), colour, route@, i);
        }
        true
    }
}

impl Grid {
    /// One round of the fill: each colour in its turn claims its trail along
    /// the rim if it may. Says whether any colour did.
    fn fill_round(&mut self, endpoints: &Endpoints) -> (changed: bool)
        requires
            old(self).wf(),
            endpoints.within(old(self).width as int, old(self).height as int),
        ensures
            final(self).wf(),
            final(self).filled_from(old(self), *endpoints),
            Grid::round(*old(self), *final(self), *endpoints, 0),
            changed ==> final(self).empties().len() < old(self).empties().len(),
            !changed ==> *final(self) == *old(self) && final(self).settled(*endpoints),
    {
        let mut changed = false;
        let mut k: usize = 0;
        proof {
            self.lemma_empties_finite();
        }
        while k < COLOUR_COUNT
            invariant
                k <= COLOUR_COUNT,
                self.wf(),
                self.width == old(self).width,
                self.height == old(self).height,
                endpoints.within(self.width as int, self.height as int),
                self.filled_from(old(self), *endpoints),
                self.empties().len() <= old(self).empties().len(),
                changed ==> self.empties().len() < old(self).empties().len(),
                !changed ==> *self == *old(self),
                !changed ==> forall|colour: Colour, tail: Seq<Point>|
                    colour.tag() < k && endpoints@.dom().contains(colour)
                        ==> !#[trigger] self.claimable(
                        colour,
                        endpoints@[colour].0,
                        endpoints@[colour].1,
                        tail,
                    ),
                forall|g: Grid| #[trigger]
                    Grid::round(*self, g, *endpoints, k as int) ==> Grid::round(
                        *old(self),
                        g,
                        *endpoints,
                        0,
                    ),
            decreases COLOUR_COUNT - k,
        {
            let colour = Colour::from_index(k);
            let ghost before = *self;
            proof {
                assert forall|c: Colour| c.tag() == k implies c == colour by {
                    c.lemma_tag_round_trip();
                }
            }
            match endpoints.get(colour) {
                Some((a, b)) => {
                    assert(endpoints@.dom().contains(colour));
                    if self.claim(colour, a, b) {
                        changed = true;
                        proof {
                            let now = *self;
                            let tail = choose|tail: Seq<Point>| #[trigger]
                                before.claimable(colour, a, b, tail) && now.painted_along(
                                    &before,
                                    colour,
                                    tail,
                                );
                            assert(Grid::claim_of(&before, &now, colour, a, b, tail));
                            now.lemma_round_after_claim(
                                &before,
                                old(self),
                                *endpoints,
                                k as int,
                                a,
                                b,
                                tail,
                            );
                            now.lemma_claim_fills(&before, *endpoints, colour, tail);
                            now.lemma_filled_transitive(&before, old(self), *endpoints);
                        }
                    } else {
                        proof {
                            before.lemma_round_without_claim(
                                old(self),
                                *endpoints,
                                k as int,
                            );
                        }
                    }
                },
                None => {
                    proof {
                        before.lemma_round_without_claim(old(self), *endpoints, k as int);
                    }
                },
            }
            k += 1;
        }
        proof {
            assert(Grid::round(*self, *self, *endpoints, COLOUR_COUNT as int));
            if !changed {
                assert forall|c: Colour| c.tag() < COLOUR_COUNT by {
                    c.lemma_tag_round_trip();
                }
            }
        }
        changed
    }

    /// After a claim by the colour with the tag `k`, the rest of the round
    /// completes the round.
    proof fn lemma_round_after_claim(
        &self,
        before: &Grid,
        round_start: &Grid,
        endpoints: Endpoints,
        k: int,
        a: Point,
        b: Point,
        tail: Seq<Point>,
    )
        requires
            0 <= k < COLOUR_COUNT,
            endpoints.pair(Colour::of_tag(k)) == Some((a, b)),
            Grid::claim_of(before, self, Colour::of_tag(k), a, b, tail),
            forall|g: Grid| #[trigger]
                Grid::round(*before, g, endpoints, k) ==> Grid::round(
                    *round_start,
                    g,
                    endpoints,
                    0,
                ),
        ensures
            forall|g: Grid| #[trigger]
                Grid::round(*self, g, endpoints, k + 1) ==> Grid::round(
                    *round_start,
                    g,
                    endpoints,
                    0,
                ),
    {
        assert forall|g: Grid| #[trigger] Grid::round(*self, g, endpoints, k + 1) implies Grid::round(
            *round_start,
            g,
            endpoints,
            0,
        ) by {
            assert(before.claimable(Colour::of_tag(k), a, b, tail));
            assert(Grid::round(*before, g, endpoints, k));
        }
    }

    /// Where the colour with the tag `k` claims nothing, the rest of the
    /// round completes the round.
    proof fn lemma_round_without_claim(&self, round_start: &Grid, endpoints: Endpoints, k: int)
        requires
            0 <= k < COLOUR_COUNT,
            match endpoints.pair(Colour::of_tag(k)) {
                Some((a, b)) => forall|tail: Seq<Point>|
                    !#[trigger] self.claimable(Colour::of_tag(k), a, b, tail),
                None => true,
            },
            forall|g: Grid| #[trigger]
                Grid::round(*self, g, endpoints, k) ==> Grid::round(*round_start, g, endpoints, 0),
        ensures
            forall|g: Grid| #[trigger]
                Grid::round(*self, g, endpoints, k + 1) ==> Grid::round(
                    *round_start,
                    g,
                    endpoints,
                    0,
                ),
    {
        assert forall|g: Grid| #[trigger] Grid::round(*self, g, endpoints, k + 1) implies Grid::round(
            *round_start,
            g,
            endpoints,
            0,
        ) by {
            assert(Grid::round(*self, g, endpoints, k));
        }
    }

    /// Lets every colour whose two endpoints stand on the rim, are not yet
    /// connected, and have exactly one trail between them along the rim,
    /// claim the empty cells of that trail; the colours take turns in their
    /// order, round after round, until none can claim anything.
    ///
    /// Only empty cells on the rim change, each into a path cell of a colour
    /// of `endpoints` whose endpoints stand on the rim. The board afterwards
    /// is what the rounds of the fill make of the board before (`rounds`),
    /// and nothing is left on it to claim.
    pub fn fill_guaranteed(&mut self, endpoints: &Endpoints)
        requires
            old(self).wf(),
            endpoints.within(old(self).width as int, old(self).height as int),
        ensures
            final(self).wf(),
            final(self).extends(old(self), *endpoints),
            final(self).filled_from(old(self), *endpoints),
            final(self).settled(*endpoints),
            exists|n: nat| #[trigger] Grid::rounds(n, *old(self), *final(self), *endpoints),
    {
        let ghost mut done: nat = 0;
        let mut changed = true;
        proof {
            self.lemma_empties_finite();
        }
        while changed
            invariant
                self.wf(),
                self.width == old(self).width,
                self.height == old(self).height,
                endpoints.within(self.width as int, self.height as int),
                self.filled_from(old(self), *endpoints),
                !changed ==> self.settled(*endpoints),
                changed ==> forall|n: nat, g: Grid| #[trigger]
                    Grid::rounds_ahead(n, *self, g, *endpoints) ==> Grid::rounds(
                        n + done,
                        *old(self),
                        g,
                        *endpoints,
                    ),
                !changed ==> Grid::rounds(done, *old(self), *self, *endpoints),
            decreases self.empties().len() + (if changed { 1int } else { 0int }),
        {
            let ghost round_start = *self;
            changed = self.fill_round(endpoints);
            proof {
                let now = *self;
                now.lemma_filled_transitive(&round_start, old(self), *endpoints);
                if changed {
                    now.lemma_differs(&round_start);
                    assert forall|n: nat, g: Grid| #[trigger]
                        Grid::rounds_ahead(n, now, g, *endpoints) implies Grid::rounds(
                        n + done + 1,
                        *old(self),
                        g,
                        *endpoints,
                    ) by {
                        Grid::lemma_rounds_go_on(n, round_start, now, g, *endpoints);
                        assert(Grid::rounds_ahead(n + 1, round_start, g, *endpoints));
                    }
                    done = done + 1;
                } else {
                    Grid::lemma_rounds_stop(round_start, *endpoints);
                    assert(Grid::rounds_ahead(0, round_start, now, *endpoints));
                }
            }
        }
        proof {
            self.lemma_filled_extends(old(self), *endpoints);
        }
    }

    /// A round that changes the board is followed by the rounds that the
    /// board it leaves needs.
    proof fn lemma_rounds_go_on(n: nat, start: Grid, now: Grid, after: Grid, endpoints: Endpoints)
        requires
            Grid::round(start, now, endpoints, 0),
            now != start,
            Grid::rounds(n, now, after, endpoints),
        ensures
            Grid::rounds(n + 1, start, after, endpoints),
    {
        assert(Grid::round(start, now, endpoints, 0) && (if now == start {
            after == start
        } else {
            n + 1 > 0 && Grid::rounds(((n + 1) - 1) as nat, now, after, endpoints)
        }));
    }

    /// A round that changes nothing is the last.
    proof fn lemma_rounds_stop(start: Grid, endpoints: Endpoints)
        requires
            Grid::round(start, start, endpoints, 0),
        ensures
            Grid::rounds(0, start, start, endpoints),
    {
    }

    /// Boards with different numbers of empty cells are different boards.
    proof fn lemma_differs(&self, other: &Grid)
        requires
            self.empties().len() != other.empties().len(),
        ensures
            *self != *other,
    {
    }
}

} // verus!
