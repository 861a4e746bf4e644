//! The backtracking solver: colour by colour it tries every simple path
//! between the two endpoints, and takes back what it painted when the rest of
//! the board cannot be solved.

use crate::board::{Cell, Colour, Endpoints, Grid, Point};
use crate::paths::find_paths;
use crate::point_set::PointSet;
use vstd::prelude::*;

verus! {

impl Grid {
    /// Two tables that list the endpoints of one board hold the same pairs.
    pub proof fn lemma_one_table(&self, first: Endpoints, second: Endpoints)
        requires
            self.endpoints_are(first),
            self.endpoints_are(second),
        ensures
            first@ == second@,
    {
        assert forall|c: Colour| first.pair(c) == second.pair(c) by {
            match (first.pair(c), second.pair(c)) {
                (Some((a, b)), Some((a2, b2))) => {
                    assert(self.has_pair(c, a, b) && self.has_pair(c, a2, b2));
                },
                (Some((a, b)), None) => {
                    assert(self.has_pair(c, a, b) && self.lacks(c));
                    assert(self.is_endpoint_of(c, a));
                },
                (None, Some((a, b))) => {
                    assert(self.has_pair(c, a, b) && self.lacks(c));
                    assert(self.is_endpoint_of(c, a));
                },
                (None, None) => {},
            }
        }
        assert(first@ =~= second@) by {
            assert forall|c: Colour| first@.dom().contains(c) == second@.dom().contains(c) by {
                assert(first.pair(c) == second.pair(c));
            }
            assert forall|c: Colour| first@.dom().contains(c) implies first@[c] == second@[c] by {
                assert(first.pair(c) == second.pair(c));
            }
        }
    }

    /// What holds of a board with one table holds with every table of the
    /// same pairs.
    pub proof fn lemma_same_table(&self, first: Endpoints, second: Endpoints)
        requires
            first@ == second@,
        ensures
            self.solved(first) == self.solved(second),
            self.endpoints_are(first) == self.endpoints_are(second),
            first.within(self.width as int, self.height as int) == second.within(
                self.width as int,
                self.height as int,
            ),
    {
        assert forall|c: Colour| first.pair(c) == second.pair(c) by {}
    }

    /// Extending a board neither moves, adds nor removes an endpoint.
    pub proof fn lemma_extension_keeps_endpoints(&self, before: &Grid, endpoints: Endpoints)
        requires
            self.extends(before, endpoints),
        ensures
            forall|c: Colour, p: Point| self.is_endpoint_of(c, p) == before.is_endpoint_of(c, p),
            forall|table: Endpoints| before.endpoints_are(table) ==> self.endpoints_are(table),
    {
        assert forall|c: Colour, p: Point| self.is_endpoint_of(c, p) == before.is_endpoint_of(
            c,
            p,
        ) by {
            if before.in_bounds(p) {
            }
        }
        assert forall|table: Endpoints| before.endpoints_are(table) implies self.endpoints_are(
            table,
        ) by {
            assert forall|c: Colour|
                match #[trigger] table.pair(c) {
                    Some((a, b)) => self.has_pair(c, a, b),
                    None => self.lacks(c),
                } by {
                match table.pair(c) {
                    Some((a, b)) => {
                        assert(before.has_pair(c, a, b));
                    },
                    None => {
                        assert(before.lacks(c));
                    },
                }
            }
        }
    }

    /// A solved board that is extended is the same board, still solved.
    pub proof fn lemma_extension_of_solved(&self, before: &Grid, endpoints: Endpoints)
        requires
            self.extends(before, endpoints),
            before.solved(endpoints),
        ensures
            self.solved(endpoints),
            self.same_as(before),
    {
        assert forall|p: Point| self.in_bounds(p) implies self.at(p) == before.at(p) by {
            assert(before.in_bounds(p));
            assert(!(before.at(p) is Empty));
        }
        assert forall|c: Colour| #[trigger] endpoints@.dom().contains(c) implies self.reaches(
            Some(c),
            endpoints@[c].0,
            endpoints@[c].1,
        ) by {
            self.lemma_extension_keeps_reach(before, endpoints, c, endpoints@[c].0, endpoints@[c].1);
        }
    }

    /// Every square of a trail lies on the board.
    pub proof fn lemma_trail_on_board(
        &self,
        colour: Colour,
        border: bool,
        from: Point,
        end: Point,
        blocked: Set<Point>,
        tail: Seq<Point>,
    )
        requires
            self.is_trail(colour, border, from, end, blocked, tail),
        ensures
            forall|i: int| 0 <= i < tail.len() ==> self.in_bounds(#[trigger] tail[i]),
    {
        reveal(Grid::is_trail);
    }

    /// Empties again those squares of `painted` that hold a path cell of
    /// `colour`.
    pub(crate) fn unpaint(&mut self, colour: Colour, painted: &Vec<Point>)
        requires
            old(self).wf(),
            forall|i: int| 0 <= i < painted@.len() ==> old(self).in_bounds(#[trigger] painted@[i]),
        ensures
            final(self).wf(),
            final(self).width == old(self).width,
            final(self).height == old(self).height,
            forall|p: Point| #[trigger]
                old(self).in_bounds(p) ==> final(self).at(p) == (if painted@.contains(p) && old(
                    self,
                ).at(p) == (Cell::Path { colour }) {
                    Cell::Empty
                } else {
                    old(self).at(p)
                }),
    {
        let mut j: usize = 0;
        while j < painted.len()
            invariant
                self.wf(),
                j <= painted.len(),
                self.width == old(self).width,
                self.height == old(self).height,
                forall|i: int|
                    0 <= i < painted@.len() ==> old(self).in_bounds(#[trigger] painted@[i]),
                forall|p: Point| #[trigger]
                    old(self).in_bounds(p) ==> self.at(p) == (if painted@.subrange(
                        0,
                        j as int,
                    ).contains(p) && old(self).at(p) == (Cell::Path { colour }) {
                        Cell::Empty
                    } else {
                        old(self).at(p)
                    }),
            decreases painted.len() - j,
        {
            let p = painted[j];
            let ghost mid = *self;
            let ghost done = painted@.subrange(0, j as int);
            let ghost more = painted@.subrange(0, j + 1);
            proof {
                assert(more =~= done.push(p));
                assert forall|q: Point| more.contains(q) <==> (done.contains(q) || q == p) by {
                    if done.contains(q) {
                        let i = choose|i: int| 0 <= i < done.len() && done[i] == q;
                        assert(more[i] == q);
                    }
                    if q == p {
                        assert(more[j as int] == q);
                    }
                }
                assert(old(self).in_bounds(painted@[j as int]));
            }
            match self.get(p) {
                Cell::Path { colour: c } => {
                    if c == colour {
                        let _ = self.set(p, Cell::Empty);
                    }
                },
                _ => {},
            }
            proof {
                assert forall|q: Point| #[trigger] old(self).in_bounds(q) implies self.at(q) == (
                if more.contains(q) && old(self).at(q) == (Cell::Path { colour }) {
                    Cell::Empty
                } else {
                    old(self).at(q)
                }) by {
                    assert(mid.in_bounds(q));
                }
            }
            j += 1;
        }
        proof {
            assert(painted@.subrange(0, j as int) =~= painted@);
        }
    }

    /// Painting a route extends the board.
    proof fn lemma_paint_extends(
        &self,
        before: &Grid,
        endpoints: Endpoints,
        colour: Colour,
        route: Seq<Point>,
    )
        requires
            self.painted_along(before, colour, route),
            endpoints@.dom().contains(colour),
        ensures
            self.extends(before, endpoints),
    {
    }

    /// Taking back what a frame painted leaves of the changes those that the
    /// fill made.
    proof fn lemma_undo_fills(
        &self,
        start: &Grid,
        painted_grid: &Grid,
        failed: &Grid,
        endpoints: Endpoints,
        colour: Colour,
        route: Seq<Point>,
        painted: Seq<Point>,
    )
        requires
            painted_grid.painted_along(start, colour, route),
            forall|p: Point| #[trigger]
                painted.contains(p) <==> (route.contains(p) && start.in_bounds(p) && start.at(
                    p,
                ) is Empty),
            failed.filled_from(painted_grid, endpoints),
            self.width == failed.width,
            self.height == failed.height,
            forall|p: Point| #[trigger]
                failed.in_bounds(p) ==> self.at(p) == (if painted.contains(p) && failed.at(p) == (
                Cell::Path { colour }) {
                    Cell::Empty
                } else {
                    failed.at(p)
                }),
        ensures
            self.filled_from(start, endpoints),
    {
        assert forall|p: Point| #[trigger] start.in_bounds(p) implies self.at(p) == start.at(p)
            || (start.at(p) is Empty && start.on_border(p) && (match self.at(p) {
            Cell::Path { colour } => endpoints@.dom().contains(colour) && start.on_border(
                endpoints@[colour].0,
            ) && start.on_border(endpoints@[colour].1),
            _ => false,
        })) by {
            assert(failed.in_bounds(p));
            assert(painted_grid.in_bounds(p));
            assert(painted.contains(p) <==> (route.contains(p) && start.in_bounds(p) && start.at(
                p,
            ) is Empty));
        }
    }
}

impl Grid {
    /// Whether `after` is what the fill makes of `before`: the colours claim
    /// in their turns, round after round, until a round changes nothing.
    pub open spec fn fills_to(before: &Grid, after: &Grid, endpoints: Endpoints) -> bool {
        &&& after.wf()
        &&& after.settled(endpoints)
        &&& exists|n: nat| #[trigger] Grid::rounds(n, *before, *after, endpoints)
    }

    /// Whether the board is `failed` with the path cells of `colour` emptied
    /// again that a frame of the search painted along `route`, the frame
    /// having begun with the board `start`.
    pub open spec fn taken_back(
        &self,
        failed: &Grid,
        start: &Grid,
        colour: Colour,
        route: Seq<Point>,
    ) -> bool {
        &&& self.width == failed.width
        &&& self.height == failed.height
        &&& forall|p: Point| #[trigger]
            failed.in_bounds(p) ==> self.at(p) == (if route.contains(p) && start.in_bounds(p)
                && start.at(p) is Empty && failed.at(p) == (Cell::Path { colour }) {
                Cell::Empty
            } else {
                failed.at(p)
            })
    }
}

/// Whether the search for the colours of `pairs` from position `index` on
/// makes `after` of `before`, with the answer `ok`.
///
/// With no colour left the board is as it is, and the answer says whether it
/// is solved. A colour that is connected is passed over. For any other
/// colour the simple paths between its endpoints are tried one after another
/// (`tried`).
pub open spec fn searched(
    before: Grid,
    after: Grid,
    ok: bool,
    pairs: Seq<(Colour, Point, Point)>,
    index: int,
    endpoints: Endpoints,
) -> bool
    decreases pairs.len() - index, 2int, 0int,
{
    if index < 0 || index >= pairs.len() {
        after == before && ok == before.solved(endpoints)
    } else if before.reaches(Some(pairs[index].0), pairs[index].1, pairs[index].2) {
        searched(before, after, ok, pairs, index + 1, endpoints)
    } else {
        exists|routes: Seq<Vec<Point>>| #[trigger]
            before.lists_trails(
                pairs[index].0,
                false,
                pairs[index].1,
                pairs[index].2,
                Set::empty(),
                Seq::empty(),
                routes,
            ) && tried(before, after, ok, pairs, index, endpoints, routes, 0)
    }
}

/// Whether the boards are those of one trial of the path `route` for
/// `colour` on the board `current`: the empty cells of the path painted
/// (`painted`), the fill run on that (`filled`), the board `inner` that the
/// search for the other colours left, and, where that search failed, the
/// board with the painted cells emptied again (`undone`); where it
/// succeeded, `inner` is the result `after`, with the answer yes.
pub open spec fn trial(
    current: Grid,
    after: Grid,
    ok: bool,
    colour: Colour,
    route: Seq<Point>,
    endpoints: Endpoints,
    painted: Grid,
    filled: Grid,
    inner: Grid,
    inner_ok: bool,
    undone: Grid,
) -> bool {
    &&& painted.painted_along(&current, colour, route)
    &&& Grid::fills_to(&painted, &filled, endpoints)
    &&& if inner_ok {
        ok && after == inner
    } else {
        undone.taken_back(&inner, &current, colour, route)
    }
}

/// Whether trying the paths of `routes` from position `k` on makes `after` of
/// `current`, with the answer `ok`.
///
/// With no path left the board is as it is, and the answer is no. Otherwise
/// the next path has its trial (`trial`), in which the search goes on with
/// the next colour. If that succeeds, its board is the result. If not, the
/// paths after it are tried on the board that the trial left.
pub open spec fn tried(
    current: Grid,
    after: Grid,
    ok: bool,
    pairs: Seq<(Colour, Point, Point)>,
    index: int,
    endpoints: Endpoints,
    routes: Seq<Vec<Point>>,
    k: int,
) -> bool
    decreases pairs.len() - index, 1int, routes.len() - k,
{
    if index < 0 || index >= pairs.len() || k < 0 || k >= routes.len() {
        after == current && !ok
    } else {
        exists|painted: Grid, filled: Grid, inner: Grid, inner_ok: bool, undone: Grid|
            {
                &&& #[trigger] trial(
                    current,
                    after,
                    ok,
                    pairs[index].0,
                    routes[k]@,
                    endpoints,
                    painted,
                    filled,
                    inner,
                    inner_ok,
                    undone,
                )
                &&& searched(filled, inner, inner_ok, pairs, index + 1, endpoints)
                &&& (inner_ok || tried(undone, after, ok, pairs, index, endpoints, routes, k + 1))
            }
    }
}

/// Solves the board for the colours of `pairs` from position `index` on,
/// those before it being done. Returns whether the board is solved; if not,
/// what this call painted itself has been taken back, and what is left of
/// the changes are cells that a fill claimed.
fn backtrack(
    grid: &mut Grid,
    pairs: &Vec<(Colour, Point, Point)>,
    index: usize,
    endpoints: &Endpoints,
) -> (ok: bool)
    requires
        old(grid).wf(),
        endpoints.within(old(grid).width as int, old(grid).height as int),
        index <= pairs@.len(),
        forall|i: int|
            0 <= i < pairs@.len() ==> endpoints.pair((#[trigger] pairs@[i]).0) == Some(
                (pairs@[i].1, pairs@[i].2),
            ),
    ensures
        final(grid).wf(),
        final(grid).extends(old(grid), *endpoints),
        ok ==> final(grid).solved(*endpoints),
        !ok ==> final(grid).filled_from(old(grid), *endpoints),
        old(grid).solved(*endpoints) ==> ok,
        searched(*old(grid), *final(grid), ok, pairs@, index as int, *endpoints),
    decreases pairs@.len() - index,
{
    proof {
        grid.lemma_extends_itself(*endpoints);
    }
    if index == pairs.len() {
        return grid.is_solved(endpoints);
    }
    let (colour, start, end) = pairs[index];
    proof {
        assert(endpoints.pair(pairs@[index as int].0) == Some((start, end)));
        assert(endpoints@.dom().contains(colour));
    }
    if grid.connected(colour, start, end) {
        return backtrack(grid, pairs, index + 1, endpoints);
    }
    let mut visited = PointSet::new(grid.width, grid.height);
    let mut path: Vec<Point> = Vec::new();
    let all_paths = find_paths(grid, start, end, colour, &mut visited, &mut path);
    proof {
        assert forall|k: int| 0 <= k < all_paths@.len() implies forall|i: int|
            0 <= i < (#[trigger] all_paths@[k])@.len() ==> grid.in_bounds(all_paths@[k]@[i]) by {
            let route = all_paths@[k]@;
            assert(grid.extends_by_trail(
                colour,
                false,
                start,
                end,
                Set::empty(),
                Seq::empty(),
                route,
            ));
            assert(route.subrange(0, route.len() as int) =~= route);
            grid.lemma_trail_on_board(colour, false, start, end, Set::empty(), route);
        }
    }
    let mut k: usize = 0;
    while k < all_paths.len()
        invariant
            k <= all_paths.len(),
            grid.wf(),
            grid.extends(old(grid), *endpoints),
            grid.filled_from(old(grid), *endpoints),
            !old(grid).solved(*endpoints),
            endpoints.within(grid.width as int, grid.height as int),
            endpoints@.dom().contains(colour),
            index < pairs.len(),
            forall|i: int|
                0 <= i < pairs@.len() ==> endpoints.pair((#[trigger] pairs@[i]).0) == Some(
                    (pairs@[i].1, pairs@[i].2),
                ),
            forall|k: int|
                0 <= k < all_paths@.len() ==> forall|i: int|
                    0 <= i < (#[trigger] all_paths@[k])@.len() ==> old(grid).in_bounds(
                        all_paths@[k]@[i],
                    ),
            colour == pairs@[index as int].0,
            old(grid).lists_trails(
                pairs@[index as int].0,
                false,
                pairs@[index as int].1,
                pairs@[index as int].2,
                Set::empty(),
                Seq::empty(),
                all_paths@,
            ),
            !old(grid).reaches(
                Some(pairs@[index as int].0),
                pairs@[index as int].1,
                pairs@[index as int].2,
            ),
            forall|after: Grid, answer: bool| #[trigger]
                tried(
                    *grid,
                    after,
                    answer,
                    pairs@,
                    index as int,
                    *endpoints,
                    all_paths@,
                    k as int,
                ) ==> tried(
                    *old(grid),
                    after,
                    answer,
                    pairs@,
                    index as int,
                    *endpoints,
                    all_paths@,
                    0,
                ),
        decreases all_paths.len() - k,
    {
        let route = &all_paths[k];
        let ghost frame = *grid;
        proof {
            assert forall|i: int| 0 <= i < route@.len() implies grid.in_bounds(
                #[trigger] route@[i],
            ) by {
                assert(old(grid).in_bounds(all_paths@[k as int]@[i]));
            }
        }
        let painted = grid.paint_route(colour, route);
        let ghost painted_grid = *grid;
        grid.fill_guaranteed(endpoints);
        let ghost filled = *grid;
        let ok = backtrack(grid, pairs, index + 1, endpoints);
        let ghost after = *grid;
        proof {
            painted_grid.lemma_paint_extends(&frame, *endpoints, colour, route@);
            after.lemma_extends_transitive(&filled, &painted_grid, *endpoints);
            after.lemma_extends_transitive(&painted_grid, &frame, *endpoints);
        }
        if ok {
            proof {
                after.lemma_extends_transitive(&frame, old(grid), *endpoints);
                assert(route@ == all_paths@[k as int]@);
                assert(painted_grid.painted_along(
                    &frame,
                    pairs@[index as int].0,
                    all_paths@[k as int]@,
                ));
                assert(Grid::fills_to(&painted_grid, &filled, *endpoints));
                assert(searched(filled, after, true, pairs@, index + 1, *endpoints));
                assert(trial(
                    frame,
                    after,
                    true,
                    pairs@[index as int].0,
                    all_paths@[k as int]@,
                    *endpoints,
                    painted_grid,
                    filled,
                    after,
                    true,
                    after,
                ));
                assert(tried(
                    frame,
                    after,
                    true,
                    pairs@,
                    index as int,
                    *endpoints,
                    all_paths@,
                    k as int,
                ));
            }
            return true;
        }
        proof {
            assert forall|i: int| 0 <= i < painted@.len() implies grid.in_bounds(
                #[trigger] painted@[i],
            ) by {
                assert(painted@.contains(painted@[i]));
            }
        }
        grid.unpaint(colour, &painted);
        proof {
            after.lemma_filled_transitive(&filled, &painted_grid, *endpoints);
            grid.lemma_undo_fills(
                &frame,
                &painted_grid,
                &after,
                *endpoints,
                colour,
                route@,
                painted@,
            );
            grid.lemma_filled_transitive(&frame, old(grid), *endpoints);
            grid.lemma_filled_extends(old(grid), *endpoints);
            let undone = *grid;
            assert(route@ == all_paths@[k as int]@);
            assert(undone.taken_back(
                &after,
                &frame,
                pairs@[index as int].0,
                all_paths@[k as int]@,
            )) by {
                assert forall|p: Point| #[trigger] after.in_bounds(p) implies undone.at(p) == (
                if route@.contains(p) && frame.in_bounds(p) && frame.at(p) is Empty && after.at(p)
                    == (Cell::Path { colour }) {
                    Cell::Empty
                } else {
                    after.at(p)
                }) by {
                    assert(painted@.contains(p) <==> (route@.contains(p) && frame.in_bounds(p)
                        && frame.at(p) is Empty));
                }
            }
            assert forall|last: Grid, answer: bool| #[trigger]
                tried(
                    undone,
                    last,
                    answer,
                    pairs@,
                    index as int,
                    *endpoints,
                    all_paths@,
                    k + 1,
                ) implies tried(
                *old(grid),
                last,
                answer,
                pairs@,
                index as int,
                *endpoints,
                all_paths@,
                0,
            ) by {
                assert(painted_grid.painted_along(
                    &frame,
                    pairs@[index as int].0,
                    all_paths@[k as int]@,
                ));
                assert(Grid::fills_to(&painted_grid, &filled, *endpoints));
                assert(searched(filled, after, false, pairs@, index + 1, *endpoints));
                assert(undone.taken_back(
                    &after,
                    &frame,
                    pairs@[index as int].0,
                    all_paths@[k as int]@,
                ));
                assert(trial(
                    frame,
                    last,
                    answer,
                    pairs@[index as int].0,
                    all_paths@[k as int]@,
                    *endpoints,
                    painted_grid,
                    filled,
                    after,
                    false,
                    undone,
                ));
                assert(tried(
                    frame,
                    last,
                    answer,
                    pairs@,
                    index as int,
                    *endpoints,
                    all_paths@,
                    k as int,
                ));
            }
        }
        k += 1;
    }
    proof {
        assert(tried(
            *grid,
            *grid,
            false,
            pairs@,
            index as int,
            *endpoints,
            all_paths@,
            k as int,
        ));
    }
    false
}

/// Solves the board in place and returns whether it did.
///
/// Whatever the answer, the board afterwards is the board before with some
/// empty cells turned into path cells: no endpoint and no path cell that was
/// there has changed. Where the answer is `true` the board is solved. Where it
/// is `false` the search has taken back all that it painted: what differs
/// from the board before are cells on the rim that the fill claimed for
/// colours whose endpoints stand on the rim. A board that is solved already is
/// left as it is, with the answer `true`.
///
/// The answer and the board are those of the search (`searched`) for the
/// colours of the board in their order, begun on the board that the fill
/// makes of the board given.
pub fn brute_force(grid: &mut Grid) -> (solved: bool)
    requires
        old(grid).wf(),
        old(grid).paired(),
    ensures
        final(grid).wf(),
        exists|table: Endpoints, filled: Grid|
            {
                &&& old(grid).endpoints_are(table)
                &&& #[trigger] Grid::fills_to(old(grid), &filled, table)
                &&& searched(filled, *final(grid), solved, table.listing(), 0, table)
            },
        forall|table: Endpoints| #[trigger]
            old(grid).endpoints_are(table) ==> {
                &&& final(grid).extends(old(grid), table)
                &&& final(grid).endpoints_are(table)
                &&& solved ==> final(grid).solved(table)
                &&& !solved ==> final(grid).filled_from(old(grid), table)
                &&& old(grid).solved(table) ==> solved && final(grid).same_as(old(grid))
            },
{
    let endpoints = match grid.get_endpoints() {
        Ok(endpoints) => endpoints,
        Err(_) => {
            return false;
        },
    };
    proof {
        grid.lemma_listed_endpoints_are_paired(endpoints);
    }
    grid.fill_guaranteed(&endpoints);
    let ghost filled = *grid;
    let pairs = endpoints.entries();
    let solved = backtrack(grid, &pairs, 0, &endpoints);
    proof {
        assert(old(grid).endpoints_are(endpoints) && Grid::fills_to(old(grid), &filled, endpoints)
            && searched(filled, *grid, solved, endpoints.listing(), 0, endpoints));
        grid.lemma_extends_transitive(&filled, old(grid), endpoints);
        grid.lemma_extension_keeps_endpoints(old(grid), endpoints);
        assert forall|table: Endpoints| #[trigger] old(grid).endpoints_are(table) implies {
            &&& grid.extends(old(grid), table)
            &&& grid.endpoints_are(table)
            &&& solved ==> grid.solved(table)
            &&& !solved ==> grid.filled_from(old(grid), table)
            &&& old(grid).solved(table) ==> solved && grid.same_as(old(grid))
        } by {
            old(grid).lemma_one_table(endpoints, table);
            if !solved {
                grid.lemma_filled_transitive(&filled, old(grid), endpoints);
            }
            assert(table@ == endpoints@);
            if old(grid).solved(endpoints) {
                filled.lemma_extension_of_solved(old(grid), endpoints);
                grid.lemma_extension_of_solved(old(grid), endpoints);
            }
        }
    }
    solved
}

} // verus!
