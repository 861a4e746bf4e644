//! What holds of the solvers and of the fill taken together.

use crate::backtracking::searched;
use crate::board::{Colour, Endpoints, Grid, Point, COLOUR_COUNT};
use vstd::prelude::*;

verus! {

impl Grid {
    /// Whether the board is a puzzle as it is read: every cell is empty or an
    /// endpoint.
    pub open spec fn fresh(&self) -> bool {
        forall|p: Point| self.in_bounds(p) ==> !(#[trigger] self.at(p) is Path)
    }

    /// Whether `board` is a solution of the puzzle on the board: a solved
    /// board of the same size that holds what the board holds wherever the
    /// board is not empty.
    pub open spec fn solution(&self, endpoints: Endpoints, board: &Grid) -> bool {
        &&& board.width == self.width
        &&& board.height == self.height
        &&& board.solved(endpoints)
        &&& forall|p: Point|
            self.in_bounds(p) && !(self.at(p) is Empty) ==> #[trigger] board.at(p) == self.at(p)
    }

    /// Whether the puzzle on the board has at most one solution.
    pub open spec fn at_most_one_solution(&self, endpoints: Endpoints) -> bool {
        forall|first: Grid, second: Grid|
            #[trigger] self.solution(endpoints, &first) && #[trigger] self.solution(
                endpoints,
                &second,
            ) ==> first.same_as(&second)
    }

    /// A round of the fill on a board on which nothing can be claimed leaves
    /// the board as it is.
    proof fn lemma_round_on_settled(&self, after: Grid, endpoints: Endpoints, k: int)
        requires
            self.settled(endpoints),
            Grid::round(*self, after, endpoints, k),
        ensures
            after == *self,
        decreases COLOUR_COUNT - k,
    {
        if 0 <= k < COLOUR_COUNT {
            let colour = Colour::of_tag(k);
            match endpoints.pair(colour) {
                None => {
                    self.lemma_round_on_settled(after, endpoints, k + 1);
                },
                Some((a, b)) => {
                    assert(endpoints@.dom().contains(colour));
                    assert forall|tail: Seq<Point>| !self.claimable(colour, a, b, tail) by {
                        assert(!self.claimable(
                            colour,
                            endpoints@[colour].0,
                            endpoints@[colour].1,
                            tail,
                        ));
                    }
                    self.lemma_round_on_settled(after, endpoints, k + 1);
                },
            }
        }
    }

    /// The fill is idempotent: run on a board that a fill has left, it
    /// changes nothing.
    pub proof fn lemma_fill_is_idempotent(
        before: &Grid,
        once: &Grid,
        twice: &Grid,
        endpoints: Endpoints,
    )
        requires
            Grid::fills_to(before, once, endpoints),
            Grid::fills_to(once, twice, endpoints),
        ensures
            *twice == *once,
    {
        let n = choose|n: nat| #[trigger] Grid::rounds(n, *once, *twice, endpoints);
        let mid = choose|mid: Grid|
            #[trigger] Grid::round(*once, mid, endpoints, 0) && (if mid == *once {
                *twice == *once
            } else {
                n > 0 && Grid::rounds((n - 1) as nat, mid, *twice, endpoints)
            });
        once.lemma_round_on_settled(mid, endpoints, 0);
    }

    /// The fill leaves a solved board as it is.
    pub proof fn lemma_fill_keeps_solved(before: &Grid, after: &Grid, endpoints: Endpoints)
        requires
            before.solved(endpoints),
            after.filled_from(before, endpoints),
        ensures
            after.solved(endpoints),
            after.same_as(before),
    {
        after.lemma_filled_extends(before, endpoints);
        after.lemma_extension_of_solved(before, endpoints);
    }

    /// What extends a fresh puzzle and is solved is a solution of the puzzle.
    pub proof fn lemma_solved_extension_is_solution(&self, endpoints: Endpoints, board: &Grid)
        requires
            board.extends(self, endpoints),
            board.solved(endpoints),
        ensures
            self.solution(endpoints, board),
    {
    }

    /// A solved board with the endpoints of a fresh puzzle is a solution of
    /// the puzzle.
    pub proof fn lemma_solved_with_endpoints_is_solution(
        &self,
        endpoints: Endpoints,
        board: &Grid,
    )
        requires
            self.fresh(),
            self.endpoints_are(endpoints),
            board.endpoints_are(endpoints),
            board.width == self.width,
            board.height == self.height,
            board.solved(endpoints),
        ensures
            self.solution(endpoints, board),
    {
        assert forall|p: Point| self.in_bounds(p) && !(self.at(p) is Empty) implies #[trigger] board.at(
            p,
        ) == self.at(p) by {
            assert(!(self.at(p) is Path));
            let colour = self.at(p)->Endpoint_colour;
            assert(self.is_endpoint_of(colour, p));
            match endpoints.pair(colour) {
                Some((a, b)) => {
                    assert(self.has_pair(colour, a, b));
                    assert(board.has_pair(colour, a, b));
                    assert(p == a || p == b);
                },
                None => {
                    assert(self.lacks(colour));
                },
            }
        }
    }

    /// The solvers agree on a fresh puzzle with one solution: the boards that
    /// the backtracking solver, the best-first solver and the satisfiability
    /// solver return have the same cells.
    ///
    /// `brute`, `astar` and `sat` are boards as the three solvers return
    /// them: the first two solved and extending the puzzle, the third solved
    /// and with the endpoints of the puzzle.
    pub proof fn lemma_solvers_agree(
        &self,
        endpoints: Endpoints,
        brute: &Grid,
        astar: &Grid,
        sat: &Grid,
    )
        requires
            self.fresh(),
            self.endpoints_are(endpoints),
            self.at_most_one_solution(endpoints),
            brute.solved(endpoints),
            brute.extends(self, endpoints),
            astar.solved(endpoints),
            astar.extends(self, endpoints),
            sat.solved(endpoints),
            sat.endpoints_are(endpoints),
            sat.width == self.width,
            sat.height == self.height,
        ensures
            brute.same_as(astar),
            brute.same_as(sat),
            astar.same_as(sat),
    {
        self.lemma_solved_extension_is_solution(endpoints, brute);
        self.lemma_solved_extension_is_solution(endpoints, astar);
        self.lemma_solved_with_endpoints_is_solution(endpoints, sat);
        assert(self.solution(endpoints, brute) && self.solution(endpoints, astar));
        assert(self.solution(endpoints, brute) && self.solution(endpoints, sat));
        assert(self.solution(endpoints, astar) && self.solution(endpoints, sat));
    }

    /// On a solved board the search of the backtracking solver answers yes
    /// and leaves the board as it is.
    pub proof fn lemma_search_on_solved(
        before: Grid,
        after: Grid,
        ok: bool,
        pairs: Seq<(Colour, Point, Point)>,
        index: int,
        endpoints: Endpoints,
    )
        requires
            0 <= index <= pairs.len(),
            forall|i: int|
                0 <= i < pairs.len() ==> endpoints.pair((#[trigger] pairs[i]).0) == Some(
                    (pairs[i].1, pairs[i].2),
                ),
            searched(before, after, ok, pairs, index, endpoints),
            before.solved(endpoints),
        ensures
            ok,
            after == before,
        decreases pairs.len() - index,
    {
        if index < pairs.len() {
            assert(endpoints@.dom().contains(pairs[index].0));
            Grid::lemma_search_on_solved(before, after, ok, pairs, index + 1, endpoints);
        }
    }
}

} // verus!
