//! Simple paths between two squares: what counts as one, and the search that
//! lists them all.

use crate::board::{Cell, Colour, Grid, Point};
use crate::point_set::PointSet;
use vstd::prelude::*;

verus! {

/// Whether the paths `first` and `second`, which agree up to position `n` and
/// go on from the square `from`, part with `first` taking the earlier step:
/// where they first differ, the step of `first` comes before the step of
/// `second` in the order left, right, top, bottom.
pub open spec fn parts_first(from: Point, n: int, first: Seq<Point>, second: Seq<Point>) -> bool {
    exists|d: int|
        #![trigger first[d]]
        {
            &&& n <= d < first.len()
            &&& d < second.len()
            &&& forall|i: int| n <= i < d ==> first[i] == second[i]
            &&& (if d == n {
                from
            } else {
                first[d - 1]
            }).step_rank(first[d]) < (if d == n {
                from
            } else {
                first[d - 1]
            }).step_rank(second[d])
        }
}

/// Whether the paths of `results` stand in the order in which a search finds
/// them that tries the neighbours of each square in the order left, right,
/// top, bottom.
pub open spec fn in_search_order(from: Point, n: int, results: Seq<Vec<Point>>) -> bool {
    forall|k1: int, k2: int|
        0 <= k1 < k2 < results.len() ==> parts_first(
            from,
            n,
            (#[trigger] results[k1])@,
            (#[trigger] results[k2])@,
        )
}

impl Grid {
    /// Whether `p` lies on the rim of the board.
    pub open spec fn on_border(&self, p: Point) -> bool {
        p.x == 0 || p.x + 1 == self.width || p.y == 0 || p.y + 1 == self.height
    }

    /// Whether a path of `colour` may cross `p`: the cell is empty or of that
    /// colour.
    pub open spec fn passable(&self, colour: Colour, p: Point) -> bool {
        self.at(p) is Empty || self.at(p).tint() == Some(colour)
    }

    /// Whether a trail of `colour` may step on `p`: a square of the board that
    /// is passable and not blocked, and on the rim where `border` asks for it.
    pub open spec fn may_step(
        &self,
        colour: Colour,
        border: bool,
        blocked: Set<Point>,
        p: Point,
    ) -> bool {
        &&& self.in_bounds(p)
        &&& self.passable(colour, p)
        &&& (border ==> self.on_border(p))
        &&& !blocked.contains(p)
    }

    /// Whether `tail` is a trail from `from` to `end`: the squares after
    /// `from` of a path that goes step by step over squares it may step on,
    /// visits no square twice, does not come back to `from`, and stops when it
    /// first arrives at `end`. From `end` itself the only trail is empty.
    #[verifier::opaque]
    pub open spec fn is_trail(
        &self,
        colour: Colour,
        border: bool,
        from: Point,
        end: Point,
        blocked: Set<Point>,
        tail: Seq<Point>,
    ) -> bool {
        if from == end {
            tail.len() == 0
        } else {
            &&& tail.len() > 0
            &&& tail.last() == end
            &&& from.adjacent(tail[0])
            &&& forall|i: int|
                0 <= i < tail.len() ==> self.may_step(colour, border, blocked, #[trigger] tail[i])
                    && tail[i] != from
            &&& forall|i: int| 0 <= i < tail.len() - 1 ==> #[trigger] tail[i] != end
            &&& forall|i: int| 0 < i < tail.len() ==> tail[i - 1].adjacent(#[trigger] tail[i])
            &&& tail.no_duplicates()
        }
    }

    /// Whether `full` is `prefix` followed by a trail from `from` to `end`.
    pub open spec fn extends_by_trail(
        &self,
        colour: Colour,
        border: bool,
        from: Point,
        end: Point,
        blocked: Set<Point>,
        prefix: Seq<Point>,
        full: Seq<Point>,
    ) -> bool {
        &&& full.len() >= prefix.len()
        &&& full.subrange(0, prefix.len() as int) == prefix
        &&& self.is_trail(
            colour,
            border,
            from,
            end,
            blocked,
            full.subrange(prefix.len() as int, full.len() as int),
        )
    }

    /// Whether `results` lists, each behind `prefix` and each once, exactly
    /// the trails from `from` to `end`.
    pub open spec fn lists_trails(
        &self,
        colour: Colour,
        border: bool,
        from: Point,
        end: Point,
        blocked: Set<Point>,
        prefix: Seq<Point>,
        results: Seq<Vec<Point>>,
    ) -> bool {
        &&& forall|k: int|
            0 <= k < results.len() ==> self.extends_by_trail(
                colour,
                border,
                from,
                end,
                blocked,
                prefix,
                (#[trigger] results[k])@,
            )
        &&& forall|tail: Seq<Point>| #[trigger]
            self.is_trail(colour, border, from, end, blocked, tail) ==> exists|k: int|
                0 <= k < results.len() && (#[trigger] results[k])@ == prefix + tail
        &&& forall|k1: int, k2: int|
            0 <= k1 < k2 < results.len() ==> (#[trigger] results[k1])@ != (#[trigger] results[k2])@
        &&& in_search_order(from, prefix.len() as int, results)
    }

    /// A trail from a neighbour, with the square left behind blocked, makes a
    /// trail from that square.
    proof fn lemma_trail_grows(
        &self,
        colour: Colour,
        border: bool,
        from: Point,
        end: Point,
        blocked: Set<Point>,
        next: Point,
        rest: Seq<Point>,
    )
        requires
            from != end,
            from.adjacent(next),
            next != from,
            self.may_step(colour, border, blocked, next),
            self.is_trail(colour, border, next, end, blocked.insert(from), rest),
        ensures
            self.is_trail(colour, border, from, end, blocked, seq![next] + rest),
    {
        reveal(Grid::is_trail);
        let tail = seq![next] + rest;
        assert(tail[0] == next);
        assert forall|i: int| 0 < i < tail.len() implies tail[i] == rest[i - 1] by {}
        if next == end {
            assert(tail =~= seq![next]);
        } else {
            assert(tail.last() == rest.last());
            assert forall|i: int| 0 <= i < tail.len() implies self.may_step(
                colour,
                border,
                blocked,
                #[trigger] tail[i],
            ) && tail[i] != from by {
                if i > 0 {
                    assert(self.may_step(colour, border, blocked.insert(from), rest[i - 1]));
                }
            }
            assert forall|i: int| 0 <= i < tail.len() - 1 implies #[trigger] tail[i] != end by {
                if i > 0 {
                    assert(rest[i - 1] != end);
                }
            }
            assert forall|i: int| 0 < i < tail.len() implies tail[i - 1].adjacent(
                #[trigger] tail[i],
            ) by {
                if i > 1 {
                    assert(rest[i - 2].adjacent(rest[i - 1]));
                }
            }
            assert forall|i: int, j: int| 0 <= i < tail.len() && 0 <= j < tail.len() && i != j
                implies tail[i] != tail[j] by {
                if i > 0 && j > 0 {
                    assert(rest[i - 1] != rest[j - 1]);
                } else if i > 0 {
                    assert(rest[i - 1] != next);
                } else {
                    assert(rest[j - 1] != next);
                }
            }
        }
    }

    /// A trail from a square other than `end` begins with a step onto a
    /// neighbour and goes on as a trail from that neighbour.
    proof fn lemma_trail_shrinks(
        &self,
        colour: Colour,
        border: bool,
        from: Point,
        end: Point,
        blocked: Set<Point>,
        tail: Seq<Point>,
    )
        requires
            from != end,
            self.is_trail(colour, border, from, end, blocked, tail),
        ensures
            tail.len() > 0,
            from.adjacent(tail[0]),
            tail[0] != from,
            self.may_step(colour, border, blocked, tail[0]),
            self.is_trail(
                colour,
                border,
                tail[0],
                end,
                blocked.insert(from),
                tail.subrange(1, tail.len() as int),
            ),
            tail == seq![tail[0]] + tail.subrange(1, tail.len() as int),
    {
        reveal(Grid::is_trail);
        let next = tail[0];
        let rest = tail.subrange(1, tail.len() as int);
        assert(tail =~= seq![next] + rest);
        assert(self.may_step(colour, border, blocked, tail[0]));
        if next == end {
            if tail.len() > 1 {
                assert(tail[0] != end);
            }
            assert(rest.len() == 0);
        } else {
            assert(tail.len() > 1);
            assert(rest.last() == tail.last());
            assert(tail[0].adjacent(tail[1]));
            assert forall|i: int| 0 <= i < rest.len() implies self.may_step(
                colour,
                border,
                blocked.insert(from),
                #[trigger] rest[i],
            ) && rest[i] != next by {
                assert(rest[i] == tail[i + 1]);
                assert(self.may_step(colour, border, blocked, tail[i + 1]));
                assert(tail[i + 1] != tail[0]);
            }
            assert forall|i: int| 0 <= i < rest.len() - 1 implies #[trigger] rest[i] != end by {
                assert(rest[i] == tail[i + 1]);
            }
            assert forall|i: int| 0 < i < rest.len() implies rest[i - 1].adjacent(
                #[trigger] rest[i],
            ) by {
                assert(rest[i] == tail[i + 1]);
                assert(rest[i - 1] == tail[i]);
            }
            assert forall|i: int, j: int| 0 <= i < rest.len() && 0 <= j < rest.len() && i != j
                implies rest[i] != rest[j] by {
                assert(rest[i] == tail[i + 1]);
                assert(rest[j] == tail[j + 1]);
            }
        }
    }

    /// Whether the square at `p` is on the rim of the board.
    pub fn is_on_border(&self, p: Point) -> (b: bool)
        requires
            self.in_bounds(p),
        ensures
            b == self.on_border(p),
    {
        p.x == 0 || p.x == self.width - 1 || p.y == 0 || p.y == self.height - 1
    }

    /// Whether the cell at `p` is empty or of `colour`.
    pub fn is_passable(&self, colour: Colour, p: Point) -> (b: bool)
        requires
            self.wf(),
            self.in_bounds(p),
        ensures
            b == self.passable(colour, p),
    {
        match self.get(p) {
            Cell::Empty => true,
            Cell::Path { colour: c } => c == colour,
            Cell::Endpoint { colour: c } => c == colour,
        }
    }
}

/// Whether `results` lists, each behind `prefix` and each once, exactly the
/// trails from `from` whose first step is one of the first `count` squares of
/// `around`.
spec fn lists_trails_through(
    grid: &Grid,
    colour: Colour,
    border: bool,
    from: Point,
    end: Point,
    blocked: Set<Point>,
    prefix: Seq<Point>,
    around: Seq<Point>,
    count: int,
    results: Seq<Vec<Point>>,
) -> bool {
    &&& each_is_trail_through(grid, colour, border, from, end, blocked, prefix, around, count, results)
    &&& holds_trails_through(grid, colour, border, from, end, blocked, prefix, around, count, results)
    &&& all_differ(results)
    &&& in_search_order(from, prefix.len() as int, results)
}

/// All trails of `colour` from `current` to `end`, each behind what `path`
/// holds, in the order in which a search finds them that tries the
/// neighbours of each square in the order left, right, top, bottom. With
/// `border` set, only trails along the rim of the board count. The squares in
/// `visited` are closed to the trails; `visited` and `path` are the same
/// after the call as before it.
pub fn trails(
    grid: &Grid,
    current: Point,
    end: Point,
    colour: Colour,
    border: bool,
    visited: &mut PointSet,
    path: &mut Vec<Point>,
) -> (results: Vec<Vec<Point>>)
    requires
        grid.wf(),
        grid.in_bounds(current),
        old(visited).wf(),
        old(visited).cols() == grid.width,
        old(visited).lines() == grid.height,
        !old(visited)@.contains(current),
    ensures
        final(visited).wf(),
        final(visited).cols() == grid.width,
        final(visited).lines() == grid.height,
        final(visited)@ == old(visited)@,
        final(path)@ == old(path)@,
        grid.lists_trails(colour, border, current, end, old(visited)@, old(path)@, results@),
    decreases old(visited).rest().len(),
{
    let ghost blocked = visited@;
    let ghost prefix = path@;
    if current == end {
        let mut results: Vec<Vec<Point>> = Vec::new();
        results.push(path.clone());
        proof {
            reveal(Grid::is_trail);
            assert(results@[0]@ == prefix);
            assert(prefix.subrange(0, prefix.len() as int) =~= prefix);
            assert(prefix.subrange(prefix.len() as int, prefix.len() as int) =~= Seq::<
                Point,
            >::empty());
            assert forall|tail: Seq<Point>| #[trigger]
                grid.is_trail(colour, border, current, end, blocked, tail) implies exists|k: int|
                0 <= k < results@.len() && (#[trigger] results@[k])@ == prefix + tail by {
                assert(tail =~= Seq::<Point>::empty());
                assert(prefix + tail =~= prefix);
                assert(results@[0]@ == prefix + tail);
            }
        }
        return results;
    }
    let mut results: Vec<Vec<Point>> = Vec::new();
    proof {
        visited.lemma_bounded();
    }
    visited.insert(current);
    proof {
        visited.lemma_bounded();
        assert(visited.rest() =~= old(visited).rest().remove(current));
        current.lemma_neighbours(grid.width as int, grid.height as int);
        current.lemma_neighbour_ranks(grid.width as int, grid.height as int);
    }
    let around = current.neighbors(grid.width, grid.height);
    let mut j: usize = 0;
    while j < around.len()
        invariant
            grid.wf(),
            grid.in_bounds(current),
            current != end,
            visited.wf(),
            visited.cols() == grid.width,
            visited.lines() == grid.height,
            visited@ == blocked.insert(current),
            !blocked.contains(current),
            visited.rest().len() < old(visited).rest().len(),
            path@ == prefix,
            j <= around.len(),
            around@ == current.neighbours_on(grid.width as int, grid.height as int),
            around@.no_duplicates(),
            forall|a: int, b: int|
                0 <= a < b < around@.len() ==> current.step_rank(#[trigger] around@[a])
                    < current.step_rank(#[trigger] around@[b]),
            forall|q: Point| #[trigger]
                around@.contains(q) <==> (q.x < grid.width && q.y < grid.height
                    && current.adjacent(q)),
            lists_trails_through(
                grid,
                colour,
                border,
                current,
                end,
                blocked,
                prefix,
                around@,
                j as int,
                results@,
            ),
        decreases around.len() - j,
    {
        let next = around[j];
        assert(around@.contains(next));
        let ghost before = results@;
        if !visited.contains(next) && grid.is_passable(colour, next) && (!border
            || grid.is_on_border(next)) {
            path.push(next);
            let mut found = trails(grid, next, end, colour, border, visited, path);
            let ghost sub = found@;
            results.append(&mut found);
            path.pop();
            proof {
                assert(path@ =~= prefix);
                assert(results@ =~= before + sub);
                lemma_first_step_taken(
                    grid,
                    colour,
                    border,
                    current,
                    end,
                    blocked,
                    prefix,
                    around@,
                    j as int,
                    before,
                    sub,
                );
            }
        } else {
            proof {
                lemma_first_step_refused(
                    grid,
                    colour,
                    border,
                    current,
                    end,
                    blocked,
                    prefix,
                    around@,
                    j as int,
                    before,
                );
            }
        }
        j += 1;
    }
    visited.remove(current);
    proof {
        assert(visited@ =~= blocked);
        assert forall|tail: Seq<Point>| #[trigger]
            grid.is_trail(colour, border, current, end, blocked, tail) implies exists|k: int|
            0 <= k < results@.len() && (#[trigger] results@[k])@ == prefix + tail by {
            grid.lemma_trail_shrinks(colour, border, current, end, blocked, tail);
            assert(around@.contains(tail[0]));
            let i = choose|i: int| 0 <= i < around@.len() && around@[i] == tail[0];
            assert(around@[i] == tail[0]);
        }
    }
    results
}

/// Where the search does not step on the next neighbour, no trail begins
/// with it, so what was listed stays complete.
proof fn lemma_first_step_refused(
    grid: &Grid,
    colour: Colour,
    border: bool,
    from: Point,
    end: Point,
    blocked: Set<Point>,
    prefix: Seq<Point>,
    around: Seq<Point>,
    j: int,
    results: Seq<Vec<Point>>,
)
    requires
        from != end,
        0 <= j < around.len(),
        !grid.may_step(colour, border, blocked.insert(from), around[j]),
        lists_trails_through(grid, colour, border, from, end, blocked, prefix, around, j, results),
    ensures
        lists_trails_through(
            grid,
            colour,
            border,
            from,
            end,
            blocked,
            prefix,
            around,
            j + 1,
            results,
        ),
{
    assert forall|k: int| 0 <= k < results.len() implies exists|i: int|
        0 <= i < j + 1 && #[trigger] around[i] == (#[trigger] results[k])@[prefix.len() as int] by {
        let i = choose|i: int| 0 <= i < j && #[trigger] around[i] == results[k]@[prefix.len() as int];
        assert(around[i] == results[k]@[prefix.len() as int]);
    }
    assert forall|tail: Seq<Point>| #[trigger]
        grid.is_trail(colour, border, from, end, blocked, tail) && (exists|i: int|
            0 <= i < j + 1 && #[trigger] around[i] == tail[0]) implies exists|k: int|
        0 <= k < results.len() && (#[trigger] results[k])@ == prefix + tail by {
        let i = choose|i: int| 0 <= i < j + 1 && #[trigger] around[i] == tail[0];
        grid.lemma_trail_shrinks(colour, border, from, end, blocked, tail);
        if i == j {
            assert(grid.may_step(colour, border, blocked, tail[0]));
            assert(false);
        }
        assert(around[i] == tail[0]);
    }
}

/// Whether every list of `results` is `prefix`, then one of the first
/// `count` squares of `around`, then the rest of a trail from `from`.
spec fn each_is_trail_through(
    grid: &Grid,
    colour: Colour,
    border: bool,
    from: Point,
    end: Point,
    blocked: Set<Point>,
    prefix: Seq<Point>,
    around: Seq<Point>,
    count: int,
    results: Seq<Vec<Point>>,
) -> bool {
    forall|k: int|
        0 <= k < results.len() ==> {
            &&& grid.extends_by_trail(
                colour,
                border,
                from,
                end,
                blocked,
                prefix,
                (#[trigger] results[k])@,
            )
            &&& results[k]@.len() > prefix.len()
            &&& exists|i: int| 0 <= i < count && #[trigger] around[i] == results[k]@[prefix.len() as int]
        }
}

/// Whether `results` holds every trail from `from` whose first step is one of
/// the first `count` squares of `around`.
spec fn holds_trails_through(
    grid: &Grid,
    colour: Colour,
    border: bool,
    from: Point,
    end: Point,
    blocked: Set<Point>,
    prefix: Seq<Point>,
    around: Seq<Point>,
    count: int,
    results: Seq<Vec<Point>>,
) -> bool {
    forall|tail: Seq<Point>| #[trigger]
        grid.is_trail(colour, border, from, end, blocked, tail) && (exists|i: int|
            0 <= i < count && #[trigger] around[i] == tail[0]) ==> exists|k: int|
            0 <= k < results.len() && (#[trigger] results[k])@ == prefix + tail
}

/// Whether no two lists of `results` are equal.
spec fn all_differ(results: Seq<Vec<Point>>) -> bool {
    forall|k1: int, k2: int|
        0 <= k1 < k2 < results.len() ==> (#[trigger] results[k1])@ != (#[trigger] results[k2])@
}

/// A list found from the neighbour `next`, behind `prefix` and `next`, is
/// `prefix` followed by a trail from `from` that begins with `next`.
proof fn lemma_found_is_trail(
    grid: &Grid,
    colour: Colour,
    border: bool,
    from: Point,
    end: Point,
    blocked: Set<Point>,
    prefix: Seq<Point>,
    next: Point,
    full: Seq<Point>,
)
    requires
        from != end,
        from.adjacent(next),
        grid.may_step(colour, border, blocked.insert(from), next),
        grid.extends_by_trail(
            colour,
            border,
            next,
            end,
            blocked.insert(from),
            prefix.push(next),
            full,
        ),
    ensures
        grid.extends_by_trail(colour, border, from, end, blocked, prefix, full),
        full.len() > prefix.len(),
        full[prefix.len() as int] == next,
{
    let n = prefix.len() as int;
    let longer = prefix.push(next);
    let rest = full.subrange(n + 1, full.len() as int);
    assert(full.subrange(0, n + 1) == longer);
    assert(full[n] == full.subrange(0, n + 1)[n]);
    assert(full.subrange(0, n) =~= prefix) by {
        assert forall|i: int| 0 <= i < n implies full[i] == prefix[i] by {
            assert(full.subrange(0, n + 1)[i] == longer[i]);
        }
    }
    grid.lemma_trail_grows(colour, border, from, end, blocked, next, rest);
    assert(full.subrange(n, full.len() as int) =~= seq![next] + rest);
}

/// Where the search steps on the next neighbour, every list found so far or
/// from there is a trail through one of the neighbours tried.
proof fn lemma_step_keeps_trails(
    grid: &Grid,
    colour: Colour,
    border: bool,
    from: Point,
    end: Point,
    blocked: Set<Point>,
    prefix: Seq<Point>,
    around: Seq<Point>,
    j: int,
    results: Seq<Vec<Point>>,
    sub: Seq<Vec<Point>>,
)
    requires
        from != end,
        0 <= j < around.len(),
        from.adjacent(around[j]),
        grid.may_step(colour, border, blocked.insert(from), around[j]),
        each_is_trail_through(grid, colour, border, from, end, blocked, prefix, around, j, results),
        forall|k: int|
            0 <= k < sub.len() ==> grid.extends_by_trail(
                colour,
                border,
                around[j],
                end,
                blocked.insert(from),
                prefix.push(around[j]),
                (#[trigger] sub[k])@,
            ),
    ensures
        each_is_trail_through(
            grid,
            colour,
            border,
            from,
            end,
            blocked,
            prefix,
            around,
            j + 1,
            results + sub,
        ),
{
    let all = results + sub;
    let n = prefix.len() as int;
    assert forall|k: int| 0 <= k < all.len() implies {
        &&& grid.extends_by_trail(colour, border, from, end, blocked, prefix, (#[trigger] all[k])@)
        &&& all[k]@.len() > prefix.len()
        &&& exists|i: int| 0 <= i < j + 1 && #[trigger] around[i] == all[k]@[n]
    } by {
        if k < results.len() {
            assert(all[k] == results[k]);
            let i = choose|i: int| 0 <= i < j && #[trigger] around[i] == results[k]@[n];
            assert(around[i] == all[k]@[n]);
        } else {
            let f = sub[k - results.len()];
            assert(all[k] == f);
            lemma_found_is_trail(grid, colour, border, from, end, blocked, prefix, around[j], f@);
            assert(around[j] == all[k]@[n]);
        }
    }
}

/// Where the search steps on the next neighbour, the lists found so far and
/// from there hold every trail through one of the neighbours tried.
proof fn lemma_step_keeps_all(
    grid: &Grid,
    colour: Colour,
    border: bool,
    from: Point,
    end: Point,
    blocked: Set<Point>,
    prefix: Seq<Point>,
    around: Seq<Point>,
    j: int,
    results: Seq<Vec<Point>>,
    sub: Seq<Vec<Point>>,
)
    requires
        from != end,
        0 <= j < around.len(),
        holds_trails_through(grid, colour, border, from, end, blocked, prefix, around, j, results),
        forall|rest: Seq<Point>| #[trigger]
            grid.is_trail(colour, border, around[j], end, blocked.insert(from), rest)
                ==> exists|k: int|
                0 <= k < sub.len() && (#[trigger] sub[k])@ == prefix.push(around[j]) + rest,
    ensures
        holds_trails_through(
            grid,
            colour,
            border,
            from,
            end,
            blocked,
            prefix,
            around,
            j + 1,
            results + sub,
        ),
{
    let all = results + sub;
    let longer = prefix.push(around[j]);
    assert forall|tail: Seq<Point>| #[trigger]
        grid.is_trail(colour, border, from, end, blocked, tail) && (exists|i: int|
            0 <= i < j + 1 && #[trigger] around[i] == tail[0]) implies exists|k: int|
        0 <= k < all.len() && (#[trigger] all[k])@ == prefix + tail by {
        let i = choose|i: int| 0 <= i < j + 1 && #[trigger] around[i] == tail[0];
        if i == j {
            grid.lemma_trail_shrinks(colour, border, from, end, blocked, tail);
            let rest = tail.subrange(1, tail.len() as int);
            let k = choose|k: int| 0 <= k < sub.len() && (#[trigger] sub[k])@ == longer + rest;
            assert(all[results.len() + k] == sub[k]);
            assert(longer + rest =~= prefix + tail);
        } else {
            assert(around[i] == tail[0]);
            let k = choose|k: int| 0 <= k < results.len() && (#[trigger] results[k])@ == prefix + tail;
            assert(all[k] == results[k]);
        }
    }
}

/// Lists found from a neighbour differ from those found from the neighbours
/// tried before it.
proof fn lemma_step_keeps_apart(
    prefix: Seq<Point>,
    around: Seq<Point>,
    j: int,
    results: Seq<Vec<Point>>,
    sub: Seq<Vec<Point>>,
)
    requires
        0 <= j < around.len(),
        around.no_duplicates(),
        all_differ(results),
        all_differ(sub),
        forall|k: int|
            0 <= k < results.len() ==> (#[trigger] results[k])@.len() > prefix.len() && exists|
                i: int,
            | 0 <= i < j && #[trigger] around[i] == results[k]@[prefix.len() as int],
        forall|k: int|
            0 <= k < sub.len() ==> (#[trigger] sub[k])@.len() > prefix.len()
                && sub[k]@[prefix.len() as int] == around[j],
    ensures
        all_differ(results + sub),
{
    let all = results + sub;
    let n = prefix.len() as int;
    assert forall|k1: int, k2: int| 0 <= k1 < k2 < all.len() implies (#[trigger] all[k1])@ != (
    #[trigger] all[k2])@ by {
        if k2 < results.len() {
            assert(all[k1] == results[k1] && all[k2] == results[k2]);
        } else if k1 >= results.len() {
            assert(all[k1] == sub[k1 - results.len()] && all[k2] == sub[k2 - results.len()]);
        } else {
            assert(all[k1] == results[k1]);
            assert(all[k2] == sub[k2 - results.len()]);
            let i = choose|i: int| 0 <= i < j && #[trigger] around[i] == results[k1]@[n];
            assert(around[i] != around[j]);
        }
    }
}

/// Lists found from a neighbour come after those found from the neighbours
/// tried before it.
proof fn lemma_step_keeps_order(
    from: Point,
    prefix: Seq<Point>,
    around: Seq<Point>,
    j: int,
    results: Seq<Vec<Point>>,
    sub: Seq<Vec<Point>>,
)
    requires
        0 <= j < around.len(),
        forall|a: int, b: int|
            0 <= a < b < around.len() ==> from.step_rank(#[trigger] around[a]) < from.step_rank(
                #[trigger] around[b],
            ),
        in_search_order(from, prefix.len() as int, results),
        in_search_order(around[j], prefix.len() as int + 1, sub),
        forall|k: int|
            0 <= k < results.len() ==> (#[trigger] results[k])@.len() > prefix.len() && exists|
                i: int,
            | 0 <= i < j && #[trigger] around[i] == results[k]@[prefix.len() as int],
        forall|k: int|
            0 <= k < sub.len() ==> (#[trigger] sub[k])@.len() > prefix.len()
                && sub[k]@[prefix.len() as int] == around[j],
    ensures
        in_search_order(from, prefix.len() as int, results + sub),
{
    let all = results + sub;
    let n = prefix.len() as int;
    assert forall|k1: int, k2: int| 0 <= k1 < k2 < all.len() implies parts_first(
        from,
        n,
        (#[trigger] all[k1])@,
        (#[trigger] all[k2])@,
    ) by {
        if k2 < results.len() {
            assert(all[k1] == results[k1] && all[k2] == results[k2]);
        } else if k1 >= results.len() {
            let first = sub[k1 - results.len()];
            let second = sub[k2 - results.len()];
            assert(all[k1] == first && all[k2] == second);
            assert(parts_first(around[j], n + 1, first@, second@));
            let d = choose|d: int|
                #![trigger first@[d]]
                {
                    &&& n + 1 <= d < first@.len()
                    &&& d < second@.len()
                    &&& forall|i: int| n + 1 <= i < d ==> first@[i] == second@[i]
                    &&& (if d == n + 1 {
                        around[j]
                    } else {
                        first@[d - 1]
                    }).step_rank(first@[d]) < (if d == n + 1 {
                        around[j]
                    } else {
                        first@[d - 1]
                    }).step_rank(second@[d])
                };
            assert(first@[n] == around[j]);
            assert(second@[n] == around[j]);
            assert forall|i: int| n <= i < d implies first@[i] == second@[i] by {}
            assert((if d == n {
                from
            } else {
                first@[d - 1]
            }) == (if d == n + 1 {
                around[j]
            } else {
                first@[d - 1]
            }));
            assert(n <= d < first@.len());
        } else {
            let first = results[k1];
            let second = sub[k2 - results.len()];
            assert(all[k1] == first && all[k2] == second);
            let i = choose|i: int| 0 <= i < j && #[trigger] around[i] == first@[n];
            assert(from.step_rank(around[i]) < from.step_rank(around[j]));
            assert(second@[n] == around[j]);
            assert(n <= n < first@.len());
            assert(first@[n] == around[i]);
        }
    }
}

/// Where the search steps on the next neighbour, the trails found from there
/// are the trails that begin with that step.
proof fn lemma_first_step_taken(
    grid: &Grid,
    colour: Colour,
    border: bool,
    from: Point,
    end: Point,
    blocked: Set<Point>,
    prefix: Seq<Point>,
    around: Seq<Point>,
    j: int,
    results: Seq<Vec<Point>>,
    sub: Seq<Vec<Point>>,
)
    requires
        from != end,
        0 <= j < around.len(),
        around.no_duplicates(),
        forall|a: int, b: int|
            0 <= a < b < around.len() ==> from.step_rank(#[trigger] around[a]) < from.step_rank(
                #[trigger] around[b],
            ),
        from.adjacent(around[j]),
        grid.may_step(colour, border, blocked.insert(from), around[j]),
        lists_trails_through(grid, colour, border, from, end, blocked, prefix, around, j, results),
        grid.lists_trails(
            colour,
            border,
            around[j],
            end,
            blocked.insert(from),
            prefix.push(around[j]),
            sub,
        ),
    ensures
        lists_trails_through(
            grid,
            colour,
            border,
            from,
            end,
            blocked,
            prefix,
            around,
            j + 1,
            results + sub,
        ),
{
    lemma_step_keeps_trails(grid, colour, border, from, end, blocked, prefix, around, j, results, sub);
    lemma_step_keeps_all(grid, colour, border, from, end, blocked, prefix, around, j, results, sub);
    assert forall|k: int| 0 <= k < sub.len() implies (#[trigger] sub[k])@.len() > prefix.len()
        && sub[k]@[prefix.len() as int] == around[j] by {
        lemma_found_is_trail(grid, colour, border, from, end, blocked, prefix, around[j], sub[k]@);
    }
    lemma_step_keeps_apart(prefix, around, j, results, sub);
    lemma_step_keeps_order(from, prefix, around, j, results, sub);
}

/// All simple paths of `colour` from `current` to `end` over empty cells and
/// cells of that colour, each behind what `path` holds, in the order in which
/// a search finds them that tries the neighbours of each square in the order
/// left, right, top, bottom. A path stops when it first arrives at `end`.
/// The squares in `visited` are closed to the paths; `visited` and `path` are
/// the same after the call as before it.
pub fn find_paths(
    grid: &Grid,
    current: Point,
    end: Point,
    colour: Colour,
    visited: &mut PointSet,
    path: &mut Vec<Point>,
) -> (results: Vec<Vec<Point>>)
    requires
        grid.wf(),
        grid.in_bounds(current),
        old(visited).wf(),
        old(visited).cols() == grid.width,
        old(visited).lines() == grid.height,
        !old(visited)@.contains(current),
    ensures
        final(visited).wf(),
        final(visited).cols() == grid.width,
        final(visited).lines() == grid.height,
        final(visited)@ == old(visited)@,
        final(path)@ == old(path)@,
        grid.lists_trails(colour, false, current, end, old(visited)@, old(path)@, results@),
{
    trails(grid, current, end, colour, false, visited, path)
}

} // verus!
