//! What a model of the formula of a puzzle says about the board that is read
//! from it: the endpoints stand where they stood, and the two endpoints of
//! every colour are joined.

use crate::board::{Cell, Colour, Endpoints, Grid, Point};
use crate::point_set::{board_points, lemma_board_points_finite};
use crate::sat::{
    concat_upto, consistent, exactly_one, lemma_exactly_one, lemma_satisfies_both,
    lemma_satisfies_part, recoloured, satisfied, satisfies, Layout,
};
use vstd::prelude::*;

verus! {

/// Whether `entries` lists the endpoints of `table`, colour by colour in the
/// order of colours.
pub open spec fn lists(table: Endpoints, entries: Seq<(Colour, Point, Point)>) -> bool {
    &&& forall|k: int|
        0 <= k < entries.len() ==> table.pair((#[trigger] entries[k]).0) == Some(
            (entries[k].1, entries[k].2),
        )
    &&& forall|i: int, j: int|
        0 <= i < j < entries.len() ==> (#[trigger] entries[i]).0.tag() < (
        #[trigger] entries[j]).0.tag()
    &&& forall|c: Colour| #[trigger]
        table@.dom().contains(c) ==> exists|k: int|
            0 <= k < entries.len() && (#[trigger] entries[k]).0 == c
}

/// Whether `model` is a model of the formula of the puzzle on `grid`.
pub open spec fn models(
    layout: Layout,
    grid: &Grid,
    table: Endpoints,
    entries: Seq<(Colour, Point, Point)>,
    model: Seq<int>,
) -> bool {
    &&& grid.wf()
    &&& layout.width == grid.width
    &&& layout.height == grid.height
    &&& layout.colours == entries.len()
    &&& grid.endpoints_are(table)
    &&& lists(table, entries)
    &&& consistent(model)
    &&& satisfies(layout.encoding(grid.endpoint_squares(), entries), model)
}

/// Whether `model` gives `p` the colour at position `k`.
pub open spec fn tinted(layout: Layout, model: Seq<int>, p: Point, k: int) -> bool {
    model.contains(layout.colour_var(p, k))
}

/// A model of the clauses of all squares is a model of the clauses of each.
proof fn lemma_cell_part(
    layout: Layout,
    per_cell: spec_fn(Point) -> Seq<Seq<int>>,
    p: Point,
    model: Seq<int>,
)
    requires
        layout.holds(p),
        satisfies(layout.over_board(per_cell), model),
    ensures
        satisfies(per_cell(p), model),
{
    lemma_satisfies_part(layout.over_rows(per_cell), layout.height as int, p.y as int, model);
    lemma_satisfies_part(
        Layout::along_row(per_cell, p.y as int),
        layout.width as int,
        p.x as int,
        model,
    );
    assert(Layout::point(p.x as int, p.y as int) == p);
}

/// A model of the formula is a model of each of its four parts.
proof fn lemma_parts(
    layout: Layout,
    ends: Set<Point>,
    entries: Seq<(Colour, Point, Point)>,
    model: Seq<int>,
)
    requires
        satisfies(layout.encoding(ends, entries), model),
    ensures
        satisfies(layout.over_board(layout.one_colour()), model),
        satisfies(concat_upto(layout.fixed_ends(entries), layout.colours as int), model),
        satisfies(layout.over_board(layout.one_turn(ends)), model),
        satisfies(layout.over_board(layout.follow_turn(ends)), model),
{
    let a = layout.over_board(layout.one_colour());
    let b = concat_upto(layout.fixed_ends(entries), layout.colours as int);
    let c = layout.over_board(layout.one_turn(ends));
    let d = layout.over_board(layout.follow_turn(ends));
    lemma_satisfies_both(a + b + c, d, model);
    lemma_satisfies_both(a + b, c, model);
    lemma_satisfies_both(a, b, model);
}

/// Under a model every square has exactly one colour.
proof fn lemma_one_colour(
    layout: Layout,
    ends: Set<Point>,
    entries: Seq<(Colour, Point, Point)>,
    model: Seq<int>,
    p: Point,
)
    requires
        layout.holds(p),
        consistent(model),
        satisfies(layout.encoding(ends, entries), model),
    ensures
        exists|i: int| 0 <= i < layout.colours && #[trigger] tinted(layout, model, p, i),
        forall|i: int, j: int|
            0 <= i < layout.colours && 0 <= j < layout.colours && i != j ==> !(#[trigger] tinted(
                layout,
                model,
                p,
                i,
            ) && #[trigger] tinted(layout, model, p, j)),
{
    lemma_parts(layout, ends, entries, model);
    lemma_cell_part(layout, layout.one_colour(), p, model);
    let lits = layout.colour_lits(p);
    lemma_exactly_one(lits, model);
    let i = choose|i: int| 0 <= i < lits.len() && model.contains(#[trigger] lits[i]);
    assert(tinted(layout, model, p, i));
    assert forall|i: int, j: int|
        0 <= i < layout.colours && 0 <= j < layout.colours && i != j implies !(#[trigger] tinted(
        layout,
        model,
        p,
        i,
    ) && #[trigger] tinted(layout, model, p, j)) by {
        assert(lits[i] == layout.colour_var(p, i));
        assert(lits[j] == layout.colour_var(p, j));
        if i < j {
            assert(!(model.contains(lits[i]) && model.contains(lits[j])));
        } else {
            assert(!(model.contains(lits[j]) && model.contains(lits[i])));
        }
    }
}

/// Under a model each endpoint of the colour at position `k` has that colour,
/// and exactly one of its neighbours has it.
proof fn lemma_fixed_end(
    layout: Layout,
    ends: Set<Point>,
    entries: Seq<(Colour, Point, Point)>,
    model: Seq<int>,
    k: int,
    p: Point,
)
    requires
        0 <= k < layout.colours,
        layout.colours == entries.len(),
        p == entries[k].1 || p == entries[k].2,
        consistent(model),
        satisfies(layout.encoding(ends, entries), model),
    ensures
        tinted(layout, model, p, k),
        exists|q: Point|
            p.neighbours_on(layout.width as int, layout.height as int).contains(q)
                && #[trigger] tinted(layout, model, q, k),
        forall|q: Point, r: Point|
            p.neighbours_on(layout.width as int, layout.height as int).contains(q)
                && p.neighbours_on(layout.width as int, layout.height as int).contains(r) && q != r
                ==> !(#[trigger] tinted(layout, model, q, k) && #[trigger] tinted(
                layout,
                model,
                r,
                k,
            )),
{
    let a = entries[k].1;
    let b = entries[k].2;
    let around = p.neighbours_on(layout.width as int, layout.height as int);
    lemma_parts(layout, ends, entries, model);
    lemma_satisfies_part(layout.fixed_ends(entries), layout.colours as int, k, model);
    let units = seq![seq![layout.colour_var(a, k)], seq![layout.colour_var(b, k)]];
    let others = concat_upto(layout.not_other(a, b, k), layout.colours as int);
    let near_a = exactly_one(layout.near_lits(a, k));
    let near_b = exactly_one(layout.near_lits(b, k));
    assert(layout.pair_part(a, b, k) == units + others + near_a + near_b);
    lemma_satisfies_both(units + others + near_a, near_b, model);
    lemma_satisfies_both(units + others, near_a, model);
    lemma_satisfies_both(units, others, model);
    assert(satisfied(units[0], model));
    assert(satisfied(units[1], model));
    assert(units[0][0] == layout.colour_var(a, k));
    assert(units[1][0] == layout.colour_var(b, k));
    let lits = layout.near_lits(p, k);
    lemma_exactly_one(lits, model);
    let i = choose|i: int| 0 <= i < lits.len() && model.contains(#[trigger] lits[i]);
    assert(lits[i] == layout.colour_var(around[i], k));
    assert(around.contains(around[i]) && tinted(layout, model, around[i], k));
    assert forall|q: Point, r: Point|
        around.contains(q) && around.contains(r) && q != r implies !(#[trigger] tinted(
        layout,
        model,
        q,
        k,
    ) && #[trigger] tinted(layout, model, r, k)) by {
        let i = choose|i: int| 0 <= i < around.len() && around[i] == q;
        let j = choose|j: int| 0 <= j < around.len() && around[j] == r;
        assert(lits[i] == layout.colour_var(around[i], k));
        assert(lits[j] == layout.colour_var(around[j], k));
        if i < j {
            assert(!(model.contains(lits[i]) && model.contains(lits[j])));
        } else {
            assert(!(model.contains(lits[j]) && model.contains(lits[i])));
        }
    }
}

/// Every turn variable offered for a square belongs to a way that the board
/// allows there.
proof fn lemma_turn_lits(layout: Layout, p: Point, t: int, i: int)
    requires
        0 <= t <= 6,
        0 <= i < layout.turn_lits(p, t).len(),
    ensures
        exists|way: int|
            0 <= way < t && layout.turn_ends(p, way) is Some && layout.turn_lits(p, t)[i]
                == #[trigger] layout.turn_var(p, way),
    decreases t,
{
    if layout.turn_ends(p, t - 1) is Some {
        if i == layout.turn_lits(p, t - 1).len() {
            assert(layout.turn_lits(p, t)[i] == layout.turn_var(p, t - 1));
        } else {
            lemma_turn_lits(layout, p, t - 1, i);
            let way = choose|way: int|
                0 <= way < t - 1 && layout.turn_ends(p, way) is Some && layout.turn_lits(
                    p,
                    t - 1,
                )[i] == #[trigger] layout.turn_var(p, way);
            assert(layout.turn_lits(p, t)[i] == layout.turn_var(p, way));
        }
    } else {
        lemma_turn_lits(layout, p, t - 1, i);
        let way = choose|way: int|
            0 <= way < t - 1 && layout.turn_ends(p, way) is Some && layout.turn_lits(p, t - 1)[i]
                == #[trigger] layout.turn_var(p, way);
        assert(layout.turn_lits(p, t)[i] == layout.turn_var(p, way));
    }
}

/// Under a model every square without an endpoint has a way that the board
/// allows there.
proof fn lemma_has_turn(
    layout: Layout,
    ends: Set<Point>,
    entries: Seq<(Colour, Point, Point)>,
    model: Seq<int>,
    p: Point,
)
    requires
        layout.holds(p),
        !ends.contains(p),
        consistent(model),
        satisfies(layout.encoding(ends, entries), model),
    ensures
        exists|way: int|
            0 <= way < 6 && layout.turn_ends(p, way) is Some && model.contains(
                #[trigger] layout.turn_var(p, way),
            ),
{
    lemma_parts(layout, ends, entries, model);
    lemma_cell_part(layout, layout.one_turn(ends), p, model);
    let lits = layout.turn_lits(p, 6);
    lemma_exactly_one(lits, model);
    let i = choose|i: int| 0 <= i < lits.len() && model.contains(#[trigger] lits[i]);
    lemma_turn_lits(layout, p, 6, i);
}

/// Under a model a square without an endpoint that has the colour at position
/// `i` and the way `way` shares the colour with the two neighbours that the
/// way joins, and with no other neighbour.
proof fn lemma_turn(
    layout: Layout,
    ends: Set<Point>,
    entries: Seq<(Colour, Point, Point)>,
    model: Seq<int>,
    p: Point,
    i: int,
    way: int,
    a: Point,
    b: Point,
)
    requires
        layout.holds(p),
        !ends.contains(p),
        0 <= i < layout.colours,
        0 <= way < 6,
        layout.turn_ends(p, way) == Some((a, b)),
        consistent(model),
        satisfies(layout.encoding(ends, entries), model),
        model.contains(layout.turn_var(p, way)),
        tinted(layout, model, p, i),
    ensures
        tinted(layout, model, a, i),
        tinted(layout, model, b, i),
        forall|q: Point|
            p.neighbours_on(layout.width as int, layout.height as int).contains(q) && q != a && q
                != b ==> !#[trigger] tinted(layout, model, q, i),
{
    let around = p.neighbours_on(layout.width as int, layout.height as int);
    lemma_parts(layout, ends, entries, model);
    lemma_cell_part(layout, layout.follow_turn(ends), p, model);
    lemma_satisfies_part(layout.colours_of(p), layout.colours as int, i, model);
    lemma_satisfies_part(layout.turns_of(p, i), 6, way, model);
    let turn = layout.turn_var(p, way);
    let here = layout.colour_var(p, i);
    let four = seq![
        seq![-turn, -here, layout.colour_var(a, i)],
        seq![-turn, here, -layout.colour_var(a, i)],
        seq![-turn, -here, layout.colour_var(b, i)],
        seq![-turn, here, -layout.colour_var(b, i)],
    ];
    let apart = concat_upto(layout.keep_apart(p, i, way, a, b), around.len() as int);
    assert(layout.turn_part(p, i, way) == four + apart);
    lemma_satisfies_both(four, apart, model);
    assert(!model.contains(-turn)) by {
        assert(!(model.contains(turn) && model.contains(-turn)));
    }
    assert(!model.contains(-here)) by {
        assert(!(model.contains(here) && model.contains(-here)));
    }
    assert(tinted(layout, model, a, i)) by {
        let clause = four[0];
        assert(satisfied(clause, model));
        let n = choose|n: int| 0 <= n < clause.len() && model.contains(#[trigger] clause[n]);
        assert(n == 2);
    }
    assert(tinted(layout, model, b, i)) by {
        let clause = four[2];
        assert(satisfied(clause, model));
        let n = choose|n: int| 0 <= n < clause.len() && model.contains(#[trigger] clause[n]);
        assert(n == 2);
    }
    assert forall|q: Point| around.contains(q) && q != a && q != b implies !#[trigger] tinted(
        layout,
        model,
        q,
        i,
    ) by {
        let j = choose|j: int| 0 <= j < around.len() && around[j] == q;
        lemma_satisfies_part(layout.keep_apart(p, i, way, a, b), around.len() as int, j, model);
        let part = layout.keep_apart(p, i, way, a, b)(j);
        let clause = seq![-turn, -here, -layout.colour_var(q, i)];
        assert(part == seq![clause]);
        assert(satisfied(part[0], model));
        let n = choose|n: int| 0 <= n < clause.len() && model.contains(#[trigger] clause[n]);
        assert(n == 2);
        assert(!(model.contains(layout.colour_var(q, i)) && model.contains(
            -layout.colour_var(q, i),
        )));
    }
}

/// Whether `board` is what `model`, a model of the formula of the puzzle on
/// `grid`, reads as.
pub open spec fn read_from(
    layout: Layout,
    grid: &Grid,
    table: Endpoints,
    entries: Seq<(Colour, Point, Point)>,
    model: Seq<int>,
    board: &Grid,
) -> bool {
    &&& models(layout, grid, table, entries, model)
    &&& layout.decodes(grid, entries, model, Some(*board))
}

/// On the board read from a model, a square has the colour at position `k`
/// exactly if the model gives it that colour, and holds an endpoint exactly
/// if it held one before.
proof fn lemma_board_colours(
    layout: Layout,
    grid: &Grid,
    table: Endpoints,
    entries: Seq<(Colour, Point, Point)>,
    model: Seq<int>,
    board: &Grid,
    p: Point,
)
    requires
        read_from(layout, grid, table, entries, model, board),
        grid.in_bounds(p),
    ensures
        board.in_bounds(p),
        board.at(p) is Endpoint == grid.at(p) is Endpoint,
        !(board.at(p) is Empty),
        forall|k: int|
            0 <= k < entries.len() ==> (board.at(p).tint() == Some((#[trigger] entries[k]).0))
                == tinted(layout, model, p, k),
{
    let ends = grid.endpoint_squares();
    let i = choose|i: int| #[trigger]
        layout.picks_colour(model, p, i) && board.at(p) == recoloured(grid.at(p), entries[i].0);
    lemma_one_colour(layout, ends, entries, model, p);
    assert(tinted(layout, model, p, i));
    assert forall|k: int| 0 <= k < entries.len() implies (board.at(p).tint() == Some(
        (#[trigger] entries[k]).0,
    )) == tinted(layout, model, p, k) by {
        if k != i {
            assert(!(tinted(layout, model, p, k) && tinted(layout, model, p, i)));
            if k < i {
                assert(entries[k].0.tag() < entries[i].0.tag());
            } else {
                assert(entries[i].0.tag() < entries[k].0.tag());
            }
        }
    }
}

/// An endpoint of the board before has, under a model, the colour of its
/// pair.
proof fn lemma_endpoint_colour(
    layout: Layout,
    grid: &Grid,
    table: Endpoints,
    entries: Seq<(Colour, Point, Point)>,
    model: Seq<int>,
    p: Point,
    colour: Colour,
)
    requires
        models(layout, grid, table, entries, model),
        grid.is_endpoint_of(colour, p),
    ensures
        exists|k: int|
            0 <= k < entries.len() && (#[trigger] entries[k]).0 == colour && (p == entries[k].1
                || p == entries[k].2) && tinted(layout, model, p, k),
{
    match table.pair(colour) {
        Some((a, b)) => {
            assert(grid.has_pair(colour, a, b));
            let k = choose|k: int| 0 <= k < entries.len() && (#[trigger] entries[k]).0 == colour;
            assert(table.pair(entries[k].0) == Some((entries[k].1, entries[k].2)));
            lemma_fixed_end(layout, grid.endpoint_squares(), entries, model, k, p);
        },
        None => {
            assert(grid.lacks(colour));
        },
    }
}

/// The board read from a model has the endpoints of the board before, and no
/// others.
pub proof fn lemma_model_keeps_endpoints(
    layout: Layout,
    grid: &Grid,
    table: Endpoints,
    entries: Seq<(Colour, Point, Point)>,
    model: Seq<int>,
    board: &Grid,
)
    requires
        read_from(layout, grid, table, entries, model, board),
    ensures
        forall|c: Colour, p: Point| board.is_endpoint_of(c, p) == grid.is_endpoint_of(c, p),
        board.endpoints_are(table),
{
    assert forall|c: Colour, p: Point| board.is_endpoint_of(c, p) == grid.is_endpoint_of(
        c,
        p,
    ) by {
        if grid.in_bounds(p) {
            lemma_board_colours(layout, grid, table, entries, model, board, p);
            if grid.at(p) is Endpoint {
                let held = grid.at(p)->Endpoint_colour;
                assert(grid.is_endpoint_of(held, p));
                lemma_endpoint_colour(layout, grid, table, entries, model, p, held);
                let k = choose|k: int|
                    0 <= k < entries.len() && (#[trigger] entries[k]).0 == held && (p
                        == entries[k].1 || p == entries[k].2) && tinted(layout, model, p, k);
                assert(board.at(p).tint() == Some(entries[k].0));
            }
        }
    }
    assert forall|c: Colour|
        match #[trigger] table.pair(c) {
            Some((a, b)) => board.has_pair(c, a, b),
            None => board.lacks(c),
        } by {
        match table.pair(c) {
            Some((a, b)) => {
                assert(grid.has_pair(c, a, b));
            },
            None => {
                assert(grid.lacks(c));
            },
        }
    }
}

/// The two neighbours that a way joins are two different neighbours.
proof fn lemma_turn_ends(layout: Layout, p: Point, way: int, a: Point, b: Point)
    requires
        layout.holds(p),
        0 <= way < 6,
        layout.turn_ends(p, way) == Some((a, b)),
    ensures
        layout.holds(a),
        layout.holds(b),
        p.adjacent(a),
        p.adjacent(b),
        a != b,
        a != p,
        b != p,
{
}

/// Whether `path` is a thread of the colour at position `k` from `a`: a path
/// without repetition over squares to which the model gives that colour,
/// none of them but the first and the last an endpoint.
spec fn is_thread(
    layout: Layout,
    grid: &Grid,
    model: Seq<int>,
    k: int,
    a: Point,
    path: Seq<Point>,
) -> bool {
    &&& path.len() >= 2
    &&& path[0] == a
    &&& forall|i: int|
        0 <= i < path.len() ==> layout.holds(#[trigger] path[i]) && tinted(
            layout,
            model,
            path[i],
            k,
        )
    &&& forall|i: int| 0 < i < path.len() ==> path[i - 1].adjacent(#[trigger] path[i])
    &&& path.no_duplicates()
    &&& forall|i: int| 0 < i < path.len() - 1 ==> !(grid.at(#[trigger] path[i]) is Endpoint)
}

/// The squares of the board that are not on `path`.
spec fn off_thread(layout: Layout, path: Seq<Point>) -> Set<Point> {
    board_points(layout.width as int, layout.height as int).difference(path.to_set())
}

/// A thread that has not arrived at the second endpoint can be followed one
/// square further.
proof fn lemma_thread_grows(
    layout: Layout,
    grid: &Grid,
    table: Endpoints,
    entries: Seq<(Colour, Point, Point)>,
    model: Seq<int>,
    k: int,
    path: Seq<Point>,
) -> (next: Point)
    requires
        models(layout, grid, table, entries, model),
        0 <= k < entries.len(),
        is_thread(layout, grid, model, k, entries[k].1, path),
        !(grid.at(path.last()) is Endpoint),
    ensures
        is_thread(layout, grid, model, k, entries[k].1, path.push(next)),
        !path.contains(next),
{
    let ends = grid.endpoint_squares();
    let a = entries[k].1;
    let n = path.len() as int;
    let last = path[n - 1];
    let prev = path[n - 2];
    assert(layout.holds(last) && tinted(layout, model, last, k));
    assert(layout.holds(prev) && tinted(layout, model, prev, k));
    assert(prev.adjacent(last));
    lemma_has_turn(layout, ends, entries, model, last);
    let way = choose|way: int|
        0 <= way < 6 && layout.turn_ends(last, way) is Some && model.contains(
            #[trigger] layout.turn_var(last, way),
        );
    let (q1, q2) = layout.turn_ends(last, way)->Some_0;
    lemma_turn_ends(layout, last, way, q1, q2);
    lemma_turn(layout, ends, entries, model, last, k, way, q1, q2);
    last.lemma_neighbours(layout.width as int, layout.height as int);
    assert(last.neighbours_on(layout.width as int, layout.height as int).contains(prev));
    assert(prev == q1 || prev == q2);
    let next = if prev == q1 {
        q2
    } else {
        q1
    };
    assert(!path.contains(next)) by {
        if path.contains(next) {
            let j = choose|j: int| 0 <= j < path.len() && path[j] == next;
            assert(j != n - 1);
            assert(j != n - 2);
            if j == 0 {
                assert(table.pair(entries[k].0) == Some((entries[k].1, entries[k].2)));
                lemma_fixed_end(layout, ends, entries, model, k, a);
                a.lemma_neighbours(layout.width as int, layout.height as int);
                let around = a.neighbours_on(layout.width as int, layout.height as int);
                assert(path[0].adjacent(path[1]));
                assert(layout.holds(path[1]) && tinted(layout, model, path[1], k));
                assert(around.contains(path[1]));
                assert(around.contains(last));
                assert(!(tinted(layout, model, path[1], k) && tinted(layout, model, last, k)));
            } else {
                let mid = path[j];
                assert(!(grid.at(path[j]) is Endpoint));
                assert(layout.holds(mid) && tinted(layout, model, mid, k));
                lemma_has_turn(layout, ends, entries, model, mid);
                let turn = choose|turn: int|
                    0 <= turn < 6 && layout.turn_ends(mid, turn) is Some && model.contains(
                        #[trigger] layout.turn_var(mid, turn),
                    );
                let (r1, r2) = layout.turn_ends(mid, turn)->Some_0;
                lemma_turn_ends(layout, mid, turn, r1, r2);
                lemma_turn(layout, ends, entries, model, mid, k, turn, r1, r2);
                mid.lemma_neighbours(layout.width as int, layout.height as int);
                let around = mid.neighbours_on(layout.width as int, layout.height as int);
                let before = path[j - 1];
                let after = path[j + 1];
                assert(before.adjacent(mid));
                assert(mid.adjacent(after));
                assert(layout.holds(before) && tinted(layout, model, before, k));
                assert(layout.holds(after) && tinted(layout, model, after, k));
                assert(around.contains(before));
                assert(around.contains(after));
                assert(around.contains(last));
                assert(before != after);
                assert(last == r1 || last == r2);
                assert(before == r1 || before == r2);
                assert(after == r1 || after == r2);
                assert(last == before || last == after);
            }
        }
    }
    let longer = path.push(next);
    assert forall|i: int| 0 <= i < longer.len() implies layout.holds(#[trigger] longer[i])
        && tinted(layout, model, longer[i], k) by {
        if i < n {
            assert(longer[i] == path[i]);
        }
    }
    assert forall|i: int| 0 < i < longer.len() implies longer[i - 1].adjacent(
        #[trigger] longer[i],
    ) by {
        if i < n {
            assert(longer[i] == path[i]);
            assert(longer[i - 1] == path[i - 1]);
        }
    }
    assert forall|i: int, j: int| 0 <= i < longer.len() && 0 <= j < longer.len() && i != j
        implies longer[i] != longer[j] by {
        if i < n && j < n {
            assert(path[i] != path[j]);
        } else if i < n {
            assert(path.contains(path[i]));
        } else {
            assert(path.contains(path[j]));
        }
    }
    assert forall|i: int| 0 < i < longer.len() - 1 implies !(grid.at(
        #[trigger] longer[i],
    ) is Endpoint) by {
        assert(longer[i] == path[i]);
        if i < n - 1 {
            assert(!(grid.at(path[i]) is Endpoint));
        }
    }
    next
}

/// A thread from the first endpoint of a colour leads to the second.
proof fn lemma_thread_arrives(
    layout: Layout,
    grid: &Grid,
    table: Endpoints,
    entries: Seq<(Colour, Point, Point)>,
    model: Seq<int>,
    board: &Grid,
    k: int,
    path: Seq<Point>,
)
    requires
        read_from(layout, grid, table, entries, model, board),
        0 <= k < entries.len(),
        is_thread(layout, grid, model, k, entries[k].1, path),
    ensures
        board.reaches(Some(entries[k].0), entries[k].1, entries[k].2),
    decreases off_thread(layout, path).len(),
{
    let a = entries[k].1;
    let b = entries[k].2;
    let colour = entries[k].0;
    let last = path.last();
    assert(layout.holds(last) && tinted(layout, model, last, k));
    if grid.at(last) is Endpoint {
        let held = grid.at(last)->Endpoint_colour;
        assert(grid.is_endpoint_of(held, last));
        lemma_endpoint_colour(layout, grid, table, entries, model, last, held);
        let j = choose|j: int|
            0 <= j < entries.len() && (#[trigger] entries[j]).0 == held && (last == entries[j].1
                || last == entries[j].2) && tinted(layout, model, last, j);
        lemma_one_colour(layout, grid.endpoint_squares(), entries, model, last);
        if j != k {
            assert(!(tinted(layout, model, last, j) && tinted(layout, model, last, k)));
        }
        assert(last == a || last == b);
        assert(path[0] == a);
        assert(last == b);
        assert forall|i: int| 0 <= i < path.len() implies board.in_bounds(#[trigger] path[i]) by {
            assert(layout.holds(path[i]));
        }
        assert forall|i: int| 0 < i < path.len() implies path[i - 1].adjacent(#[trigger] path[i])
            && board.open_to(Some(colour), path[i]) by {
            assert(layout.holds(path[i]) && tinted(layout, model, path[i], k));
            lemma_board_colours(layout, grid, table, entries, model, board, path[i]);
            assert(board.at(path[i]).tint() == Some(entries[k].0));
        }
        assert(board.is_walk(Some(colour), path));
    } else {
        let next = lemma_thread_grows(layout, grid, table, entries, model, k, path);
        let longer = path.push(next);
        assert(layout.holds(longer[path.len() as int]));
        lemma_board_points_finite(layout.width as int, layout.height as int);
        vstd::set_lib::lemma_set_subset_finite(
            board_points(layout.width as int, layout.height as int),
            off_thread(layout, path),
        );
        assert(off_thread(layout, path).contains(next)) by {
            assert(!path.to_set().contains(next));
        }
        assert(off_thread(layout, longer) =~= off_thread(layout, path).remove(next)) by {
            assert forall|q: Point| longer.to_set().contains(q) <==> (path.to_set().contains(q)
                || q == next) by {
                if path.contains(q) {
                    let i = choose|i: int| 0 <= i < path.len() && path[i] == q;
                    assert(longer[i] == q);
                }
                if q == next {
                    assert(longer[path.len() as int] == q);
                }
                if longer.contains(q) {
                    let i = choose|i: int| 0 <= i < longer.len() && longer[i] == q;
                    if i < path.len() {
                        assert(path[i] == q);
                    }
                }
            }
        }
        lemma_thread_arrives(layout, grid, table, entries, model, board, k, longer);
    }
}

/// The board read from a model of the formula of a puzzle is solved, and has
/// the endpoints of the puzzle.
pub proof fn lemma_model_solves(
    layout: Layout,
    grid: &Grid,
    table: Endpoints,
    entries: Seq<(Colour, Point, Point)>,
    model: Seq<int>,
    board: &Grid,
)
    requires
        read_from(layout, grid, table, entries, model, board),
    ensures
        board.solved(table),
        board.endpoints_are(table),
{
    let ends = grid.endpoint_squares();
    lemma_model_keeps_endpoints(layout, grid, table, entries, model, board);
    assert forall|p: Point| board.in_bounds(p) implies !(#[trigger] board.at(p) is Empty) by {
        lemma_board_colours(layout, grid, table, entries, model, board, p);
    }
    assert forall|c: Colour| #[trigger] table@.dom().contains(c) implies board.reaches(
        Some(c),
        table@[c].0,
        table@[c].1,
    ) by {
        let k = choose|k: int| 0 <= k < entries.len() && (#[trigger] entries[k]).0 == c;
        assert(table.pair(entries[k].0) == Some((entries[k].1, entries[k].2)));
        let a = entries[k].1;
        assert(grid.has_pair(c, a, entries[k].2));
        lemma_fixed_end(layout, ends, entries, model, k, a);
        let around = a.neighbours_on(layout.width as int, layout.height as int);
        let q = choose|q: Point| around.contains(q) && #[trigger] tinted(layout, model, q, k);
        a.lemma_neighbours(layout.width as int, layout.height as int);
        let path = seq![a, q];
        assert(is_thread(layout, grid, model, k, a, path));
        lemma_thread_arrives(layout, grid, table, entries, model, board, k, path);
    }
}

} // verus!
